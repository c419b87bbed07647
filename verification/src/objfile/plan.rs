use crate::assembly::block::views;
use crate::assembly::function::Function;
use crate::elf::constants::SHT_SYMTAB;
use crate::elf::file::ElfFile;
use crate::elf::section::{has_symbol_named, first_named, lemma_first_named};
use crate::objfile::{ObjFileError, PrevLocs, SectionCopyData, FixupFailure, fails_as};
use crate::utils::text::{str_eq, decimal, usize_to_string};
use vstd::prelude::*;
use vstd::string::StringExecFns;

verus! {

/// The planning of a fix-up as it goes through the blocks: where each section's contents
/// have got to, the assembly written so far, and the pieces to copy back (section,
/// placeholder name, position, size, block description).
pub struct PlanModel {
    pub prev_locs: PrevLocs,
    pub lines: Seq<Seq<char>>,
    pub to_copy: Seq<(Seq<char>, Seq<char>, int, int, Seq<char>)>,
}

/// The value of the first symbol called `name` in the file's symbol table.
pub open spec fn symbol_value(obj: ElfFile, name: Seq<char>) -> Option<u32> {
    if obj.symtab < obj.sections@.len() {
        let st = obj.sections@[obj.symtab as int];
        if st.sh_type == SHT_SYMTAB && has_symbol_named(st.symbols@, name) {
            Some(st.symbols@[first_named(st.symbols@, name)].st_value)
        } else {
            None
        }
    } else {
        None
    }
}

/// Whether contents of a section are copied back.
pub open spec fn is_copied(s: Seq<char>) -> bool {
    s == ".data"@ || s == ".text"@ || s == ".rodata"@ || s == ".bss"@
}

/// The assembly that fills a gap of `gap` bytes in a section: no-ops in `.text`, `.space`
/// elsewhere.
pub open spec fn gap_lines(sectype: Seq<char>, gap: int) -> Seq<Seq<char>> {
    seq![".section "@ + sectype] + if sectype == ".text"@ {
        Seq::new((gap / 4) as nat, |i: int| "nop"@)
    } else {
        seq![".space "@ + decimal(gap as nat)]
    }
}

/// One placeholder of a block: its section, its name and its size.
pub open spec fn data_entry(f: Function, k: int) -> (Seq<char>, Seq<char>, int) {
    (f.data@[k].0@, f.data@[k].1.0@, f.data@[k].1.1 as int)
}

/// Planning one placeholder of the block described by `desc`. A placeholder of size 0 is
/// skipped. Otherwise the object file's symbol for it gives where its contents start: not
/// before the contents placed so far in its section, with any gap filled; the contents
/// must end within 32 bits.
pub open spec fn entry_step(m: PlanModel, desc: Seq<char>, e: (Seq<char>, Seq<char>, int), obj: ElfFile) -> Result<
    PlanModel,
    FixupFailure,
> {
    let (sectype, temp, size) = e;
    if size == 0 {
        Ok(m)
    } else {
        match symbol_value(obj, temp) {
            None => Err(FixupFailure::Symbol),
            Some(loc) => {
                let prev = m.prev_locs.loc_of(sectype);
                if loc < prev {
                    Err(FixupFailure::Section)
                } else if !is_copied(sectype) {
                    Err(FixupFailure::Section)
                } else if size > u32::MAX || loc + size > u32::MAX {
                    Err(FixupFailure::Conversion)
                } else {
                    Ok(
                        PlanModel {
                            prev_locs: m.prev_locs.with_loc(sectype, (loc + size) as u32),
                            lines: if loc != prev {
                                m.lines + gap_lines(sectype, loc - prev)
                            } else {
                                m.lines
                            },
                            to_copy: m.to_copy.push((sectype, temp, loc as int, size, desc)),
                        },
                    )
                }
            },
        }
    }
}

/// Planning the first `k` placeholders of a block.
pub open spec fn entries_step(m: PlanModel, f: Function, k: int, obj: ElfFile) -> Result<PlanModel, FixupFailure>
    decreases k,
{
    if k <= 0 {
        Ok(m)
    } else {
        match entries_step(m, f, k - 1, obj) {
            Err(e) => Err(e),
            Ok(m1) => entry_step(m1, f.fn_desc@, data_entry(f, k - 1), obj),
        }
    }
}

/// A label line for each placeholder of a block: its section, then `glabel` and its name
/// with `suffix`.
pub open spec fn label_lines(data: Seq<(String, (String, usize))>, suffix: Seq<char>) -> Seq<Seq<char>>
    decreases data.len(),
{
    if data.len() == 0 {
        Seq::empty()
    } else {
        label_lines(data.drop_last(), suffix) + seq![
            ".section "@ + data.last().0@,
            "glabel "@ + data.last().1.0@ + suffix,
        ]
    }
}

/// Planning one block: its placeholders, then its assembly between start and end labels.
pub open spec fn function_step(m: PlanModel, f: Function, obj: ElfFile) -> Result<PlanModel, FixupFailure> {
    match entries_step(m, f, f.data@.len() as int, obj) {
        Err(e) => Err(e),
        Ok(m1) => Ok(
            PlanModel {
                lines: m1.lines + label_lines(f.data@, "_asm_start"@) + seq![".text"@] + views(f.asm_conts@)
                    + label_lines(f.data@, "_asm_end"@),
                ..m1
            },
        ),
    }
}

/// Planning the blocks in order.
pub open spec fn functions_step(m: PlanModel, fs: Seq<Function>, obj: ElfFile) -> Result<PlanModel, FixupFailure>
    decreases fs.len(),
{
    if fs.len() == 0 {
        Ok(m)
    } else {
        match functions_step(m, fs.drop_last(), obj) {
            Err(e) => Err(e),
            Ok(m1) => function_step(m1, fs.last(), obj),
        }
    }
}

/// The `.late_rodata` assembly of the blocks, one after the other.
pub open spec fn late_rodata_of(fs: Seq<Function>) -> Seq<Seq<char>>
    decreases fs.len(),
{
    if fs.len() == 0 {
        Seq::empty()
    } else {
        late_rodata_of(fs.drop_last()) + views(fs.last().late_rodata_asm_conts@)
    }
}

/// The assembly that ends the file: where there is `.late_rodata` assembly, it goes into a
/// section of its own behind a padding word pair, between a start and an end label.
pub open spec fn late_rodata_tail(late: Seq<Seq<char>>) -> Seq<Seq<char>> {
    if late.len() > 0 {
        seq![".section .late_rodata"@, ".word 0, 0"@, "glabel _asmpp_late_rodata_start"@] + late + seq![
            "glabel _asmpp_late_rodata_end"@,
        ]
    } else {
        Seq::empty()
    }
}

/// The start of planning: nothing placed, nothing written.
pub open spec fn plan_start() -> PlanModel {
    PlanModel { prev_locs: PrevLocs { text: 0, data: 0, rodata: 0, bss: 0 }, lines: Seq::empty(), to_copy: Seq::empty() }
}

/// The pieces to copy, as the model sees them.
pub open spec fn copy_views(v: Seq<(String, SectionCopyData)>) -> Seq<(Seq<char>, Seq<char>, int, int, Seq<char>)> {
    v.map_values(
        |e: (String, SectionCopyData)| (e.0@, e.1.temp_name@, e.1.pos as int, e.1.count as int, e.1.fn_desc@),
    )
}

/// What the assembler is given and what is taken back from what it makes: the assembly, the
/// pieces to copy, where each section's contents end, and per block the `.late_rodata`
/// data directives and jump table size.
pub struct FixupPlan {
    pub prev_locs: PrevLocs,
    pub to_copy: Vec<(String, SectionCopyData)>,
    pub lines: Vec<String>,
    pub late_rodata_dummy_bytes: Vec<Vec<String>>,
    pub jtbl_rodata_sizes: Vec<usize>,
    pub has_late_rodata: bool,
}

/// `p` is the plan for the blocks `fs` that the planning `m` ended in.
pub open spec fn plan_matches(p: FixupPlan, m: PlanModel, fs: Seq<Function>) -> bool {
    &&& p.prev_locs == m.prev_locs
    &&& copy_views(p.to_copy@) == m.to_copy
    &&& views(p.lines@) == m.lines + late_rodata_tail(late_rodata_of(fs))
    &&& p.has_late_rodata == (late_rodata_of(fs).len() > 0)
    &&& p.late_rodata_dummy_bytes@.len() == fs.len()
    &&& forall|i: int|
        0 <= i < fs.len() ==> views(#[trigger] p.late_rodata_dummy_bytes@[i]@) == views(
            fs[i].late_rodata_dummy_bytes@,
        )
    &&& p.jtbl_rodata_sizes@.len() == fs.len()
    &&& forall|i: int| 0 <= i < fs.len() ==> #[trigger] p.jtbl_rodata_sizes@[i] == fs[i].jtbl_rodata_size
}

/// The value of the first symbol called `name` in the file's symbol table.
fn symbol_value_of(obj: &ElfFile, name: &str) -> (r: Option<u32>)
    ensures
        r == symbol_value(*obj, name@),
{
    if obj.symtab >= obj.sections.len() {
        return None;
    }
    let st = &obj.sections[obj.symtab];
    match st.find_symbol(name, obj.sections.as_slice()) {
        Ok(v) => Some(v),
        Err(_) => None,
    }
}

/// `prefix` followed by `rest`.
fn concat(prefix: &str, rest: &str) -> (s: String)
    ensures
        s@ == prefix@ + rest@,
{
    let mut s = prefix.to_owned();
    s.append(rest);
    s
}

/// A copy of a list of strings.
fn copy_strings(v: &Vec<String>) -> (r: Vec<String>)
    ensures
        r@ == v@,
{
    let mut r: Vec<String> = Vec::new();
    let mut i: usize = 0;
    while i < v.len()
        invariant
            i <= v@.len(),
            r@ == v@.take(i as int),
        decreases v@.len() - i,
    {
        r.push(v[i].clone());
        assert(r@ =~= v@.take(i + 1));
        i += 1;
    }
    assert(v@.take(i as int) =~= v@);
    r
}

/// Appends copies of the strings of `v` to `out`.
fn push_views(out: &mut Vec<String>, v: &Vec<String>)
    ensures
        views(final(out)@) == views(old(out)@) + views(v@),
{
    let mut i: usize = 0;
    while i < v.len()
        invariant
            i <= v@.len(),
            views(out@) == views(old(out)@) + views(v@.take(i as int)),
        decreases v@.len() - i,
    {
        let ghost before = out@;
        out.push(v[i].clone());
        assert(views(out@) =~= views(before).push(v@[i as int]@));
        assert(views(v@.take(i + 1)) =~= views(v@.take(i as int)).push(v@[i as int]@));
        i += 1;
    }
    assert(v@.take(i as int) =~= v@);
}

/// Appends a string to `out`.
fn push_line(out: &mut Vec<String>, line: String)
    ensures
        views(final(out)@) == views(old(out)@).push(line@),
{
    let ghost before = out@;
    out.push(line);
    assert(views(out@) =~= views(before).push(line@));
}

/// Appends the label lines of a block's placeholders.
fn push_label_lines(out: &mut Vec<String>, data: &Vec<(String, (String, usize))>, suffix: &str)
    ensures
        views(final(out)@) == views(old(out)@) + label_lines(data@, suffix@),
{
    let mut i: usize = 0;
    while i < data.len()
        invariant
            i <= data@.len(),
            views(out@) == views(old(out)@) + label_lines(data@.take(i as int), suffix@),
        decreases data@.len() - i,
    {
        assert(data@.take(i + 1).drop_last() =~= data@.take(i as int));
        let ghost before = views(out@);
        let sec = concat(".section ", data[i].0.as_str());
        push_line(out, sec);
        let mut label = concat("glabel ", data[i].1.0.as_str());
        label.append(suffix);
        push_line(out, label);
        assert(views(out@) =~= views(old(out)@) + label_lines(data@.take(i + 1), suffix@));
        i += 1;
    }
    assert(data@.take(i as int) =~= data@);
}

/// Appends the lines that fill a gap.
fn push_gap_lines(out: &mut Vec<String>, sectype: &str, gap: u32)
    ensures
        views(final(out)@) == views(old(out)@) + gap_lines(sectype@, gap as int),
{
    let ghost before = views(out@);
    push_line(out, concat(".section ", sectype));
    if str_eq(sectype, ".text") {
        let n = gap / 4;
        let mut k: u32 = 0;
        while k < n
            invariant
                k <= n,
                n == gap / 4,
                views(out@) == before.push(".section "@ + sectype@) + Seq::new(k as nat, |i: int| "nop"@),
            decreases n - k,
        {
            let ghost prev = views(out@);
            push_line(out, "nop".to_owned());
            assert(Seq::new((k + 1) as nat, |i: int| "nop"@) =~= Seq::new(k as nat, |i: int| "nop"@).push("nop"@));
            k += 1;
        }
        assert(seq![".section "@ + sectype@] + Seq::new((gap / 4) as nat, |i: int| "nop"@) =~= gap_lines(
            sectype@,
            gap as int,
        ));
        assert(before.push(".section "@ + sectype@) + Seq::new(k as nat, |i: int| "nop"@) =~= before + gap_lines(
            sectype@,
            gap as int,
        ));
    } else {
        let amount = usize_to_string(gap as usize);
        push_line(out, concat(".space ", amount.as_str()));
        assert(views(out@) =~= before + gap_lines(sectype@, gap as int));
    }
}

/// Plans one placeholder, as `entry_step` says.
fn plan_entry(
    prev_locs: &mut PrevLocs,
    lines: &mut Vec<String>,
    to_copy: &mut Vec<(String, SectionCopyData)>,
    desc: &String,
    e: &(String, (String, usize)),
    obj: &ElfFile,
) -> (r: Result<(), ObjFileError>)
    ensures
        match entry_step(
            PlanModel { prev_locs: *old(prev_locs), lines: views(old(lines)@), to_copy: copy_views(old(to_copy)@) },
            desc@,
            (e.0@, e.1.0@, e.1.1 as int),
            *obj,
        ) {
            Err(k) => r matches Err(x) && fails_as(x, k),
            Ok(m) => r is Ok && *final(prev_locs) == m.prev_locs && views(final(lines)@) == m.lines && copy_views(
                final(to_copy)@,
            ) == m.to_copy,
        },
{
    let sectype = &e.0;
    let temp = &e.1.0;
    let size = e.1.1;
    if size == 0 {
        return Ok(());
    }
    let loc = match symbol_value_of(obj, temp.as_str()) {
        Some(v) => v,
        None => {
            return Err(ObjFileError::SymbolError(concat("Symbol not found: ", temp.as_str())));
        },
    };
    let prev = prev_locs.get(sectype.as_str());
    if loc < prev {
        return Err(ObjFileError::SectionError(concat("Incorrectly computed position for section ", sectype.as_str())));
    }
    let copied = str_eq(sectype.as_str(), ".data") || str_eq(sectype.as_str(), ".text") || str_eq(
        sectype.as_str(),
        ".rodata",
    ) || str_eq(sectype.as_str(), ".bss");
    if !copied {
        return Err(ObjFileError::SectionError(concat("Invalid section type: ", sectype.as_str())));
    }
    if size > u32::MAX as usize || size as u32 > u32::MAX - loc {
        return Err(ObjFileError::ConversionError("size conversion failed".to_owned()));
    }
    if loc != prev {
        push_gap_lines(lines, sectype.as_str(), loc - prev);
    }
    let ghost before = to_copy@;
    to_copy.push(
        (
            sectype.clone(),
            SectionCopyData { pos: loc as usize, count: size, temp_name: temp.clone(), fn_desc: desc.clone() },
        ),
    );
    assert(copy_views(to_copy@) =~= copy_views(before).push(
        (sectype@, temp@, loc as int, size as int, desc@),
    ));
    prev_locs.set(sectype.as_str(), loc + size as u32);
    Ok(())
}

/// Plans one block, as `function_step` says.
fn plan_function(
    prev_locs: &mut PrevLocs,
    lines: &mut Vec<String>,
    to_copy: &mut Vec<(String, SectionCopyData)>,
    f: &Function,
    obj: &ElfFile,
) -> (r: Result<(), ObjFileError>)
    ensures
        match function_step(
            PlanModel { prev_locs: *old(prev_locs), lines: views(old(lines)@), to_copy: copy_views(old(to_copy)@) },
            *f,
            *obj,
        ) {
            Err(k) => r matches Err(x) && fails_as(x, k),
            Ok(m) => r is Ok && *final(prev_locs) == m.prev_locs && views(final(lines)@) == m.lines && copy_views(
                final(to_copy)@,
            ) == m.to_copy,
        },
{
    let ghost m0 = PlanModel { prev_locs: *prev_locs, lines: views(lines@), to_copy: copy_views(to_copy@) };
    let mut k: usize = 0;
    while k < f.data.len()
        invariant
            k <= f.data@.len(),
            m0 == (PlanModel {
                prev_locs: *old(prev_locs),
                lines: views(old(lines)@),
                to_copy: copy_views(old(to_copy)@),
            }),
            entries_step(m0, *f, k as int, *obj) == Ok::<PlanModel, FixupFailure>(
                PlanModel { prev_locs: *prev_locs, lines: views(lines@), to_copy: copy_views(to_copy@) },
            ),
        decreases f.data@.len() - k,
    {
        let ghost cur = PlanModel { prev_locs: *prev_locs, lines: views(lines@), to_copy: copy_views(to_copy@) };
        let r = plan_entry(prev_locs, lines, to_copy, &f.fn_desc, &f.data[k], obj);
        match r {
            Err(x) => {
                proof {
                    assert(data_entry(*f, k as int) == (f.data@[k as int].0@, f.data@[k as int].1.0@, f.data@[k as int].1.1 as int));
                    assert(entries_step(m0, *f, k + 1, *obj) == entry_step(cur, f.fn_desc@, data_entry(*f, k as int), *obj));
                    assert(entries_step(m0, *f, k + 1, *obj) is Err);
                    lemma_entries_stop(m0, *f, *obj, k + 1, f.data@.len() as int);
                }
                return Err(x);
            },
            Ok(()) => {},
        }
        k += 1;
    }
    push_label_lines(lines, &f.data, "_asm_start");
    push_line(lines, ".text".to_owned());
    push_views(lines, &f.asm_conts);
    push_label_lines(lines, &f.data, "_asm_end");
    Ok(())
}

/// Once planning a placeholder fails, planning the later ones fails the same way.
proof fn lemma_entries_stop(m: PlanModel, f: Function, obj: ElfFile, j: int, n: int)
    requires
        0 <= j <= n,
        entries_step(m, f, j, obj) is Err,
    ensures
        entries_step(m, f, n, obj) == entries_step(m, f, j, obj),
    decreases n - j,
{
    if j < n {
        lemma_entries_stop(m, f, obj, j, n - 1);
    }
}

/// Once planning a block fails, planning the later ones fails the same way.
proof fn lemma_functions_stop(m: PlanModel, fs: Seq<Function>, obj: ElfFile, j: int)
    requires
        0 <= j <= fs.len(),
        functions_step(m, fs.take(j), obj) is Err,
    ensures
        functions_step(m, fs, obj) == functions_step(m, fs.take(j), obj),
    decreases fs.len() - j,
{
    if j < fs.len() {
        let t = fs.drop_last();
        assert(t.take(j) =~= fs.take(j));
        lemma_functions_stop(m, t, obj, j);
    } else {
        assert(fs.take(j) =~= fs);
    }
}

/// Plans the fix-up of an object file for the blocks `functions`: the assembly of each
/// block between labels, with the gaps between placeholders filled; the pieces of
/// assembled contents to copy back to where the object file's placeholder symbols are; and
/// the `.late_rodata` assembly at the end, as `plan_matches` says. Fails as
/// `functions_step` says.
pub fn plan_fixup(objfile: &ElfFile, functions: &[Function]) -> (r: Result<FixupPlan, ObjFileError>)
    ensures
        match functions_step(plan_start(), functions@, *objfile) {
            Err(k) => r matches Err(x) && fails_as(x, k),
            Ok(m) => r matches Ok(p) && plan_matches(p, m, functions@),
        },
{
    let mut prev_locs = PrevLocs { text: 0, data: 0, rodata: 0, bss: 0 };
    let mut lines: Vec<String> = Vec::new();
    let mut to_copy: Vec<(String, SectionCopyData)> = Vec::new();
    let mut dummies: Vec<Vec<String>> = Vec::new();
    let mut jtbl: Vec<usize> = Vec::new();
    let mut late: Vec<String> = Vec::new();
    let ghost fs = functions@;
    assert(views(lines@) =~= Seq::<Seq<char>>::empty());
    assert(copy_views(to_copy@) =~= Seq::empty());
    let mut i: usize = 0;
    while i < functions.len()
        invariant
            i <= fs.len(),
            fs == functions@,
            functions_step(plan_start(), fs.take(i as int), *objfile) == Ok::<PlanModel, FixupFailure>(
                PlanModel { prev_locs, lines: views(lines@), to_copy: copy_views(to_copy@) },
            ),
            views(late@) == late_rodata_of(fs.take(i as int)),
            dummies@.len() == i,
            forall|j: int| 0 <= j < i ==> views(#[trigger] dummies@[j]@) == views(fs[j].late_rodata_dummy_bytes@),
            jtbl@.len() == i,
            forall|j: int| 0 <= j < i ==> #[trigger] jtbl@[j] == fs[j].jtbl_rodata_size,
        decreases fs.len() - i,
    {
        assert(fs.take(i + 1).drop_last() =~= fs.take(i as int));
        assert(fs.take(i + 1).last() == fs[i as int]);
        let f = &functions[i];
        match plan_function(&mut prev_locs, &mut lines, &mut to_copy, f, objfile) {
            Err(x) => {
                proof {
                    lemma_functions_stop(plan_start(), fs, *objfile, i + 1);
                }
                return Err(x);
            },
            Ok(()) => {},
        }
        dummies.push(copy_strings(&f.late_rodata_dummy_bytes));
        jtbl.push(f.jtbl_rodata_size);
        push_views(&mut late, &f.late_rodata_asm_conts);
        i += 1;
    }
    assert(fs.take(i as int) =~= fs);
    let ghost body = views(lines@);
    let has_late = late.len() > 0;
    if has_late {
        push_line(&mut lines, ".section .late_rodata".to_owned());
        push_line(&mut lines, ".word 0, 0".to_owned());
        push_line(&mut lines, "glabel _asmpp_late_rodata_start".to_owned());
        push_views(&mut lines, &late);
        push_line(&mut lines, "glabel _asmpp_late_rodata_end".to_owned());
        assert(views(lines@) =~= body + late_rodata_tail(late_rodata_of(fs)));
    } else {
        assert(views(lines@) =~= body + late_rodata_tail(late_rodata_of(fs)));
    }
    Ok(
        FixupPlan {
            prev_locs,
            to_copy,
            lines,
            late_rodata_dummy_bytes: dummies,
            jtbl_rodata_sizes: jtbl,
            has_late_rodata: has_late,
        },
    )
}

} // verus!
