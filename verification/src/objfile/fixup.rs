use crate::assembly::block::views;
use crate::assembly::function::Function;
use crate::elf::constants::SHN_XINDEX;
use crate::elf::file::{
    ElfFile,
    file_written,
    layout_fits_u32,
    debug_dropped,
    some_mdebug_move_fails,
};
use crate::elf::format::{u16_at, u32_at};
use crate::elf::section::{ElfSection, Section, symbols_from};
use crate::elf::symbol::Symbol;
use crate::objfile::{
    ObjFileError,
    FixupFailure,
    fails_as,
    process_sections,
    process_symbols,
    process_relocations,
    position_set,
    symbol_in_section,
    has_section,
    first_section,
    lemma_first_section,
    copy_run,
    sections_copied,
    symbols_rewritten,
    relocations_processed,
    rel_targets_ok,
};
use crate::objfile::plan::{FixupPlan, plan_fixup, functions_step, plan_start, plan_matches};
use crate::utils::text::str_eq;
use vstd::prelude::*;
use std::collections::HashSet;
use vstd::slice::slice_subrange;
use vstd::string::StringSliceAdditionalSpecFns;
use vstd::utf8::encode_utf8;

verus! {

/// Whether entry `j` of a symbol table `st` can be read: its name can be looked up in
/// `strtab`, and its section index is not the extended index `SHN_XINDEX`.
pub open spec fn entry_name_ok(st: ElfSection, strtab: ElfSection, j: int) -> bool {
    let off = u32_at(st.fmt.is_big_endian, st.data@, 16 * j) as int;
    &&& strtab.string_at(off) is Some
    &&& u16_at(st.fmt.is_big_endian, st.data@, 16 * j + 14) != SHN_XINDEX
}

/// Whether the symbol table of a file can be read: it exists, names an existing string table,
/// holds whole sixteen-byte entries, and each entry's name can be looked up.
pub open spec fn symtab_readable(obj: ElfFile) -> bool {
    let k = obj.symtab as int;
    let secs = obj.sections@;
    &&& 0 <= k < secs.len()
    &&& secs[k].sh_link < secs.len()
    &&& secs[k].data@.len() % 16 == 0
    &&& forall|j: int|
        0 <= j < secs[k].data@.len() / 16 ==> #[trigger] entry_name_ok(secs[k], secs[secs[k].sh_link as int], j)
}

/// `n` is `o` with its symbol table's entries read into its `symbols`, with names from the
/// string table that it links to.
pub open spec fn symbols_loaded(o: ElfFile, n: ElfFile) -> bool {
    let k = o.symtab as int;
    let st = o.sections@[k];
    &&& symtab_readable(o)
    &&& n.header == o.header
    &&& n.fmt == o.fmt
    &&& n.symtab == o.symtab
    &&& n.sections@ == o.sections@.update(k, ElfSection { symbols: n.sections@[k].symbols, ..st })
    &&& symbols_from(n.sections@[k].symbols@, st.fmt, st.data@, o.sections@[st.sh_link as int])
}

/// Reads the entries of the file's symbol table into its `symbols`, with names from the
/// string table that it links to. Where the table cannot be read, nothing changes.
pub fn load_symbols(objfile: &mut ElfFile) -> (r: Result<(), ObjFileError>)
    ensures
        final(objfile).header == old(objfile).header,
        final(objfile).fmt == old(objfile).fmt,
        final(objfile).symtab == old(objfile).symtab,
        r is Ok <==> symtab_readable(*old(objfile)),
        r is Err ==> final(objfile).sections@ == old(objfile).sections@,
        r is Err ==> (r matches Err(ObjFileError::ElfError(_))),
        r is Ok ==> symbols_loaded(*old(objfile), *final(objfile)),
{
    let k = objfile.symtab;
    if k >= objfile.sections.len() {
        return Err(ObjFileError::ElfError("No symbol table found".to_owned()));
    }
    let link = objfile.sections[k].sh_link as usize;
    if link >= objfile.sections.len() || objfile.sections[k].data.len() % 16 != 0 {
        return Err(ObjFileError::ElfError("Malformed symbol table".to_owned()));
    }
    let ghost secs = objfile.sections@;
    let ghost st = secs[k as int];
    let fmt = objfile.sections[k].fmt;
    let mut syms: Vec<Symbol> = Vec::new();
    let mut off: usize = 0;
    let n = objfile.sections[k].data.len();
    while off < n
        invariant
            secs == objfile.sections@,
            secs == old(objfile).sections@,
            k == old(objfile).symtab,
            objfile.symtab == old(objfile).symtab,
            objfile.header == old(objfile).header,
            objfile.fmt == old(objfile).fmt,
            st == secs[k as int],
            k < secs.len(),
            link == st.sh_link,
            link < secs.len(),
            fmt == st.fmt,
            n == st.data@.len(),
            n % 16 == 0,
            off == 16 * syms@.len(),
            off <= n,
            forall|j: int| 0 <= j < syms@.len() ==> #[trigger] entry_name_ok(st, secs[link as int], j),
            forall|j: int|
                0 <= j < syms@.len() ==> crate::elf::symbol::symbol_parsed_from(
                    #[trigger] syms@[j],
                    st.fmt,
                    st.data@.subrange(16 * j, 16 * j + 16),
                    secs[link as int],
                ),
        decreases n - off,
    {
        let j = syms.len();
        let entry = slice_subrange(objfile.sections[k].data.as_slice(), off, off + 16);
        let ghost jj: int = j as int;
        assert(u32_at(fmt.is_big_endian, entry@, 0) == u32_at(fmt.is_big_endian, st.data@, 16 * jj));
        assert(u16_at(fmt.is_big_endian, entry@, 14) == u16_at(fmt.is_big_endian, st.data@, 16 * jj + 14));
        let strtab = &objfile.sections[link];
        match Symbol::new(&fmt, entry, strtab) {
            Ok(sym) => {
                assert(entry_name_ok(st, secs[link as int], jj));
                syms.push(sym);
            },
            Err(e) => {
                assert(!entry_name_ok(st, secs[link as int], jj));
                assert(0 <= jj < st.data@.len() / 16);
                return Err(ObjFileError::from_error(e));
            },
        }
        off += 16;
    }
    assert(symbols_from(syms@, st.fmt, st.data@, secs[link as int]));
    objfile.sections[k].symbols = syms;
    assert(objfile.sections@ =~= secs.update(
        k as int,
        ElfSection { symbols: objfile.sections@[k as int].symbols, ..st },
    ));
    Ok(())
}

/// The assembly source: the prelude, then each line followed by a line feed.
pub open spec fn source_bytes(prelude: Seq<u8>, lines: Seq<Seq<char>>) -> Seq<u8>
    decreases lines.len(),
{
    if lines.len() == 0 {
        prelude
    } else {
        source_bytes(prelude, lines.drop_last()) + encode_utf8(lines.last()) + seq![10u8]
    }
}

/// The bytes of the assembly file for the assembler: the prelude, then each line followed by
/// a line feed.
pub fn assembly_source(asm_prelude: &[u8], lines: &[String]) -> (out: Vec<u8>)
    ensures
        out@ == source_bytes(asm_prelude@, views(lines@)),
{
    let mut out: Vec<u8> = vstd::slice::slice_to_vec(asm_prelude);
    let mut i: usize = 0;
    while i < lines.len()
        invariant
            i <= lines@.len(),
            out@ == source_bytes(asm_prelude@, views(lines@.take(i as int))),
        decreases lines@.len() - i,
    {
        assert(views(lines@.take(i + 1)).drop_last() =~= views(lines@.take(i as int)));
        assert(views(lines@.take(i + 1)).last() == lines@[i as int]@);
        let bytes = lines[i].as_str().as_bytes();
        let mut j: usize = 0;
        let ghost before = out@;
        while j < bytes.len()
            invariant
                j <= bytes@.len(),
                out@ == before + bytes@.take(j as int),
            decreases bytes@.len() - j,
        {
            out.push(bytes[j]);
            assert(bytes@.take(j + 1) =~= bytes@.take(j as int).push(bytes@[j as int]));
            j += 1;
        }
        assert(bytes@.take(j as int) =~= bytes@);
        out.push(10u8);
        i += 1;
    }
    assert(lines@.take(i as int) =~= lines@);
    out
}

/// `.reginfo` contents merged: the first twenty bytes (the register masks) of the object
/// file's or-ed with those of the assembled file's.
pub open spec fn reginfo_merged(data: Seq<u8>, src: Seq<u8>) -> Seq<u8> {
    Seq::new(data.len(), |i: int| if i < 20 { data[i] | src[i] } else { data[i] })
}

/// Whether both files have a `.reginfo` and one of them is too short to merge.
pub open spec fn reginfo_short(o: ElfFile, assembled: ElfFile) -> bool {
    let secs = o.sections@;
    &&& has_section(secs, ".reginfo"@)
    &&& has_section(assembled.sections@, ".reginfo"@)
    &&& (secs[first_section(secs, ".reginfo"@)].data@.len() < 20 || assembled.sections@[first_section(
        assembled.sections@,
        ".reginfo"@,
    )].data@.len() < 20)
}

/// `n` is `o` with the register masks of `assembled`'s `.reginfo` merged into its own,
/// where both have one.
pub open spec fn reginfo_done(o: ElfFile, n: ElfFile, assembled: ElfFile) -> bool {
    let secs = o.sections@;
    let both = has_section(secs, ".reginfo"@) && has_section(assembled.sections@, ".reginfo"@);
    let t = first_section(secs, ".reginfo"@);
    let src = assembled.sections@[first_section(assembled.sections@, ".reginfo"@)];
    &&& n.header == o.header
    &&& n.fmt == o.fmt
    &&& n.symtab == o.symtab
    &&& !both ==> n.sections@ == secs
    &&& both ==> {
        &&& n.sections@ == secs.update(t, ElfSection { data: n.sections@[t].data, ..secs[t] })
        &&& n.sections@[t].data@ == reginfo_merged(secs[t].data@, src.data@)
    }
}

/// Merging `.reginfo` keeps every register that either file uses and adds none: in each of
/// the first twenty bytes (the register masks) of the merged contents every bit set in the
/// object file's own `.reginfo` is still set, every bit set in the assembled file's is set
/// too, and no other bit is; the bytes after them, and the length, stay the object file's.
pub proof fn lemma_reginfo_masks_merged(o: ElfFile, n: ElfFile, assembled: ElfFile)
    requires
        reginfo_done(o, n, assembled),
        has_section(o.sections@, ".reginfo"@),
        has_section(assembled.sections@, ".reginfo"@),
        !reginfo_short(o, assembled),
    ensures
        ({
            let t = first_section(o.sections@, ".reginfo"@);
            let old_data = o.sections@[t].data@;
            let src = assembled.sections@[first_section(assembled.sections@, ".reginfo"@)].data@;
            let merged = n.sections@[t].data@;
            &&& merged.len() == old_data.len()
            &&& forall|i: int| 0 <= i < 20 ==> (#[trigger] merged[i] & old_data[i]) == old_data[i]
            &&& forall|i: int| 0 <= i < 20 ==> (#[trigger] merged[i] & src[i]) == src[i]
            &&& forall|i: int| 0 <= i < 20 ==> (#[trigger] merged[i] & !(old_data[i] | src[i])) == 0
            &&& forall|i: int| 20 <= i < old_data.len() ==> #[trigger] merged[i] == old_data[i]
        }),
{
    let t = first_section(o.sections@, ".reginfo"@);
    let old_data = o.sections@[t].data@;
    let src = assembled.sections@[first_section(assembled.sections@, ".reginfo"@)].data@;
    let merged = n.sections@[t].data@;
    assert forall|i: int| 0 <= i < 20 implies {
        &&& (#[trigger] merged[i] & old_data[i]) == old_data[i]
        &&& (merged[i] & src[i]) == src[i]
        &&& (merged[i] & !(old_data[i] | src[i])) == 0
    } by {
        let a = old_data[i];
        let b = src[i];
        assert(merged[i] == a | b);
        assert((a | b) & a == a) by (bit_vector);
        assert((a | b) & b == b) by (bit_vector);
        assert((a | b) & !(a | b) == 0) by (bit_vector);
    }
}

/// Merges the register masks of the assembled file's `.reginfo` into the object file's,
/// where both have one; a `.reginfo` shorter than twenty bytes fails, and nothing changes.
#[verifier::rlimit(40)]
pub fn merge_reginfo(objfile: &mut ElfFile, assembled: &ElfFile) -> (r: Result<(), ObjFileError>)
    ensures
        reginfo_short(*old(objfile), *assembled) ==> (r matches Err(ObjFileError::SectionError(_)))
            && *final(objfile) == *old(objfile),
        !reginfo_short(*old(objfile), *assembled) ==> r is Ok && reginfo_done(*old(objfile), *final(objfile), *assembled),
{
    let ghost secs = objfile.sections@;
    let t = match first_index(&objfile.sections, ".reginfo") {
        Some(t) => t,
        None => {
            return Ok(());
        },
    };
    let si = match first_index(&assembled.sections, ".reginfo") {
        Some(si) => si,
        None => {
            return Ok(());
        },
    };
    let src = &assembled.sections[si];
    if objfile.sections[t].data.len() < 20 || src.data.len() < 20 {
        return Err(ObjFileError::SectionError(".reginfo section too short".to_owned()));
    }
    let mut data = objfile.sections[t].data.clone();
    let mut i: usize = 0;
    while i < 20
        invariant
            i <= 20,
            data@.len() == secs[t as int].data@.len(),
            data@.len() >= 20,
            src.data@.len() >= 20,
            forall|m: int| 0 <= m < i ==> data@[m] == secs[t as int].data@[m] | src.data@[m],
            forall|m: int| i <= m < data@.len() ==> data@[m] == secs[t as int].data@[m],
        decreases 20 - i,
    {
        let v = data[i] | src.data[i];
        data.set(i, v);
        i += 1;
    }
    assert(data@ =~= reginfo_merged(secs[t as int].data@, src.data@));
    objfile.sections[t].data = data;
    assert(objfile.sections@ =~= secs.update(
        t as int,
        ElfSection { data: objfile.sections@[t as int].data, ..secs[t as int] },
    ));
    Ok(())
}

/// The index of the first section called `name`.
fn first_index(secs: &Vec<ElfSection>, name: &str) -> (r: Option<usize>)
    ensures
        r is Some <==> has_section(secs@, name@),
        r matches Some(i) ==> i == first_section(secs@, name@) && i < secs@.len() && secs@[i as int].name@ == name@,
{
    let mut i: usize = 0;
    while i < secs.len()
        invariant
            i <= secs@.len(),
            forall|j: int| 0 <= j < i ==> secs@[j].name@ != name@,
        decreases secs@.len() - i,
    {
        if str_eq(secs[i].name.as_str(), name) {
            proof {
                lemma_first_section(secs@, name@, i as int);
            }
            return Some(i);
        }
        i += 1;
    }
    None
}

/// The jump table positions in `.rodata`: for each block with a jump table, the positions
/// from `rodata` on that its table takes. A block with a jump table needs data directives
/// before it.
pub open spec fn jtbl_positions(dummies: Seq<Seq<String>>, sizes: Seq<usize>, rodata: int) -> Result<Seq<int>, FixupFailure>
    decreases sizes.len(),
{
    if sizes.len() == 0 {
        Ok(Seq::empty())
    } else {
        match jtbl_positions(dummies, sizes.drop_last(), rodata) {
            Err(k) => Err(k),
            Ok(ps) => {
                let i = sizes.len() - 1;
                let size = sizes.last() as int;
                if size > 0 && (i >= dummies.len() || dummies[i].len() == 0) {
                    Err(FixupFailure::Section)
                } else if rodata + size > usize::MAX + 1 {
                    Err(FixupFailure::Conversion)
                } else {
                    Ok(ps + Seq::new(size as nat, |p: int| rodata + p))
                }
            },
        }
    }
}

/// What the `.late_rodata` of the assembled file gives: where the plan has `.late_rodata`
/// assembly and the assembled file a `.late_rodata` section, its start and end labels must
/// be found in it, and the jump table positions are as `jtbl_positions` says; otherwise
/// there are none.
pub open spec fn late_rodata_outcome(assembled: ElfFile, plan: FixupPlan) -> Result<Seq<int>, FixupFailure> {
    if !plan.has_late_rodata || !has_section(assembled.sections@, ".late_rodata"@) {
        Ok(Seq::empty())
    } else {
        let src = assembled.sections@[first_section(assembled.sections@, ".late_rodata"@)];
        if symbol_in_section(assembled, "_asmpp_late_rodata_start"@, src.index as int) is None || symbol_in_section(
            assembled,
            "_asmpp_late_rodata_end"@,
            src.index as int,
        ) is None {
            Err(FixupFailure::Elf)
        } else {
            jtbl_positions(
                plan.late_rodata_dummy_bytes@.map_values(|v: Vec<String>| v@),
                plan.jtbl_rodata_sizes@,
                plan.prev_locs.rodata as int,
            )
        }
    }
}

/// Once a block's jump table fails, the positions of all the blocks fail the same way.
proof fn lemma_jtbl_stop(dummies: Seq<Seq<String>>, sizes: Seq<usize>, rodata: int, j: int)
    requires
        0 <= j <= sizes.len(),
        jtbl_positions(dummies, sizes.take(j), rodata) is Err,
    ensures
        jtbl_positions(dummies, sizes, rodata) == jtbl_positions(dummies, sizes.take(j), rodata),
    decreases sizes.len() - j,
{
    if j < sizes.len() {
        let t = sizes.drop_last();
        assert(t.take(j) =~= sizes.take(j));
        lemma_jtbl_stop(dummies, t, rodata, j);
    } else {
        assert(sizes.take(j) =~= sizes);
    }
}

/// Finds the jump table positions, as `late_rodata_outcome` says.
pub fn late_rodata_jtbl(assembled: &ElfFile, plan: &FixupPlan) -> (r: Result<Vec<usize>, ObjFileError>)
    ensures
        match late_rodata_outcome(*assembled, *plan) {
            Err(k) => r matches Err(e) && fails_as(e, k),
            Ok(ps) => r matches Ok(v) && v@.map_values(|p: usize| p as int) == ps,
        },
{
    let mut out: Vec<usize> = Vec::new();
    if !plan.has_late_rodata {
        assert(out@.map_values(|p: usize| p as int) =~= Seq::<int>::empty());
        return Ok(out);
    }
    let si = match first_index(&assembled.sections, ".late_rodata") {
        Some(si) => si,
        None => {
            assert(out@.map_values(|p: usize| p as int) =~= Seq::<int>::empty());
            return Ok(out);
        },
    };
    let src = &assembled.sections[si];
    match crate::objfile::label_value(assembled, "_asmpp_late_rodata_start", src) {
        Ok(_) => {},
        Err(e) => {
            return Err(e);
        },
    }
    match crate::objfile::label_value(assembled, "_asmpp_late_rodata_end", src) {
        Ok(_) => {},
        Err(e) => {
            return Err(e);
        },
    }
    let ghost dummies = plan.late_rodata_dummy_bytes@.map_values(|v: Vec<String>| v@);
    let ghost sizes = plan.jtbl_rodata_sizes@;
    let rodata = plan.prev_locs.rodata as usize;
    let n = plan.jtbl_rodata_sizes.len();
    let mut f: usize = 0;
    assert(sizes.take(0) =~= Seq::<usize>::empty());
    assert(late_rodata_outcome(*assembled, *plan) == jtbl_positions(dummies, sizes, rodata as int));
    assert(out@.map_values(|p: usize| p as int) =~= Seq::<int>::empty());
    assert(dummies.len() == plan.late_rodata_dummy_bytes@.len());
    while f < n
        invariant
            f <= n,
            n == sizes.len(),
            sizes == plan.jtbl_rodata_sizes@,
            dummies == plan.late_rodata_dummy_bytes@.map_values(|v: Vec<String>| v@),
            rodata == plan.prev_locs.rodata,
            dummies.len() == plan.late_rodata_dummy_bytes@.len(),
            late_rodata_outcome(*assembled, *plan) == jtbl_positions(dummies, sizes, rodata as int),
            jtbl_positions(dummies, sizes.take(f as int), rodata as int) == Ok::<Seq<int>, FixupFailure>(
                out@.map_values(|p: usize| p as int),
            ),
        decreases n - f,
    {
        assert(sizes.take(f + 1).drop_last() =~= sizes.take(f as int));
        let size = plan.jtbl_rodata_sizes[f];
        let empty = f >= plan.late_rodata_dummy_bytes.len() || plan.late_rodata_dummy_bytes[f].len() == 0;
        assert(sizes.take(f + 1).last() == size);
        assert(f < dummies.len() ==> dummies[f as int].len() == plan.late_rodata_dummy_bytes@[f as int]@.len());
        if size > 0 && empty {
            proof {
                lemma_jtbl_stop(dummies, sizes, rodata as int, f + 1);
            }
            return Err(ObjFileError::SectionError("should always have dummy bytes before jtbl data".to_owned()));
        }
        if size > 0 && size - 1 > usize::MAX - rodata {
            proof {
                lemma_jtbl_stop(dummies, sizes, rodata as int, f + 1);
            }
            return Err(ObjFileError::ConversionError("jump table position out of range".to_owned()));
        }
        let ghost before = out@.map_values(|p: usize| p as int);
        let mut p: usize = 0;
        while p < size
            invariant
                p <= size,
                size == 0 || size - 1 <= usize::MAX - rodata,
                out@.map_values(|q: usize| q as int) == before + Seq::new(p as nat, |q: int| rodata + q),
            decreases size - p,
        {
            let ghost prev = out@.map_values(|q: usize| q as int);
            out.push(rodata + p);
            assert(out@.map_values(|q: usize| q as int) =~= prev.push(rodata + p));
            assert(Seq::new((p + 1) as nat, |q: int| rodata + q) =~= Seq::new(p as nat, |q: int| rodata + q).push(
                rodata + p,
            ));
            p += 1;
        }
        f += 1;
    }
    assert(sizes.take(n as int) =~= sizes);
    Ok(out)
}

/// Prepares the fix-up of an object file for the blocks `functions`: reads its symbol
/// table, plans as `plan_fixup` says, and gives the assembly source for the assembler.
pub fn prepare_fixup(objfile: &mut ElfFile, functions: &[Function], asm_prelude: &[u8]) -> (r: Result<
    (FixupPlan, Vec<u8>),
    ObjFileError,
>)
    ensures
        !symtab_readable(*old(objfile)) ==> (r matches Err(ObjFileError::ElfError(_))) && final(objfile).sections@
            == old(objfile).sections@,
        symtab_readable(*old(objfile)) ==> {
            &&& symbols_loaded(*old(objfile), *final(objfile))
            &&& match functions_step(plan_start(), functions@, *final(objfile)) {
                Err(k) => r matches Err(e) && fails_as(e, k),
                Ok(m) => r matches Ok((p, src)) && plan_matches(p, m, functions@) && src@ == source_bytes(
                    asm_prelude@,
                    views(p.lines@),
                ),
            }
        },
{
    match load_symbols(objfile) {
        Err(e) => {
            return Err(e);
        },
        Ok(()) => {},
    }
    let plan = match plan_fixup(objfile, functions) {
        Err(e) => {
            return Err(e);
        },
        Ok(p) => p,
    };
    let src = assembly_source(asm_prelude, plan.lines.as_slice());
    Ok((plan, src))
}

/// A fix-up that succeeds: the assembled file's symbols are read, its `.late_rodata` gives
/// the jump table positions, the assembled contents are copied in, the register masks
/// merged, the debug sections dropped where asked, the symbol table and the relocation
/// sections rewritten, and the file laid out and written as `bytes`.
pub open spec fn fixup_done(
    o0: ElfFile,
    a0: ElfFile,
    plan: FixupPlan,
    drop: bool,
    fin: ElfFile,
    bytes: Seq<u8>,
) -> bool {
    exists|a1: ElfFile, jt: Seq<usize>, o1: ElfFile, o2: ElfFile, o3: ElfFile, o4: ElfFile, o5: ElfFile|
        #![trigger symbols_loaded(a0, a1), sections_copied(o0, o1, a1, plan.to_copy@), reginfo_done(o1, o2, a1), debug_dropped(o2, o3, drop), symbols_rewritten(o3, o4), relocations_processed(o4, o5, Set::empty(), jt.to_set())]
        {
            &&& symbols_loaded(a0, a1)
            &&& late_rodata_outcome(a1, plan) == Ok::<Seq<int>, FixupFailure>(jt.map_values(|p: usize| p as int))
            &&& copy_run(o0.sections@, a1, plan.to_copy@, 4).1 is None
            &&& sections_copied(o0, o1, a1, plan.to_copy@)
            &&& !reginfo_short(o1, a1)
            &&& reginfo_done(o1, o2, a1)
            &&& debug_dropped(o2, o3, drop)
            &&& symbols_rewritten(o3, o4)
            &&& rel_targets_ok(o4)
            &&& relocations_processed(o4, o5, Set::empty(), jt.to_set())
            &&& layout_fits_u32(o5)
            &&& !some_mdebug_move_fails(o5.sections@)
            &&& file_written(o5, fin, bytes)
        }
}

/// The fix-up fails merging the register masks: after the assembled contents were copied in,
/// a `.reginfo` is too short.
pub open spec fn fails_at_reginfo(o0: ElfFile, a1: ElfFile, plan: FixupPlan) -> bool {
    exists|o1: ElfFile| #[trigger] sections_copied(o0, o1, a1, plan.to_copy@) && reginfo_short(o1, a1)
}

/// The fix-up fails rewriting the relocations: after the steps before it, a relocation
/// section names no section.
pub open spec fn fails_at_relocations(o0: ElfFile, a1: ElfFile, plan: FixupPlan, drop: bool) -> bool {
    exists|o1: ElfFile, o2: ElfFile, o3: ElfFile, o4: ElfFile|
        #![trigger sections_copied(o0, o1, a1, plan.to_copy@), reginfo_done(o1, o2, a1), debug_dropped(o2, o3, drop), symbols_rewritten(o3, o4)]
        {
            &&& sections_copied(o0, o1, a1, plan.to_copy@)
            &&& !reginfo_short(o1, a1)
            &&& reginfo_done(o1, o2, a1)
            &&& debug_dropped(o2, o3, drop)
            &&& symbols_rewritten(o3, o4)
            &&& !rel_targets_ok(o4)
        }
}

/// The fix-up fails writing the file: after the steps before it, the file does not fit in
/// 32-bit file positions, or an `.mdebug` section that moves has no valid symbolic header.
pub open spec fn fails_at_writing(o0: ElfFile, a1: ElfFile, plan: FixupPlan, drop: bool, jt: Seq<usize>) -> bool {
    exists|o1: ElfFile, o2: ElfFile, o3: ElfFile, o4: ElfFile, o5: ElfFile|
        #![trigger sections_copied(o0, o1, a1, plan.to_copy@), reginfo_done(o1, o2, a1), debug_dropped(o2, o3, drop), symbols_rewritten(o3, o4), relocations_processed(o4, o5, Set::empty(), jt.to_set())]
        {
            &&& sections_copied(o0, o1, a1, plan.to_copy@)
            &&& !reginfo_short(o1, a1)
            &&& reginfo_done(o1, o2, a1)
            &&& debug_dropped(o2, o3, drop)
            &&& symbols_rewritten(o3, o4)
            &&& rel_targets_ok(o4)
            &&& relocations_processed(o4, o5, Set::empty(), jt.to_set())
            &&& (!layout_fits_u32(o5) || some_mdebug_move_fails(o5.sections@))
        }
}

/// Fixes up an object file with the file that the assembler made from the plan's assembly:
/// reads the assembled file's symbols, finds the jump table positions, copies the assembled
/// contents in, merges the register masks, drops the debug sections where asked, rewrites
/// the symbol table and the relocations, and writes the file. A failure comes from the
/// first step that fails, and the steps before it have taken effect.
pub fn fixup_objfile(
    objfile: &mut ElfFile,
    assembled: &mut ElfFile,
    plan: &FixupPlan,
    drop_mdebug_gptab: bool,
) -> (r: Result<Vec<u8>, ObjFileError>)
    ensures
        r matches Ok(bytes) ==> fixup_done(*old(objfile), *old(assembled), *plan, drop_mdebug_gptab, *final(objfile), bytes@),
        !symtab_readable(*old(assembled)) ==> r matches Err(ObjFileError::ElfError(_)),
        symtab_readable(*old(assembled)) ==> symbols_loaded(*old(assembled), *final(assembled)),
        symtab_readable(*old(assembled)) ==> match late_rodata_outcome(*final(assembled), *plan) {
            Err(k) => r matches Err(e) && fails_as(e, k) && *final(objfile) == *old(objfile),
            Ok(jt) => match copy_run(old(objfile).sections@, *final(assembled), plan.to_copy@, 4).1 {
                Some(k) => r matches Err(e) && fails_as(e, k),
                None => r is Err ==> {
                    ||| fails_at_reginfo(*old(objfile), *final(assembled), *plan)
                    ||| fails_at_relocations(*old(objfile), *final(assembled), *plan, drop_mdebug_gptab)
                    ||| exists|jts: Seq<usize>|
                        jts.map_values(|p: usize| p as int) == jt && #[trigger] fails_at_writing(
                            *old(objfile),
                            *final(assembled),
                            *plan,
                            drop_mdebug_gptab,
                            jts,
                        )
                },
            },
        },
{
    match load_symbols(assembled) {
        Err(e) => {
            return Err(e);
        },
        Ok(()) => {},
    }
    let ghost o0 = *objfile;
    let ghost a1 = *assembled;
    let jtbl = match late_rodata_jtbl(assembled, plan) {
        Err(e) => {
            return Err(e);
        },
        Ok(v) => v,
    };
    match process_sections(objfile, assembled, plan.to_copy.as_slice()) {
        Err(e) => {
            return Err(e);
        },
        Ok(()) => {},
    }
    let ghost o1 = *objfile;
    match merge_reginfo(objfile, assembled) {
        Err(e) => {
            assert(sections_copied(o0, o1, a1, plan.to_copy@) && reginfo_short(o1, a1));
            return Err(e);
        },
        Ok(()) => {},
    }
    let ghost o2 = *objfile;
    if drop_mdebug_gptab {
        objfile.drop_mdebug_gptab();
    }
    let ghost o3 = *objfile;
    process_symbols(objfile);
    let ghost o4 = *objfile;
    let none: HashSet<usize> = HashSet::new();
    let jtbl_set = position_set(jtbl.as_slice());
    match process_relocations(objfile, &none, &jtbl_set) {
        Err(e) => {
            assert(sections_copied(o0, o1, a1, plan.to_copy@) && reginfo_done(o1, o2, a1) && debug_dropped(
                o2,
                o3,
                drop_mdebug_gptab,
            ) && symbols_rewritten(o3, o4));
            return Err(e);
        },
        Ok(()) => {},
    }
    let ghost o5 = *objfile;
    assert(none@ =~= Set::<usize>::empty());
    if !objfile.layout_fits() {
        assert(sections_copied(o0, o1, a1, plan.to_copy@) && reginfo_done(o1, o2, a1) && debug_dropped(
            o2,
            o3,
            drop_mdebug_gptab,
        ) && symbols_rewritten(o3, o4) && relocations_processed(o4, o5, Set::empty(), jtbl@.to_set()));
        assert(fails_at_writing(o0, a1, *plan, drop_mdebug_gptab, jtbl@));
        return Err(ObjFileError::ConversionError("object file too large".to_owned()));
    }
    match objfile.write_bytes() {
        Err(e) => {
            assert(sections_copied(o0, o1, a1, plan.to_copy@) && reginfo_done(o1, o2, a1) && debug_dropped(
                o2,
                o3,
                drop_mdebug_gptab,
            ) && symbols_rewritten(o3, o4) && relocations_processed(o4, o5, Set::empty(), jtbl@.to_set()));
            assert(fails_at_writing(o0, a1, *plan, drop_mdebug_gptab, jtbl@));
            Err(ObjFileError::from_error(e))
        },
        Ok(bytes) => {
            assert(symbols_loaded(*old(assembled), a1) && sections_copied(o0, o1, a1, plan.to_copy@) && reginfo_done(
                o1,
                o2,
                a1,
            ) && debug_dropped(o2, o3, drop_mdebug_gptab) && symbols_rewritten(o3, o4) && relocations_processed(
                o4,
                o5,
                Set::empty(),
                jtbl@.to_set(),
            ));
            Ok(bytes)
        },
    }
}

} // verus!
