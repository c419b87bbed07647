pub mod fixup;
pub mod mdebug;
pub mod plan;

use crate::elf::constants::{STB_LOCAL, SHT_REL, SHT_RELA};
use crate::elf::file::ElfFile;
use crate::elf::relocation::{Relocation, relocation_bytes, lemma_relocation_roundtrip};
use crate::elf::section::relocations_in;
use crate::elf::section::ElfSection;
use crate::assembly::block::lemma_section_names;
use crate::elf::symbol::{Symbol, info_bind, symbol_bytes, symbol_fields_from, lemma_symbol_roundtrip};
use crate::utils::error::{Error, error_text};
use crate::utils::text::{chars_of, starts_with, str_eq, has_prefix};
use vstd::prelude::*;
use std::collections::HashSet;

verus! {

/// What can go wrong while fixing up an object file.
#[derive(Debug)]
pub enum ObjFileError {
    Io(std::io::Error),
    ElfError(String),
    SectionError(String),
    SymbolError(String),
    RelocationError(String),
    ConversionError(String),
}

impl ObjFileError {
    /// An error of the ELF layer, carried as its text.
    pub fn from_error(err: Error) -> (r: ObjFileError)
        ensures
            r matches ObjFileError::ElfError(s) && (!(err is Io) ==> s@ == error_text(err)),
    {
        ObjFileError::ElfError(err.to_string())
    }
}

/// Whether a symbol name is one of the placeholders that the pre-processing step makes up.
pub fn is_temp_name(name: &str) -> (r: bool)
    ensures
        r == has_prefix(name@, "_asmpp_"@),
{
    let cs = chars_of(name);
    starts_with(cs.as_slice(), "_asmpp_")
}

/// Where the next contents copied into each section start.
#[derive(Debug, Clone, Copy)]
pub struct PrevLocs {
    pub text: u32,
    pub data: u32,
    pub rodata: u32,
    pub bss: u32,
}

impl PrevLocs {
    /// The position recorded for `section`; 0 for a section that is not tracked.
    pub open spec fn loc_of(self, section: Seq<char>) -> u32 {
        if section == ".text"@ {
            self.text
        } else if section == ".data"@ {
            self.data
        } else if section == ".rodata"@ {
            self.rodata
        } else if section == ".bss"@ {
            self.bss
        } else {
            0
        }
    }

    /// The positions with the one of `section`, if it is tracked, replaced by `value`.
    pub open spec fn with_loc(self, section: Seq<char>, value: u32) -> PrevLocs {
        if section == ".text"@ {
            PrevLocs { text: value, ..self }
        } else if section == ".data"@ {
            PrevLocs { data: value, ..self }
        } else if section == ".rodata"@ {
            PrevLocs { rodata: value, ..self }
        } else if section == ".bss"@ {
            PrevLocs { bss: value, ..self }
        } else {
            self
        }
    }

    pub fn get(&self, section: &str) -> (v: u32)
        ensures
            v == self.loc_of(section@),
    {
        if str_eq(section, ".text") {
            self.text
        } else if str_eq(section, ".data") {
            self.data
        } else if str_eq(section, ".rodata") {
            self.rodata
        } else if str_eq(section, ".bss") {
            self.bss
        } else {
            0
        }
    }

    pub fn set(&mut self, section: &str, value: u32)
        ensures
            *final(self) == old(self).with_loc(section@, value),
    {
        if str_eq(section, ".text") {
            self.text = value;
        } else if str_eq(section, ".data") {
            self.data = value;
        } else if str_eq(section, ".rodata") {
            self.rodata = value;
        } else if str_eq(section, ".bss") {
            self.bss = value;
        }
    }
}

/// Whether `pattern` occurs in `data` at position `i`.
pub open spec fn occurs_at(data: Seq<u8>, pattern: Seq<u8>, i: int) -> bool {
    0 <= i && i + pattern.len() <= data.len() && data.subrange(i, i + pattern.len()) == pattern
}

/// The first position at or after `start_pos` where `pattern` occurs in `data`.
pub fn find_bytes_in_section(data: &[u8], pattern: &[u8], start_pos: usize) -> (r: Option<usize>)
    requires
        start_pos <= data@.len(),
        pattern@.len() > 0,
    ensures
        r matches Some(i) ==> start_pos <= i && occurs_at(data@, pattern@, i as int) && forall|j: int|
            start_pos <= j < i ==> !occurs_at(data@, pattern@, j),
        r is None ==> forall|j: int| start_pos <= j ==> !occurs_at(data@, pattern@, j),
{
    if pattern.len() > data.len() {
        return None;
    }
    let last = data.len() - pattern.len();
    let mut i = start_pos;
    while i <= last
        invariant
            start_pos <= i,
            last + pattern@.len() == data@.len(),
            pattern@.len() > 0,
            data@.len() <= usize::MAX,
            forall|j: int| start_pos <= j < i ==> !occurs_at(data@, pattern@, j),
        decreases last + 1 - i,
    {
        let mut k: usize = 0;
        let mut same = true;
        while k < pattern.len() && same
            invariant
                k <= pattern@.len(),
                i <= last,
                i + pattern@.len() <= data@.len(),
                data@.len() <= usize::MAX,
                forall|m: int| 0 <= m < k ==> data@[i + m] == pattern@[m],
                !same ==> k < pattern@.len() && data@[i + k] != pattern@[k as int],
            decreases pattern@.len() - k + (if same { 1int } else { 0int }),
        {
            if data[i + k] == pattern[k] {
                k += 1;
            } else {
                same = false;
            }
        }
        if k == pattern.len() {
            assert(data@.subrange(i as int, i + pattern@.len()) =~= pattern@);
            return Some(i);
        }
        assert(data@.subrange(i as int, i + pattern@.len())[k as int] != pattern@[k as int]);
        i += 1;
    }
    None
}

/// A section position as a `usize`; every `u32` is one.
pub fn u32_to_usize(val: u32) -> (r: Result<usize, ObjFileError>)
    ensures
        r matches Ok(v) && v == val,
{
    Ok(val as usize)
}

/// A size as a `u32`, where it is one.
pub fn usize_to_u32(val: usize) -> (r: Result<u32, ObjFileError>)
    ensures
        val <= u32::MAX ==> (r matches Ok(v) && v == val),
        val > u32::MAX ==> r matches Err(ObjFileError::ConversionError(_)),
{
    if val <= u32::MAX as usize {
        Ok(val as u32)
    } else {
        Err(ObjFileError::ConversionError("usize to u32 conversion failed".to_owned()))
    }
}

/// The position of the first section called `name`.
pub fn section_index(objfile: &ElfFile, name: &str) -> (r: Option<usize>)
    ensures
        r matches Some(i) ==> i < objfile.sections@.len() && objfile.sections@[i as int].name@ == name@
            && forall|j: int| 0 <= j < i ==> objfile.sections@[j].name@ != name@,
        r is None ==> forall|j: int| 0 <= j < objfile.sections@.len() ==> objfile.sections@[j].name@ != name@,
{
    let mut i: usize = 0;
    while i < objfile.sections.len()
        invariant
            i <= objfile.sections@.len(),
            forall|j: int| 0 <= j < i ==> objfile.sections@[j].name@ != name@,
        decreases objfile.sections@.len() - i,
    {
        if str_eq(objfile.sections[i].name.as_str(), name) {
            return Some(i);
        }
        i += 1;
    }
    None
}

/// A copy of a symbol.
fn copy_symbol(s: &Symbol) -> (r: Symbol)
    ensures
        r == *s,
{
    Symbol {
        st_name: s.st_name,
        st_value: s.st_value,
        st_size: s.st_size,
        st_info: s.st_info,
        st_other: s.st_other,
        st_shndx: s.st_shndx,
        name: s.name.clone(),
        visibility: s.visibility,
        fmt: s.fmt,
    }
}

/// Where a symbol goes when a symbol table is rewritten: `_gp_disp` after all others, which
/// keep their order whatever their binding.
pub open spec fn symbol_rank(s: Symbol) -> int {
    if s.name@ == "_gp_disp"@ {
        1int
    } else {
        0int
    }
}

/// The symbols of `syms` that are no placeholders and have rank `rank`, in order.
pub open spec fn kept_of_rank(syms: Seq<Symbol>, rank: int) -> Seq<Symbol>
    decreases syms.len(),
{
    if syms.len() == 0 {
        Seq::empty()
    } else {
        let rest = kept_of_rank(syms.drop_last(), rank);
        let s = syms.last();
        if !has_prefix(s.name@, "_asmpp_"@) && symbol_rank(s) == rank {
            rest.push(s)
        } else {
            rest
        }
    }
}

/// The symbols of a rewritten symbol table: the placeholders dropped, the others in a
/// stable order of rank.
pub open spec fn table_order(syms: Seq<Symbol>) -> Seq<Symbol> {
    kept_of_rank(syms, 0) + kept_of_rank(syms, 1)
}

/// The entries of the symbols, one after the other, each in its own byte order.
pub open spec fn symbols_data(syms: Seq<Symbol>) -> Seq<u8>
    decreases syms.len(),
{
    if syms.len() == 0 {
        Seq::empty()
    } else {
        symbols_data(syms.drop_last()) + symbol_bytes(syms.last().fmt.is_big_endian, syms.last())
    }
}

/// The number of local symbols.
pub open spec fn local_count(syms: Seq<Symbol>) -> nat
    decreases syms.len(),
{
    if syms.len() == 0 {
        0
    } else {
        local_count(syms.drop_last()) + if info_bind(syms.last().st_info) == STB_LOCAL {
            1nat
        } else {
            0nat
        }
    }
}

proof fn lemma_local_count_len(syms: Seq<Symbol>)
    ensures
        local_count(syms) <= syms.len(),
    decreases syms.len(),
{
    if syms.len() > 0 {
        lemma_local_count_len(syms.drop_last());
    }
}

/// Appends the symbols of `syms` that are no placeholders and have rank `rank`.
fn push_kept_of_rank(out: &mut Vec<Symbol>, syms: &[Symbol], rank: u8)
    ensures
        final(out)@ == old(out)@ + kept_of_rank(syms@, rank as int),
{
    let mut i: usize = 0;
    while i < syms.len()
        invariant
            i <= syms@.len(),
            out@ == old(out)@ + kept_of_rank(syms@.take(i as int), rank as int),
        decreases syms@.len() - i,
    {
        assert(syms@.take(i + 1).drop_last() =~= syms@.take(i as int));
        let s = &syms[i];
        let r: u8 = if str_eq(s.name.as_str(), "_gp_disp") {
            1u8
        } else {
            0u8
        };
        if !is_temp_name(s.name.as_str()) && r == rank {
            let ghost before = out@;
            out.push(copy_symbol(s));
            assert(out@ =~= before.push(syms@[i as int]));
        }
        i += 1;
    }
    assert(syms@.take(i as int) =~= syms@);
}

/// The entries of symbols in one byte order take sixteen bytes each, each at its place.
proof fn lemma_symbols_data_at(big: bool, syms: Seq<Symbol>)
    requires
        forall|i: int| 0 <= i < syms.len() ==> (#[trigger] syms[i]).fmt.is_big_endian == big,
    ensures
        symbols_data(syms).len() == 16 * syms.len(),
        forall|k: int|
            0 <= k < syms.len() ==> symbols_data(syms).subrange(16 * k, 16 * k + 16) == symbol_bytes(
                big,
                #[trigger] syms[k],
            ),
    decreases syms.len(),
{
    if syms.len() > 0 {
        let prev = syms.drop_last();
        lemma_symbols_data_at(big, prev);
        assert(syms[syms.len() - 1].fmt.is_big_endian == big);
        lemma_symbol_roundtrip(big, syms.last());
        let all = symbols_data(syms);
        let pd = symbols_data(prev);
        assert(all == pd + symbol_bytes(big, syms.last()));
        assert forall|k: int| 0 <= k < syms.len() implies all.subrange(16 * k, 16 * k + 16) == symbol_bytes(
            big,
            #[trigger] syms[k],
        ) by {
            if k == syms.len() - 1 {
                assert(all.subrange(16 * k, 16 * k + 16) =~= symbol_bytes(big, syms[k]));
            } else {
                assert(prev[k] == syms[k]);
                assert(all.subrange(16 * k, 16 * k + 16) =~= pd.subrange(16 * k, 16 * k + 16));
            }
        }
    }
}

/// The symbols that `kept_of_rank` keeps come from the symbols it is given.
proof fn lemma_kept_of_rank_from(syms: Seq<Symbol>, rank: int, x: Symbol)
    requires
        kept_of_rank(syms, rank).contains(x),
    ensures
        syms.contains(x),
    decreases syms.len(),
{
    if syms.len() > 0 {
        let rest = syms.drop_last();
        let kr = kept_of_rank(rest, rank);
        let k = kept_of_rank(syms, rank);
        let j = choose|j: int| 0 <= j < k.len() && k[j] == x;
        if j < kr.len() {
            assert(k[j] == kr[j]);
            assert(kr.contains(x));
            lemma_kept_of_rank_from(rest, rank, x);
            let w = choose|w: int| 0 <= w < rest.len() && rest[w] == x;
            assert(syms[w] == x);
        } else {
            assert(syms[syms.len() - 1] == x);
        }
    }
}

/// The rewritten symbol table reads back entry by entry as its symbols in `table_order`,
/// and counts the local ones among them in `sh_info`, where every symbol of the table is in
/// the table's byte order.
pub proof fn lemma_rewritten_symtab_reads_back(o: ElfFile, n: ElfFile, j: int)
    requires
        symbols_rewritten(o, n),
        0 <= j < o.sections@.len(),
        o.sections@[j].name@ == ".symtab"@,
        forall|i: int| 0 <= i < j ==> o.sections@[i].name@ != ".symtab"@,
        forall|i: int|
            0 <= i < o.sections@[j].symbols@.len() ==> (#[trigger] o.sections@[j].symbols@[i]).fmt
                == o.sections@[j].fmt,
    ensures
        ({
            let syms = table_order(o.sections@[j].symbols@);
            let data = n.sections@[j].data@;
            &&& data.len() == 16 * syms.len()
            &&& forall|k: int|
                0 <= k < syms.len() ==> symbol_fields_from(
                    #[trigger] syms[k],
                    o.sections@[j].fmt.is_big_endian,
                    data.subrange(16 * k, 16 * k + 16),
                )
            &&& n.sections@[j].sh_info == local_count(syms) as u32
        }),
{
    let s = o.sections@[j];
    let big = s.fmt.is_big_endian;
    let all = s.symbols@;
    let syms = table_order(all);
    assert forall|i: int| 0 <= i < syms.len() implies (#[trigger] syms[i]).fmt.is_big_endian == big by {
        let x = syms[i];
        let a = kept_of_rank(all, 0);
        let b = kept_of_rank(all, 1);
        assert(syms == a + b);
        if i < a.len() {
            assert(a[i] == x);
            assert(a.contains(x));
            lemma_kept_of_rank_from(all, 0, x);
        } else {
            assert(b[i - a.len()] == x);
            assert(b.contains(x));
            lemma_kept_of_rank_from(all, 1, x);
        }
        let w = choose|w: int| 0 <= w < all.len() && all[w] == x;
        assert(all[w].fmt == s.fmt);
    }
    lemma_symbols_data_at(big, syms);
    assert forall|k: int| 0 <= k < syms.len() implies symbol_fields_from(
        #[trigger] syms[k],
        big,
        n.sections@[j].data@.subrange(16 * k, 16 * k + 16),
    ) by {
        lemma_symbol_roundtrip(big, syms[k]);
    }
}

/// `n` is `o` with the first section called `.symtab` rewritten: its entries those of its
/// symbols in `table_order`, its `sh_info` the number of local ones among them.
pub open spec fn symbols_rewritten(o: ElfFile, n: ElfFile) -> bool {
    &&& n.header == o.header
    &&& n.fmt == o.fmt
    &&& n.symtab == o.symtab
    &&& n.sections@.len() == o.sections@.len()
    &&& forall|j: int|
        0 <= j < o.sections@.len() && o.sections@[j].name@ == ".symtab"@ && (forall|i: int|
            0 <= i < j ==> o.sections@[i].name@ != ".symtab"@) ==> {
            let s = o.sections@[j];
            let syms = table_order(s.symbols@);
            &&& n.sections@[j] == (ElfSection { data: n.sections@[j].data, sh_info: local_count(syms) as u32, ..s })
            &&& n.sections@[j].data@ == symbols_data(syms)
            &&& forall|i: int| 0 <= i < o.sections@.len() && i != j ==> n.sections@[i] == o.sections@[i]
        }
    &&& (forall|i: int| 0 <= i < o.sections@.len() ==> o.sections@[i].name@ != ".symtab"@) ==> n.sections@
        == o.sections@
}

/// Rewrites the first section called `.symtab`: its entries become those of its symbols in
/// `table_order`, and `sh_info` the number of local ones among them. Nothing else changes.
pub fn process_symbols(objfile: &mut ElfFile)
    ensures
        symbols_rewritten(*old(objfile), *final(objfile)),
{
    match section_index(objfile, ".symtab") {
        None => {},
        Some(k) => {
            let mut ordered: Vec<Symbol> = Vec::new();
            push_kept_of_rank(&mut ordered, objfile.sections[k].symbols.as_slice(), 0);
            push_kept_of_rank(&mut ordered, objfile.sections[k].symbols.as_slice(), 1);
            let ghost syms = table_order(objfile.sections@[k as int].symbols@);
            assert(ordered@ =~= syms);
            let count = ordered.len();
            assert(syms.len() == count);
            let mut data: Vec<u8> = Vec::new();
            let mut locals: usize = 0;
            let mut i: usize = 0;
            proof {
                lemma_local_count_len(syms);
            }
            while i < ordered.len()
                invariant
                    i <= ordered@.len(),
                    ordered@ == syms,
                    data@ == symbols_data(syms.take(i as int)),
                    locals == local_count(syms.take(i as int)),
                    local_count(syms.take(i as int)) <= i,
                    syms.len() <= usize::MAX,
                decreases ordered@.len() - i,
            {
                assert(syms.take(i + 1).drop_last() =~= syms.take(i as int));
                match ordered[i].to_bin() {
                    Ok(mut bytes) => {
                        data.append(&mut bytes);
                    },
                    Err(_) => {},
                }
                if ordered[i].bind() == STB_LOCAL {
                    locals += 1;
                }
                i += 1;
            }
            assert(syms.take(i as int) =~= syms);
            let ghost before = objfile.sections@;
            objfile.sections[k].data = data;
            objfile.sections[k].sh_info = locals as u32;
        },
    }
}

/// Whether a relocation at a position that the rewrite replaced is dropped: one in `.text`
/// at a modified position, or one in `.rodata` at a jump table position.
pub open spec fn rel_dropped(r: Relocation, target: Seq<char>, modified: Set<usize>, jtbl: Set<usize>) -> bool {
    (target == ".text"@ && modified.contains(r.r_offset as usize)) || (target == ".rodata"@ && jtbl.contains(
        r.r_offset as usize,
    ))
}

/// The relocations that are not dropped, in order.
pub open spec fn kept_relocations(rs: Seq<Relocation>, target: Seq<char>, modified: Set<usize>, jtbl: Set<usize>) -> Seq<
    Relocation,
>
    decreases rs.len(),
{
    if rs.len() == 0 {
        Seq::empty()
    } else {
        let rest = kept_relocations(rs.drop_last(), target, modified, jtbl);
        if rel_dropped(rs.last(), target, modified, jtbl) {
            rest
        } else {
            rest.push(rs.last())
        }
    }
}

/// Whether relocations are in order of their offsets.
pub open spec fn sorted_by_offset(rs: Seq<Relocation>) -> bool {
    forall|i: int, j: int| 0 <= i < j < rs.len() ==> rs[i].r_offset <= rs[j].r_offset
}

/// Whether a relocation has offset `k`.
pub open spec fn offset_is(k: u32) -> spec_fn(Relocation) -> bool {
    |r: Relocation| r.r_offset == k
}

/// `out` is `rs` sorted by offset, relocations at the same offset keeping their order.
pub open spec fn in_offset_order(out: Seq<Relocation>, rs: Seq<Relocation>) -> bool {
    &&& sorted_by_offset(out)
    &&& forall|k: u32| #[trigger] out.filter(offset_is(k)) == rs.filter(offset_is(k))
}

/// The entries of the relocations, one after the other.
pub open spec fn relocations_data(big: bool, rs: Seq<Relocation>) -> Seq<u8>
    decreases rs.len(),
{
    if rs.len() == 0 {
        Seq::empty()
    } else {
        relocations_data(big, rs.drop_last()) + relocation_bytes(big, rs.last())
    }
}

/// The entries of relocations without addends take eight bytes each, each at its place.
proof fn lemma_rel_data_at(big: bool, rs: Seq<Relocation>)
    requires
        forall|i: int| 0 <= i < rs.len() ==> (#[trigger] rs[i]).r_addend is None,
    ensures
        relocations_data(big, rs).len() == 8 * rs.len(),
        forall|k: int|
            0 <= k < rs.len() ==> relocations_data(big, rs).subrange(8 * k, 8 * k + 8) == relocation_bytes(
                big,
                #[trigger] rs[k],
            ),
    decreases rs.len(),
{
    if rs.len() > 0 {
        let prev = rs.drop_last();
        lemma_rel_data_at(big, prev);
        lemma_relocation_roundtrip(big, rs.last(), SHT_REL);
        assert(rs[rs.len() - 1].r_addend is None);
        crate::elf::format::lemma_u32s_bytes_len(big, seq![rs.last().r_offset, rs.last().r_info]);
        let all = relocations_data(big, rs);
        let pd = relocations_data(big, prev);
        assert(all == pd + relocation_bytes(big, rs.last()));
        assert forall|k: int| 0 <= k < rs.len() implies all.subrange(8 * k, 8 * k + 8) == relocation_bytes(
            big,
            #[trigger] rs[k],
        ) by {
            if k == rs.len() - 1 {
                assert(all.subrange(8 * k, 8 * k + 8) =~= relocation_bytes(big, rs[k]));
            } else {
                assert(prev[k] == rs[k]);
                assert(all.subrange(8 * k, 8 * k + 8) =~= pd.subrange(8 * k, 8 * k + 8));
            }
        }
    }
}

/// What a filter keeps comes from the sequence filtered.
proof fn lemma_filter_in(s: Seq<Relocation>, p: spec_fn(Relocation) -> bool, x: Relocation)
    requires
        s.filter(p).contains(x),
    ensures
        s.contains(x),
    decreases s.len(),
{
    reveal(Seq::filter);
    if s.len() > 0 {
        let rest = s.drop_last();
        if x == s.last() {
            assert(s[s.len() - 1] == x);
        } else {
            let f = s.filter(p);
            let j = choose|j: int| 0 <= j < f.len() && f[j] == x;
            assert(rest.filter(p).contains(x)) by {
                if p(s.last()) {
                    assert(f == rest.filter(p).push(s.last()));
                    assert(rest.filter(p)[j] == x);
                } else {
                    assert(f == rest.filter(p));
                }
            }
            lemma_filter_in(rest, p, x);
            let w = choose|w: int| 0 <= w < rest.len() && rest[w] == x;
            assert(s[w] == x);
        }
    }
}

/// The relocations kept from relocations without addends have none either.
proof fn lemma_kept_without_addends(rs: Seq<Relocation>, target: Seq<char>, modified: Set<usize>, jtbl: Set<usize>)
    requires
        forall|i: int| 0 <= i < rs.len() ==> (#[trigger] rs[i]).r_addend is None,
    ensures
        forall|x: Relocation|
            #[trigger] kept_relocations(rs, target, modified, jtbl).contains(x) ==> x.r_addend is None,
    decreases rs.len(),
{
    if rs.len() > 0 {
        let rest = rs.drop_last();
        lemma_kept_without_addends(rest, target, modified, jtbl);
        let kr = kept_relocations(rest, target, modified, jtbl);
        let k = kept_relocations(rs, target, modified, jtbl);
        assert(rs[rs.len() - 1].r_addend is None);
        assert forall|x: Relocation| #[trigger] k.contains(x) implies x.r_addend is None by {
            let j = choose|j: int| 0 <= j < k.len() && k[j] == x;
            if j < kr.len() {
                assert(k[j] == kr[j]);
                assert(kr.contains(x));
            }
        }
    }
}

/// Relocations without addends, written one after the other, read back as themselves from
/// a `SHT_REL` section.
pub proof fn lemma_rel_data_reads_back(big: bool, rs: Seq<Relocation>)
    requires
        forall|i: int| 0 <= i < rs.len() ==> (#[trigger] rs[i]).r_addend is None,
    ensures
        relocations_in(big, relocations_data(big, rs), SHT_REL) == rs,
{
    lemma_rel_data_at(big, rs);
    let data = relocations_data(big, rs);
    let back = relocations_in(big, data, SHT_REL);
    assert(back.len() == rs.len());
    assert forall|k: int| 0 <= k < rs.len() implies back[k] == rs[k] by {
        lemma_relocation_roundtrip(big, rs[k], SHT_REL);
        assert(data.subrange(8 * k, 8 * k + 8) == relocation_bytes(big, rs[k]));
    }
    assert(back =~= rs);
}

/// A `SHT_REL` section that `process_relocations` rewrote reads back as the relocations it
/// kept, in order of their offsets, where its relocations carry no addends (as those read
/// from a `SHT_REL` section do).
pub proof fn lemma_rewritten_rel_reads_back(
    new: ElfSection,
    old: ElfSection,
    target: Seq<char>,
    modified: Set<usize>,
    jtbl: Set<usize>,
)
    requires
        relocations_rewritten(new, old, target, modified, jtbl),
        old.sh_type == SHT_REL,
        forall|i: int| 0 <= i < old.relocations@.len() ==> (#[trigger] old.relocations@[i]).r_addend is None,
    ensures
        exists|out: Seq<Relocation>|
            in_offset_order(out, kept_relocations(old.relocations@, target, modified, jtbl)) && relocations_in(
                old.fmt.is_big_endian,
                new.data@,
                SHT_REL,
            ) == out,
{
    let kept = kept_relocations(old.relocations@, target, modified, jtbl);
    let out = choose|out: Seq<Relocation>|
        in_offset_order(out, kept) && new.data@ == relocations_data(old.fmt.is_big_endian, out);
    lemma_kept_without_addends(old.relocations@, target, modified, jtbl);
    assert forall|i: int| 0 <= i < out.len() implies (#[trigger] out[i]).r_addend is None by {
        let x = out[i];
        let p = offset_is(x.r_offset);
        out.lemma_filter_contains(p, i);
        assert(out.filter(p) == kept.filter(p));
        lemma_filter_in(kept, p, x);
    }
    lemma_rel_data_reads_back(old.fmt.is_big_endian, out);
}

/// The relocations kept are exactly those of `rs` that lie neither in `.text` at a modified
/// position nor in `.rodata` at a jump table position.
pub proof fn lemma_kept_relocations_members(rs: Seq<Relocation>, target: Seq<char>, modified: Set<usize>, jtbl: Set<usize>)
    ensures
        forall|x: Relocation|
            #[trigger] kept_relocations(rs, target, modified, jtbl).contains(x) <==> {
                &&& rs.contains(x)
                &&& !(target == ".text"@ && modified.contains(x.r_offset as usize))
                &&& !(target == ".rodata"@ && jtbl.contains(x.r_offset as usize))
            },
    decreases rs.len(),
{
    if rs.len() > 0 {
        let rest = rs.drop_last();
        lemma_kept_relocations_members(rest, target, modified, jtbl);
        let kr = kept_relocations(rest, target, modified, jtbl);
        let k = kept_relocations(rs, target, modified, jtbl);
        assert forall|x: Relocation| #[trigger] k.contains(x) <==> {
            &&& rs.contains(x)
            &&& !(target == ".text"@ && modified.contains(x.r_offset as usize))
            &&& !(target == ".rodata"@ && jtbl.contains(x.r_offset as usize))
        } by {
            if k.contains(x) {
                let j = choose|j: int| 0 <= j < k.len() && k[j] == x;
                if j < kr.len() {
                    assert(k[j] == kr[j]);
                    assert(kr.contains(x));
                    let w = choose|w: int| 0 <= w < rest.len() && rest[w] == x;
                    assert(rs[w] == x);
                } else {
                    assert(rs[rs.len() - 1] == x);
                }
            }
            if rs.contains(x) && !(target == ".text"@ && modified.contains(x.r_offset as usize)) && !(target
                == ".rodata"@ && jtbl.contains(x.r_offset as usize)) {
                let w = choose|w: int| 0 <= w < rs.len() && rs[w] == x;
                if w < rs.len() - 1 {
                    assert(rest[w] == x);
                    assert(kr.contains(x));
                    let j = choose|j: int| 0 <= j < kr.len() && kr[j] == x;
                    if rel_dropped(rs.last(), target, modified, jtbl) {
                        assert(k == kr);
                    } else {
                        assert(k[j] == x);
                        assert(k.contains(x));
                    }
                } else {
                    assert(k[k.len() - 1] == x);
                    assert(k.contains(x));
                }
            }
        }
    }
}

/// A relocation section that `process_relocations` rewrote, where its relocations carry
/// no addends (as those of a `SHT_REL` section do), reads back as exactly the relocations
/// that lie neither in `.text` at a modified position nor in `.rodata` at a jump table
/// position: a relocation of a replaced word is gone, every other one stays.
pub proof fn lemma_processed_rel_members(o: ElfFile, n: ElfFile, modified: Set<usize>, jtbl: Set<usize>, i: int)
    requires
        relocations_processed(o, n, modified, jtbl),
        rel_targets_ok(o),
        0 <= i < o.sections@.len(),
        o.sections@[i].sh_type == SHT_REL,
        forall|j: int|
            0 <= j < o.sections@[i].relocations@.len() ==> (#[trigger] o.sections@[i].relocations@[j]).r_addend is None,
    ensures
        ({
            let old = o.sections@[i];
            let target = o.sections@[old.sh_info as int].name@;
            let back = relocations_in(old.fmt.is_big_endian, n.sections@[i].data@, SHT_REL);
            forall|x: Relocation|
                #[trigger] back.contains(x) <==> {
                    &&& old.relocations@.contains(x)
                    &&& !(target == ".text"@ && modified.contains(x.r_offset as usize))
                    &&& !(target == ".rodata"@ && jtbl.contains(x.r_offset as usize))
                }
        }),
{
    let secs = o.sections@;
    let old = secs[i];
    let len = secs.len() as int;
    let target = secs[old.sh_info as int].name@;
    assert(is_rel_section(secs[i]));
    assert forall|j: int| 0 <= j <= i implies rel_target_ok(#[trigger] secs[j], len) by {
        assert(rel_target_ok(secs[j], len));
    }
    let new = n.sections@[i];
    assert(relocations_rewritten(new, old, target, modified, jtbl));
    let kept = kept_relocations(old.relocations@, target, modified, jtbl);
    lemma_rewritten_rel_reads_back(new, old, target, modified, jtbl);
    let out = choose|out: Seq<Relocation>|
        in_offset_order(out, kept) && relocations_in(old.fmt.is_big_endian, new.data@, SHT_REL) == out;
    lemma_kept_relocations_members(old.relocations@, target, modified, jtbl);
    assert forall|x: Relocation| #[trigger] out.contains(x) <==> kept.contains(x) by {
        let p = offset_is(x.r_offset);
        assert(out.filter(p) == kept.filter(p));
        if out.contains(x) {
            let j = choose|j: int| 0 <= j < out.len() && out[j] == x;
            out.lemma_filter_contains(p, j);
            lemma_filter_in(kept, p, x);
        }
        if kept.contains(x) {
            let j = choose|j: int| 0 <= j < kept.len() && kept[j] == x;
            kept.lemma_filter_contains(p, j);
            lemma_filter_in(out, p, x);
        }
    }
}

/// Whether a section holds relocations.
pub open spec fn is_rel_section(s: ElfSection) -> bool {
    s.sh_type == SHT_REL || s.sh_type == SHT_RELA
}

/// Whether a section that holds relocations names, in `sh_info`, one of `n` sections.
pub open spec fn rel_target_ok(s: ElfSection, n: int) -> bool {
    is_rel_section(s) ==> s.sh_info < n
}

/// `new` is the relocation section `old` with its entries rewritten: those that the rewrite
/// keeps, in order of their offsets, in the section's byte order.
pub open spec fn relocations_rewritten(
    new: ElfSection,
    old: ElfSection,
    target: Seq<char>,
    modified: Set<usize>,
    jtbl: Set<usize>,
) -> bool {
    &&& new == (ElfSection { data: new.data, ..old })
    &&& exists|out: Seq<Relocation>|
        in_offset_order(out, kept_relocations(old.relocations@, target, modified, jtbl))
            && new.data@ == relocations_data(old.fmt.is_big_endian, out)
}

/// Inserting `x` after the sorted prefix of relocations whose offsets do not exceed its own
/// keeps the sequence sorted and adds `x` to its offset's relocations, at their end.
proof fn lemma_insert_sorted(out: Seq<Relocation>, p: int, x: Relocation)
    requires
        sorted_by_offset(out),
        0 <= p <= out.len(),
        forall|i: int| 0 <= i < p ==> out[i].r_offset <= x.r_offset,
        forall|i: int| p <= i < out.len() ==> out[i].r_offset > x.r_offset,
    ensures
        sorted_by_offset(out.insert(p, x)),
        forall|k: u32|
            #[trigger] out.insert(p, x).filter(offset_is(k)) == if x.r_offset == k {
                out.filter(offset_is(k)).push(x)
            } else {
                out.filter(offset_is(k))
            },
{
    broadcast use vstd::seq_lib::group_seq_properties;

    let ins = out.insert(p, x);
    let a = out.take(p);
    let b = out.skip(p);
    assert(out =~= a + b);
    assert(ins =~= a.push(x) + b);
    assert forall|k: u32| #[trigger] out.insert(p, x).filter(offset_is(k)) == if x.r_offset == k {
        out.filter(offset_is(k)).push(x)
    } else {
        out.filter(offset_is(k))
    } by {
        let pr = offset_is(k);
        Seq::filter_distributes_over_add(a.push(x), b, pr);
        Seq::filter_distributes_over_add(a, b, pr);
        a.lemma_filter_push(x, pr);
        if x.r_offset == k {
            assert forall|i: int| 0 <= i < b.len() implies !pr(b[i]) by {
                assert(b[i] == out[p + i]);
            }
            b.lemma_all_neg_filter_empty(pr);
            assert(b.filter(pr) =~= Seq::<Relocation>::empty());
            assert(a.filter(pr).push(x) + b.filter(pr) =~= (a.filter(pr) + b.filter(pr)).push(x));
        }
    }
}

/// Sorts relocations by offset, keeping the order of those at the same offset.
fn sort_by_offset(rs: Vec<Relocation>) -> (out: Vec<Relocation>)
    ensures
        in_offset_order(out@, rs@),
{
    let mut out: Vec<Relocation> = Vec::new();
    let mut i: usize = 0;
    while i < rs.len()
        invariant
            i <= rs@.len(),
            sorted_by_offset(out@),
            forall|k: u32| #[trigger] out@.filter(offset_is(k)) == rs@.take(i as int).filter(offset_is(k)),
        decreases rs@.len() - i,
    {
        let x = rs[i];
        let mut p: usize = 0;
        while p < out.len() && out[p].r_offset <= x.r_offset
            invariant
                p <= out@.len(),
                sorted_by_offset(out@),
                forall|j: int| 0 <= j < p ==> out@[j].r_offset <= x.r_offset,
            decreases out@.len() - p,
        {
            p += 1;
        }
        proof {
            assert forall|j: int| p <= j < out@.len() implies out@[j].r_offset > x.r_offset by {
                assert(out@[p as int].r_offset > x.r_offset);
            }
            lemma_insert_sorted(out@, p as int, x);
            assert(rs@.take(i + 1) =~= rs@.take(i as int).push(x));
            assert forall|k: u32| #[trigger] out@.insert(p as int, x).filter(offset_is(k)) == rs@.take(i + 1).filter(
                offset_is(k),
            ) by {
                rs@.take(i as int).lemma_filter_push(x, offset_is(k));
            }
        }
        out.insert(p, x);
        i += 1;
    }
    assert(rs@.take(i as int) =~= rs@);
    out
}

/// The relocations of `rs` that are not dropped.
fn keep_relocations(rs: &[Relocation], target: &str, modified: &HashSet<usize>, jtbl: &HashSet<usize>) -> (out: Vec<
    Relocation,
>)
    ensures
        out@ == kept_relocations(rs@, target@, modified@, jtbl@),
{
    broadcast use vstd::std_specs::hash::group_hash_axioms;

    let is_text = str_eq(target, ".text");
    let is_rodata = str_eq(target, ".rodata");
    let mut out: Vec<Relocation> = Vec::new();
    let mut i: usize = 0;
    while i < rs.len()
        invariant
            i <= rs@.len(),
            is_text == (target@ == ".text"@),
            is_rodata == (target@ == ".rodata"@),
            out@ == kept_relocations(rs@.take(i as int), target@, modified@, jtbl@),
        decreases rs@.len() - i,
    {
        assert(rs@.take(i + 1).drop_last() =~= rs@.take(i as int));
        let off = rs[i].r_offset as usize;
        let drop = (is_text && modified.contains(&off)) || (is_rodata && jtbl.contains(&off));
        if !drop {
            out.push(rs[i]);
        }
        i += 1;
    }
    assert(rs@.take(i as int) =~= rs@);
    out
}

/// The set of the positions of `ps`.
pub fn position_set(ps: &[usize]) -> (s: HashSet<usize>)
    ensures
        s@ == ps@.to_set(),
{
    broadcast use vstd::std_specs::hash::group_hash_axioms;

    let mut s: HashSet<usize> = HashSet::new();
    let mut i: usize = 0;
    while i < ps.len()
        invariant
            i <= ps@.len(),
            forall|x: usize| s@.contains(x) <==> exists|j: int| 0 <= j < i && ps@[j] == x,
        decreases ps@.len() - i,
    {
        s.insert(ps[i]);
        assert forall|x: usize| s@.contains(x) <==> exists|j: int| 0 <= j < i + 1 && ps@[j] == x by {
            if x == ps@[i as int] {
                assert(ps@[i as int] == x);
            }
        }
        i += 1;
    }
    assert(s@ =~= ps@.to_set()) by {
        assert forall|x: usize| s@.contains(x) <==> ps@.to_set().contains(x) by {
            if ps@.contains(x) {
                let j = choose|j: int| 0 <= j < ps@.len() && ps@[j] == x;
                assert(ps@[j] == x);
            }
        }
    }
    s
}

/// The entries of relocations in one byte order.
fn relocations_bytes(fmt: &crate::elf::format::ElfFormat, rs: &[Relocation]) -> (out: Vec<u8>)
    ensures
        out@ == relocations_data(fmt.is_big_endian, rs@),
{
    let mut out: Vec<u8> = Vec::new();
    let mut i: usize = 0;
    while i < rs.len()
        invariant
            i <= rs@.len(),
            out@ == relocations_data(fmt.is_big_endian, rs@.take(i as int)),
        decreases rs@.len() - i,
    {
        assert(rs@.take(i + 1).drop_last() =~= rs@.take(i as int));
        let mut b = rs[i].to_bytes(fmt);
        out.append(&mut b);
        i += 1;
    }
    assert(rs@.take(i as int) =~= rs@);
    out
}

/// Whether every relocation section of the file names an existing section in `sh_info`.
pub open spec fn rel_targets_ok(o: ElfFile) -> bool {
    forall|j: int| 0 <= j < o.sections@.len() ==> rel_target_ok(#[trigger] o.sections@[j], o.sections@.len() as int)
}

/// `n` is `o` with each relocation section rewritten in order, up to the first whose
/// `sh_info` names no section.
pub open spec fn relocations_processed(o: ElfFile, n: ElfFile, modified: Set<usize>, jtbl: Set<usize>) -> bool {
    let secs = o.sections@;
    let len = secs.len() as int;
    &&& n.header == o.header
    &&& n.fmt == o.fmt
    &&& n.symtab == o.symtab
    &&& n.sections@.len() == len
    &&& forall|i: int|
        0 <= i < len ==> if is_rel_section(#[trigger] secs[i]) && forall|j: int|
            0 <= j <= i ==> rel_target_ok(#[trigger] secs[j], len) {
            relocations_rewritten(n.sections@[i], secs[i], secs[secs[i].sh_info as int].name@, modified, jtbl)
        } else {
            n.sections@[i] == secs[i]
        }
}

/// Rewrites each relocation section, in order: its entries lose the relocations of
/// positions that the rewrite replaced (`modified_text_positions` in `.text`,
/// `jtbl_rodata_positions` in `.rodata`) and come in order of their offsets. A relocation
/// section whose `sh_info` names no section fails, after the sections before it were
/// rewritten.
pub fn process_relocations(
    objfile: &mut ElfFile,
    modified_text_positions: &HashSet<usize>,
    jtbl_rodata_positions: &HashSet<usize>,
) -> (r: Result<(), ObjFileError>)
    ensures
        relocations_processed(*old(objfile), *final(objfile), modified_text_positions@, jtbl_rodata_positions@),
        rel_targets_ok(*old(objfile)) ==> r is Ok,
        !rel_targets_ok(*old(objfile)) ==> (r matches Err(ObjFileError::SectionError(_))),
{
    let ghost secs = objfile.sections@;
    let ghost n = secs.len() as int;
    let mut i: usize = 0;
    while i < objfile.sections.len()
        invariant
            i <= n,
            n == secs.len(),
            objfile.header == old(objfile).header,
            objfile.fmt == old(objfile).fmt,
            objfile.symtab == old(objfile).symtab,
            secs == old(objfile).sections@,
            objfile.sections@.len() == n,
            forall|j: int| 0 <= j < i ==> rel_target_ok(#[trigger] secs[j], n),
            forall|j: int| 0 <= j < n ==> #[trigger] objfile.sections@[j].name == secs[j].name,
            forall|j: int|
                0 <= j < n ==> if is_rel_section(#[trigger] secs[j]) && j < i {
                    relocations_rewritten(
                        objfile.sections@[j],
                        secs[j],
                        secs[secs[j].sh_info as int].name@,
                        modified_text_positions@,
                        jtbl_rodata_positions@,
                    )
                } else {
                    objfile.sections@[j] == secs[j]
                },
        decreases n - i,
    {
        let sh_type = objfile.sections[i].sh_type;
        if sh_type == SHT_REL || sh_type == SHT_RELA {
            let target = objfile.sections[i].sh_info as usize;
            if target >= objfile.sections.len() {
                assert(!rel_target_ok(secs[i as int], n));
                return Err(ObjFileError::SectionError("Invalid relocation target section".to_owned()));
            }
            let kept = keep_relocations(
                objfile.sections[i].relocations.as_slice(),
                objfile.sections[target].name.as_str(),
                modified_text_positions,
                jtbl_rodata_positions,
            );
            let sorted = sort_by_offset(kept);
            let fmt = objfile.sections[i].fmt;
            let data = relocations_bytes(&fmt, sorted.as_slice());
            objfile.sections[i].data = data;
            assert(relocations_rewritten(
                objfile.sections@[i as int],
                secs[i as int],
                secs[target as int].name@,
                modified_text_positions@,
                jtbl_rodata_positions@,
            ));
        }
        i += 1;
    }
    Ok(())
}

/// The kinds of failure of the fixing up of an object file.
pub enum FixupFailure {
    /// A lookup in the ELF layer failed (`ObjFileError::ElfError`).
    Elf,
    /// A placeholder symbol is missing (`ObjFileError::SymbolError`).
    Symbol,
    /// A section is missing, or contents are not where they should be (`ObjFileError::SectionError`).
    Section,
    /// A size or position does not fit in 32 bits (`ObjFileError::ConversionError`).
    Conversion,
}

/// `e` is a failure of kind `k`.
pub open spec fn fails_as(e: ObjFileError, k: FixupFailure) -> bool {
    match k {
        FixupFailure::Elf => e is ElfError,
        FixupFailure::Symbol => e is SymbolError,
        FixupFailure::Section => e is SectionError,
        FixupFailure::Conversion => e is ConversionError,
    }
}

/// A piece of assembled contents that goes into the object file: the `count` bytes that the
/// assembler placed between the labels `{temp_name}_asm_start` and `{temp_name}_asm_end`,
/// copied to position `pos` of the section.
#[derive(Debug)]
pub struct SectionCopyData {
    pub pos: usize,
    pub count: usize,
    pub temp_name: String,
    pub fn_desc: String,
}

/// The sections that contents are copied into, in the order in which they are handled.
pub open spec fn copied_section(i: int) -> Seq<char> {
    if i == 0 {
        ".data"@
    } else if i == 1 {
        ".text"@
    } else if i == 2 {
        ".rodata"@
    } else {
        ".bss"@
    }
}

/// The first position of `secs` that holds a section called `name`.
pub open spec fn first_section(secs: Seq<ElfSection>, name: Seq<char>) -> int {
    choose|i: int|
        0 <= i < secs.len() && secs[i].name@ == name && forall|j: int| 0 <= j < i ==> secs[j].name@ != name
}

/// Whether some section of `secs` is called `name`.
pub open spec fn has_section(secs: Seq<ElfSection>, name: Seq<char>) -> bool {
    exists|i: int| 0 <= i < secs.len() && secs[i].name@ == name
}

proof fn lemma_first_section(secs: Seq<ElfSection>, name: Seq<char>, i: int)
    requires
        0 <= i < secs.len(),
        secs[i].name@ == name,
        forall|j: int| 0 <= j < i ==> secs[j].name@ != name,
    ensures
        first_section(secs, name) == i,
        has_section(secs, name),
{
    let f = first_section(secs, name);
    assert(0 <= f < secs.len() && secs[f].name@ == name && forall|j: int| 0 <= j < f ==> secs[j].name@ != name);
    if f < i {
        assert(secs[f].name@ != name);
    }
    if i < f {
        assert(secs[i].name@ != name);
    }
}

/// The value of the first symbol called `name` in the file's symbol table, where it belongs
/// to the section whose `index` is `section_index`.
pub open spec fn symbol_in_section(obj: ElfFile, name: Seq<char>, section_index: int) -> Option<u32> {
    if obj.symtab < obj.sections@.len() {
        let st = obj.sections@[obj.symtab as int];
        if st.sh_type == crate::elf::constants::SHT_SYMTAB && crate::elf::section::has_symbol_named(st.symbols@, name) {
            let sym = st.symbols@[crate::elf::section::first_named(st.symbols@, name)];
            if sym.st_shndx == section_index {
                Some(sym.st_value)
            } else {
                None
            }
        } else {
            None
        }
    } else {
        None
    }
}

/// The pieces of `to_copy` that go into section `s`: their labels' base name, position and
/// size, in order.
pub open spec fn entries_for(to_copy: Seq<(String, SectionCopyData)>, s: Seq<char>) -> Seq<(Seq<char>, int, int)>
    decreases to_copy.len(),
{
    if to_copy.len() == 0 {
        Seq::empty()
    } else {
        let rest = entries_for(to_copy.drop_last(), s);
        let e = to_copy.last();
        if e.0@ == s {
            rest.push((e.1.temp_name@, e.1.pos as int, e.1.count as int))
        } else {
            rest
        }
    }
}

/// Copying one piece: its bytes sit between its two labels in `src` of the assembled file,
/// and go to its position in `data`.
pub open spec fn copy_entry(data: Seq<u8>, src: ElfSection, assembled: ElfFile, e: (Seq<char>, int, int)) -> Result<
    Seq<u8>,
    FixupFailure,
> {
    let (temp, pos, count) = e;
    match symbol_in_section(assembled, temp + "_asm_start"@, src.index as int) {
        None => Err(FixupFailure::Elf),
        Some(a) => match symbol_in_section(assembled, temp + "_asm_end"@, src.index as int) {
            None => Err(FixupFailure::Elf),
            Some(b) => if b < a {
                Err(FixupFailure::Section)
            } else if count > u32::MAX {
                Err(FixupFailure::Conversion)
            } else if b - a != count {
                Err(FixupFailure::Section)
            } else if pos + count > data.len() || b > src.data@.len() {
                Err(FixupFailure::Section)
            } else {
                Ok(data.take(pos) + src.data@.subrange(a as int, b as int) + data.skip(pos + count))
            },
        },
    }
}

/// Copying the pieces `es`, in order.
pub open spec fn copy_entries(data: Seq<u8>, src: ElfSection, assembled: ElfFile, es: Seq<(Seq<char>, int, int)>) -> Result<
    Seq<u8>,
    FixupFailure,
>
    decreases es.len(),
{
    if es.len() == 0 {
        Ok(data)
    } else {
        match copy_entries(data, src, assembled, es.drop_last()) {
            Err(k) => Err(k),
            Ok(d) => copy_entry(d, src, assembled, es.last()),
        }
    }
}

/// What copying into section `s` does: nothing where no piece goes there; else the section
/// must exist in the assembled file and, but for `.bss`, which has no contents, in the
/// object file, whose first section of that name gets the new contents.
#[verifier::opaque]
pub open spec fn copy_step(secs: Seq<ElfSection>, assembled: ElfFile, to_copy: Seq<(String, SectionCopyData)>, s: Seq<char>) -> Result<
    Option<(int, Seq<u8>)>,
    FixupFailure,
> {
    let es = entries_for(to_copy, s);
    if es.len() == 0 {
        Ok(None)
    } else if !has_section(assembled.sections@, s) {
        Err(FixupFailure::Section)
    } else if s == ".bss"@ {
        Ok(None)
    } else if !has_section(secs, s) {
        Err(FixupFailure::Section)
    } else {
        let t = first_section(secs, s);
        let src = assembled.sections@[first_section(assembled.sections@, s)];
        match copy_entries(secs[t].data@, src, assembled, es) {
            Err(k) => Err(k),
            Ok(d) => Ok(Some((t, d))),
        }
    }
}

/// Looks a label up in the assembled file's symbol table, within one section.
pub(crate) fn label_value(assembled: &ElfFile, name: &str, src: &ElfSection) -> (r: Result<u32, ObjFileError>)
    ensures
        match symbol_in_section(*assembled, name@, src.index as int) {
            Some(v) => r == Ok::<u32, ObjFileError>(v),
            None => r matches Err(ObjFileError::ElfError(_)),
        },
{
    if assembled.symtab >= assembled.sections.len() {
        return Err(ObjFileError::ElfError("No symbol table found".to_owned()));
    }
    let st = &assembled.sections[assembled.symtab];
    match st.find_symbol_in_section(name, src) {
        Ok(v) => Ok(v),
        Err(e) => Err(ObjFileError::from_error(e)),
    }
}

/// `base` followed by `suffix`.
fn name_with(base: &str, suffix: &str) -> (s: String)
    ensures
        s@ == base@ + suffix@,
{
    let mut s = base.to_owned();
    vstd::string::StringExecFns::append(&mut s, suffix);
    s
}

/// The pieces for a section from a prefix of `to_copy` are a prefix of its pieces.
proof fn lemma_entries_for_prefix(to_copy: Seq<(String, SectionCopyData)>, s: Seq<char>, i: int)
    requires
        0 <= i <= to_copy.len(),
    ensures
        entries_for(to_copy.take(i), s).len() <= entries_for(to_copy, s).len(),
        entries_for(to_copy, s).take(entries_for(to_copy.take(i), s).len() as int) == entries_for(to_copy.take(i), s),
    decreases to_copy.len() - i,
{
    if i == to_copy.len() {
        assert(to_copy.take(i) =~= to_copy);
        assert(entries_for(to_copy, s).take(entries_for(to_copy, s).len() as int) =~= entries_for(to_copy, s));
    } else {
        let t = to_copy.drop_last();
        lemma_entries_for_prefix(t, s, i);
        assert(t.take(i) =~= to_copy.take(i));
        let short = entries_for(to_copy.take(i), s);
        let mid = entries_for(t, s);
        let full = entries_for(to_copy, s);
        assert(full.take(short.len() as int) =~= mid.take(short.len() as int));
    }
}

/// A failure on a prefix of the pieces is the failure of all of them.
proof fn lemma_copy_entries_prefix_err(
    data: Seq<u8>,
    src: ElfSection,
    assembled: ElfFile,
    es: Seq<(Seq<char>, int, int)>,
    n: int,
)
    requires
        0 <= n <= es.len(),
        copy_entries(data, src, assembled, es.take(n)) is Err,
    ensures
        copy_entries(data, src, assembled, es) == copy_entries(data, src, assembled, es.take(n)),
    decreases es.len() - n,
{
    if n == es.len() {
        assert(es.take(n) =~= es);
    } else {
        let t = es.drop_last();
        assert(t.take(n) =~= es.take(n));
        lemma_copy_entries_prefix_err(data, src, assembled, t, n);
    }
}

/// Copies the pieces for section `s` into `data`, as `copy_entries` says.
fn copy_pieces(
    data: &mut Vec<u8>,
    src: &ElfSection,
    assembled: &ElfFile,
    to_copy: &[(String, SectionCopyData)],
    s: &str,
) -> (r: Result<(), ObjFileError>)
    ensures
        match copy_entries(old(data)@, *src, *assembled, entries_for(to_copy@, s@)) {
            Ok(d) => r is Ok && final(data)@ == d,
            Err(k) => r matches Err(e) && fails_as(e, k),
        },
{
    let mut i: usize = 0;
    let ghost d0 = data@;
    while i < to_copy.len()
        invariant
            i <= to_copy@.len(),
            copy_entries(d0, *src, *assembled, entries_for(to_copy@.take(i as int), s@)) == Ok::<Seq<u8>, FixupFailure>(data@),
            d0 == old(data)@,
        decreases to_copy@.len() - i,
    {
        let ghost before = data@;
        assert(to_copy@.take(i + 1).drop_last() =~= to_copy@.take(i as int));
        proof {
            lemma_entries_for_prefix(to_copy@, s@, i + 1);
            let es = entries_for(to_copy@, s@);
            let n = entries_for(to_copy@.take(i + 1), s@).len() as int;
            if copy_entries(d0, *src, *assembled, entries_for(to_copy@.take(i + 1), s@)) is Err {
                lemma_copy_entries_prefix_err(d0, *src, *assembled, es, n);
            }
        }
        let (sectype, c) = (&to_copy[i].0, &to_copy[i].1);
        if str_eq(sectype.as_str(), s) {
            proof {
                let es1 = entries_for(to_copy@.take(i + 1), s@);
                assert(es1 == entries_for(to_copy@.take(i as int), s@).push((c.temp_name@, c.pos as int, c.count as int)));
                assert(es1.drop_last() == entries_for(to_copy@.take(i as int), s@));
                assert(es1.last() == (c.temp_name@, c.pos as int, c.count as int));
            }
            let start = name_with(c.temp_name.as_str(), "_asm_start");
            let end = name_with(c.temp_name.as_str(), "_asm_end");
            let a = match label_value(assembled, start.as_str(), src) {
                Ok(v) => v,
                Err(e) => {
                    return Err(e);
                },
            };
            let b = match label_value(assembled, end.as_str(), src) {
                Ok(v) => v,
                Err(e) => {
                    return Err(e);
                },
            };
            if b < a {
                return Err(ObjFileError::SectionError("Incorrectly computed size for section".to_owned()));
            }
            let count = match usize_to_u32(c.count) {
                Ok(v) => v,
                Err(e) => {
                    return Err(e);
                },
            };
            if b - a != count {
                let mut msg = "Incorrectly computed size for section ".to_owned();
                vstd::string::StringExecFns::append(&mut msg, s);
                vstd::string::StringExecFns::append(&mut msg, ", ");
                vstd::string::StringExecFns::append(&mut msg, c.fn_desc.as_str());
                return Err(ObjFileError::SectionError(msg));
            }
            let data_len = data.len();
            let src_len = src.data.len();
            if c.pos > data_len || c.count > data_len - c.pos || b as usize > src_len {
                return Err(ObjFileError::SectionError("Copied contents out of range".to_owned()));
            }
            let mut k: usize = 0;
            while k < c.count
                invariant
                    k <= c.count,
                    c.pos + c.count <= data@.len(),
                    data@.len() <= usize::MAX,
                    src.data@.len() <= usize::MAX,
                    a as int + c.count == b as int,
                    b as int <= src.data@.len(),
                    data@.len() == before.len(),
                    forall|m: int| 0 <= m < c.pos ==> data@[m] == before[m],
                    forall|m: int| c.pos + k <= m < before.len() ==> data@[m] == before[m],
                    forall|m: int| c.pos <= m < c.pos + k ==> #[trigger] data@[m] == src.data@[a + m - c.pos],
                decreases c.count - k,
            {
                data.set(c.pos + k, src.data[a as usize + k]);
                k += 1;
            }
            assert(data@ =~= before.take(c.pos as int) + src.data@.subrange(a as int, b as int) + before.skip(
                c.pos + c.count,
            ));
        }
        i += 1;
    }
    assert(to_copy@.take(i as int) =~= to_copy@);
    Ok(())
}

/// A copy step reads only the names of the sections and the contents of its own section, so
/// a step for another section does not change what it does.
proof fn lemma_copy_step_frame(
    s0: Seq<ElfSection>,
    s1: Seq<ElfSection>,
    t: int,
    assembled: ElfFile,
    to_copy: Seq<(String, SectionCopyData)>,
    s: Seq<char>,
)
    requires
        0 <= t < s0.len(),
        s1.len() == s0.len(),
        s0[t].name@ != s,
        s1[t].name == s0[t].name,
        forall|i: int| 0 <= i < s0.len() && i != t ==> s1[i] == s0[i],
    ensures
        copy_step(s1, assembled, to_copy, s) == copy_step(s0, assembled, to_copy, s),
{
    reveal(copy_step);
    if has_section(s0, s) {
        let w = choose|i: int| 0 <= i < s0.len() && s0[i].name@ == s;
        let f0 = first_section(s0, s);
        assert(0 <= f0 < s0.len() && s0[f0].name@ == s && forall|j: int| 0 <= j < f0 ==> s0[j].name@ != s) by {
            lemma_first_exists(s0, s, w);
        }
        assert forall|j: int| 0 <= j < f0 implies s1[j].name@ != s by {
            if j != t {
                assert(s1[j] == s0[j]);
            }
        }
        assert(f0 != t);
        assert(s1[f0] == s0[f0]);
        lemma_first_section(s1, s, f0);
    } else {
        assert forall|i: int| 0 <= i < s1.len() implies s1[i].name@ != s by {
            if i != t {
                assert(s1[i] == s0[i]);
            }
        }
    }
}

/// Where a section of some name exists, a first one does.
proof fn lemma_first_exists(secs: Seq<ElfSection>, name: Seq<char>, w: int)
    requires
        0 <= w < secs.len(),
        secs[w].name@ == name,
    ensures
        ({
            let f = first_section(secs, name);
            0 <= f < secs.len() && secs[f].name@ == name && forall|j: int| 0 <= j < f ==> secs[j].name@ != name
        }),
    decreases w,
{
    if forall|j: int| 0 <= j < w ==> secs[j].name@ != name {
        lemma_first_section(secs, name, w);
    } else {
        let j = choose|j: int| 0 <= j < w && secs[j].name@ == name;
        lemma_first_exists(secs, name, j);
    }
}

/// The index of the first section of `secs` called `name`.
fn first_section_index(secs: &Vec<ElfSection>, name: &str) -> (r: Option<usize>)
    ensures
        r is Some <==> has_section(secs@, name@),
        r matches Some(i) ==> i == first_section(secs@, name@) && i < secs@.len() && secs@[i as int].name@ == name@,
{
    let mut i: usize = 0;
    while i < secs.len()
        invariant
            i <= secs@.len(),
            forall|j: int| 0 <= j < i ==> secs@[j].name@ != name@,
        decreases secs@.len() - i,
    {
        if str_eq(secs[i].name.as_str(), name) {
            proof {
                lemma_first_section(secs@, name@, i as int);
            }
            return Some(i);
        }
        i += 1;
    }
    None
}

/// After the copy step for `done` took `s0` to `s1`, the copy step for another section
/// `next` does the same on both.
proof fn lemma_step_frame(
    s0: Seq<ElfSection>,
    s1: Seq<ElfSection>,
    assembled: ElfFile,
    to_copy: Seq<(String, SectionCopyData)>,
    done: Seq<char>,
    next: Seq<char>,
)
    requires
        done != next,
        match copy_step(s0, assembled, to_copy, done) {
            Err(_) => false,
            Ok(None) => s1 == s0,
            Ok(Some((t, d))) => {
                &&& 0 <= t < s0.len()
                &&& s0[t].name@ == done
                &&& s1 == s0.update(t, ElfSection { data: s1[t].data, ..s0[t] })
            },
        },
    ensures
        copy_step(s1, assembled, to_copy, next) == copy_step(s0, assembled, to_copy, next),
{
    if let Ok(Some((t, d))) = copy_step(s0, assembled, to_copy, done) {
        lemma_copy_step_frame(s0, s1, t, assembled, to_copy, next);
    }
}

/// One copy step, as `copy_step` says.
fn copy_section(
    objfile: &mut ElfFile,
    assembled: &ElfFile,
    to_copy: &[(String, SectionCopyData)],
    s: &str,
) -> (r: Result<(), ObjFileError>)
    ensures
        final(objfile).header == old(objfile).header,
        final(objfile).fmt == old(objfile).fmt,
        final(objfile).symtab == old(objfile).symtab,
        match copy_step(old(objfile).sections@, *assembled, to_copy@, s@) {
            Err(k) => r matches Err(e) && fails_as(e, k) && final(objfile).sections@ == old(objfile).sections@,
            Ok(None) => r is Ok && final(objfile).sections@ == old(objfile).sections@,
            Ok(Some((t, d))) => {
                &&& r is Ok
                &&& 0 <= t < old(objfile).sections@.len()
                &&& old(objfile).sections@[t].name@ == s@
                &&& final(objfile).sections@ == old(objfile).sections@.update(
                    t,
                    ElfSection { data: final(objfile).sections@[t].data, ..old(objfile).sections@[t] },
                )
                &&& final(objfile).sections@[t].data@ == d
            },
        },
{
    reveal(copy_step);
    let ghost secs = objfile.sections@;
    let mut any = false;
    let mut i: usize = 0;
    while i < to_copy.len()
        invariant
            i <= to_copy@.len(),
            any == (entries_for(to_copy@.take(i as int), s@).len() > 0),
        decreases to_copy@.len() - i,
    {
        assert(to_copy@.take(i + 1).drop_last() =~= to_copy@.take(i as int));
        if str_eq(to_copy[i].0.as_str(), s) {
            any = true;
        }
        i += 1;
    }
    assert(to_copy@.take(i as int) =~= to_copy@);
    if !any {
        return Ok(());
    }
    let src_index = match first_section_index(&assembled.sections, s) {
        Some(k) => k,
        None => {
            let mut msg = "Section not found: ".to_owned();
            vstd::string::StringExecFns::append(&mut msg, s);
            return Err(ObjFileError::SectionError(msg));
        },
    };
    if str_eq(s, ".bss") {
        return Ok(());
    }
    let t = match first_section_index(&objfile.sections, s) {
        Some(k) => k,
        None => {
            let mut msg = "Target section not found: ".to_owned();
            vstd::string::StringExecFns::append(&mut msg, s);
            return Err(ObjFileError::SectionError(msg));
        },
    };
    proof {
        lemma_first_exists(secs, s@, t as int);
    }
    let mut data = objfile.sections[t].data.clone();
    let src = &assembled.sections[src_index];
    match copy_pieces(&mut data, src, assembled, to_copy, s) {
        Err(e) => Err(e),
        Ok(()) => {
            objfile.sections[t].data = data;
            assert(objfile.sections@ =~= secs.update(
                t as int,
                ElfSection { data: objfile.sections@[t as int].data, ..secs[t as int] },
            ));
            Ok(())
        },
    }
}

/// The copy steps for the first `n` sections, in order, up to the first that fails: what
/// each of them updates, and the failure, if one did.
pub open spec fn copy_run(
    secs: Seq<ElfSection>,
    assembled: ElfFile,
    to_copy: Seq<(String, SectionCopyData)>,
    n: int,
) -> (Seq<Option<(int, Seq<u8>)>>, Option<FixupFailure>)
    decreases n,
{
    if n <= 0 {
        (Seq::empty(), None)
    } else {
        let (us, f) = copy_run(secs, assembled, to_copy, n - 1);
        if f is Some {
            (us, f)
        } else {
            match copy_step(secs, assembled, to_copy, copied_section(n - 1)) {
                Err(k) => (us, Some(k)),
                Ok(u) => (us.push(u), None),
            }
        }
    }
}

/// The contents that the updates `us` give section `i`, the last one winning.
pub open spec fn update_for(us: Seq<Option<(int, Seq<u8>)>>, i: int) -> Option<Seq<u8>>
    decreases us.len(),
{
    if us.len() == 0 {
        None
    } else {
        match us.last() {
            Some((t, d)) => if t == i {
                Some(d)
            } else {
                update_for(us.drop_last(), i)
            },
            None => update_for(us.drop_last(), i),
        }
    }
}

/// `fin` is `secs` with the contents that the updates `us` give.
pub open spec fn updated_by(secs: Seq<ElfSection>, fin: Seq<ElfSection>, us: Seq<Option<(int, Seq<u8>)>>) -> bool {
    &&& fin.len() == secs.len()
    &&& forall|i: int|
        0 <= i < secs.len() ==> match #[trigger] update_for(us, i) {
            None => fin[i] == secs[i],
            Some(d) => fin[i] == (ElfSection { data: fin[i].data, ..secs[i] }) && fin[i].data@ == d,
        }
}

/// The names of the copied sections differ from one another.
proof fn lemma_copied_sections_distinct()
    ensures
        forall|i: int, j: int| 0 <= i < 4 && 0 <= j < 4 && i != j ==> copied_section(i) != copied_section(j),
{
    lemma_section_names();
}

/// Once a copy step fails, the run stays as it was.
proof fn lemma_copy_run_stops(
    secs: Seq<ElfSection>,
    assembled: ElfFile,
    to_copy: Seq<(String, SectionCopyData)>,
    m: int,
    n: int,
)
    requires
        0 <= m <= n,
        copy_run(secs, assembled, to_copy, m).1 is Some,
    ensures
        copy_run(secs, assembled, to_copy, n) == copy_run(secs, assembled, to_copy, m),
    decreases n - m,
{
    if m < n {
        lemma_copy_run_stops(secs, assembled, to_copy, m, n - 1);
    }
}

/// A successful step extends the run: the sections it leaves are those that the longer run
/// describes.
proof fn lemma_run_extend(
    s0: Seq<ElfSection>,
    before: Seq<ElfSection>,
    after: Seq<ElfSection>,
    assembled: ElfFile,
    to_copy: Seq<(String, SectionCopyData)>,
    si: int,
)
    requires
        0 <= si < 4,
        copy_run(s0, assembled, to_copy, si).1 is None,
        updated_by(s0, before, copy_run(s0, assembled, to_copy, si).0),
        copy_step(before, assembled, to_copy, copied_section(si)) == copy_step(
            s0,
            assembled,
            to_copy,
            copied_section(si),
        ),
        match copy_step(before, assembled, to_copy, copied_section(si)) {
            Err(_) => false,
            Ok(None) => after == before,
            Ok(Some((t, d))) => {
                &&& 0 <= t < before.len()
                &&& after == before.update(t, ElfSection { data: after[t].data, ..before[t] })
                &&& after[t].data@ == d
            },
        },
    ensures
        copy_run(s0, assembled, to_copy, si + 1).1 is None,
        updated_by(s0, after, copy_run(s0, assembled, to_copy, si + 1).0),
{
    let us = copy_run(s0, assembled, to_copy, si).0;
    let us2 = copy_run(s0, assembled, to_copy, si + 1).0;
    assert(us2.drop_last() == us);
    assert forall|i: int| 0 <= i < s0.len() implies match #[trigger] update_for(us2, i) {
        None => after[i] == s0[i],
        Some(d) => after[i] == (ElfSection { data: after[i].data, ..s0[i] }) && after[i].data@ == d,
    } by {
        assert(update_for(us, i) == update_for(us, i));
    }
}

/// `n` is `o` with the contents that the copy steps, up to the first that fails, give.
pub open spec fn sections_copied(
    o: ElfFile,
    n: ElfFile,
    assembled: ElfFile,
    to_copy: Seq<(String, SectionCopyData)>,
) -> bool {
    &&& n.header == o.header
    &&& n.fmt == o.fmt
    &&& n.symtab == o.symtab
    &&& updated_by(o.sections@, n.sections@, copy_run(o.sections@, assembled, to_copy, 4).0)
}

/// Copies the assembled contents into the object file, section by section (`.data`, `.text`,
/// `.rodata`, `.bss`), as `copy_run` says. A failing step ends the copying; the sections
/// filled before keep their new contents.
pub fn process_sections(
    objfile: &mut ElfFile,
    assembled: &ElfFile,
    to_copy: &[(String, SectionCopyData)],
) -> (r: Result<(), ObjFileError>)
    ensures
        sections_copied(*old(objfile), *final(objfile), *assembled, to_copy@),
        match copy_run(old(objfile).sections@, *assembled, to_copy@, 4).1 {
            None => r is Ok,
            Some(k) => r matches Err(e) && fails_as(e, k),
        },
{
    proof {
        lemma_section_names();
    }
    let ghost s0 = objfile.sections@;
    let ghost a = *assembled;
    let ghost tc = to_copy@;
    proof {
        assert forall|i: int| 0 <= i < s0.len() implies match #[trigger] update_for(copy_run(s0, a, tc, 0).0, i) {
            None => s0[i] == s0[i],
            Some(d) => s0[i] == (ElfSection { data: s0[i].data, ..s0[i] }) && s0[i].data@ == d,
        } by {}
    }
    let names = [".data", ".text", ".rodata", ".bss"];
    let mut si: usize = 0;
    while si < 4
        invariant
            si <= 4,
            s0 == old(objfile).sections@,
            a == *assembled,
            tc == to_copy@,
            names@ == seq![".data", ".text", ".rodata", ".bss"],
            objfile.header == old(objfile).header,
            objfile.fmt == old(objfile).fmt,
            objfile.symtab == old(objfile).symtab,
            copy_run(s0, a, tc, si as int).1 is None,
            updated_by(s0, objfile.sections@, copy_run(s0, a, tc, si as int).0),
            forall|n: int| si <= n < 4 ==> #[trigger] copy_step(objfile.sections@, a, tc, copied_section(n))
                == copy_step(s0, a, tc, copied_section(n)),
        decreases 4 - si,
    {
        let name = names[si];
        assert(name@ == copied_section(si as int));
        let ghost before = objfile.sections@;
        let r = copy_section(objfile, assembled, to_copy, name);
        match r {
            Err(e) => {
                proof {
                    lemma_copy_run_stops(s0, a, tc, si + 1, 4);
                }
                return Err(e);
            },
            Ok(()) => {},
        }
        proof {
            lemma_copied_sections_distinct();
            lemma_run_extend(s0, before, objfile.sections@, a, tc, si as int);
            assert forall|n: int| si + 1 <= n < 4 implies #[trigger] copy_step(objfile.sections@, a, tc, copied_section(n))
                == copy_step(s0, a, tc, copied_section(n)) by {
                lemma_step_frame(before, objfile.sections@, a, tc, copied_section(si as int), copied_section(n));
            }
        }
        si += 1;
    }
    Ok(())
}

} // verus!
