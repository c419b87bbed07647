use crate::elf::constants::{
    MIPS_DEBUG_ST_STATIC,
    MIPS_DEBUG_ST_STATIC_PROC,
    MIPS_DEBUG_ST_FILE,
    MIPS_DEBUG_ST_STRUCT,
    MIPS_DEBUG_ST_UNION,
    MIPS_DEBUG_ST_ENUM,
    MIPS_DEBUG_ST_BLOCK,
    MIPS_DEBUG_ST_PROC,
    MIPS_DEBUG_ST_END,
    STT_FUNC,
    STT_OBJECT,
    STB_LOCAL,
    STB_GLOBAL,
    STV_DEFAULT,
};
use crate::elf::file::ElfFile;
use crate::elf::format::{ElfFormat, u32_at};
use crate::elf::section::{ElfSection, strtab_string_at, first_nul_from, lemma_first_nul_from};
use crate::elf::symbol::{Symbol, info_bind};
use crate::objfile::{ObjFileError, FixupFailure, fails_as, has_section, first_section, lemma_first_section};
use crate::utils::text::{str_eq, string_from_utf8, decimal, usize_to_string};
use vstd::prelude::*;
use vstd::slice::{slice_subrange, slice_to_vec};
use vstd::string::{StringExecFns, StringSliceAdditionalSpecFns};
use vstd::utf8::{encode_utf8, valid_utf8, decode_utf8};

verus! {

/// What the `.mdebug` symbols are read against: the section's contents and their file
/// position (the tables' offsets are file positions), the offsets of the symbol and string
/// tables, how statics are converted, the object file's name and its sections.
pub struct MdContext {
    pub big: bool,
    pub data: Seq<u8>,
    pub base: int,
    pub cb_sym: int,
    pub cb_ss: int,
    pub convert: Seq<char>,
    pub objname: Seq<char>,
    pub secs: Seq<ElfSection>,
}

/// A symbol made for a static variable or function: its name, its name's string table
/// offset, value, info byte and section index.
pub struct MdSym {
    pub name: Seq<char>,
    pub st_name: u32,
    pub value: u32,
    pub info: u8,
    pub shndx: u16,
}

/// The reading of the `.mdebug` symbols as it goes: the symbols made, the string table
/// offset of the next name, the names to append to the string table, how often each nested
/// static's name was seen, and the scope depth.
pub struct MdState {
    pub syms: Seq<MdSym>,
    pub strtab_index: int,
    pub new_strtab: Seq<u8>,
    pub counts: Map<Seq<char>, int>,
    pub scope: int,
}

/// The word at file position `p`, where it lies within the section.
pub open spec fn md_word(c: MdContext, p: int) -> Option<u32> {
    if c.base <= p && p - c.base + 4 <= c.data.len() {
        Some(u32_at(c.big, c.data, p - c.base))
    } else {
        None
    }
}

/// The zero-terminated string at file position `p`, where it lies within the section and
/// is valid UTF-8.
pub open spec fn md_string(c: MdContext, p: int) -> Option<Seq<char>> {
    if c.base <= p && p - c.base <= c.data.len() {
        strtab_string_at(c.data, p - c.base)
    } else {
        None
    }
}

/// Whether a symbol type is a static variable or a static procedure.
pub open spec fn is_static(st: u32) -> bool {
    st == MIPS_DEBUG_ST_STATIC || st == MIPS_DEBUG_ST_STATIC_PROC
}

/// How a symbol type changes the scope depth: files, aggregates, blocks and procedures open
/// a scope, an end closes one.
pub open spec fn scope_delta(st: u32) -> int {
    if st == MIPS_DEBUG_ST_FILE || st == MIPS_DEBUG_ST_STRUCT || st == MIPS_DEBUG_ST_UNION || st
        == MIPS_DEBUG_ST_ENUM || st == MIPS_DEBUG_ST_BLOCK || st == MIPS_DEBUG_ST_PROC || st
        == MIPS_DEBUG_ST_STATIC_PROC {
        1
    } else if st == MIPS_DEBUG_ST_END {
        -1
    } else {
        0
    }
}

/// The section of a storage class: text, data, bss and read-only data.
pub open spec fn sc_section(sc: u32) -> Option<Seq<char>> {
    if sc == 1 {
        Some(".text"@)
    } else if sc == 2 {
        Some(".data"@)
    } else if sc == 3 {
        Some(".bss"@)
    } else if sc == 15 {
        Some(".rodata"@)
    } else {
        None
    }
}

/// The binding of the symbols made: global where statics become global, local otherwise.
pub open spec fn md_binding(convert: Seq<char>) -> u8 {
    if convert == "global"@ || convert == "global-with-filename"@ {
        STB_GLOBAL
    } else {
        STB_LOCAL
    }
}

/// Reading the symbol at index `k` of the symbol table, whose names start at `iss_base` in
/// the string table. A static in a known section becomes a symbol; a static nested more than
/// one scope deep gets its name numbered; with `global-with-filename` the object file's name
/// comes first. A static in another storage class is passed over, its scope effect too.
pub open spec fn md_sym_step(c: MdContext, s: MdState, iss_base: u32, k: int) -> Result<MdState, FixupFailure> {
    let p = c.cb_sym + 12 * k;
    match (md_word(c, p), md_word(c, p + 4), md_word(c, p + 8)) {
        (Some(iss), Some(value), Some(ssi)) => {
            let st = ssi >> 26u32;
            let sc = (ssi >> 21u32) & 0x1fu32;
            if !is_static(st) {
                Ok(MdState { scope: s.scope + scope_delta(st), ..s })
            } else {
                match md_string(c, c.cb_ss + iss_base + iss) {
                    None => Err(FixupFailure::Elf),
                    Some(name) => md_static_step(c, s, name, value, st, sc),
                }
            }
        },
        _ => Err(FixupFailure::Section),
    }
}

/// A static called `name`, with value `value`, symbol type `st` and storage class `sc`.
pub open spec fn md_static_step(c: MdContext, s: MdState, name: Seq<char>, value: u32, st: u32, sc: u32) -> Result<
    MdState,
    FixupFailure,
> {
    let nested = s.scope > 1;
    let cnt = if s.counts.contains_key(name) {
        s.counts[name] + 1
    } else {
        1
    };
    let counts = if nested {
        s.counts.insert(name, cnt)
    } else {
        s.counts
    };
    let final_name = if nested {
        name + ":"@ + decimal(cnt as nat)
    } else {
        name
    };
    let emitted = if c.convert == "global-with-filename"@ {
        c.objname + ":"@ + final_name
    } else {
        final_name
    };
    if nested && cnt > usize::MAX {
        Err(FixupFailure::Conversion)
    } else {
        match sc_section(sc) {
            None => Ok(MdState { counts, ..s }),
            Some(sn) => if !has_section(c.secs, sn) {
                Err(FixupFailure::Section)
            } else {
                let sec = c.secs[first_section(c.secs, sn)];
                let typ: u8 = if sc == 1 {
                    STT_FUNC
                } else {
                    STT_OBJECT
                };
                let sym = MdSym {
                    name: emitted,
                    st_name: s.strtab_index as u32,
                    value,
                    info: (md_binding(c.convert) << 4u8) | typ,
                    shndx: sec.index as u16,
                };
                let bytes = encode_utf8(emitted);
                Ok(
                    MdState {
                        syms: s.syms.push(sym),
                        strtab_index: s.strtab_index + bytes.len() + 1,
                        new_strtab: s.new_strtab + bytes + seq![0u8],
                        counts,
                        scope: s.scope + scope_delta(st),
                    },
                )
            },
        }
    }
}

/// Reading the first `n` symbols of a file descriptor, from index `isym_base` on.
pub open spec fn md_syms_step(c: MdContext, s: MdState, iss_base: u32, isym_base: u32, n: int) -> Result<
    MdState,
    FixupFailure,
>
    decreases n,
{
    if n <= 0 {
        Ok(s)
    } else {
        match md_syms_step(c, s, iss_base, isym_base, n - 1) {
            Err(k) => Err(k),
            Ok(s1) => md_sym_step(c, s1, iss_base, isym_base + n - 1),
        }
    }
}

/// Reading the symbols of file descriptor `i`: they start at scope depth 0 and must end
/// there.
pub open spec fn md_fd_step(c: MdContext, s: MdState, cb_fd: int, i: int) -> Result<MdState, FixupFailure> {
    let off = cb_fd + 72 * i;
    match (md_word(c, off + 8), md_word(c, off + 16), md_word(c, off + 20)) {
        (Some(iss_base), Some(isym_base), Some(csym)) => match md_syms_step(
            c,
            MdState { scope: 0, ..s },
            iss_base,
            isym_base,
            csym as int,
        ) {
            Err(k) => Err(k),
            Ok(s1) => if s1.scope != 0 {
                Err(FixupFailure::Section)
            } else {
                Ok(s1)
            },
        },
        _ => Err(FixupFailure::Section),
    }
}

/// Reading the first `n` file descriptors.
pub open spec fn md_fds_step(c: MdContext, s: MdState, cb_fd: int, n: int) -> Result<MdState, FixupFailure>
    decreases n,
{
    if n <= 0 {
        Ok(s)
    } else {
        match md_fds_step(c, s, cb_fd, n - 1) {
            Err(k) => Err(k),
            Ok(s1) => md_fd_step(c, s1, cb_fd, n - 1),
        }
    }
}

/// The string table that the symbol table links to.
pub open spec fn linked_strtab(o: ElfFile) -> int {
    o.sections@[o.symtab as int].sh_link as int
}

/// What reading the `.mdebug` symbols of a file gives: its symbol table must link to a string
/// table; the symbolic header gives the number of file descriptors and the file positions of
/// their table, of the symbol table and of the string table.
pub open spec fn mdebug_outcome(o: ElfFile, convert: Seq<char>, objname: Seq<char>) -> Result<MdState, FixupFailure> {
    let secs = o.sections@;
    let md = secs[first_section(secs, ".mdebug"@)];
    let big = o.fmt.is_big_endian;
    if !(o.symtab < secs.len() && linked_strtab(o) < secs.len()) {
        Err(FixupFailure::Elf)
    } else if md.data@.len() < 80 {
        Err(FixupFailure::Section)
    } else {
        let c = md_ctx(o, md, convert, objname);
        let start = MdState {
            syms: Seq::empty(),
            strtab_index: secs[linked_strtab(o)].data@.len() as int,
            new_strtab: Seq::empty(),
            counts: Map::empty(),
            scope: 0,
        };
        md_fds_step(c, start, u32_at(big, md.data@, 76) as int, u32_at(big, md.data@, 72) as int)
    }
}

/// The symbols made so far are bound as `convert` asks: global with `global` or
/// `global-with-filename`, local otherwise.
pub open spec fn bound_as_asked(convert: Seq<char>, syms: Seq<MdSym>) -> bool {
    forall|k: int|
        0 <= k < syms.len() ==> if convert == "global"@ || convert == "global-with-filename"@ {
            info_bind((#[trigger] syms[k]).info) == STB_GLOBAL
        } else {
            info_bind(syms[k].info) == STB_LOCAL
        }
}

proof fn lemma_md_static_bound(c: MdContext, s: MdState, name: Seq<char>, value: u32, st: u32, sc: u32)
    requires
        bound_as_asked(c.convert, s.syms),
    ensures
        md_static_step(c, s, name, value, st, sc) matches Ok(s1) ==> bound_as_asked(c.convert, s1.syms),
{
    if md_static_step(c, s, name, value, st, sc) is Ok {
        let s1 = md_static_step(c, s, name, value, st, sc)->Ok_0;
        if s1.syms.len() > s.syms.len() {
            let b = md_binding(c.convert);
            let t: u8 = if sc == 1 {
                STT_FUNC
            } else {
                STT_OBJECT
            };
            assert(b < 16);
            assert(t < 16);
            assert(((b << 4u8) | t) >> 4u8 == b) by (bit_vector)
                requires
                    b < 16,
                    t < 16,
            ;
            assert(s1.syms.last().info == (b << 4u8) | t);
            assert forall|k: int| 0 <= k < s1.syms.len() implies if c.convert == "global"@ || c.convert
                == "global-with-filename"@ {
                info_bind((#[trigger] s1.syms[k]).info) == STB_GLOBAL
            } else {
                info_bind(s1.syms[k].info) == STB_LOCAL
            } by {
                if k < s.syms.len() {
                    assert(s1.syms[k] == s.syms[k]);
                }
            }
        } else {
            assert(s1.syms == s.syms);
        }
    }
}

proof fn lemma_md_sym_bound(c: MdContext, s: MdState, iss_base: u32, k: int)
    requires
        bound_as_asked(c.convert, s.syms),
    ensures
        md_sym_step(c, s, iss_base, k) matches Ok(s1) ==> bound_as_asked(c.convert, s1.syms),
{
    let p = c.cb_sym + 12 * k;
    match (md_word(c, p), md_word(c, p + 4), md_word(c, p + 8)) {
        (Some(iss), Some(value), Some(ssi)) => {
            let st = ssi >> 26u32;
            let sc = (ssi >> 21u32) & 0x1fu32;
            if is_static(st) {
                match md_string(c, c.cb_ss + iss_base + iss) {
                    None => {},
                    Some(name) => lemma_md_static_bound(c, s, name, value, st, sc),
                }
            }
        },
        _ => {},
    }
}

proof fn lemma_md_syms_bound(c: MdContext, s: MdState, iss_base: u32, isym_base: u32, n: int)
    requires
        bound_as_asked(c.convert, s.syms),
    ensures
        md_syms_step(c, s, iss_base, isym_base, n) matches Ok(s1) ==> bound_as_asked(c.convert, s1.syms),
    decreases n,
{
    if n > 0 {
        lemma_md_syms_bound(c, s, iss_base, isym_base, n - 1);
        match md_syms_step(c, s, iss_base, isym_base, n - 1) {
            Err(_) => {},
            Ok(s1) => lemma_md_sym_bound(c, s1, iss_base, isym_base + n - 1),
        }
    }
}

proof fn lemma_md_fds_bound(c: MdContext, s: MdState, cb_fd: int, n: int)
    requires
        bound_as_asked(c.convert, s.syms),
    ensures
        md_fds_step(c, s, cb_fd, n) matches Ok(s1) ==> bound_as_asked(c.convert, s1.syms),
    decreases n,
{
    if n > 0 {
        lemma_md_fds_bound(c, s, cb_fd, n - 1);
        match md_fds_step(c, s, cb_fd, n - 1) {
            Err(_) => {},
            Ok(s1) => {
                let off = cb_fd + 72 * (n - 1);
                match (md_word(c, off + 8), md_word(c, off + 16), md_word(c, off + 20)) {
                    (Some(iss_base), Some(isym_base), Some(csym)) => {
                        lemma_md_syms_bound(c, MdState { scope: 0, ..s1 }, iss_base, isym_base, csym as int);
                    },
                    _ => {},
                }
            },
        }
    }
}

/// Every symbol that reading the `.mdebug` statics makes is bound as `--convert-statics`
/// asks: global with `global` and `global-with-filename`, local with anything else.
pub proof fn lemma_mdebug_statics_binding(o: ElfFile, convert: Seq<char>, objname: Seq<char>)
    ensures
        mdebug_outcome(o, convert, objname) matches Ok(s) ==> forall|k: int|
            0 <= k < s.syms.len() ==> if convert == "global"@ || convert == "global-with-filename"@ {
                info_bind((#[trigger] s.syms[k]).info) == STB_GLOBAL
            } else {
                info_bind(s.syms[k].info) == STB_LOCAL
            },
{
    let secs = o.sections@;
    let md = secs[first_section(secs, ".mdebug"@)];
    let big = o.fmt.is_big_endian;
    if o.symtab < secs.len() && linked_strtab(o) < secs.len() && md.data@.len() >= 80 {
        let c = md_ctx(o, md, convert, objname);
        let start = MdState {
            syms: Seq::empty(),
            strtab_index: secs[linked_strtab(o)].data@.len() as int,
            new_strtab: Seq::empty(),
            counts: Map::empty(),
            scope: 0,
        };
        lemma_md_fds_bound(c, start, u32_at(big, md.data@, 76) as int, u32_at(big, md.data@, 72) as int);
        assert(c.convert == convert);
    }
}

/// `sym` is the symbol that `m` describes, in byte order `fmt`.
pub open spec fn md_symbol(sym: Symbol, m: MdSym, fmt: ElfFormat) -> bool {
    &&& sym.name@ == m.name
    &&& sym.st_name == m.st_name
    &&& sym.st_value == m.value
    &&& sym.st_size == 0
    &&& sym.st_info == m.info
    &&& sym.st_other == STV_DEFAULT
    &&& sym.st_shndx == m.shndx
    &&& sym.visibility == 0
    &&& sym.fmt == fmt
}

/// The names seen so far and how often, as a map: later entries win.
pub open spec fn counts_map(v: Seq<(String, usize)>) -> Map<Seq<char>, int>
    decreases v.len(),
{
    if v.len() == 0 {
        Map::empty()
    } else {
        counts_map(v.drop_last()).insert(v.last().0@, v.last().1 as int)
    }
}

/// A name with no entry at or after position `j` has its count from the entries before.
proof fn lemma_counts_prefix(v: Seq<(String, usize)>, name: Seq<char>, j: int)
    requires
        0 <= j <= v.len(),
        forall|m: int| j <= m < v.len() ==> v[m].0@ != name,
    ensures
        counts_map(v).contains_key(name) == counts_map(v.take(j)).contains_key(name),
        counts_map(v).contains_key(name) ==> counts_map(v)[name] == counts_map(v.take(j))[name],
    decreases v.len() - j,
{
    if j < v.len() {
        lemma_counts_prefix(v.drop_last(), name, j);
        assert(v.drop_last().take(j) =~= v.take(j));
    } else {
        assert(v.take(j) =~= v);
    }
}

/// The count recorded for `name`, where there is one.
fn count_of(counts: &Vec<(String, usize)>, name: &str) -> (r: Option<usize>)
    ensures
        counts_map(counts@).contains_key(name@) ==> r == Some(counts_map(counts@)[name@] as usize),
        !counts_map(counts@).contains_key(name@) ==> r is None,
        r matches Some(c) ==> c == counts_map(counts@)[name@],
{
    let mut j = counts.len();
    while j > 0 && !str_eq(counts[j - 1].0.as_str(), name)
        invariant
            j <= counts@.len(),
            forall|m: int| j <= m < counts@.len() ==> counts@[m].0@ != name@,
        decreases j,
    {
        j -= 1;
    }
    proof {
        lemma_counts_prefix(counts@, name@, j as int);
    }
    if j == 0 {
        assert(counts@.take(0) =~= Seq::<(String, usize)>::empty());
        None
    } else {
        let ghost t = counts@.take(j as int);
        assert(t.drop_last() =~= counts@.take(j - 1));
        assert(t.last() == counts@[j - 1]);
        Some(counts[j - 1].1)
    }
}

/// The word at file position `p` of a section at file position `base`.
fn md_word_of(fmt: &ElfFormat, data: &[u8], base: u64, p: u64) -> (r: Option<u32>)
    ensures
        r == md_word(
            MdContext {
                big: fmt.is_big_endian,
                data: data@,
                base: base as int,
                cb_sym: 0,
                cb_ss: 0,
                convert: Seq::empty(),
                objname: Seq::empty(),
                secs: Seq::empty(),
            },
            p as int,
        ),
{
    if p < base {
        return None;
    }
    let rel = p - base;
    let len = data.len() as u64;
    if rel > len || len - rel < 4 {
        return None;
    }
    Some(fmt.read_u32(data, rel as usize))
}

/// The zero-terminated string at file position `p` of a section at file position `base`.
fn md_string_of(data: &[u8], base: u64, p: u64) -> (r: Option<String>)
    ensures
        match strtab_string_at(data@, p - base) {
            Some(name) => base <= p && p - base <= data@.len() ==> (r matches Some(s) && s@ == name),
            None => true,
        },
        r is Some <==> (base <= p && p - base <= data@.len() && strtab_string_at(data@, p - base) is Some),
{
    if p < base {
        return None;
    }
    let rel = p - base;
    let len = data.len() as u64;
    if rel > len {
        return None;
    }
    let start = rel as usize;
    let mut end = start;
    proof {
        lemma_first_nul_from(data@, start as int);
    }
    while end < data.len() && data[end] != 0
        invariant
            start <= end <= data@.len(),
            forall|k: int| start <= k < end ==> data@[k] != 0,
            first_nul_from(data@, start as int) >= end,
            start <= first_nul_from(data@, start as int) <= data@.len(),
            first_nul_from(data@, start as int) < data@.len() ==> data@[first_nul_from(data@, start as int)] == 0,
        decreases data@.len() - end,
    {
        end += 1;
    }
    if end >= data.len() {
        return None;
    }
    assert(end == first_nul_from(data@, start as int));
    let bytes = slice_to_vec(slice_subrange(data, start, end));
    string_from_utf8(bytes)
}

/// The reading of the `.mdebug` symbols as it goes, in values.
pub struct MdRun {
    pub syms: Vec<Symbol>,
    pub strtab_index: u128,
    pub new_strtab: Vec<u8>,
    pub counts: Vec<(String, usize)>,
    pub scope: i64,
}

/// `run` holds the state `s`, its symbols in byte order `fmt`.
pub open spec fn run_matches(run: MdRun, s: MdState, fmt: ElfFormat) -> bool {
    &&& run.syms@.len() == s.syms.len()
    &&& forall|i: int| 0 <= i < s.syms.len() ==> md_symbol(#[trigger] run.syms@[i], s.syms[i], fmt)
    &&& run.strtab_index == s.strtab_index
    &&& run.new_strtab@ == s.new_strtab
    &&& counts_map(run.counts@) == s.counts
    &&& run.scope == s.scope
}

/// The context for reading the `.mdebug` section `md` of a file.
pub open spec fn md_ctx(o: ElfFile, md: ElfSection, convert: Seq<char>, objname: Seq<char>) -> MdContext {
    let big = o.fmt.is_big_endian;
    MdContext {
        big,
        data: md.data@,
        base: md.sh_offset as int,
        cb_sym: u32_at(big, md.data@, 36) as int,
        cb_ss: u32_at(big, md.data@, 60) as int,
        convert,
        objname,
        secs: o.sections@,
    }
}

/// `prefix` followed by `rest`.
fn joined(prefix: &str, rest: &str) -> (s: String)
    ensures
        s@ == prefix@ + rest@,
{
    let mut s = prefix.to_owned();
    s.append(rest);
    s
}

/// How a symbol type changes the scope depth.
fn scope_delta_of(st: u32) -> (d: i64)
    ensures
        d == scope_delta(st),
{
    if st == MIPS_DEBUG_ST_FILE || st == MIPS_DEBUG_ST_STRUCT || st == MIPS_DEBUG_ST_UNION || st
        == MIPS_DEBUG_ST_ENUM || st == MIPS_DEBUG_ST_BLOCK || st == MIPS_DEBUG_ST_PROC || st
        == MIPS_DEBUG_ST_STATIC_PROC {
        1
    } else if st == MIPS_DEBUG_ST_END {
        -1
    } else {
        0
    }
}

/// The index of the first section called `name`.
fn section_named(secs: &Vec<ElfSection>, name: &str) -> (r: Option<usize>)
    ensures
        r is Some <==> has_section(secs@, name@),
        r matches Some(i) ==> i == first_section(secs@, name@) && i < secs@.len(),
{
    let mut i: usize = 0;
    while i < secs.len()
        invariant
            i <= secs@.len(),
            forall|j: int| 0 <= j < i ==> secs@[j].name@ != name@,
        decreases secs@.len() - i,
    {
        if str_eq(secs[i].name.as_str(), name) {
            proof {
                lemma_first_section(secs@, name@, i as int);
            }
            return Some(i);
        }
        i += 1;
    }
    None
}

/// Bounds that keep the running values within their machine types.
pub open spec fn run_bounded(s: MdState, base_len: int) -> bool {
    &&& 0 <= base_len <= usize::MAX
    &&& s.strtab_index == base_len + s.new_strtab.len()
}

/// The scope depth changes by at most one from `s` to `s2`.
pub open spec fn scope_step(s: MdState, s2: MdState) -> bool {
    -1 <= s2.scope - s.scope <= 1
}

/// Handles a static, as `md_static_step` says.
fn md_static(
    run: &mut MdRun,
    Ghost(s): Ghost<MdState>,
    Ghost(md): Ghost<ElfSection>,
    Ghost(base_len): Ghost<int>,
    objfile: &ElfFile,
    link: usize,
    convert: &str,
    objname: &str,
    name: String,
    value: u32,
    st: u32,
    sc: u32,
) -> (r: Result<(), ObjFileError>)
    requires
        run_matches(*old(run), s, objfile.fmt),
        run_bounded(s, base_len),
        -0x1_0000_0000_0000 < s.scope < 0x1_0000_0000_0000,
        link < objfile.sections@.len(),
    ensures
        match md_static_step(md_ctx(*objfile, md, convert@, objname@), s, name@, value, st, sc) {
            Err(k) => r matches Err(e) && fails_as(e, k),
            Ok(s2) => r is Ok && run_matches(*final(run), s2, objfile.fmt) && run_bounded(s2, base_len)
                && scope_step(s, s2),
        },
{
    let nested = run.scope > 1;
    let prev = count_of(&run.counts, name.as_str());
    let cnt: usize = match prev {
        Some(c) => {
            if c == usize::MAX {
                if nested {
                    return Err(ObjFileError::ConversionError("too many statics of one name".to_owned()));
                }
                0
            } else {
                c + 1
            }
        },
        None => 1,
    };
    if nested {
        let ghost before = run.counts@;
        run.counts.push((name.clone(), cnt));
        assert(run.counts@.drop_last() == before);
    }
    let final_name = if nested {
        let mut f = joined(name.as_str(), ":");
        f.append(usize_to_string(cnt).as_str());
        f
    } else {
        name
    };
    let emitted = if str_eq(convert, "global-with-filename") {
        let mut e = joined(objname, ":");
        e.append(final_name.as_str());
        e
    } else {
        final_name
    };
    let sn: &str = if sc == 1 {
        ".text"
    } else if sc == 2 {
        ".data"
    } else if sc == 3 {
        ".bss"
    } else if sc == 15 {
        ".rodata"
    } else {
        return Ok(());
    };
    let sec = match section_named(&objfile.sections, sn) {
        Some(i) => i,
        None => {
            return Err(ObjFileError::SectionError(joined("Section not found: ", sn)));
        },
    };
    let typ: u8 = if sc == 1 {
        STT_FUNC
    } else {
        STT_OBJECT
    };
    let bind: u8 = if str_eq(convert, "global") || str_eq(convert, "global-with-filename") {
        STB_GLOBAL
    } else {
        STB_LOCAL
    };
    let sym = match Symbol::from_parts(
        objfile.fmt,
        run.strtab_index as u32,
        value,
        0,
        (bind << 4u8) | typ,
        STV_DEFAULT,
        objfile.sections[sec].index as u16,
        &objfile.sections[link],
        emitted.clone(),
    ) {
        Ok(sym) => sym,
        Err(e) => {
            return Err(ObjFileError::from_error(e));
        },
    };
    let bytes = emitted.as_str().as_bytes();
    let ghost before = run.new_strtab@;
    let mut piece: Vec<u8> = slice_to_vec(bytes);
    piece.push(0u8);
    run.new_strtab.append(&mut piece);
    let total = run.new_strtab.len();
    assert(run.new_strtab@ =~= before + bytes@ + seq![0u8]);
    run.strtab_index = run.strtab_index + bytes.len() as u128 + 1;
    let ghost old_syms = run.syms@;
    run.syms.push(sym);
    run.scope = run.scope + scope_delta_of(st);
    proof {
        let c = md_ctx(*objfile, md, convert@, objname@);
        let s2 = md_static_step(c, s, name@, value, st, sc)->Ok_0;
        assert(s2.syms == s.syms.push(s2.syms.last()));
        assert forall|i: int| 0 <= i < s2.syms.len() implies md_symbol(#[trigger] run.syms@[i], s2.syms[i], objfile.fmt) by {
            if i < s.syms.len() {
                assert(run.syms@[i] == old_syms[i]);
                assert(s2.syms[i] == s.syms[i]);
            } else {
                let ns = run.syms@[i];
                let ms = s2.syms[i];
                assert(ns.name@ == ms.name);
                assert(ns.st_name == ms.st_name);
                assert(ns.st_value == ms.value);
                assert(ns.st_info == ms.info);
                assert(ns.st_shndx == ms.shndx);
                assert(0u8 & 3u8 == 0u8) by (bit_vector);
            }
        }
        assert(counts_map(run.counts@) == s2.counts);
        assert(run.new_strtab@ == s2.new_strtab);
        assert(run.strtab_index == s2.strtab_index);
        assert(run.scope == s2.scope);
    }
    Ok(())
}

/// Reads the symbol at index `k`, as `md_sym_step` says.
fn md_sym(
    run: &mut MdRun,
    Ghost(s): Ghost<MdState>,
    Ghost(md): Ghost<ElfSection>,
    Ghost(base_len): Ghost<int>,
    objfile: &ElfFile,
    data: &[u8],
    base: u64,
    cb_sym: u64,
    cb_ss: u64,
    link: usize,
    convert: &str,
    objname: &str,
    iss_base: u32,
    k: u64,
) -> (r: Result<(), ObjFileError>)
    requires
        run_matches(*old(run), s, objfile.fmt),
        run_bounded(s, base_len),
        -0x1_0000_0000_0000 < s.scope < 0x1_0000_0000_0000,
        link < objfile.sections@.len(),
        data@ == md.data@,
        base == md.sh_offset,
        md.data@.len() >= 80,
        cb_sym == u32_at(objfile.fmt.is_big_endian, md.data@, 36),
        cb_ss == u32_at(objfile.fmt.is_big_endian, md.data@, 60),
        k < 0x1_0000_0000_0000,
    ensures
        match md_sym_step(md_ctx(*objfile, md, convert@, objname@), s, iss_base, k as int) {
            Err(e) => r matches Err(x) && fails_as(x, e),
            Ok(s2) => r is Ok && run_matches(*final(run), s2, objfile.fmt) && run_bounded(s2, base_len)
                && scope_step(s, s2),
        },
{
    let p = cb_sym + 12 * k;
    let w0 = md_word_of(&objfile.fmt, data, base, p);
    let w1 = md_word_of(&objfile.fmt, data, base, p + 4);
    let w2 = md_word_of(&objfile.fmt, data, base, p + 8);
    let (iss, value, ssi) = match (w0, w1, w2) {
        (Some(a), Some(b), Some(c)) => (a, b, c),
        _ => {
            return Err(ObjFileError::SectionError("mdebug symbol out of range".to_owned()));
        },
    };
    let st = ssi >> 26u32;
    let sc = (ssi >> 21u32) & 0x1fu32;
    if !(st == MIPS_DEBUG_ST_STATIC || st == MIPS_DEBUG_ST_STATIC_PROC) {
        run.scope = run.scope + scope_delta_of(st);
        return Ok(());
    }
    let name = match md_string_of(data, base, cb_ss + iss_base as u64 + iss as u64) {
        Some(n) => n,
        None => {
            return Err(ObjFileError::ElfError("invalid mdebug symbol name".to_owned()));
        },
    };
    md_static(
        run,
        Ghost(s),
        Ghost(md),
        Ghost(base_len),
        objfile,
        link,
        convert,
        objname,
        name,
        value,
        st,
        sc,
    )
}

/// Once reading a symbol fails, reading the later ones fails the same way.
proof fn lemma_syms_stop(c: MdContext, s: MdState, iss_base: u32, isym_base: u32, j: int, n: int)
    requires
        0 <= j <= n,
        md_syms_step(c, s, iss_base, isym_base, j) is Err,
    ensures
        md_syms_step(c, s, iss_base, isym_base, n) == md_syms_step(c, s, iss_base, isym_base, j),
    decreases n - j,
{
    if j < n {
        lemma_syms_stop(c, s, iss_base, isym_base, j, n - 1);
    }
}

/// Once reading a file descriptor fails, reading the later ones fails the same way.
proof fn lemma_fds_stop(c: MdContext, s: MdState, cb_fd: int, j: int, n: int)
    requires
        0 <= j <= n,
        md_fds_step(c, s, cb_fd, j) is Err,
    ensures
        md_fds_step(c, s, cb_fd, n) == md_fds_step(c, s, cb_fd, j),
    decreases n - j,
{
    if j < n {
        lemma_fds_stop(c, s, cb_fd, j, n - 1);
    }
}

/// Reads the symbols of file descriptor `i`, as `md_fd_step` says.
fn md_fd(
    run: &mut MdRun,
    Ghost(s): Ghost<MdState>,
    Ghost(md): Ghost<ElfSection>,
    Ghost(base_len): Ghost<int>,
    objfile: &ElfFile,
    data: &[u8],
    base: u64,
    cb_sym: u64,
    cb_ss: u64,
    cb_fd: u64,
    link: usize,
    convert: &str,
    objname: &str,
    i: u64,
) -> (r: Result<(), ObjFileError>)
    requires
        run_matches(*old(run), s, objfile.fmt),
        run_bounded(s, base_len),
        link < objfile.sections@.len(),
        data@ == md.data@,
        base == md.sh_offset,
        md.data@.len() >= 80,
        cb_sym == u32_at(objfile.fmt.is_big_endian, md.data@, 36),
        cb_ss == u32_at(objfile.fmt.is_big_endian, md.data@, 60),
        cb_fd <= u32::MAX,
        i <= u32::MAX,
    ensures
        match md_fd_step(md_ctx(*objfile, md, convert@, objname@), s, cb_fd as int, i as int) {
            Err(e) => r matches Err(x) && fails_as(x, e),
            Ok(s2) => r is Ok && run_matches(*final(run), s2, objfile.fmt) && run_bounded(s2, base_len),
        },
{
    let ghost c = md_ctx(*objfile, md, convert@, objname@);
    let off = cb_fd + 72 * i;
    let w0 = md_word_of(&objfile.fmt, data, base, off + 8);
    let w1 = md_word_of(&objfile.fmt, data, base, off + 16);
    let w2 = md_word_of(&objfile.fmt, data, base, off + 20);
    let (iss_base, isym_base, csym) = match (w0, w1, w2) {
        (Some(a), Some(b), Some(d)) => (a, b, d),
        _ => {
            return Err(ObjFileError::SectionError("mdebug file descriptor out of range".to_owned()));
        },
    };
    let ghost s0 = MdState { scope: 0, ..s };
    run.scope = 0;
    let ghost mut cur = s0;
    let mut j: u32 = 0;
    while j < csym
        invariant
            j <= csym,
            c == md_ctx(*objfile, md, convert@, objname@),
            link < objfile.sections@.len(),
            data@ == md.data@,
            base == md.sh_offset,
            md.data@.len() >= 80,
            cb_sym == u32_at(objfile.fmt.is_big_endian, md.data@, 36),
            cb_ss == u32_at(objfile.fmt.is_big_endian, md.data@, 60),
            s0 == (MdState { scope: 0, ..s }),
            md_word(c, cb_fd + 72 * i + 8) == Some(iss_base),
            md_word(c, cb_fd + 72 * i + 16) == Some(isym_base),
            md_word(c, cb_fd + 72 * i + 20) == Some(csym),
            md_syms_step(c, s0, iss_base, isym_base, j as int) == Ok::<MdState, FixupFailure>(cur),
            run_matches(*run, cur, objfile.fmt),
            run_bounded(cur, base_len),
            -(j as int) <= cur.scope <= j,
        decreases csym - j,
    {
        let k = isym_base as u64 + j as u64;
        let r = md_sym(
            run,
            Ghost(cur),
            Ghost(md),
            Ghost(base_len),
            objfile,
            data,
            base,
            cb_sym,
            cb_ss,
            link,
            convert,
            objname,
            iss_base,
            k,
        );
        match r {
            Err(e) => {
                proof {
                    lemma_syms_stop(c, s0, iss_base, isym_base, j + 1, csym as int);
                }
                return Err(e);
            },
            Ok(()) => {},
        }
        proof {
            cur = md_sym_step(c, cur, iss_base, (isym_base + j) as int)->Ok_0;
        }
        j += 1;
    }
    if run.scope != 0 {
        return Err(ObjFileError::SectionError("unbalanced mdebug scopes".to_owned()));
    }
    Ok(())
}

/// Reads the `.mdebug` symbols of the object file: a symbol for each static variable and
/// function in a known section, as `mdebug_outcome` says, with the names of the new symbols
/// appended to the string table that the symbol table links to. Without an `.mdebug`
/// section there are none; on a failure the file stays as it is.
pub fn process_mdebug_symbols(objfile: &mut ElfFile, convert_statics: &str, objfile_name: &str) -> (r: Result<
    Vec<Symbol>,
    ObjFileError,
>)
    ensures
        final(objfile).header == old(objfile).header,
        final(objfile).fmt == old(objfile).fmt,
        final(objfile).symtab == old(objfile).symtab,
        !has_section(old(objfile).sections@, ".mdebug"@) ==> (r matches Ok(v) && v@.len() == 0)
            && final(objfile).sections@ == old(objfile).sections@,
        has_section(old(objfile).sections@, ".mdebug"@) ==> match mdebug_outcome(
            *old(objfile),
            convert_statics@,
            objfile_name@,
        ) {
            Err(k) => r matches Err(e) && fails_as(e, k) && final(objfile).sections@ == old(objfile).sections@,
            Ok(st) => {
                let link = linked_strtab(*old(objfile));
                let t = old(objfile).sections@[link];
                &&& r matches Ok(v) && v@.len() == st.syms.len() && forall|i: int|
                    0 <= i < v@.len() ==> md_symbol(#[trigger] v@[i], st.syms[i], old(objfile).fmt)
                &&& final(objfile).sections@ == old(objfile).sections@.update(
                    link,
                    ElfSection { data: final(objfile).sections@[link].data, ..t },
                )
                &&& final(objfile).sections@[link].data@ == t.data@ + st.new_strtab
            },
        },
{
    let mi = match section_named(&objfile.sections, ".mdebug") {
        Some(i) => i,
        None => {
            return Ok(Vec::new());
        },
    };
    let ghost o = *objfile;
    let ghost md = objfile.sections@[mi as int];
    if objfile.symtab >= objfile.sections.len() {
        return Err(ObjFileError::ElfError("No symbol table found".to_owned()));
    }
    let link = objfile.sections[objfile.symtab].sh_link as usize;
    if link >= objfile.sections.len() {
        return Err(ObjFileError::ElfError("No string table found".to_owned()));
    }
    let mdsec = &objfile.sections[mi];
    if mdsec.data.len() < 80 {
        return Err(ObjFileError::SectionError("mdebug header too short".to_owned()));
    }
    let fmt = objfile.fmt;
    let data = mdsec.data.as_slice();
    let base = mdsec.sh_offset as u64;
    let ifd_max = fmt.read_u32(data, 72);
    let cb_fd = fmt.read_u32(data, 76) as u64;
    let cb_sym = fmt.read_u32(data, 36) as u64;
    let cb_ss = fmt.read_u32(data, 60) as u64;
    let base_len = objfile.sections[link].data.len();
    let mut run = MdRun {
        syms: Vec::new(),
        strtab_index: base_len as u128,
        new_strtab: Vec::new(),
        counts: Vec::new(),
        scope: 0,
    };
    let ghost c = md_ctx(o, md, convert_statics@, objfile_name@);
    let ghost start = MdState {
        syms: Seq::empty(),
        strtab_index: base_len as int,
        new_strtab: Seq::empty(),
        counts: Map::empty(),
        scope: 0,
    };
    assert(counts_map(run.counts@) =~= Map::<Seq<char>, int>::empty());
    assert(mdebug_outcome(o, convert_statics@, objfile_name@) == md_fds_step(c, start, cb_fd as int, ifd_max as int));
    let ghost mut cur = start;
    let mut i: u32 = 0;
    while i < ifd_max
        invariant
            i <= ifd_max,
            *objfile == o,
            c == md_ctx(*objfile, md, convert_statics@, objfile_name@),
            link < objfile.sections@.len(),
            data@ == md.data@,
            base == md.sh_offset,
            md.data@.len() >= 80,
            cb_sym == u32_at(objfile.fmt.is_big_endian, md.data@, 36),
            cb_ss == u32_at(objfile.fmt.is_big_endian, md.data@, 60),
            cb_fd <= u32::MAX,
            has_section(o.sections@, ".mdebug"@),
            mdebug_outcome(o, convert_statics@, objfile_name@) == md_fds_step(c, start, cb_fd as int, ifd_max as int),
            md_fds_step(c, start, cb_fd as int, i as int) == Ok::<MdState, FixupFailure>(cur),
            run_matches(run, cur, objfile.fmt),
            run_bounded(cur, base_len as int),
        decreases ifd_max - i,
    {
        let r = md_fd(
            &mut run,
            Ghost(cur),
            Ghost(md),
            Ghost(base_len as int),
            objfile,
            data,
            base,
            cb_sym,
            cb_ss,
            cb_fd,
            link,
            convert_statics,
            objfile_name,
            i as u64,
        );
        match r {
            Err(e) => {
                proof {
                    lemma_fds_stop(c, start, cb_fd as int, i + 1, ifd_max as int);
                }
                return Err(e);
            },
            Ok(()) => {},
        }
        proof {
            cur = md_fd_step(c, cur, cb_fd as int, i as int)->Ok_0;
        }
        i += 1;
    }
    let ghost t = objfile.sections@[link as int];
    let mut extra = run.new_strtab;
    objfile.sections[link].data.append(&mut extra);
    proof {
        assert(objfile.sections@ =~= o.sections@.update(
            link as int,
            ElfSection { data: objfile.sections@[link as int].data, ..t },
        ));
    }
    Ok(run.syms)
}

} // verus!
