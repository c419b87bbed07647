use crate::elf::constants::{EI_DATA, SHT_REL, SHT_RELA, SHT_STRTAB, SHT_SYMTAB, SHT_MIPS_DEBUG, SHT_MIPS_GPTAB, SHT_NOBITS, SHT_NULL};
use crate::elf::format::{ElfFormat, u16_at, u32_at};
use crate::elf::header::{ElfHeader, elf_magic, header_accepted, header_from, header_bytes, lemma_header_roundtrip};
use crate::elf::relocation::Relocation;
use crate::elf::section::{
    ElfSection,
    Section,
    header_fields_from,
    relocations_in,
    strtab_string_at,
    section_header_bytes,
    hdrr_shifted,
};
use crate::utils::error::Error;
use vstd::prelude::*;
use vstd::slice::{slice_subrange, slice_to_vec};
use vstd::string::StringSliceAdditionalSpecFns;

verus! {

/// A relocatable MIPS object file: its header and its sections.
#[derive(Debug)]
pub struct ElfFile {
    pub header: ElfHeader,
    pub sections: Vec<ElfSection>,
    pub fmt: ElfFormat,
    pub symtab: usize,
}

/// Whether the file data declares big-endian byte order.
pub open spec fn elf_big(data: Seq<u8>) -> bool {
    data[EI_DATA as int] == 2
}

/// File position of the section header table.
pub open spec fn sh_table_off(data: Seq<u8>) -> int {
    u32_at(elf_big(data), data, 32) as int
}

/// Size of one section header table entry.
pub open spec fn sh_entry_size(data: Seq<u8>) -> int {
    u16_at(elf_big(data), data, 46) as int
}

/// File position of section header `i`.
pub open spec fn sh_entry_pos(data: Seq<u8>, i: int) -> int {
    sh_table_off(data) + i * sh_entry_size(data)
}

/// The bytes of section header `i`.
pub open spec fn sh_entry(data: Seq<u8>, i: int) -> Seq<u8> {
    data.subrange(sh_entry_pos(data, i), sh_entry_pos(data, i) + sh_entry_size(data))
}

/// Word `w` of section header `i`.
pub open spec fn sh_word(data: Seq<u8>, i: int, w: int) -> u32 {
    u32_at(elf_big(data), data, sh_entry_pos(data, i) + 4 * w)
}

/// The number of sections that the file declares: `e_shnum`, or where that is 0, the size
/// field of the null section header.
pub open spec fn sh_declared(data: Seq<u8>) -> int {
    let n = u16_at(elf_big(data), data, 48);
    if n == 0 {
        sh_word(data, 0, 5) as int
    } else {
        n as int
    }
}

/// The number of sections read: the null section, then sections 1 to the declared number.
pub open spec fn sh_count(data: Seq<u8>) -> int {
    if sh_declared(data) == 0 {
        1
    } else {
        sh_declared(data)
    }
}

/// The contents of section `i`: nothing for the null section, the file bytes at
/// `sh_offset`, `sh_size` bytes long, for the others.
pub open spec fn sh_content(data: Seq<u8>, i: int) -> Seq<u8> {
    if i == 0 {
        Seq::empty()
    } else {
        data.subrange(sh_word(data, i, 4) as int, sh_word(data, i, 4) + sh_word(data, i, 5))
    }
}

/// Index of the section name string table.
pub open spec fn shstr_index(data: Seq<u8>) -> int {
    u16_at(elf_big(data), data, 50) as int
}

/// The name of section `i`, where the section name string table yields one.
pub open spec fn sh_name_of(data: Seq<u8>, i: int) -> Option<Seq<char>> {
    let k = shstr_index(data);
    if sh_word(data, k, 1) != SHT_STRTAB {
        None
    } else {
        strtab_string_at(sh_content(data, k), sh_word(data, i, 0) as int)
    }
}

/// Whether section `i` is a relocation section.
pub open spec fn sh_is_rel(data: Seq<u8>, i: int) -> bool {
    sh_word(data, i, 1) == SHT_REL || sh_word(data, i, 1) == SHT_RELA
}

/// The file starts like an ELF file this tool handles, and its section headers are at
/// least forty bytes long.
pub open spec fn elf_front_ok(data: Seq<u8>) -> bool {
    &&& elf_magic(data)
    &&& data.len() >= 52
    &&& header_accepted(elf_big(data), data)
    &&& sh_entry_size(data) >= 40
}

/// Exactly one section is a symbol table.
pub open spec fn elf_symtab_unique(data: Seq<u8>) -> bool {
    exists|i: int|
        0 <= i < sh_count(data) && sh_word(data, i, 1) == SHT_SYMTAB && forall|j: int|
            0 <= j < sh_count(data) && j != i ==> sh_word(data, j, 1) != SHT_SYMTAB
}

/// Every section's name can be looked up.
pub open spec fn elf_names_ok(data: Seq<u8>) -> bool {
    forall|i: int| 0 <= i < sh_count(data) ==> (#[trigger] sh_name_of(data, i)) is Some
}

/// Every relocation section names a section that exists as the section it relocates.
pub open spec fn elf_rel_links_ok(data: Seq<u8>) -> bool {
    forall|i: int| 0 <= i < sh_count(data) && #[trigger] sh_is_rel(data, i) ==> sh_word(data, i, 7) < sh_count(data)
}

/// The sections that `ElfFile::new` reads lie in the data: every section header and every
/// section's contents, and the section name string table is one of the sections.
pub open spec fn elf_parse_defined(data: Seq<u8>) -> bool {
    &&& (elf_magic(data) && data.len() >= 52 && header_accepted(elf_big(data), data)) ==> first_entry_in(data)
    &&& elf_front_ok(data) ==> entries_in(data)
    &&& (elf_front_ok(data) && elf_symtab_unique(data)) ==> names_in(data)
}

/// The first section header lies in the data.
pub open spec fn first_entry_in(data: Seq<u8>) -> bool {
    sh_entry_pos(data, 0) + sh_entry_size(data) <= data.len()
}

/// Every section header after the first, and its contents, lie in the data, within 32-bit
/// positions.
pub open spec fn entries_in(data: Seq<u8>) -> bool {
    forall|i: int|
        #![trigger sh_entry_pos(data, i)]
        #![trigger sh_word(data, i, 4)]
        1 <= i < sh_count(data) ==> {
            &&& sh_entry_pos(data, i) + sh_entry_size(data) <= data.len()
            &&& sh_word(data, i, 4) + sh_word(data, i, 5) <= data.len()
            &&& sh_word(data, i, 4) + sh_word(data, i, 5) <= u32::MAX
        }
}

/// The section name string table is one of the sections.
pub open spec fn names_in(data: Seq<u8>) -> bool {
    shstr_index(data) < sh_count(data)
}

/// Section `s` is section `i` of the file `data` as parsing leaves it.
pub open spec fn section_parsed_at(s: ElfSection, data: Seq<u8>, i: int) -> bool {
    let big = elf_big(data);
    &&& s.fmt.is_big_endian == big
    &&& header_fields_from(s, big, sh_entry(data, i))
    &&& s.index == i
    &&& s.data@ == sh_content(data, i)
    &&& sh_name_of(data, i) == Some(s.name@)
    &&& s.symbols@.len() == 0
    &&& s.relocated_by@.len() == 0
    &&& s.relocations@ == if sh_is_rel(data, i) {
        relocations_in(big, sh_content(data, i), s.sh_type)
    } else {
        Seq::empty()
    }
}

/// `f` is the file that `data` holds.
pub open spec fn elf_file_from(f: ElfFile, data: Seq<u8>) -> bool {
    &&& f.fmt.is_big_endian == elf_big(data)
    &&& header_from(f.header, elf_big(data), data)
    &&& f.sections@.len() == sh_count(data)
    &&& forall|i: int| 0 <= i < sh_count(data) ==> section_parsed_at(#[trigger] f.sections@[i], data, i)
    &&& 0 <= f.symtab < sh_count(data)
    &&& sh_word(data, f.symtab as int, 1) == SHT_SYMTAB
}

/// Section `s` is section `i` of `data` as read from the section header table, before
/// names and relocations are filled in.
pub open spec fn section_read_at(s: ElfSection, data: Seq<u8>, i: int) -> bool {
    let big = elf_big(data);
    &&& s.fmt.is_big_endian == big
    &&& header_fields_from(s, big, sh_entry(data, i))
    &&& s.sh_name == sh_word(data, i, 0)
    &&& s.sh_type == sh_word(data, i, 1)
    &&& s.sh_info == sh_word(data, i, 7)
    &&& s.index == i
    &&& s.data@ == sh_content(data, i)
    &&& s.name@.len() == 0
    &&& s.symbols@.len() == 0
    &&& s.relocations@.len() == 0
    &&& s.relocated_by@.len() == 0
}

/// Header `i` of a table entry lies at a non-negative position.
pub(crate) proof fn lemma_entry_pos(data: Seq<u8>, i: int)
    requires
        0 <= i,
    ensures
        sh_entry_pos(data, i) >= sh_table_off(data) >= 0,
        sh_entry_pos(data, 0) == sh_table_off(data),
        sh_entry_pos(data, i + 1) == sh_entry_pos(data, i) + sh_entry_size(data),
{
    let a = i;
    let b = sh_entry_size(data);
    assert(a * b >= 0) by (nonlinear_arith)
        requires
            a >= 0,
            b >= 0,
    ;
    assert((a + 1) * b == a * b + b) by (nonlinear_arith);
}

/// The words of a section header read the same in the header's bytes and in the file.
pub(crate) proof fn lemma_entry_words(data: Seq<u8>, i: int)
    requires
        0 <= i,
        sh_entry_pos(data, i) + sh_entry_size(data) <= data.len(),
        sh_entry_size(data) >= 40,
    ensures
        forall|w: int|
            0 <= w < 10 ==> u32_at(elf_big(data), sh_entry(data, i), 4 * w) == #[trigger] sh_word(data, i, w),
{
    lemma_entry_pos(data, i);
}

impl ElfFile {
    /// Reads the section header table: the null section, then sections 1 up to the declared
    /// number, each with its contents. A header or contents that do not lie in the data, and
    /// headers shorter than forty bytes, are errors.
    fn read_sections(fmt: ElfFormat, data: &[u8], header: &ElfHeader) -> (r: Result<Vec<ElfSection>, Error>)
        requires
            elf_magic(data@),
            data@.len() >= 52,
            header_accepted(elf_big(data@), data@),
            fmt.is_big_endian == elf_big(data@),
            header_from(*header, elf_big(data@), data@),
        ensures
            r is Ok <==> (first_entry_in(data@) && sh_entry_size(data@) >= 40 && entries_in(data@)),
            r is Err ==> r matches Err(Error::InvalidFormat(_)),
            r matches Ok(secs) ==> secs@.len() == sh_count(data@) && forall|i: int|
                0 <= i < sh_count(data@) ==> section_read_at(#[trigger] secs@[i], data@, i),
    {
        let ghost d = data@;
        let data_len = data.len();
        let offset = header.e_shoff as usize;
        let size = header.e_shentsize as usize;
        proof {
            lemma_entry_pos(d, 0);
        }
        if offset > data_len || size > data_len - offset {
            return Err(Error::InvalidFormat("Section header table out of range".to_owned()));
        }
        let null_header = slice_subrange(data, offset, offset + size);
        let mut null_section = ElfSection::new(fmt, null_header)?;
        proof {
            lemma_entry_words(d, 0);
            assert(null_header@ == sh_entry(d, 0));
        }
        let num_sections: u32 = if header.e_shnum == 0 {
            null_section.sh_size
        } else {
            header.e_shnum as u32
        };
        assert(num_sections == sh_declared(d));
        null_section.index = 0;
        assert(null_section.data@ =~= sh_content(d, 0));
        let mut sections: Vec<ElfSection> = Vec::new();
        sections.push(null_section);
        let mut i: u32 = 1;
        while i < num_sections
            invariant
                d == data@,
                data_len == d.len(),
                1 <= i,
                i <= num_sections || num_sections == 0,
                i == 1 || i <= num_sections,
                num_sections == sh_declared(d),
                offset == sh_table_off(d),
                size == sh_entry_size(d),
                size >= 40,
                fmt.is_big_endian == elf_big(d),
                elf_front_ok(d),
                first_entry_in(d),
                sections@.len() == i,
                forall|k: int| 0 <= k < i ==> section_read_at(#[trigger] sections@[k], d, k),
                forall|j: int|
                    #![trigger sh_entry_pos(d, j)]
                    #![trigger sh_word(d, j, 4)]
                    1 <= j < i ==> {
                        &&& sh_entry_pos(d, j) + sh_entry_size(d) <= d.len()
                        &&& sh_word(d, j, 4) + sh_word(d, j, 5) <= d.len()
                        &&& sh_word(d, j, 4) + sh_word(d, j, 5) <= u32::MAX
                    },
            decreases num_sections - i,
        {
            proof {
                lemma_entry_pos(d, i as int);
            }
            assert((i as u64) * (size as u64) <= 0xffff_ffffu64 * 0xffffu64) by (nonlinear_arith)
                requires
                    i <= 0xffff_ffffu64,
                    size <= 0xffffu64,
            ;
            let pos: u64 = offset as u64 + (i as u64) * (size as u64);
            assert(pos == sh_entry_pos(d, i as int));
            if pos + size as u64 > data_len as u64 {
                assert(!(sh_entry_pos(d, i as int) + sh_entry_size(d) <= d.len()));
                return Err(Error::InvalidFormat("Section header out of range".to_owned()));
            }
            proof {
                lemma_entry_words(d, i as int);
            }
            let ind = pos as usize;
            let entry = slice_subrange(data, ind, ind + size);
            assert(entry@ == sh_entry(d, i as int));
            let mut section = ElfSection::new(fmt, entry)?;
            section.index = i as usize;
            let start = section.sh_offset as u64;
            let end = start + section.sh_size as u64;
            assert(start == sh_word(d, i as int, 4) && end == sh_word(d, i as int, 4) + sh_word(d, i as int, 5));
            if end > data_len as u64 || end > 0xffff_ffffu64 {
                assert(!(sh_word(d, i as int, 4) + sh_word(d, i as int, 5) <= d.len() && sh_word(d, i as int, 4)
                    + sh_word(d, i as int, 5) <= u32::MAX));
                return Err(Error::InvalidFormat("Section contents out of range".to_owned()));
            }
            section.data = slice_to_vec(slice_subrange(data, start as usize, end as usize));
            assert(section.data@ =~= sh_content(d, i as int));
            sections.push(section);
            i += 1;
        }
        Ok(sections)
    }
}

/// Exactly one of `secs` is a symbol table.
pub open spec fn symtab_unique_in(secs: Seq<ElfSection>) -> bool {
    exists|i: int|
        0 <= i < secs.len() && secs[i].sh_type == SHT_SYMTAB && forall|j: int|
            0 <= j < secs.len() && j != i ==> secs[j].sh_type != SHT_SYMTAB
}

/// The name of `secs[i]` as the string table `secs[k]` gives it.
pub open spec fn name_in(secs: Seq<ElfSection>, k: int, i: int) -> Option<Seq<char>> {
    secs[k].string_at(secs[i].sh_name as int)
}

impl ElfFile {
    /// The position of the one symbol table among the sections.
    fn find_symtab(sections: &Vec<ElfSection>) -> (r: Result<usize, Error>)
        ensures
            r is Ok <==> symtab_unique_in(sections@),
            r matches Ok(i) ==> i < sections@.len() && sections@[i as int].sh_type == SHT_SYMTAB,
            r is Err ==> r matches Err(Error::InvalidFormat(_)),
    {
        let mut symtab: Option<usize> = None;
        let mut i: usize = 0;
        while i < sections.len()
            invariant
                i <= sections@.len(),
                symtab is None ==> forall|j: int| 0 <= j < i ==> sections@[j].sh_type != SHT_SYMTAB,
                symtab matches Some(s) ==> {
                    &&& s < i
                    &&& sections@[s as int].sh_type == SHT_SYMTAB
                    &&& forall|j: int| 0 <= j < i && j != s ==> sections@[j].sh_type != SHT_SYMTAB
                },
            decreases sections@.len() - i,
        {
            if sections[i].sh_type == SHT_SYMTAB {
                if symtab.is_some() {
                    proof {
                        let s = symtab->0;
                        assert forall|w: int|
                            0 <= w < sections@.len() && sections@[w].sh_type == SHT_SYMTAB implies exists|j: int|
                            0 <= j < sections@.len() && j != w && sections@[j].sh_type == SHT_SYMTAB by {
                            if w == s {
                                assert(sections@[i as int].sh_type == SHT_SYMTAB);
                            } else {
                                assert(sections@[s as int].sh_type == SHT_SYMTAB);
                            }
                        }
                    }
                    return Err(Error::InvalidFormat("Multiple symbol tables found".to_owned()));
                }
                symtab = Some(i);
            }
            i += 1;
        }
        match symtab {
            Some(s) => Ok(s),
            None => Err(Error::InvalidFormat("No symbol table found".to_owned())),
        }
    }

    /// Gives every section its name from the section name string table `sections[shstr_idx]`.
    fn name_sections(sections: &mut Vec<ElfSection>, shstr_idx: usize) -> (r: Result<(), Error>)
        requires
            shstr_idx < old(sections)@.len(),
        ensures
            r is Ok <==> forall|i: int| 0 <= i < old(sections)@.len() ==> (#[trigger] name_in(old(sections)@, shstr_idx as int, i)) is Some,
            r is Err ==> r matches Err(Error::InvalidSection(_)),
            r is Ok ==> {
                &&& final(sections)@.len() == old(sections)@.len()
                &&& forall|i: int| 0 <= i < old(sections)@.len() ==> {
                    &&& #[trigger] final(sections)@[i] == (ElfSection { name: final(sections)@[i].name, ..old(sections)@[i] })
                    &&& name_in(old(sections)@, shstr_idx as int, i) == Some(final(sections)@[i].name@)
                }
            },
    {
        let ghost orig = sections@;
        let ghost k = shstr_idx as int;
        let mut i: usize = 0;
        while i < sections.len()
            invariant
                i <= sections@.len(),
                sections@.len() == orig.len(),
                orig == old(sections)@,
                k == shstr_idx,
                shstr_idx < orig.len(),
                forall|j: int| 0 <= j < orig.len() ==> #[trigger] sections@[j] == (ElfSection { name: sections@[j].name, ..orig[j] }),
                forall|j: int| 0 <= j < i ==> name_in(orig, k, j) == Some(sections@[j].name@),
                forall|j: int| 0 <= j < i ==> (#[trigger] name_in(orig, k, j)) is Some,
            decreases sections@.len() - i,
        {
            assert(sections@[k] == (ElfSection { name: sections@[k].name, ..orig[k] }));
            assert(sections@[i as int] == (ElfSection { name: sections@[i as int].name, ..orig[i as int] }));
            let looked_up = sections[shstr_idx].lookup_str(sections[i].sh_name as usize);
            let name = match looked_up {
                Ok(name) => name,
                Err(e) => {
                    proof {
                        assert(sections@[k].string_at(sections@[i as int].sh_name as int) == orig[k].string_at(
                            orig[i as int].sh_name as int,
                        ));
                        assert(name_in(orig, k, i as int) is None);
                        assert(orig == old(sections)@);
                        assert(name_in(old(sections)@, shstr_idx as int, i as int) is None);
                    }
                    return Err(e);
                },
            };
            sections[i].name = name;
            i += 1;
        }
        Ok(())
    }

    /// Parses the relocations of every relocation section, and checks that each one names
    /// an existing section as the one it relocates.
    fn late_init_sections(sections: &mut Vec<ElfSection>) -> (r: Result<(), Error>)
        ensures
            r is Ok <==> forall|i: int|
                0 <= i < old(sections)@.len() && (#[trigger] old(sections)@[i].sh_type == SHT_REL
                    || old(sections)@[i].sh_type == SHT_RELA) ==> old(sections)@[i].sh_info < old(sections)@.len(),
            r is Err ==> r matches Err(Error::InvalidSection(_)),
            r is Ok ==> {
                &&& final(sections)@.len() == old(sections)@.len()
                &&& forall|i: int| 0 <= i < old(sections)@.len() ==> {
                    let o = old(sections)@[i];
                    &&& #[trigger] final(sections)@[i] == (ElfSection { relocations: final(sections)@[i].relocations, ..o })
                    &&& final(sections)@[i].relocations@ == o.relocations@ + if o.sh_type == SHT_REL || o.sh_type == SHT_RELA {
                        relocations_in(o.fmt.is_big_endian, o.data@, o.sh_type)
                    } else {
                        Seq::empty()
                    }
                }
            },
    {
        let ghost orig = sections@;
        let n = sections.len();
        let mut i: usize = 0;
        while i < n
            invariant
                n == orig.len(),
                orig == old(sections)@,
                i <= n,
                sections@.len() == n,
                forall|j: int| i <= j < n ==> #[trigger] sections@[j] == orig[j],
                forall|j: int| 0 <= j < i ==> {
                    let o = orig[j];
                    &&& #[trigger] sections@[j] == (ElfSection { relocations: sections@[j].relocations, ..o })
                    &&& sections@[j].relocations@ == o.relocations@ + if o.sh_type == SHT_REL || o.sh_type == SHT_RELA {
                        relocations_in(o.fmt.is_big_endian, o.data@, o.sh_type)
                    } else {
                        Seq::empty()
                    }
                },
                forall|j: int| 0 <= j < i && (#[trigger] orig[j].sh_type == SHT_REL || orig[j].sh_type == SHT_RELA) ==> orig[j].sh_info < n,
            decreases n - i,
        {
            let ghost before = sections@[i as int];
            let _ = sections[i].init_relocations();
            proof {
                if !(before.sh_type == SHT_REL || before.sh_type == SHT_RELA) {
                    assert(sections@[i as int].relocations@ =~= before.relocations@ + Seq::<Relocation>::empty());
                }
            }
            if sections[i].is_rel() && sections[i].sh_info as usize >= n {
                assert(orig[i as int].sh_type == SHT_REL || orig[i as int].sh_type == SHT_RELA);
                assert(!(orig[i as int].sh_info < n));
                assert(orig == old(sections)@);
                return Err(Error::InvalidSection("Invalid sh_info value".to_owned()));
            }
            i += 1;
        }
        Ok(())
    }
}

/// The first fifty-two bytes of a file decide its header the same way the whole file does.
proof fn lemma_front(d: Seq<u8>, front: Seq<u8>, h: ElfHeader)
    requires
        d.len() >= 52,
        front == d.subrange(0, 52),
    ensures
        elf_magic(front) == elf_magic(d),
        header_accepted(elf_big(d), front) == header_accepted(elf_big(d), d),
        header_from(h, elf_big(d), front) ==> header_from(h, elf_big(d), d),
{
    assert(front.subrange(0, 16) =~= d.subrange(0, 16));
}

/// The section types as read agree with the file on whether there is exactly one symbol table.
proof fn lemma_symtab_bridge(d: Seq<u8>, read: Seq<ElfSection>)
    requires
        read.len() == sh_count(d),
        forall|i: int| 0 <= i < read.len() ==> #[trigger] read[i].sh_type == sh_word(d, i, 1),
    ensures
        symtab_unique_in(read) == elf_symtab_unique(d),
{
    if elf_symtab_unique(d) {
        let w = choose|i: int|
            0 <= i < sh_count(d) && sh_word(d, i, 1) == SHT_SYMTAB && forall|j: int|
                0 <= j < sh_count(d) && j != i ==> sh_word(d, j, 1) != SHT_SYMTAB;
        assert(read[w].sh_type == SHT_SYMTAB);
        assert forall|j: int| 0 <= j < read.len() && j != w implies read[j].sh_type != SHT_SYMTAB by {
            assert(read[j].sh_type == sh_word(d, j, 1));
        }
        assert(symtab_unique_in(read));
    }
    if symtab_unique_in(read) {
        let w = choose|i: int|
            0 <= i < read.len() && read[i].sh_type == SHT_SYMTAB && forall|j: int|
                0 <= j < read.len() && j != i ==> read[j].sh_type != SHT_SYMTAB;
        assert(sh_word(d, w, 1) == SHT_SYMTAB);
        assert forall|j: int| 0 <= j < sh_count(d) && j != w implies sh_word(d, j, 1) != SHT_SYMTAB by {
            assert(read[j].sh_type == sh_word(d, j, 1));
        }
        assert(elf_symtab_unique(d));
    }
}

/// Sections as read carry the types that the file gives them.
proof fn lemma_read_types(d: Seq<u8>, read: Seq<ElfSection>)
    requires
        forall|i: int| 0 <= i < read.len() ==> section_read_at(#[trigger] read[i], d, i),
    ensures
        forall|i: int| 0 <= i < read.len() ==> #[trigger] read[i].sh_type == sh_word(d, i, 1),
{
    assert forall|i: int| 0 <= i < read.len() implies #[trigger] read[i].sh_type == sh_word(d, i, 1) by {
        assert(section_read_at(read[i], d, i));
    }
}

/// The names that the string table as read yields are the names of the file.
proof fn lemma_names_bridge(d: Seq<u8>, read: Seq<ElfSection>)
    requires
        read.len() == sh_count(d),
        forall|i: int| 0 <= i < read.len() ==> section_read_at(#[trigger] read[i], d, i),
        shstr_index(d) < sh_count(d),
    ensures
        0 <= shstr_index(d) < read.len(),
        forall|i: int| 0 <= i < read.len() ==> #[trigger] name_in(read, shstr_index(d), i) == sh_name_of(d, i),
{
    let k = shstr_index(d);
    assert(section_read_at(read[k], d, k));
    assert forall|i: int| 0 <= i < read.len() implies #[trigger] name_in(read, k, i) == sh_name_of(d, i) by {
        assert(section_read_at(read[i], d, i));
    }
}

/// After naming, each section is its read self with a name, which is the file's name for it.
pub open spec fn sections_named(d: Seq<u8>, read: Seq<ElfSection>, named: Seq<ElfSection>) -> bool {
    &&& named.len() == read.len()
    &&& forall|i: int| 0 <= i < read.len() ==> {
        &&& #[trigger] named[i] == (ElfSection { name: named[i].name, ..read[i] })
        &&& sh_name_of(d, i) == Some(named[i].name@)
    }
}

/// The relocation links of the named sections are those of the file.
proof fn lemma_links_bridge(d: Seq<u8>, read: Seq<ElfSection>, named: Seq<ElfSection>)
    requires
        read.len() == sh_count(d),
        forall|i: int| 0 <= i < read.len() ==> section_read_at(#[trigger] read[i], d, i),
        sections_named(d, read, named),
    ensures
        (forall|i: int|
            0 <= i < named.len() && (#[trigger] named[i].sh_type == SHT_REL || named[i].sh_type == SHT_RELA)
                ==> named[i].sh_info < named.len()) == elf_rel_links_ok(d),
{
    assert forall|i: int| 0 <= i < read.len() implies #[trigger] named[i].sh_type == sh_word(d, i, 1)
        && named[i].sh_info == sh_word(d, i, 7) by {
        assert(section_read_at(read[i], d, i));
        assert(named[i] == (ElfSection { name: named[i].name, ..read[i] }));
    }
    if elf_rel_links_ok(d) {
        assert forall|i: int|
            0 <= i < named.len() && (#[trigger] named[i].sh_type == SHT_REL || named[i].sh_type == SHT_RELA)
                implies named[i].sh_info < named.len() by {
            assert(sh_is_rel(d, i));
        }
    }
    if forall|i: int|
        0 <= i < named.len() && (#[trigger] named[i].sh_type == SHT_REL || named[i].sh_type == SHT_RELA)
            ==> named[i].sh_info < named.len() {
        assert forall|i: int| 0 <= i < sh_count(d) && #[trigger] sh_is_rel(d, i) implies sh_word(d, i, 7) < sh_count(d) by {
            assert(named[i].sh_type == SHT_REL || named[i].sh_type == SHT_RELA);
        }
    }
}

/// Named sections whose relocations are then parsed are the sections of the file.
proof fn lemma_final_sections(d: Seq<u8>, read: Seq<ElfSection>, named: Seq<ElfSection>, fin: Seq<ElfSection>)
    requires
        read.len() == sh_count(d),
        forall|i: int| 0 <= i < read.len() ==> section_read_at(#[trigger] read[i], d, i),
        sections_named(d, read, named),
        fin.len() == named.len(),
        forall|i: int| 0 <= i < named.len() ==> {
            let o = named[i];
            &&& #[trigger] fin[i] == (ElfSection { relocations: fin[i].relocations, ..o })
            &&& fin[i].relocations@ == o.relocations@ + if o.sh_type == SHT_REL || o.sh_type == SHT_RELA {
                relocations_in(o.fmt.is_big_endian, o.data@, o.sh_type)
            } else {
                Seq::empty()
            }
        },
    ensures
        forall|i: int| 0 <= i < sh_count(d) ==> section_parsed_at(#[trigger] fin[i], d, i),
{
    assert forall|i: int| 0 <= i < sh_count(d) implies section_parsed_at(#[trigger] fin[i], d, i) by {
        assert(section_read_at(read[i], d, i));
        assert(named[i] == (ElfSection { name: named[i].name, ..read[i] }));
        assert(read[i].relocations@ =~= Seq::<Relocation>::empty());
        if sh_is_rel(d, i) {
            assert(fin[i].relocations@ =~= relocations_in(elf_big(d), sh_content(d, i), fin[i].sh_type));
        } else {
            assert(fin[i].relocations@ =~= Seq::<Relocation>::empty());
        }
    }
}

impl ElfFile {
    /// Parses an object file: header, section headers, section contents, section names and
    /// the entries of relocation sections. Late initialisation runs against a scratch copy of
    /// the section list, so `relocated_by` lists stay empty; what remains of it is each
    /// relocation section's parsed entries and the check of its `sh_info`. A file that is not
    /// one this tool handles, whose sections do not lie in it, or that has not exactly one
    /// symbol table is refused as malformed; a name or a relocation target that cannot be
    /// found is a section error.
    pub fn new(data: &[u8]) -> (r: Result<Self, Error>)
        ensures
            !(elf_front_ok(data@) && elf_parse_defined(data@) && elf_symtab_unique(data@)) ==> r matches Err(
                Error::InvalidFormat(_),
            ),
            elf_front_ok(data@) && elf_parse_defined(data@) && elf_symtab_unique(data@) && !(elf_names_ok(data@)
                && elf_rel_links_ok(data@)) ==> r matches Err(Error::InvalidSection(_)),
            elf_front_ok(data@) && elf_parse_defined(data@) && elf_symtab_unique(data@) && elf_names_ok(data@)
                && elf_rel_links_ok(data@) ==> (r matches Ok(f) && elf_file_from(f, data@)),
    {
        let ghost d = data@;
        if data.len() < 4 || data[0] != 0x7fu8 || data[1] != 0x45u8 || data[2] != 0x4cu8 || data[3]
            != 0x46u8 {
            return Err(Error::InvalidFormat("Not an ELF file".to_owned()));
        }
        if data.len() < 52 {
            return Err(Error::InvalidFormat("Header too short".to_owned()));
        }
        let fmt = ElfFormat::new(data[EI_DATA] == 2);
        let front = slice_subrange(data, 0, 52);
        let header_r = ElfHeader::new(&fmt, front);
        proof {
            lemma_front(d, front@, header_r->Ok_0);
        }
        let header = header_r?;
        let sections = Self::read_sections(fmt, data, &header)?;
        let ghost read = sections@;
        proof {
            lemma_read_types(d, read);
            lemma_symtab_bridge(d, read);
        }
        let symtab = Self::find_symtab(&sections)?;
        let mut file = Self { header, sections, fmt, symtab };
        let shstr_idx = file.header.e_shstrndx as usize;
        if shstr_idx >= file.sections.len() {
            return Err(Error::InvalidFormat("Section name string table index out of range".to_owned()));
        }
        proof {
            lemma_names_bridge(d, read);
        }
        let named = Self::name_sections(&mut file.sections, shstr_idx);
        proof {
            if named is Err {
                let k = shstr_idx as int;
                let w = choose|i: int| !(0 <= i < read.len() ==> (#[trigger] name_in(read, k, i)) is Some);
                assert(sh_name_of(d, w) is None);
            } else {
                assert forall|i: int| 0 <= i < sh_count(d) implies (#[trigger] sh_name_of(d, i)) is Some by {
                    assert(name_in(read, shstr_idx as int, i) is Some);
                }
            }
        }
        named?;
        let ghost named_secs = file.sections@;
        proof {
            lemma_links_bridge(d, read, named_secs);
        }
        Self::late_init_sections(&mut file.sections)?;
        proof {
            lemma_final_sections(d, read, named_secs, file.sections@);
        }
        Ok(file)
    }
}

/// `i` is the first position of `secs` that holds a section called `name`.
pub open spec fn is_first_section_named(secs: Seq<ElfSection>, name: Seq<char>, i: int) -> bool {
    &&& 0 <= i < secs.len()
    &&& secs[i].name@ == name
    &&& forall|j: int| 0 <= j < i ==> secs[j].name@ != name
}

/// Whether some section of `secs` is called `name`.
pub open spec fn has_section_named(secs: Seq<ElfSection>, name: Seq<char>) -> bool {
    exists|i: int| 0 <= i < secs.len() && secs[i].name@ == name
}

/// Whether a section is a `.mdebug` or `.gptab` section.
pub open spec fn is_mdebug_or_gptab(s: ElfSection) -> bool {
    s.sh_type == SHT_MIPS_DEBUG || s.sh_type == SHT_MIPS_GPTAB
}

/// `kept` is `secs` without its trailing run of `.mdebug` and `.gptab` sections.
pub open spec fn trailing_debug_dropped(secs: Seq<ElfSection>, kept: Seq<ElfSection>) -> bool {
    &&& kept.len() <= secs.len()
    &&& kept == secs.take(kept.len() as int)
    &&& forall|i: int| kept.len() <= i < secs.len() ==> is_mdebug_or_gptab(#[trigger] secs[i])
    &&& kept.len() > 0 ==> !is_mdebug_or_gptab(kept.last())
}

impl ElfFile {
    /// The first section called `name`.
    pub fn find_section(&self, name: &str) -> (r: Option<&ElfSection>)
        ensures
            r is Some <==> has_section_named(self.sections@, name@),
            r matches Some(s) ==> exists|i: int| is_first_section_named(self.sections@, name@, i) && *s == self.sections@[i],
    {
        let wanted = name.to_owned();
        let mut i: usize = 0;
        while i < self.sections.len()
            invariant
                i <= self.sections@.len(),
                wanted@ == name@,
                forall|j: int| 0 <= j < i ==> self.sections@[j].name@ != name@,
            decreases self.sections@.len() - i,
        {
            if self.sections[i].name == wanted {
                assert(is_first_section_named(self.sections@, name@, i as int));
                return Some(&self.sections[i]);
            }
            i += 1;
        }
        None
    }

    /// Adds a section whose name is appended to the section name string table, and returns
    /// its index. Where the new section holds relocations, they are parsed, and an `sh_info`
    /// that names no section is an error after the section has been added.
    pub fn add_section(
        &mut self,
        name: &str,
        sh_type: u32,
        sh_flags: u32,
        sh_link: u32,
        sh_info: u32,
        sh_addralign: u32,
        sh_entsize: u32,
        data: Vec<u8>,
    ) -> (r: Result<usize, Error>)
        requires
            (old(self).header.e_shstrndx as int) < old(self).sections@.len(),
        ensures
            ({
                let k = old(self).header.e_shstrndx as int;
                let shstr = old(self).sections@[k];
                let n = old(self).sections@.len();
                &&& final(self).header == old(self).header
                &&& final(self).fmt == old(self).fmt
                &&& final(self).symtab == old(self).symtab
                &&& shstr.sh_type != SHT_STRTAB ==> (r matches Err(Error::InvalidSection(_))
                    && final(self).sections@ == old(self).sections@)
                &&& shstr.sh_type == SHT_STRTAB ==> {
                    let new_sec = final(self).sections@[n as int];
                    &&& final(self).sections@.len() == n + 1
                    &&& forall|i: int| 0 <= i < n && i != k ==> #[trigger] final(self).sections@[i] == old(self).sections@[i]
                    &&& final(self).sections@[k].data@ == shstr.data@ + name.spec_bytes() + seq![0u8]
                    &&& final(self).sections@[k] == (ElfSection { data: final(self).sections@[k].data, ..shstr })
                    &&& new_sec.fmt == old(self).fmt
                    &&& new_sec.sh_name == shstr.data@.len() as u32
                    &&& new_sec.sh_type == sh_type
                    &&& new_sec.sh_flags == sh_flags
                    &&& new_sec.sh_addr == 0
                    &&& new_sec.sh_offset == 0
                    &&& new_sec.sh_size == data@.len() as u32
                    &&& new_sec.sh_link == sh_link
                    &&& new_sec.sh_info == sh_info
                    &&& new_sec.sh_addralign == sh_addralign
                    &&& new_sec.sh_entsize == sh_entsize
                    &&& new_sec.data@ == data@
                    &&& new_sec.index == n
                    &&& new_sec.name@ == name@
                    &&& new_sec.symbols@.len() == 0
                    &&& new_sec.relocated_by@.len() == 0
                    &&& new_sec.relocations@ == if sh_type == SHT_REL || sh_type == SHT_RELA {
                        relocations_in(old(self).fmt.is_big_endian, data@, sh_type)
                    } else {
                        Seq::empty()
                    }
                    &&& ((sh_type == SHT_REL || sh_type == SHT_RELA) && sh_info > n) ==> (r matches Err(
                        Error::InvalidSection(_),
                    ))
                    &&& !((sh_type == SHT_REL || sh_type == SHT_RELA) && sh_info > n) ==> r == Ok::<usize, Error>(n as usize)
                }
            }),
    {
        let k = self.header.e_shstrndx as usize;
        let sh_name = self.sections[k].add_str(name)?;
        let index = self.sections.len();
        let mut section = ElfSection::from_parts(
            self.fmt,
            sh_name,
            sh_type,
            sh_flags,
            sh_link,
            sh_entsize,
            sh_addralign,
            sh_info,
            data,
            index,
        );
        section.name = name.to_owned();
        self.sections.push(section);
        let _ = self.sections[index].init_relocations();
        proof {
            let s = self.sections@[index as int];
            if !(sh_type == SHT_REL || sh_type == SHT_RELA) {
                assert(s.relocations@ =~= Seq::<Relocation>::empty());
            } else {
                assert(s.relocations@ =~= relocations_in(self.fmt.is_big_endian, s.data@, sh_type));
            }
        }
        if self.sections[index].is_rel() && self.sections[index].sh_info as usize >= self.sections.len() {
            return Err(Error::InvalidSection("Invalid sh_info value".to_owned()));
        }
        Ok(index)
    }

    /// Drops the trailing run of `.mdebug` and `.gptab` sections.
    pub fn drop_mdebug_gptab(&mut self)
        ensures
            trailing_debug_dropped(old(self).sections@, final(self).sections@),
            final(self).header == old(self).header,
            final(self).fmt == old(self).fmt,
            final(self).symtab == old(self).symtab,
    {
        let ghost orig = self.sections@;
        while self.sections.len() > 0
            invariant
                self.sections@.len() <= orig.len(),
                self.sections@ == orig.take(self.sections@.len() as int),
                forall|i: int| self.sections@.len() <= i < orig.len() ==> is_mdebug_or_gptab(#[trigger] orig[i]),
                self.header == old(self).header,
                self.fmt == old(self).fmt,
                self.symtab == old(self).symtab,
                orig == old(self).sections@,
            ensures
                self.sections@.len() > 0 ==> !is_mdebug_or_gptab(self.sections@.last()),
                self.sections@.len() <= orig.len(),
                self.sections@ == orig.take(self.sections@.len() as int),
                forall|i: int| self.sections@.len() <= i < orig.len() ==> is_mdebug_or_gptab(#[trigger] orig[i]),
                self.header == old(self).header,
                self.fmt == old(self).fmt,
                self.symtab == old(self).symtab,
            decreases self.sections@.len(),
        {
            let last = self.sections.len() - 1;
            if self.sections[last].sh_type != SHT_MIPS_DEBUG && self.sections[last].sh_type != SHT_MIPS_GPTAB {
                break;
            }
            let ghost before = self.sections@;
            self.sections.pop();
            assert(self.sections@ =~= orig.take(self.sections@.len() as int));
            assert(is_mdebug_or_gptab(before[last as int]));
        }
    }
}

/// Whether a section's contents are written to the file: all but `SHT_NOBITS` and `SHT_NULL`.
pub open spec fn is_placed(s: ElfSection) -> bool {
    s.sh_type != SHT_NOBITS && s.sh_type != SHT_NULL
}

/// `pos` moved up to the next multiple of `align`, where `align` is not 0.
pub open spec fn align_up(pos: int, align: int) -> int {
    if align > 0 && pos % align != 0 {
        pos + (align - pos % align)
    } else {
        pos
    }
}

/// The file position after the header and the contents of the first `k` sections.
pub open spec fn layout_end(secs: Seq<ElfSection>, k: int) -> int
    decreases k,
{
    if k <= 0 {
        52
    } else {
        let p = layout_end(secs, k - 1);
        let s = secs[k - 1];
        if is_placed(s) {
            align_up(p, s.sh_addralign as int) + s.data@.len()
        } else {
            p
        }
    }
}

/// The file position at which section `k` is written: its old offset where it is not written.
pub open spec fn new_offset(secs: Seq<ElfSection>, k: int) -> int {
    if is_placed(secs[k]) {
        align_up(layout_end(secs, k), secs[k].sh_addralign as int)
    } else {
        secs[k].sh_offset as int
    }
}

/// Section `k` is an `.mdebug` section that moves and whose symbolic header cannot be moved
/// with it.
pub open spec fn mdebug_move_fails(secs: Seq<ElfSection>, k: int) -> bool {
    let s = secs[k];
    &&& is_placed(s)
    &&& s.sh_type == SHT_MIPS_DEBUG
    &&& new_offset(secs, k) != s.sh_offset
    &&& (s.data@.len() < 0x60 || u16_at(s.fmt.is_big_endian, s.data@, 0) != 0x7009)
}

/// `f` is section `o` as writing leaves it, written at `off`: its offset updated, its size
/// the length of its contents, and where it is an `.mdebug` section that moved, its symbolic
/// header moved with it.
pub open spec fn section_moved(o: ElfSection, f: ElfSection, off: int) -> bool {
    if is_placed(o) {
        if o.sh_type == SHT_MIPS_DEBUG && off != o.sh_offset {
            &&& f == (ElfSection { sh_offset: off as u32, sh_size: o.data@.len() as u32, data: f.data, ..o })
            &&& hdrr_shifted(o.fmt.is_big_endian, o.data@, f.data@, off - o.sh_offset)
        } else {
            f == (ElfSection { sh_offset: off as u32, sh_size: o.data@.len() as u32, ..o })
        }
    } else {
        f == o
    }
}

/// `n` zero bytes.
pub open spec fn zeros(n: int) -> Seq<u8> {
    Seq::new(n as nat, |i: int| 0u8)
}

/// The bytes that follow the header: each written section's padding and contents.
pub open spec fn contents_bytes(secs: Seq<ElfSection>, k: int) -> Seq<u8>
    decreases k,
{
    if k <= 0 {
        Seq::empty()
    } else {
        let p = layout_end(secs, k - 1);
        let s = secs[k - 1];
        if is_placed(s) {
            contents_bytes(secs, k - 1) + zeros(align_up(p, s.sh_addralign as int) - p) + s.data@
        } else {
            contents_bytes(secs, k - 1)
        }
    }
}

/// The section header table: the headers of the first `k` sections.
pub open spec fn headers_bytes(secs: Seq<ElfSection>, k: int) -> Seq<u8>
    decreases k,
{
    if k <= 0 {
        Seq::empty()
    } else {
        headers_bytes(secs, k - 1) + section_header_bytes(secs[k - 1])
    }
}

/// Aligning up lands at or after the position and before the next multiple.
pub(crate) proof fn lemma_align_up(pos: int, align: int)
    requires
        pos >= 0,
        align >= 0,
    ensures
        pos <= align_up(pos, align),
        align > 0 ==> align_up(pos, align) < pos + align,
        align > 0 ==> align_up(pos, align) % align == 0,
{
    if align > 0 && pos % align != 0 {
        assert((pos + (align - pos % align)) % align == 0) by (nonlinear_arith)
            requires
                align > 0,
        ;
    }
}

/// The layout starts after the header.
pub(crate) proof fn lemma_layout_start(secs: Seq<ElfSection>, k: int)
    requires
        0 <= k <= secs.len(),
    ensures
        52 <= layout_end(secs, k),
    decreases k,
{
    if k > 0 {
        lemma_layout_start(secs, k - 1);
        lemma_align_up(layout_end(secs, k - 1), secs[k - 1].sh_addralign as int);
    }
}

/// The layout only grows, and each written section lies between its predecessors and its
/// successors.
pub(crate) proof fn lemma_layout_mono(secs: Seq<ElfSection>, j: int, k: int)
    requires
        0 <= j <= k <= secs.len(),
    ensures
        52 <= layout_end(secs, j) <= layout_end(secs, k),
        j < k && is_placed(secs[j]) ==> layout_end(secs, j) <= new_offset(secs, j) && new_offset(secs, j)
            + secs[j].data@.len() <= layout_end(secs, k),
    decreases k - j,
{
    lemma_layout_start(secs, j);
    if j < k {
        lemma_layout_mono(secs, j + 1, k);
        lemma_align_up(layout_end(secs, j), secs[j].sh_addralign as int);
    }
}

/// Sections that agree on type, alignment and content length are laid out alike.
pub(crate) proof fn lemma_layout_same(a: Seq<ElfSection>, b: Seq<ElfSection>, k: int)
    requires
        0 <= k <= a.len(),
        a.len() == b.len(),
        forall|i: int|
            #![trigger a[i]]
            0 <= i < a.len() ==> a[i].sh_type == b[i].sh_type && a[i].sh_addralign == b[i].sh_addralign
                && a[i].data@.len() == b[i].data@.len(),
    ensures
        layout_end(a, k) == layout_end(b, k),
    decreases k,
{
    if k > 0 {
        lemma_layout_same(a, b, k - 1);
        assert(a[k - 1].data@.len() == b[k - 1].data@.len());
    }
}

/// Some `.mdebug` section among the first `n` moves and cannot take its symbolic header along.
pub open spec fn some_mdebug_move_fails(secs: Seq<ElfSection>) -> bool {
    exists|k: int| 0 <= k < secs.len() && #[trigger] mdebug_move_fails(secs, k)
}

/// `n` is `o` laid out for writing, and `bytes` its file: the header, each written
/// section's contents at its new offset, padding to a multiple of four, then the section
/// header table.
pub open spec fn file_written(o: ElfFile, n: ElfFile, bytes: Seq<u8>) -> bool {
    let len = o.sections@.len() as int;
    let end = layout_end(o.sections@, len);
    &&& n.fmt == o.fmt
    &&& n.symtab == o.symtab
    &&& n.sections@.len() == len
    &&& forall|k: int| 0 <= k < len ==> section_moved(o.sections@[k], #[trigger] n.sections@[k], new_offset(o.sections@, k))
    &&& n.header == (ElfHeader { e_shnum: len as u16, e_shoff: align_up(end, 4) as u32, ..o.header })
    &&& bytes == header_bytes(n.fmt.is_big_endian, n.header) + contents_bytes(n.sections@, len) + zeros(
        align_up(end, 4) - end,
    ) + headers_bytes(n.sections@, len)
}

/// Whether the file, laid out for writing, ends with its section header table within
/// 32-bit file positions.
pub open spec fn layout_fits_u32(o: ElfFile) -> bool {
    layout_end(o.sections@, o.sections@.len() as int) + 3 + 40 * o.sections@.len() <= u32::MAX
}

/// `n` is `o`, without its trailing `.mdebug` and `.gptab` sections where `drop` asks for it.
pub open spec fn debug_dropped(o: ElfFile, n: ElfFile, drop: bool) -> bool {
    if drop {
        &&& trailing_debug_dropped(o.sections@, n.sections@)
        &&& n.header == o.header
        &&& n.fmt == o.fmt
        &&& n.symtab == o.symtab
    } else {
        n == o
    }
}

impl ElfFile {
    /// The file position of each section as written; an error where an `.mdebug` section
    /// that moves has no valid symbolic header.
    fn plan_offsets(&self) -> (r: Result<(Vec<u32>, u32), Error>)
        requires
            layout_end(self.sections@, self.sections@.len() as int) <= u32::MAX,
        ensures
            some_mdebug_move_fails(self.sections@) ==> r matches Err(Error::InvalidSection(_)),
            !some_mdebug_move_fails(self.sections@) ==> (r matches Ok((offs, end)) && offs@.len() == self.sections@.len()
                && end == layout_end(self.sections@, self.sections@.len() as int)
                && forall|k: int| 0 <= k < offs@.len() ==> #[trigger] offs@[k] == new_offset(self.sections@, k)),
    {
        let ghost secs = self.sections@;
        let n = self.sections.len();
        let mut offsets: Vec<u32> = Vec::new();
        let mut outidx: u32 = 52;
        let mut i: usize = 0;
        while i < n
            invariant
                secs == self.sections@,
                n == secs.len(),
                i <= n,
                layout_end(secs, n as int) <= u32::MAX,
                outidx == layout_end(secs, i as int),
                offsets@.len() == i,
                forall|j: int| 0 <= j < i ==> #[trigger] offsets@[j] == new_offset(secs, j),
                forall|j: int| 0 <= j < i ==> !#[trigger] mdebug_move_fails(secs, j),
            decreases n - i,
        {
            proof {
                lemma_layout_mono(secs, i as int, n as int);
                lemma_layout_mono(secs, i + 1, n as int);
            }
            let s = &self.sections[i];
            if s.sh_type != SHT_NOBITS && s.sh_type != SHT_NULL {
                let mut pos = outidx;
                if s.sh_addralign > 0 && pos % s.sh_addralign != 0 {
                    pos = pos + (s.sh_addralign - pos % s.sh_addralign);
                }
                assert(pos == new_offset(secs, i as int));
                if s.sh_type == SHT_MIPS_DEBUG && pos != s.sh_offset {
                    if s.data.len() < 0x60 || s.fmt.read_u16(s.data.as_slice(), 0) != 0x7009 {
                        assert(mdebug_move_fails(secs, i as int));
                        return Err(Error::InvalidSection("Cannot relocate .mdebug symbolic header".to_owned()));
                    }
                }
                offsets.push(pos);
                outidx = pos + s.data.len() as u32;
            } else {
                offsets.push(s.sh_offset);
            }
            i += 1;
        }
        Ok((offsets, outidx))
    }

    /// Moves every written section to its planned position, and an `.mdebug` section's
    /// symbolic header with it.
    fn apply_offsets(&mut self, offsets: &Vec<u32>)
        requires
            offsets@.len() == old(self).sections@.len(),
            forall|k: int| 0 <= k < offsets@.len() ==> #[trigger] offsets@[k] == new_offset(old(self).sections@, k),
            !some_mdebug_move_fails(old(self).sections@),
            layout_end(old(self).sections@, old(self).sections@.len() as int) <= u32::MAX,
        ensures
            final(self).header == old(self).header,
            final(self).fmt == old(self).fmt,
            final(self).symtab == old(self).symtab,
            final(self).sections@.len() == old(self).sections@.len(),
            forall|k: int|
                0 <= k < old(self).sections@.len() ==> section_moved(
                    old(self).sections@[k],
                    #[trigger] final(self).sections@[k],
                    new_offset(old(self).sections@, k),
                ),
    {
        let ghost secs = self.sections@;
        let n = self.sections.len();
        let mut i: usize = 0;
        while i < n
            invariant
                secs == old(self).sections@,
                n == secs.len(),
                i <= n,
                self.sections@.len() == n,
                self.header == old(self).header,
                self.fmt == old(self).fmt,
                self.symtab == old(self).symtab,
                offsets@.len() == n,
                forall|k: int| 0 <= k < n ==> #[trigger] offsets@[k] == new_offset(secs, k),
                !some_mdebug_move_fails(secs),
                layout_end(secs, n as int) <= u32::MAX,
                forall|k: int| i <= k < n ==> #[trigger] self.sections@[k] == secs[k],
                forall|k: int| 0 <= k < i ==> section_moved(secs[k], #[trigger] self.sections@[k], new_offset(secs, k)),
            decreases n - i,
        {
            if self.sections[i].sh_type != SHT_NOBITS && self.sections[i].sh_type != SHT_NULL {
                proof {
                    lemma_layout_mono(secs, i as int, n as int);
                }
                let old_off = self.sections[i].sh_offset;
                self.sections[i].sh_offset = offsets[i];
                self.sections[i].sh_size = self.sections[i].data.len() as u32;
                if self.sections[i].sh_type == SHT_MIPS_DEBUG && offsets[i] != old_off {
                    assert(!mdebug_move_fails(secs, i as int));
                    let _ = self.sections[i].relocate_mdebug(old_off);
                }
            }
            i += 1;
        }
    }
}

/// Appends `n` zero bytes.
fn push_zeros(out: &mut Vec<u8>, n: usize)
    ensures
        final(out)@ == old(out)@ + zeros(n as int),
{
    let mut i: usize = 0;
    while i < n
        invariant
            i <= n,
            out@ == old(out)@ + zeros(i as int),
        decreases n - i,
    {
        out.push(0u8);
        assert(zeros(i + 1) =~= zeros(i as int).push(0u8));
        assert(out@ =~= old(out)@ + zeros(i + 1));
        i += 1;
    }
}

impl ElfFile {
    /// The file's bytes for its current header and sections, written at the positions that
    /// their offsets give.
    fn emit(&self, old_secs: Ghost<Seq<ElfSection>>) -> (bytes: Vec<u8>)
        requires
            self.sections@.len() == old_secs@.len(),
            forall|k: int|
                0 <= k < old_secs@.len() ==> section_moved(
                    old_secs@[k],
                    #[trigger] self.sections@[k],
                    new_offset(old_secs@, k),
                ),
            self.header.e_shoff == align_up(layout_end(old_secs@, old_secs@.len() as int), 4),
            layout_end(old_secs@, old_secs@.len() as int) + 3 <= u32::MAX,
        ensures
            bytes@ == header_bytes(self.fmt.is_big_endian, self.header) + contents_bytes(
                self.sections@,
                self.sections@.len() as int,
            ) + zeros(self.header.e_shoff - layout_end(self.sections@, self.sections@.len() as int))
                + headers_bytes(self.sections@, self.sections@.len() as int),
    {
        let ghost secs = self.sections@;
        let ghost olds = old_secs@;
        let n = self.sections.len();
        proof {
            assert forall|i: int|
                #![trigger secs[i]]
                0 <= i < secs.len() implies secs[i].sh_type == olds[i].sh_type && secs[i].sh_addralign
                == olds[i].sh_addralign && secs[i].data@.len() == olds[i].data@.len() by {
                assert(section_moved(olds[i], secs[i], new_offset(olds, i)));
            }
        }
        let mut out = self.header.to_bytes(&self.fmt);
        proof {
            lemma_header_roundtrip(self.fmt.is_big_endian, self.header);
        }
        let ghost head = out@;
        let mut i: usize = 0;
        while i < n
            invariant
                n == secs.len(),
                secs == self.sections@,
                olds.len() == n,
                i <= n,
                forall|k: int| 0 <= k < n ==> section_moved(olds[k], #[trigger] secs[k], new_offset(olds, k)),
                forall|k: int|
                    #![trigger secs[k]]
                    0 <= k < secs.len() ==> secs[k].sh_type == olds[k].sh_type && secs[k].sh_addralign
                        == olds[k].sh_addralign && secs[k].data@.len() == olds[k].data@.len(),
                head.len() == 52,
                out@ == head + contents_bytes(secs, i as int),
                out@.len() == layout_end(secs, i as int),
                layout_end(olds, n as int) + 3 <= u32::MAX,
            decreases n - i,
        {
            proof {
                lemma_layout_same(secs, olds, i as int);
                lemma_layout_mono(olds, i as int, n as int);
                assert(section_moved(olds[i as int], secs[i as int], new_offset(olds, i as int)));
            }
            let s = &self.sections[i];
            if s.sh_type != SHT_NOBITS && s.sh_type != SHT_NULL {
                let pad = (s.sh_offset as usize) - out.len();
                push_zeros(&mut out, pad);
                let mut j: usize = 0;
                let ghost before = out@;
                while j < s.data.len()
                    invariant
                        j <= s.data@.len(),
                        out@ == before + s.data@.take(j as int),
                    decreases s.data@.len() - j,
                {
                    out.push(s.data[j]);
                    assert(s.data@.take(j + 1) =~= s.data@.take(j as int).push(s.data@[j as int]));
                    j += 1;
                }
                assert(s.data@.take(j as int) =~= s.data@);
            }
            i += 1;
        }
        let ghost end = layout_end(secs, n as int);
        proof {
            lemma_layout_same(secs, olds, n as int);
            lemma_align_up(end, 4);
        }
        let pad4 = (self.header.e_shoff as usize) - out.len();
        push_zeros(&mut out, pad4);
        let ghost body = out@;
        let mut i: usize = 0;
        while i < n
            invariant
                n == secs.len(),
                secs == self.sections@,
                i <= n,
                out@ == body + headers_bytes(secs, i as int),
            decreases n - i,
        {
            let h = self.sections[i].header_to_bin();
            let mut j: usize = 0;
            let ghost before = out@;
            while j < h.len()
                invariant
                    j <= h@.len(),
                    out@ == before + h@.take(j as int),
                decreases h@.len() - j,
            {
                out.push(h[j]);
                assert(h@.take(j + 1) =~= h@.take(j as int).push(h@[j as int]));
                j += 1;
            }
            assert(h@.take(j as int) =~= h@);
            i += 1;
        }
        out
    }

    /// Whether the file, laid out for writing, ends with its section header table within
    /// 32-bit file positions.
    pub fn layout_fits(&self) -> (r: bool)
        ensures
            r == layout_fits_u32(*self),
    {
        let ghost secs = self.sections@;
        let n = self.sections.len();
        let mut p: u64 = 52;
        let mut i: usize = 0;
        while i < n
            invariant
                secs == self.sections@,
                n == secs.len(),
                i <= n,
                p == layout_end(secs, i as int),
                p <= u32::MAX,
            decreases n - i,
        {
            let s = &self.sections[i];
            if s.sh_type != SHT_NOBITS && s.sh_type != SHT_NULL {
                let a = s.sh_addralign as u64;
                let q = if a > 0 && p % a != 0 {
                    p + (a - p % a)
                } else {
                    p
                };
                let len = s.data.len() as u64;
                if q > u32::MAX as u64 || len > u32::MAX as u64 - q {
                    proof {
                        lemma_layout_mono(secs, i + 1, n as int);
                    }
                    return false;
                }
                p = q + len;
            }
            i += 1;
        }
        if n as u64 > u32::MAX as u64 {
            return false;
        }
        p + 3 + 40 * (n as u64) <= u32::MAX as u64
    }

    /// Lays the file out for writing and returns its bytes: the header, then each section's
    /// contents aligned to its `sh_addralign` (sections of type `SHT_NOBITS` and `SHT_NULL`
    /// take no room), padding to a multiple of four, then the section header table. Each
    /// written section's `sh_offset` becomes its new position and its `sh_size` the length
    /// of its contents, an `.mdebug` section that moves takes its symbolic header along, and
    /// the header records the number of sections and the position of the table. Where an `.mdebug` section that moves has no valid
    /// symbolic header, nothing changes and the result is an error.
    pub fn write_bytes(&mut self) -> (r: Result<Vec<u8>, Error>)
        requires
            layout_fits_u32(*old(self)),
        ensures
            some_mdebug_move_fails(old(self).sections@) ==> (r matches Err(Error::InvalidSection(_))
                && *final(self) == *old(self)),
            !some_mdebug_move_fails(old(self).sections@) ==> (r matches Ok(bytes) && file_written(
                *old(self),
                *final(self),
                bytes@,
            )),
    {
        let ghost olds = self.sections@;
        let n = self.sections.len();
        proof {
            lemma_layout_start(olds, n as int);
            lemma_align_up(layout_end(olds, n as int), 4);
        }
        let (offsets, end) = self.plan_offsets()?;
        self.apply_offsets(&offsets);
        let ghost moved = self.sections@;
        let shoff = if end % 4 != 0 {
            end + (4 - end % 4)
        } else {
            end
        };
        self.header.e_shnum = n as u16;
        self.header.e_shoff = shoff;
        proof {
            assert forall|i: int|
                #![trigger moved[i]]
                0 <= i < moved.len() implies moved[i].sh_type == olds[i].sh_type && moved[i].sh_addralign
                == olds[i].sh_addralign && moved[i].data@.len() == olds[i].data@.len() by {
                assert(section_moved(olds[i], moved[i], new_offset(olds, i)));
            }
            lemma_layout_same(moved, olds, n as int);
        }
        Ok(self.emit(Ghost(olds)))
    }
}

} // verus!
