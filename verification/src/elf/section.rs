use crate::elf::constants::{SHT_REL, SHT_RELA, SHT_STRTAB, SHT_SYMTAB, SHT_MIPS_DEBUG, SHN_XINDEX};
use crate::elf::format::{
    ElfFormat,
    u32_at,
    u16_at,
    u32s_bytes,
    u32_bytes,
    lemma_u32s_bytes_at,
    lemma_u32s_bytes_len,
    lemma_u32_at,
};
use crate::elf::relocation::{Relocation, relocation_of, relocation_too_short};
use crate::elf::symbol::{Symbol, symbol_parsed_from};
use crate::utils::error::Error;
use crate::utils::text::string_from_utf8;
use vstd::prelude::*;
use vstd::slice::{slice_subrange, slice_to_vec};
use vstd::string::StringSliceAdditionalSpecFns;
use vstd::utf8::{decode_utf8, valid_utf8, encode_utf8_decode_utf8, encode_utf8_valid_utf8};

verus! {

/// A section that strings can be looked up in.
pub trait Section {
    /// The string that starts at byte `index`, where a lookup finds one.
    spec fn string_at(&self, index: int) -> Option<Seq<char>>;

    fn lookup_str(&self, index: usize) -> (r: Result<String, Error>)
        ensures
            r is Ok <==> self.string_at(index as int) is Some,
            r matches Ok(s) ==> Some(s@) == self.string_at(index as int),
    ;
}

/// The position of the first zero byte of `s` at or after `i`, or the length of `s` where
/// there is none.
pub open spec fn first_nul_from(s: Seq<u8>, i: int) -> int
    decreases s.len() - i,
{
    if i >= s.len() {
        s.len() as int
    } else if s[i] == 0 {
        i
    } else {
        first_nul_from(s, i + 1)
    }
}

/// Where `first_nul_from` lands: at a zero byte or at the end, past non-zero bytes only.
pub proof fn lemma_first_nul_from(s: Seq<u8>, i: int)
    requires
        0 <= i <= s.len(),
    ensures
        i <= first_nul_from(s, i) <= s.len(),
        first_nul_from(s, i) < s.len() ==> s[first_nul_from(s, i)] == 0,
        forall|k: int| i <= k < first_nul_from(s, i) ==> s[k] != 0,
    decreases s.len() - i,
{
    if i < s.len() && s[i] != 0 {
        lemma_first_nul_from(s, i + 1);
    }
}

/// The string of a string table that starts at byte `index`: the bytes up to the next zero
/// byte, where there is one and they are valid UTF-8.
pub open spec fn strtab_string_at(data: Seq<u8>, index: int) -> Option<Seq<char>> {
    let end = first_nul_from(data, index);
    if end >= data.len() {
        None
    } else if valid_utf8(data.subrange(index, end)) {
        Some(decode_utf8(data.subrange(index, end)))
    } else {
        None
    }
}

/// A section: its header fields, its contents, and what is parsed from them.
#[derive(Debug, Clone)]
pub struct ElfSection {
    pub fmt: ElfFormat,
    pub sh_name: u32,
    pub sh_type: u32,
    pub sh_flags: u32,
    pub sh_addr: u32,
    pub sh_offset: u32,
    pub sh_size: u32,
    pub sh_link: u32,
    pub sh_info: u32,
    pub sh_addralign: u32,
    pub sh_entsize: u32,
    pub data: Vec<u8>,
    pub symbols: Vec<Symbol>,
    pub relocations: Vec<Relocation>,
    pub index: usize,
    pub name: String,
    pub relocated_by: Vec<usize>,
}

/// The ten header words of a section, in the order in which they are stored.
pub open spec fn header_words(s: ElfSection) -> Seq<u32> {
    seq![
        s.sh_name,
        s.sh_type,
        s.sh_flags,
        s.sh_addr,
        s.sh_offset,
        s.sh_size,
        s.sh_link,
        s.sh_info,
        s.sh_addralign,
        s.sh_entsize,
    ]
}

/// The bytes of a section header.
pub open spec fn section_header_bytes(s: ElfSection) -> Seq<u8> {
    u32s_bytes(s.fmt.is_big_endian, header_words(s))
}

/// `s` holds the header fields that the first forty bytes of `h` encode.
pub open spec fn header_fields_from(s: ElfSection, big: bool, h: Seq<u8>) -> bool {
    &&& s.sh_name == u32_at(big, h, 0)
    &&& s.sh_type == u32_at(big, h, 4)
    &&& s.sh_flags == u32_at(big, h, 8)
    &&& s.sh_addr == u32_at(big, h, 12)
    &&& s.sh_offset == u32_at(big, h, 16)
    &&& s.sh_size == u32_at(big, h, 20)
    &&& s.sh_link == u32_at(big, h, 24)
    &&& s.sh_info == u32_at(big, h, 28)
    &&& s.sh_addralign == u32_at(big, h, 32)
    &&& s.sh_entsize == u32_at(big, h, 36)
}

/// A section freshly parsed from a header: header fields from `h`, nothing else yet.
pub open spec fn fresh_section_from(s: ElfSection, fmt: ElfFormat, h: Seq<u8>) -> bool {
    &&& s.fmt == fmt
    &&& header_fields_from(s, fmt.is_big_endian, h)
    &&& s.data@.len() == 0
    &&& s.symbols@.len() == 0
    &&& s.relocations@.len() == 0
    &&& s.relocated_by@.len() == 0
    &&& s.index == 0
    &&& s.name@.len() == 0
}

/// Size of one entry of a relocation section of type `sh_type`.
pub open spec fn rel_entry_size(sh_type: u32) -> int {
    if sh_type == SHT_REL {
        8
    } else {
        12
    }
}

/// The relocations of a `SHT_REL` or `SHT_RELA` section: one per complete entry of its data.
pub open spec fn relocations_in(big: bool, data: Seq<u8>, sh_type: u32) -> Seq<Relocation> {
    let es = rel_entry_size(sh_type);
    Seq::new(
        ((data.len() as int) / es) as nat,
        |k: int| relocation_of(big, data.subrange(es * k, es * k + es), sh_type),
    )
}

/// Whether some symbol of `syms` is called `name`.
pub open spec fn has_symbol_named(syms: Seq<Symbol>, name: Seq<char>) -> bool {
    exists|i: int| 0 <= i < syms.len() && syms[i].name@ == name
}

/// `i` is the first position of `syms` that holds a symbol called `name`.
pub open spec fn is_first_named(syms: Seq<Symbol>, name: Seq<char>, i: int) -> bool {
    &&& 0 <= i < syms.len()
    &&& syms[i].name@ == name
    &&& forall|j: int| 0 <= j < i ==> syms[j].name@ != name
}

/// The first position of `syms` that holds a symbol called `name`.
pub open spec fn first_named(syms: Seq<Symbol>, name: Seq<char>) -> int {
    choose|i: int| is_first_named(syms, name, i)
}

/// The first symbol called `name` is unique and exists where some symbol has that name.
pub proof fn lemma_first_named(syms: Seq<Symbol>, name: Seq<char>)
    requires
        has_symbol_named(syms, name),
    ensures
        is_first_named(syms, name, first_named(syms, name)),
        forall|i: int| is_first_named(syms, name, i) ==> i == first_named(syms, name),
{
    let w = choose|i: int| 0 <= i < syms.len() && syms[i].name@ == name;
    lemma_first_named_upto(syms, name, w);
    let f = first_named(syms, name);
    assert forall|i: int| is_first_named(syms, name, i) implies i == f by {
        if i < f {
            assert(syms[i].name@ != name);
        } else if f < i {
            assert(syms[f].name@ != name);
        }
    }
}

proof fn lemma_first_named_upto(syms: Seq<Symbol>, name: Seq<char>, w: int)
    requires
        0 <= w < syms.len(),
        syms[w].name@ == name,
    ensures
        exists|i: int| is_first_named(syms, name, i),
    decreases w,
{
    if forall|j: int| 0 <= j < w ==> syms[j].name@ != name {
        assert(is_first_named(syms, name, w));
    } else {
        let j = choose|j: int| 0 <= j < w && syms[j].name@ == name;
        lemma_first_named_upto(syms, name, j);
    }
}

/// `data2` is `data` with each of the twenty-three words that follow the magic and the
/// version stamp of the `.mdebug` symbolic header moved by `shift`, modulo 2^32.
pub open spec fn hdrr_shifted(big: bool, data: Seq<u8>, data2: Seq<u8>, shift: int) -> bool {
    &&& data2.len() == data.len()
    &&& forall|i: int| 0 <= i < data.len() && !(4 <= i < 96) ==> data2[i] == data[i]
    &&& forall|k: int|
        0 <= k < 23 ==> #[trigger] u32_at(big, data2, 4 + 4 * k) == (u32_at(big, data, 4 + 4 * k) + shift)
            % 0x1_0000_0000
}

/// `s` holds the symbol entries of `data`, with names from `strtab`.
pub open spec fn symbols_from(syms: Seq<Symbol>, fmt: ElfFormat, data: Seq<u8>, strtab: ElfSection) -> bool {
    &&& syms.len() == data.len() / 16
    &&& forall|k: int|
        0 <= k < syms.len() ==> symbol_parsed_from(
            #[trigger] syms[k],
            fmt,
            data.subrange(16 * k, 16 * k + 16),
            strtab,
        )
}

impl ElfSection {
    /// Parses a section header. Contents, symbols and relocations start empty.
    pub fn new(fmt: ElfFormat, header: &[u8]) -> (r: Result<Self, Error>)
        ensures
            header@.len() < 40 ==> r matches Err(Error::InvalidFormat(_)),
            header@.len() >= 40 ==> (r matches Ok(s) && fresh_section_from(s, fmt, header@)),
    {
        if header.len() < 40 {
            return Err(Error::InvalidFormat("Section header too short".to_owned()));
        }
        Ok(Self {
            fmt,
            sh_name: fmt.read_u32(header, 0),
            sh_type: fmt.read_u32(header, 4),
            sh_flags: fmt.read_u32(header, 8),
            sh_addr: fmt.read_u32(header, 12),
            sh_offset: fmt.read_u32(header, 16),
            sh_size: fmt.read_u32(header, 20),
            sh_link: fmt.read_u32(header, 24),
            sh_info: fmt.read_u32(header, 28),
            sh_addralign: fmt.read_u32(header, 32),
            sh_entsize: fmt.read_u32(header, 36),
            data: Vec::new(),
            index: 0,
            symbols: Vec::new(),
            relocations: Vec::new(),
            relocated_by: Vec::new(),
            name: String::new(),
        })
    }

    /// A section built from its fields, given in the order name, type, flags, link, entry
    /// size, alignment, info; its size is the length of `data`, cut to 32 bits.
    pub fn from_parts(
        fmt: ElfFormat,
        sh_name: u32,
        sh_type: u32,
        sh_flags: u32,
        sh_link: u32,
        sh_entsize: u32,
        sh_addralign: u32,
        sh_info: u32,
        data: Vec<u8>,
        index: usize,
    ) -> (s: Self)
        ensures
            s.fmt == fmt,
            s.sh_name == sh_name,
            s.sh_type == sh_type,
            s.sh_flags == sh_flags,
            s.sh_addr == 0,
            s.sh_offset == 0,
            s.sh_size == data@.len() as u32,
            s.sh_link == sh_link,
            s.sh_info == sh_info,
            s.sh_addralign == sh_addralign,
            s.sh_entsize == sh_entsize,
            s.data@ == data@,
            s.symbols@.len() == 0,
            s.relocations@.len() == 0,
            s.index == index,
            s.name@.len() == 0,
            s.relocated_by@.len() == 0,
    {
        let sh_size = data.len() as u32;
        Self {
            fmt,
            sh_name,
            sh_type,
            sh_flags,
            sh_addr: 0,
            sh_offset: 0,
            sh_size,
            sh_link,
            sh_info,
            sh_addralign,
            sh_entsize,
            data,
            symbols: Vec::new(),
            relocations: Vec::new(),
            index,
            name: String::new(),
            relocated_by: Vec::new(),
        }
    }

    /// Whether the section holds relocations (`SHT_REL` or `SHT_RELA`).
    pub fn is_rel(&self) -> (b: bool)
        ensures
            b == (self.sh_type == SHT_REL || self.sh_type == SHT_RELA),
    {
        self.sh_type == SHT_REL || self.sh_type == SHT_RELA
    }

    /// The forty bytes of the section's header.
    pub fn header_to_bin(&self) -> (bytes: Vec<u8>)
        ensures
            bytes@ == section_header_bytes(*self),
    {
        self.fmt.pack_tuple_u32_10(
            (
                self.sh_name,
                self.sh_type,
                self.sh_flags,
                self.sh_addr,
                self.sh_offset,
                self.sh_size,
                self.sh_link,
                self.sh_info,
                self.sh_addralign,
                self.sh_entsize,
            ),
        )
    }

    /// Appends a string and its terminating zero to a string table, and returns the
    /// position at which it starts.
    pub fn add_str(&mut self, string: &str) -> (r: Result<u32, Error>)
        ensures
            old(self).sh_type != SHT_STRTAB ==> (r matches Err(Error::InvalidSection(_))
                && *final(self) == *old(self)),
            old(self).sh_type == SHT_STRTAB ==> r == Ok::<u32, Error>(old(self).data@.len() as u32)
                && final(self).data@ == old(self).data@ + string.spec_bytes() + seq![0u8]
                && *final(self) == (ElfSection { data: final(self).data, ..*old(self) }),
    {
        if self.sh_type != SHT_STRTAB {
            return Err(Error::InvalidSection("Not a string table section".to_owned()));
        }
        let ret = self.data.len() as u32;
        let bytes = string.as_bytes();
        let mut i: usize = 0;
        let ghost start = self.data@;
        while i < bytes.len()
            invariant
                i <= bytes@.len(),
                bytes@ == string.spec_bytes(),
                self.data@ == start + bytes@.take(i as int),
                *self == (ElfSection { data: self.data, ..*old(self) }),
            decreases bytes@.len() - i,
        {
            self.data.push(bytes[i]);
            assert(bytes@.take(i + 1) =~= bytes@.take(i as int).push(bytes@[i as int]));
            i += 1;
        }
        assert(bytes@.take(i as int) =~= bytes@);
        self.data.push(0);
        Ok(ret)
    }
    /// The relocations that the section's data holds.
    fn parse_relocations(&self) -> (rels: Vec<Relocation>)
        requires
            self.sh_type == SHT_REL || self.sh_type == SHT_RELA,
        ensures
            rels@ == relocations_in(self.fmt.is_big_endian, self.data@, self.sh_type),
    {
        let entry_size: usize = if self.sh_type == SHT_REL {
            8
        } else {
            12
        };
        let ghost big = self.fmt.is_big_endian;
        let ghost es = rel_entry_size(self.sh_type);
        let mut rels: Vec<Relocation> = Vec::new();
        let mut offset: usize = 0;
        while entry_size <= self.data.len() - offset
            invariant
                entry_size == es,
                big == self.fmt.is_big_endian,
                es == rel_entry_size(self.sh_type),
                self.sh_type == SHT_REL || self.sh_type == SHT_RELA,
                offset == es * rels@.len(),
                offset <= self.data@.len(),
                forall|k: int|
                    0 <= k < rels@.len() ==> #[trigger] rels@[k] == relocation_of(
                        big,
                        self.data@.subrange(es * k, es * k + es),
                        self.sh_type,
                    ),
            decreases self.data@.len() - offset,
        {
            let entry = slice_subrange(self.data.as_slice(), offset, offset + entry_size);
            assert(entry@ == self.data@.subrange(es * rels@.len(), es * rels@.len() + es));
            assert(!relocation_too_short(entry@, self.sh_type));
            let parsed = Relocation::new(&self.fmt, entry, self.sh_type);
            let ghost n = rels@.len() as int;
            if let Ok(r) = parsed {
                rels.push(r);
            }
            assert(rels@.len() == n + 1);
            proof {
                assert(es * n + es == es * (n + 1)) by (nonlinear_arith);
            }
            offset += entry_size;
        }
        proof {
            let n = rels@.len() as int;
            let len = self.data@.len() as int;
            assert(len / es == n) by (nonlinear_arith)
                requires
                    es * n <= len,
                    len < es * n + es,
                    es > 0,
            ;
        }
        assert(rels@ =~= relocations_in(big, self.data@, self.sh_type));
        rels
    }

    /// Parses the entries of a relocation section into `relocations`; other sections stay
    /// as they are.
    pub fn init_relocations(&mut self) -> (r: Result<(), Error>)
        ensures
            r is Ok,
            !(old(self).sh_type == SHT_REL || old(self).sh_type == SHT_RELA) ==> *final(self) == *old(self),
            (old(self).sh_type == SHT_REL || old(self).sh_type == SHT_RELA) ==> {
                &&& final(self).relocations@ == old(self).relocations@ + relocations_in(
                    old(self).fmt.is_big_endian,
                    old(self).data@,
                    old(self).sh_type,
                )
                &&& *final(self) == (ElfSection { relocations: final(self).relocations, ..*old(self) })
            },
    {
        if self.sh_type != SHT_REL && self.sh_type != SHT_RELA {
            return Ok(());
        }
        let mut rels = self.parse_relocations();
        self.relocations.append(&mut rels);
        Ok(())
    }

    /// Parses the entries of a relocation section into `relocations` and records the section
    /// in the `relocated_by` list of the section that it relocates, `sections[sh_info]`.
    pub fn late_init(&mut self, sections: &mut [ElfSection]) -> (r: Result<(), Error>)
        ensures
            !(old(self).sh_type == SHT_REL || old(self).sh_type == SHT_RELA) ==> {
                &&& r is Ok
                &&& *final(self) == *old(self)
                &&& final(sections)@ == old(sections)@
            },
            (old(self).sh_type == SHT_REL || old(self).sh_type == SHT_RELA) ==> {
                &&& final(self).relocations@ == old(self).relocations@ + relocations_in(
                    old(self).fmt.is_big_endian,
                    old(self).data@,
                    old(self).sh_type,
                )
                &&& *final(self) == (ElfSection { relocations: final(self).relocations, ..*old(self) })
                &&& old(self).sh_info >= old(sections)@.len() ==> {
                    &&& r matches Err(Error::InvalidSection(_))
                    &&& final(sections)@ == old(sections)@
                }
                &&& old(self).sh_info < old(sections)@.len() ==> {
                    let t = old(sections)@[old(self).sh_info as int];
                    &&& r is Ok
                    &&& final(sections)@ == old(sections)@.update(
                        old(self).sh_info as int,
                        ElfSection { relocated_by: final(sections)@[old(self).sh_info as int].relocated_by, ..t },
                    )
                    &&& final(sections)@[old(self).sh_info as int].relocated_by@
                        == t.relocated_by@.push(old(self).index)
                }
            },
    {
        if self.sh_type == SHT_REL || self.sh_type == SHT_RELA {
            let mut rels = self.parse_relocations();
            self.relocations.append(&mut rels);
            if self.sh_info as usize >= sections.len() {
                return Err(Error::InvalidSection("Invalid sh_info value".to_owned()));
            }
            let target = self.sh_info as usize;
            sections[target].relocated_by.push(self.index);
        }
        Ok(())
    }

    /// Moves the file offsets of an `.mdebug` section's symbolic header by the distance
    /// that the section moved, from `original_offset` to `sh_offset`; sections of other
    /// types stay as they are.
    pub fn relocate_mdebug(&mut self, original_offset: u32) -> (r: Result<(), Error>)
        ensures
            old(self).sh_type != SHT_MIPS_DEBUG ==> r is Ok && *final(self) == *old(self),
            old(self).sh_type == SHT_MIPS_DEBUG && old(self).data@.len() < 0x60 ==> (r matches Err(Error::InvalidSection(_))
                && *final(self) == *old(self)),
            old(self).sh_type == SHT_MIPS_DEBUG && old(self).data@.len() >= 0x60 && u16_at(old(self).fmt.is_big_endian, old(self).data@, 0) != 0x7009 ==> (
                r matches Err(Error::InvalidSection(_)) && *final(self) == *old(self)),
            old(self).sh_type == SHT_MIPS_DEBUG && old(self).data@.len() >= 0x60 && u16_at(old(self).fmt.is_big_endian, old(self).data@, 0) == 0x7009 ==> {
                &&& r is Ok
                &&& *final(self) == (ElfSection { data: final(self).data, ..*old(self) })
                &&& hdrr_shifted(
                    old(self).fmt.is_big_endian,
                    old(self).data@,
                    final(self).data@,
                    old(self).sh_offset - original_offset,
                )
            },
    {
        if self.sh_type != SHT_MIPS_DEBUG {
            return Ok(());
        }
        if self.data.len() < 0x60 {
            return Err(Error::InvalidSection("Symbolic header of .mdebug too short".to_owned()));
        }
        if self.fmt.read_u16(self.data.as_slice(), 0) != 0x7009 {
            return Err(Error::InvalidSection("Invalid magic value for .mdebug symbolic header".to_owned()));
        }
        let shift = self.sh_offset.wrapping_sub(original_offset);
        let ghost big = self.fmt.is_big_endian;
        let ghost start = self.data@;
        let ghost d = self.sh_offset - original_offset;
        let mut k: usize = 0;
        while k < 23
            invariant
                k <= 23,
                *self == (ElfSection { data: self.data, ..*old(self) }),
                big == self.fmt.is_big_endian,
                start.len() >= 0x60,
                shift == (d % 0x1_0000_0000),
                self.data@.len() == start.len(),
                forall|i: int| 0 <= i < start.len() && !(4 <= i < 4 + 4 * k) ==> self.data@[i] == start[i],
                forall|j: int|
                    0 <= j < k ==> #[trigger] u32_at(big, self.data@, 4 + 4 * j) == (u32_at(big, start, 4 + 4 * j) + d)
                        % 0x1_0000_0000,
            decreases 23 - k,
        {
            let pos = 4 + 4 * k;
            let w = self.fmt.read_u32(self.data.as_slice(), pos);
            assert(w == u32_at(big, start, pos as int));
            let nw = w.wrapping_add(shift);
            let ghost before = self.data@;
            self.fmt.store_u32(&mut self.data, pos, nw);
            proof {
                let after = self.data@;
                assert(after.subrange(pos as int, pos + 4) =~= u32_bytes(big, nw));
                lemma_u32_at(big, after, pos as int, nw);
                assert forall|j: int| 0 <= j < k implies #[trigger] u32_at(big, after, 4 + 4 * j) == (u32_at(big, start, 4 + 4 * j) + d)
                        % 0x1_0000_0000 by {
                    assert(u32_at(big, after, 4 + 4 * j) == u32_at(big, before, 4 + 4 * j));
                }
                assert((w + shift) % 0x1_0000_0000 == (w + d) % 0x1_0000_0000) by (nonlinear_arith)
                    requires shift == d % 0x1_0000_0000;
            }
            k += 1;
        }
        Ok(())
    }

    /// Takes the section's contents from `data`: the `sh_size` bytes that end at `sh_offset`.
    /// Where they do not lie in `data` it is an error, and the section stays as it is.
    pub fn init_data(&mut self, data: &[u8]) -> (r: Result<(), Error>)
        ensures
            (old(self).sh_size <= old(self).sh_offset && old(self).sh_offset <= data@.len()) ==> {
                &&& r is Ok
                &&& final(self).data@ == data@.subrange(
                    old(self).sh_offset - old(self).sh_size,
                    old(self).sh_offset as int,
                )
                &&& *final(self) == (ElfSection { data: final(self).data, ..*old(self) })
            },
            !(old(self).sh_size <= old(self).sh_offset && old(self).sh_offset <= data@.len()) ==> (r matches Err(
                Error::InvalidSection(_),
            ) && *final(self) == *old(self)),
    {
        if self.sh_size > self.sh_offset || self.sh_offset as usize > data.len() {
            return Err(Error::InvalidSection("Section contents out of range".to_owned()));
        }
        let start = (self.sh_offset - self.sh_size) as usize;
        let end = self.sh_offset as usize;
        self.data = slice_to_vec(slice_subrange(data, start, end));
        Ok(())
    }

    /// Parses the entries of a symbol table, with names from the string table
    /// `sections[sh_link]`. A link that names no section and contents that are not whole
    /// sixteen-byte entries are errors; on an error the section stays as it is.
    pub fn init_symbols(&mut self, sections: &[ElfSection]) -> (r: Result<(), Error>)
        ensures
            !(old(self).sh_link < sections@.len() && old(self).data@.len() % 16 == 0) ==> r matches Err(
                Error::InvalidSection(_),
            ),
            r is Err ==> *final(self) == *old(self),
            (old(self).sh_link < sections@.len() && old(self).data@.len() % 16 == 0) ==> (r is Ok <==> forall|k: int|
                0 <= k < old(self).data@.len() / 16 ==> sections@[old(self).sh_link as int].string_at(
                    u32_at(old(self).fmt.is_big_endian, old(self).data@, #[trigger] (16 * k)) as int,
                ) is Some && u16_at(old(self).fmt.is_big_endian, old(self).data@, 16 * k + 14) != SHN_XINDEX),
            r is Ok ==> {
                &&& symbols_from(
                    final(self).symbols@,
                    old(self).fmt,
                    old(self).data@,
                    sections@[old(self).sh_link as int],
                )
                &&& *final(self) == (ElfSection { symbols: final(self).symbols, ..*old(self) })
            },
    {
        if self.sh_link as usize >= sections.len() || self.data.len() % 16 != 0 {
            return Err(Error::InvalidSection("Symbol table link or size out of range".to_owned()));
        }
        let strtab = &sections[self.sh_link as usize];
        let mut symbols: Vec<Symbol> = Vec::new();
        let mut offset: usize = 0;
        let ghost n = self.data@.len() / 16;
        while offset < self.data.len()
            invariant
                offset == 16 * symbols@.len(),
                offset <= self.data@.len(),
                self.data@.len() % 16 == 0,
                n == self.data@.len() / 16,
                self.sh_link < sections@.len(),
                *strtab == sections@[self.sh_link as int],
                forall|k: int|
                    0 <= k < symbols@.len() ==> strtab.string_at(
                        u32_at(self.fmt.is_big_endian, self.data@, #[trigger] (16 * k)) as int,
                    ) is Some && u16_at(self.fmt.is_big_endian, self.data@, 16 * k + 14) != SHN_XINDEX,
                forall|k: int|
                    0 <= k < symbols@.len() ==> symbol_parsed_from(
                        #[trigger] symbols@[k],
                        self.fmt,
                        self.data@.subrange(16 * k, 16 * k + 16),
                        *strtab,
                    ),
            decreases self.data@.len() - offset,
        {
            let k = symbols.len();
            let entry = slice_subrange(self.data.as_slice(), offset, offset + 16);
            assert(u32_at(self.fmt.is_big_endian, entry@, 0) == u32_at(self.fmt.is_big_endian, self.data@, 16 * k));
            assert(u16_at(self.fmt.is_big_endian, entry@, 14) == u16_at(self.fmt.is_big_endian, self.data@, 16 * k + 14));
            let parsed = Symbol::new(&self.fmt, entry, strtab);
            match parsed {
                Ok(sym) => symbols.push(sym),
                Err(e) => {
                    return Err(e);
                },
            }
            offset += 16;
        }
        assert(symbols@.len() == n);
        self.symbols = symbols;
        Ok(())
    }

    /// Position of the first symbol called `name`, where there is one.
    fn find_symbol_index(&self, name: &str) -> (r: Option<usize>)
        ensures
            r is Some <==> has_symbol_named(self.symbols@, name@),
            r matches Some(i) ==> is_first_named(self.symbols@, name@, i as int),
    {
        let wanted = name.to_owned();
        let mut i: usize = 0;
        while i < self.symbols.len()
            invariant
                i <= self.symbols@.len(),
                wanted@ == name@,
                forall|j: int| 0 <= j < i ==> self.symbols@[j].name@ != name@,
            decreases self.symbols@.len() - i,
        {
            if self.symbols[i].name == wanted {
                return Some(i);
            }
            i += 1;
        }
        None
    }

    /// The value of the first symbol called `name` in a symbol table.
    pub fn find_symbol(&self, name: &str, sections: &[ElfSection]) -> (r: Result<u32, Error>)
        ensures
            self.sh_type != SHT_SYMTAB ==> r matches Err(Error::InvalidSection(_)),
            self.sh_type == SHT_SYMTAB && !has_symbol_named(self.symbols@, name@) ==> r matches Err(
                Error::SymbolNotFound(_),
            ),
            self.sh_type == SHT_SYMTAB && has_symbol_named(self.symbols@, name@) ==> r == Ok::<u32, Error>(
                self.symbols@[first_named(self.symbols@, name@)].st_value,
            ),
    {
        if self.sh_type != SHT_SYMTAB {
            return Err(Error::InvalidSection("Not a symbol table section".to_owned()));
        }
        match self.find_symbol_index(name) {
            Some(i) => {
                proof {
                    lemma_first_named(self.symbols@, name@);
                }
                Ok(self.symbols[i].st_value)
            },
            None => Err(Error::SymbolNotFound(name.to_owned())),
        }
    }

    /// The value of the first symbol called `name`, where that symbol belongs to `section`.
    pub fn find_symbol_in_section(&self, name: &str, section: &ElfSection) -> (r: Result<u32, Error>)
        ensures
            self.sh_type != SHT_SYMTAB ==> r matches Err(Error::InvalidSection(_)),
            self.sh_type == SHT_SYMTAB && !has_symbol_named(self.symbols@, name@) ==> r matches Err(
                Error::SymbolNotFound(_),
            ),
            self.sh_type == SHT_SYMTAB && has_symbol_named(self.symbols@, name@) ==> {
                let sym = self.symbols@[first_named(self.symbols@, name@)];
                &&& sym.st_shndx == section.index ==> r == Ok::<u32, Error>(sym.st_value)
                &&& sym.st_shndx != section.index ==> r matches Err(Error::InvalidSection(_))
            },
    {
        if self.sh_type != SHT_SYMTAB {
            return Err(Error::InvalidSection("Not a symbol table section".to_owned()));
        }
        match self.find_symbol_index(name) {
            Some(i) => {
                proof {
                    lemma_first_named(self.symbols@, name@);
                }
                if self.symbols[i].st_shndx as usize == section.index {
                    Ok(self.symbols[i].st_value)
                } else {
                    Err(Error::InvalidSection("Symbol not found in section".to_owned()))
                }
            },
            None => Err(Error::SymbolNotFound(name.to_owned())),
        }
    }

    /// The local symbols of a symbol table: the first `sh_info` entries; an `sh_info` past
    /// the symbols is an error.
    pub fn local_symbols(&self) -> (r: Result<&[Symbol], Error>)
        ensures
            !(self.sh_type == SHT_SYMTAB && self.sh_info <= self.symbols@.len()) ==> r matches Err(
                Error::InvalidSection(_),
            ),
            self.sh_type == SHT_SYMTAB && self.sh_info <= self.symbols@.len() ==> (r matches Ok(syms) && syms@
                == self.symbols@.take(self.sh_info as int)),
    {
        if self.sh_type != SHT_SYMTAB {
            return Err(Error::InvalidSection("Not a symbol table section".to_owned()));
        }
        if self.sh_info as usize > self.symbols.len() {
            return Err(Error::InvalidSection("sh_info past the symbols".to_owned()));
        }
        let syms = slice_subrange(self.symbols.as_slice(), 0, self.sh_info as usize);
        assert(syms@ =~= self.symbols@.take(self.sh_info as int));
        Ok(syms)
    }

    /// The global symbols of a symbol table: the entries after the first `sh_info`.
    pub fn global_symbols(&self) -> (r: Result<&[Symbol], Error>)
        ensures
            !(self.sh_type == SHT_SYMTAB && self.sh_info <= self.symbols@.len()) ==> r matches Err(
                Error::InvalidSection(_),
            ),
            self.sh_type == SHT_SYMTAB && self.sh_info <= self.symbols@.len() ==> (r matches Ok(syms) && syms@
                == self.symbols@.skip(self.sh_info as int)),
    {
        if self.sh_type != SHT_SYMTAB {
            return Err(Error::InvalidSection("Not a symbol table section".to_owned()));
        }
        if self.sh_info as usize > self.symbols.len() {
            return Err(Error::InvalidSection("sh_info past the symbols".to_owned()));
        }
        let syms = slice_subrange(self.symbols.as_slice(), self.sh_info as usize, self.symbols.len());
        assert(syms@ =~= self.symbols@.skip(self.sh_info as int));
        Ok(syms)
    }
}

impl Section for ElfSection {
    open spec fn string_at(&self, index: int) -> Option<Seq<char>> {
        if self.sh_type != SHT_STRTAB {
            None
        } else {
            strtab_string_at(self.data@, index)
        }
    }

    /// The string at byte `index` of a string table: the bytes up to the next zero byte,
    /// decoded as UTF-8. An index past the data finds no string.
    fn lookup_str(&self, index: usize) -> (r: Result<String, Error>)
        ensures
            r is Err ==> r matches Err(Error::InvalidSection(_)),
    {
        if self.sh_type != SHT_STRTAB {
            return Err(Error::InvalidSection("Not a string table section".to_owned()));
        }
        if index > self.data.len() {
            return Err(Error::InvalidSection("String index out of range".to_owned()));
        }
        proof {
            lemma_first_nul_from(self.data@, index as int);
        }
        let mut end = index;
        while end < self.data.len() && self.data[end] != 0
            invariant
                index <= end <= self.data@.len(),
                first_nul_from(self.data@, index as int) == first_nul_from(self.data@, end as int),
            decreases self.data@.len() - end,
        {
            end += 1;
        }
        if end == self.data.len() {
            return Err(Error::InvalidSection("String not null-terminated".to_owned()));
        }
        let bytes = slice_to_vec(slice_subrange(self.data.as_slice(), index, end));
        match string_from_utf8(bytes) {
            Some(s) => Ok(s),
            None => Err(Error::InvalidSection("Invalid UTF-8 in string table".to_owned())),
        }
    }
}

/// Parsing the header bytes of a section gives back its header fields.
pub proof fn lemma_section_header_roundtrip(s: ElfSection)
    ensures
        section_header_bytes(s).len() == 40,
        header_fields_from(s, s.fmt.is_big_endian, section_header_bytes(s)),
{
    let big = s.fmt.is_big_endian;
    let ws = header_words(s);
    lemma_u32s_bytes_len(big, ws);
    lemma_u32s_bytes_at(big, ws, 0);
    lemma_u32s_bytes_at(big, ws, 1);
    lemma_u32s_bytes_at(big, ws, 2);
    lemma_u32s_bytes_at(big, ws, 3);
    lemma_u32s_bytes_at(big, ws, 4);
    lemma_u32s_bytes_at(big, ws, 5);
    lemma_u32s_bytes_at(big, ws, 6);
    lemma_u32s_bytes_at(big, ws, 7);
    lemma_u32s_bytes_at(big, ws, 8);
    lemma_u32s_bytes_at(big, ws, 9);
}

/// A string added to a string table is found again at the position where it was added,
/// wherever its bytes hold no zero byte.
pub proof fn lemma_add_str_lookup(data: Seq<u8>, string: Seq<char>)
    requires
        !vstd::utf8::encode_utf8(string).contains(0u8),
    ensures
        strtab_string_at(data + vstd::utf8::encode_utf8(string) + seq![0u8], data.len() as int)
            == Some(string),
{
    let bytes = vstd::utf8::encode_utf8(string);
    let all = data + bytes + seq![0u8];
    let p = data.len() as int;
    assert forall|k: int| p <= k < p + bytes.len() implies all[k] != 0 by {
        assert(all[k] == bytes[k - p]);
        if all[k] == 0 {
            assert(bytes.contains(0u8));
        }
    }
    assert(all[p + bytes.len()] == 0);
    assert(first_nul_from(all, p) == p + bytes.len()) by {
        lemma_first_nul_from(all, p);
        let e = first_nul_from(all, p);
        if e > p + bytes.len() {
            assert(all[p + bytes.len()] != 0);
        }
    }
    assert(all.subrange(p, p + bytes.len()) =~= bytes);
    encode_utf8_valid_utf8(string);
    encode_utf8_decode_utf8(string);
}

} // verus!
