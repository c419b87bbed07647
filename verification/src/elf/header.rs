use crate::elf::constants::{EI_CLASS, EI_NIDENT, SHN_UNDEF};
use crate::elf::format::{ElfFormat, u16_at, u32_at, u16_bytes, u32_bytes, lemma_u16_at, lemma_u32_at};
use crate::utils::error::Error;
use vstd::prelude::*;

verus! {

/// The file header of a 32-bit ELF file.
#[derive(Debug, Clone, Copy)]
pub struct ElfHeader {
    pub e_ident: [u8; EI_NIDENT],
    pub e_type: u16,
    pub e_machine: u16,
    pub e_version: u32,
    pub e_entry: u32,
    pub e_phoff: u32,
    pub e_shoff: u32,
    pub e_flags: u32,
    pub e_ehsize: u16,
    pub e_phentsize: u16,
    pub e_phnum: u16,
    pub e_shentsize: u16,
    pub e_shnum: u16,
    pub e_shstrndx: u16,
}

/// `s` starts with the ELF magic `\x7fELF`.
pub open spec fn elf_magic(s: Seq<u8>) -> bool {
    &&& s.len() >= 4
    &&& s[0] == 0x7f
    &&& s[1] == 0x45
    &&& s[2] == 0x4c
    &&& s[3] == 0x46
}

/// The header that `s` encodes is one this tool handles: a file whose class byte declares
/// no other class than 32-bit (1, or 0 where the class is left unstated), relocatable, for
/// MIPS, with no program headers, with section headers and a section name string table.
pub open spec fn header_accepted(big: bool, s: Seq<u8>) -> bool {
    &&& (s[EI_CLASS as int] == 0 || s[EI_CLASS as int] == 1)
    &&& u16_at(big, s, 16) == 1
    &&& u16_at(big, s, 18) == 8
    &&& u32_at(big, s, 28) == 0
    &&& u32_at(big, s, 32) != 0
    &&& u16_at(big, s, 50) != SHN_UNDEF
}

/// `h` holds the fields that the first fifty-two bytes of `s` encode.
pub open spec fn header_from(h: ElfHeader, big: bool, s: Seq<u8>) -> bool {
    &&& h.e_ident@ == s.subrange(0, 16)
    &&& h.e_type == u16_at(big, s, 16)
    &&& h.e_machine == u16_at(big, s, 18)
    &&& h.e_version == u32_at(big, s, 20)
    &&& h.e_entry == u32_at(big, s, 24)
    &&& h.e_phoff == u32_at(big, s, 28)
    &&& h.e_shoff == u32_at(big, s, 32)
    &&& h.e_flags == u32_at(big, s, 36)
    &&& h.e_ehsize == u16_at(big, s, 40)
    &&& h.e_phentsize == u16_at(big, s, 42)
    &&& h.e_phnum == u16_at(big, s, 44)
    &&& h.e_shentsize == u16_at(big, s, 46)
    &&& h.e_shnum == u16_at(big, s, 48)
    &&& h.e_shstrndx == u16_at(big, s, 50)
}

/// The fifty-two bytes of a file header.
pub open spec fn header_bytes(big: bool, h: ElfHeader) -> Seq<u8> {
    h.e_ident@ + u16_bytes(big, h.e_type) + u16_bytes(big, h.e_machine) + u32_bytes(big, h.e_version)
        + u32_bytes(big, h.e_entry) + u32_bytes(big, h.e_phoff) + u32_bytes(big, h.e_shoff)
        + u32_bytes(big, h.e_flags) + u16_bytes(big, h.e_ehsize) + u16_bytes(big, h.e_phentsize)
        + u16_bytes(big, h.e_phnum) + u16_bytes(big, h.e_shentsize) + u16_bytes(big, h.e_shnum)
        + u16_bytes(big, h.e_shstrndx)
}

impl ElfHeader {
    /// Parses and checks a file header.
    pub fn new(fmt: &ElfFormat, data: &[u8]) -> (r: Result<Self, Error>)
        ensures
            (data@.len() < 16 || !elf_magic(data@)) ==> r matches Err(Error::InvalidFormat(_)),
            (data@.len() < 52 && elf_magic(data@)) ==> r matches Err(Error::InvalidFormat(_)),
            (data@.len() >= 52 && elf_magic(data@) && !header_accepted(fmt.is_big_endian, data@))
                ==> r matches Err(Error::InvalidFormat(_)),
            (data@.len() >= 52 && elf_magic(data@) && header_accepted(fmt.is_big_endian, data@))
                ==> (r matches Ok(h) && header_from(h, fmt.is_big_endian, data@)),
    {
        if data.len() < EI_NIDENT {
            return Err(Error::InvalidFormat("Header too short".to_owned()));
        }
        let e_ident: [u8; EI_NIDENT] = [
            data[0],
            data[1],
            data[2],
            data[3],
            data[4],
            data[5],
            data[6],
            data[7],
            data[8],
            data[9],
            data[10],
            data[11],
            data[12],
            data[13],
            data[14],
            data[15],
        ];
        assert(e_ident@ =~= data@.subrange(0, 16));
        if e_ident[0] != 0x7Fu8 || e_ident[1] != 0x45u8 || e_ident[2] != 0x4cu8 || e_ident[3] != 0x46u8 {
            return Err(Error::InvalidFormat("Invalid ELF magic".to_owned()));
        }
        if data.len() < 52 {
            return Err(Error::InvalidFormat("Header too short".to_owned()));
        }
        if e_ident[EI_CLASS] > 1 {
            return Err(Error::InvalidFormat("Not a 32-bit ELF file".to_owned()));
        }
        let e_type = fmt.read_u16(data, 16);
        let e_machine = fmt.read_u16(data, 18);
        let e_version = fmt.read_u32(data, 20);
        let e_entry = fmt.read_u32(data, 24);
        let e_phoff = fmt.read_u32(data, 28);
        let e_shoff = fmt.read_u32(data, 32);
        let e_flags = fmt.read_u32(data, 36);
        let e_ehsize = fmt.read_u16(data, 40);
        let e_phentsize = fmt.read_u16(data, 42);
        let e_phnum = fmt.read_u16(data, 44);
        let e_shentsize = fmt.read_u16(data, 46);
        let e_shnum = fmt.read_u16(data, 48);
        let e_shstrndx = fmt.read_u16(data, 50);
        if e_type != 1 {
            return Err(Error::InvalidFormat("Not a relocatable file".to_owned()));
        }
        if e_machine != 8 {
            return Err(Error::InvalidFormat("Not a MIPS file".to_owned()));
        }
        if e_phoff != 0 {
            return Err(Error::InvalidFormat("Unexpected program header table".to_owned()));
        }
        if e_shoff == 0 {
            return Err(Error::InvalidFormat("No section header table".to_owned()));
        }
        if e_shstrndx == SHN_UNDEF {
            return Err(Error::InvalidFormat("No section name string table".to_owned()));
        }
        Ok(Self {
            e_ident,
            e_type,
            e_machine,
            e_version,
            e_entry,
            e_phoff,
            e_shoff,
            e_flags,
            e_ehsize,
            e_phentsize,
            e_phnum,
            e_shentsize,
            e_shnum,
            e_shstrndx,
        })
    }

    /// The fifty-two bytes of the header in the given byte order.
    pub fn to_bytes(&self, fmt: &ElfFormat) -> (bytes: Vec<u8>)
        ensures
            bytes@ == header_bytes(fmt.is_big_endian, *self),
    {
        let mut out: Vec<u8> = Vec::new();
        let mut i: usize = 0;
        while i < EI_NIDENT
            invariant
                i <= 16,
                out@ == self.e_ident@.take(i as int),
            decreases 16 - i,
        {
            out.push(self.e_ident[i]);
            assert(self.e_ident@.take(i + 1) =~= self.e_ident@.take(i as int).push(self.e_ident@[i as int]));
            i += 1;
        }
        assert(self.e_ident@.take(16) =~= self.e_ident@);
        fmt.push_u16(&mut out, self.e_type);
        fmt.push_u16(&mut out, self.e_machine);
        fmt.push_u32(&mut out, self.e_version);
        fmt.push_u32(&mut out, self.e_entry);
        fmt.push_u32(&mut out, self.e_phoff);
        fmt.push_u32(&mut out, self.e_shoff);
        fmt.push_u32(&mut out, self.e_flags);
        fmt.push_u16(&mut out, self.e_ehsize);
        fmt.push_u16(&mut out, self.e_phentsize);
        fmt.push_u16(&mut out, self.e_phnum);
        fmt.push_u16(&mut out, self.e_shentsize);
        fmt.push_u16(&mut out, self.e_shnum);
        fmt.push_u16(&mut out, self.e_shstrndx);
        out
    }
}

/// Parsing the bytes of a header gives the header back.
pub proof fn lemma_header_roundtrip(big: bool, h: ElfHeader)
    ensures
        header_bytes(big, h).len() == 52,
        header_from(h, big, header_bytes(big, h)),
{
    let s = header_bytes(big, h);
    assert(s.subrange(0, 16) =~= h.e_ident@);
    assert(s.subrange(16, 18) =~= u16_bytes(big, h.e_type));
    assert(s.subrange(18, 20) =~= u16_bytes(big, h.e_machine));
    assert(s.subrange(20, 24) =~= u32_bytes(big, h.e_version));
    assert(s.subrange(24, 28) =~= u32_bytes(big, h.e_entry));
    assert(s.subrange(28, 32) =~= u32_bytes(big, h.e_phoff));
    assert(s.subrange(32, 36) =~= u32_bytes(big, h.e_shoff));
    assert(s.subrange(36, 40) =~= u32_bytes(big, h.e_flags));
    assert(s.subrange(40, 42) =~= u16_bytes(big, h.e_ehsize));
    assert(s.subrange(42, 44) =~= u16_bytes(big, h.e_phentsize));
    assert(s.subrange(44, 46) =~= u16_bytes(big, h.e_phnum));
    assert(s.subrange(46, 48) =~= u16_bytes(big, h.e_shentsize));
    assert(s.subrange(48, 50) =~= u16_bytes(big, h.e_shnum));
    assert(s.subrange(50, 52) =~= u16_bytes(big, h.e_shstrndx));
    lemma_u16_at(big, s, 16, h.e_type);
    lemma_u16_at(big, s, 18, h.e_machine);
    lemma_u32_at(big, s, 20, h.e_version);
    lemma_u32_at(big, s, 24, h.e_entry);
    lemma_u32_at(big, s, 28, h.e_phoff);
    lemma_u32_at(big, s, 32, h.e_shoff);
    lemma_u32_at(big, s, 36, h.e_flags);
    lemma_u16_at(big, s, 40, h.e_ehsize);
    lemma_u16_at(big, s, 42, h.e_phentsize);
    lemma_u16_at(big, s, 44, h.e_phnum);
    lemma_u16_at(big, s, 46, h.e_shentsize);
    lemma_u16_at(big, s, 48, h.e_shnum);
    lemma_u16_at(big, s, 50, h.e_shstrndx);
}

} // verus!
