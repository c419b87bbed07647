use crate::elf::format::{
    ElfFormat,
    u32_at,
    u16_at,
    u32_bytes,
    u16_bytes,
    lemma_u32_at,
    lemma_u16_at,
};
use crate::elf::constants::SHN_XINDEX;
use crate::elf::section::Section;
use crate::utils::error::Error;
use vstd::prelude::*;

verus! {

/// One entry of a symbol table, with its name looked up in the string table.
#[derive(Debug, Clone, Default)]
pub struct Symbol {
    pub st_name: u32,
    pub st_value: u32,
    pub st_size: u32,
    pub st_info: u8,
    pub st_other: u8,
    pub st_shndx: u16,
    pub name: String,
    pub visibility: u8,
    pub fmt: ElfFormat,
}

/// The binding that an `st_info` byte holds: its high four bits.
pub open spec fn info_bind(info: u8) -> u8 {
    info >> 4u8
}

/// The symbol type that an `st_info` byte holds: its low four bits.
pub open spec fn info_type(info: u8) -> u8 {
    info & 0xfu8
}

/// `sym` holds the table fields that the first sixteen bytes of `s` encode.
pub open spec fn symbol_fields_from(sym: Symbol, big: bool, s: Seq<u8>) -> bool {
    &&& sym.st_name == u32_at(big, s, 0)
    &&& sym.st_value == u32_at(big, s, 4)
    &&& sym.st_size == u32_at(big, s, 8)
    &&& sym.st_info == s[12]
    &&& sym.st_other == s[13]
    &&& sym.st_shndx == u16_at(big, s, 14)
}

/// `sym` is what [`Symbol::new`] makes of the entry `s` with names from `strtab`.
pub open spec fn symbol_parsed_from<T: Section>(sym: Symbol, fmt: ElfFormat, s: Seq<u8>, strtab: T) -> bool {
    &&& symbol_fields_from(sym, fmt.is_big_endian, s)
    &&& Some(sym.name@) == strtab.string_at(sym.st_name as int)
    &&& sym.visibility == sym.st_other & 3u8
    &&& sym.fmt == fmt
}

/// The sixteen bytes of a symbol table entry.
pub open spec fn symbol_bytes(big: bool, sym: Symbol) -> Seq<u8> {
    u32_bytes(big, sym.st_name) + u32_bytes(big, sym.st_value) + u32_bytes(big, sym.st_size) + seq![
        sym.st_info,
        sym.st_other,
    ] + u16_bytes(big, sym.st_shndx)
}

/// `b` and `a` agree on everything but `st_info`.
pub open spec fn same_but_info(a: Symbol, b: Symbol) -> bool {
    b == (Symbol { st_info: b.st_info, ..a })
}

impl Symbol {
    /// Parses a symbol table entry and looks its name up in `strtab`. An entry whose section
    /// index is `SHN_XINDEX` (an extended index, which is not supported) is an error.
    pub fn new<T: Section>(fmt: &ElfFormat, data: &[u8], strtab: &T) -> (r: Result<Self, Error>)
        ensures
            data@.len() < 16 ==> r matches Err(Error::InvalidFormat(_)),
            data@.len() >= 16 && u16_at(fmt.is_big_endian, data@, 14) == SHN_XINDEX ==> r matches Err(
                Error::InvalidFormat(_),
            ),
            data@.len() >= 16 && u16_at(fmt.is_big_endian, data@, 14) != SHN_XINDEX ==> (r is Ok
                <==> strtab.string_at(u32_at(fmt.is_big_endian, data@, 0) as int) is Some),
            r matches Ok(sym) ==> symbol_parsed_from(sym, *fmt, data@, *strtab),
    {
        if data.len() < 16 {
            return Err(Error::InvalidFormat("Symbol data too short".to_owned()));
        }
        let st_name = fmt.read_u32(data, 0);
        let st_value = fmt.read_u32(data, 4);
        let st_size = fmt.read_u32(data, 8);
        let st_info = data[12];
        let st_other = data[13];
        let st_shndx = fmt.read_u16(data, 14);
        if st_shndx == SHN_XINDEX {
            return Err(Error::InvalidFormat("Extended section index (SHN_XINDEX) is not supported".to_owned()));
        }
        let name = strtab.lookup_str(st_name as usize)?;
        let visibility = st_other & 3u8;
        Ok(Self {
            st_name,
            st_value,
            st_size,
            st_info,
            st_other,
            st_shndx,
            name,
            visibility,
            fmt: *fmt,
        })
    }

    /// A symbol built from its fields; the string table is not consulted.
    pub fn from_parts<T: Section>(
        fmt: ElfFormat,
        st_name: u32,
        st_value: u32,
        st_size: u32,
        st_info: u8,
        st_other: u8,
        st_shndx: u16,
        strtab: &T,
        name: String,
    ) -> (r: Result<Self, Error>)
        ensures
            r matches Ok(sym) && sym == (Symbol {
                st_name,
                st_value,
                st_size,
                st_info,
                st_other,
                st_shndx,
                name,
                visibility: st_other & 3u8,
                fmt,
            }),
    {
        Ok(Self {
            st_name,
            st_value,
            st_size,
            st_info,
            st_other,
            st_shndx,
            name,
            visibility: st_other & 3u8,
            fmt,
        })
    }

    /// The entry's bytes in the symbol's own byte order.
    pub fn to_bin(&self) -> (r: Result<Vec<u8>, Error>)
        ensures
            r matches Ok(bytes) && bytes@ == symbol_bytes(self.fmt.is_big_endian, *self),
    {
        self.to_bytes(&self.fmt)
    }

    pub fn bind(&self) -> (b: u8)
        ensures
            b == info_bind(self.st_info),
    {
        self.st_info >> 4u8
    }

    /// Replaces the binding; the type bits stay.
    pub fn set_bind(&mut self, bind: u8)
        ensures
            final(self).st_info == ((bind << 4u8) | (old(self).st_info & 0xfu8)),
            same_but_info(*old(self), *final(self)),
            info_bind(final(self).st_info) == bind % 16,
            info_type(final(self).st_info) == info_type(old(self).st_info),
    {
        let old_info = self.st_info;
        let new_info = (bind << 4u8) | (old_info & 0xfu8);
        assert(new_info >> 4u8 == bind % 16 && new_info & 0xfu8 == old_info & 0xfu8) by (bit_vector)
            requires
                new_info == (bind << 4u8) | (old_info & 0xfu8),
        ;
        self.st_info = new_info;
    }

    pub fn type_(&self) -> (t: u8)
        ensures
            t == info_type(self.st_info),
    {
        self.st_info & 0xfu8
    }

    /// Replaces the type with the low four bits of `type_`; the binding stays.
    pub fn set_type(&mut self, type_: u8)
        ensures
            final(self).st_info == ((old(self).st_info & 0xf0u8) | (type_ & 0xfu8)),
            same_but_info(*old(self), *final(self)),
            info_type(final(self).st_info) == type_ % 16,
            info_bind(final(self).st_info) == info_bind(old(self).st_info),
    {
        let old_info = self.st_info;
        let new_info = (old_info & 0xf0u8) | (type_ & 0xfu8);
        assert(new_info & 0xfu8 == type_ % 16 && new_info >> 4u8 == old_info >> 4u8) by (bit_vector)
            requires
                new_info == (old_info & 0xf0u8) | (type_ & 0xfu8),
        ;
        self.st_info = new_info;
    }

    /// The sixteen bytes of the entry in the given byte order.
    pub fn to_bytes(&self, fmt: &ElfFormat) -> (r: Result<Vec<u8>, Error>)
        ensures
            r matches Ok(bytes) && bytes@ == symbol_bytes(fmt.is_big_endian, *self),
    {
        let mut result = Vec::new();
        fmt.push_u32(&mut result, self.st_name);
        fmt.push_u32(&mut result, self.st_value);
        fmt.push_u32(&mut result, self.st_size);
        result.push(self.st_info);
        result.push(self.st_other);
        fmt.push_u16(&mut result, self.st_shndx);
        assert(result@ =~= symbol_bytes(fmt.is_big_endian, *self));
        Ok(result)
    }
}

/// Reading back the bytes of a symbol table entry gives its fields.
pub proof fn lemma_symbol_roundtrip(big: bool, sym: Symbol)
    ensures
        symbol_bytes(big, sym).len() == 16,
        symbol_fields_from(sym, big, symbol_bytes(big, sym)),
{
    let s = symbol_bytes(big, sym);
    assert(s.subrange(0, 4) =~= u32_bytes(big, sym.st_name));
    assert(s.subrange(4, 8) =~= u32_bytes(big, sym.st_value));
    assert(s.subrange(8, 12) =~= u32_bytes(big, sym.st_size));
    assert(s.subrange(14, 16) =~= u16_bytes(big, sym.st_shndx));
    lemma_u32_at(big, s, 0, sym.st_name);
    lemma_u32_at(big, s, 4, sym.st_value);
    lemma_u32_at(big, s, 8, sym.st_size);
    lemma_u16_at(big, s, 14, sym.st_shndx);
}

} // verus!
