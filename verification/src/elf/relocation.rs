use crate::elf::constants::SHT_RELA;
use crate::elf::format::{ElfFormat, u32_at, u32s_bytes, lemma_u32s_bytes_len, lemma_u32s_bytes_at};
use crate::utils::error::Error;
use vstd::prelude::*;

verus! {

/// One entry of a `.rel` or `.rela` section.
#[derive(Debug, Clone, Copy, PartialEq, Eq)]
pub struct Relocation {
    pub r_offset: u32,
    pub r_info: u32,
    pub r_addend: Option<u32>,
}

/// The relocation that the bytes of `s` describe in a section of type `sh_type`:
/// an addend is read only in a `SHT_RELA` section.
pub open spec fn relocation_of(big: bool, s: Seq<u8>, sh_type: u32) -> Relocation {
    Relocation {
        r_offset: u32_at(big, s, 0),
        r_info: u32_at(big, s, 4),
        r_addend: if sh_type == SHT_RELA {
            Some(u32_at(big, s, 8))
        } else {
            None
        },
    }
}

/// Whether `s` is too short for an entry of a section of type `sh_type`.
pub open spec fn relocation_too_short(s: Seq<u8>, sh_type: u32) -> bool {
    s.len() < 8 || (sh_type == SHT_RELA && s.len() < 12)
}

/// The bytes that [`Relocation::to_bytes`] writes: offset and info, and where there is an
/// addend, the addend followed by seven zero words.
pub open spec fn relocation_bytes(big: bool, r: Relocation) -> Seq<u8> {
    match r.r_addend {
        None => u32s_bytes(big, seq![r.r_offset, r.r_info]),
        Some(a) => u32s_bytes(big, seq![r.r_offset, r.r_info, a, 0, 0, 0, 0, 0, 0, 0]),
    }
}

impl Relocation {
    pub fn new(fmt: &ElfFormat, data: &[u8], sh_type: u32) -> (r: Result<Self, Error>)
        ensures
            relocation_too_short(data@, sh_type) ==> r matches Err(Error::InvalidFormat(_)),
            !relocation_too_short(data@, sh_type) ==> r == Ok::<Relocation, Error>(
                relocation_of(fmt.is_big_endian, data@, sh_type),
            ),
    {
        if data.len() < 8 {
            return Err(Error::InvalidFormat("Relocation data too short".to_owned()));
        }
        let r_offset = fmt.read_u32(data, 0);
        let r_info = fmt.read_u32(data, 4);
        let r_addend = if sh_type == SHT_RELA {
            if data.len() < 12 {
                return Err(Error::InvalidFormat("RELA data too short".to_owned()));
            }
            Some(fmt.read_u32(data, 8))
        } else {
            None
        };
        Ok(Self { r_offset, r_info, r_addend })
    }

    /// The index of the symbol that the relocation refers to.
    pub fn sym(&self) -> (s: u32)
        ensures
            s == self.r_info >> 8u32,
            s == self.r_info / 256,
    {
        let r = self.r_info;
        assert(r >> 8u32 == r / 256) by (bit_vector);
        self.r_info >> 8u32
    }

    /// The relocation type: the low byte of `r_info`.
    pub fn type_(&self) -> (t: u8)
        ensures
            t == (self.r_info & 0xffu32) as u8,
            t == self.r_info % 256,
    {
        let r = self.r_info;
        assert((r & 0xffu32) as u8 == r % 256) by (bit_vector);
        (self.r_info & 0xffu32) as u8
    }

    pub fn offset(&self) -> (o: u32)
        ensures
            o == self.r_offset,
    {
        self.r_offset
    }

    /// The entry packed as ten words, cut to the first two where there is no addend.
    pub fn to_bytes(&self, fmt: &ElfFormat) -> (bytes: Vec<u8>)
        ensures
            bytes@ == relocation_bytes(fmt.is_big_endian, *self),
    {
        let addend = match self.r_addend {
            Some(a) => a,
            None => 0,
        };
        let mut result = fmt.pack_tuple_u32_10(
            (self.r_offset, self.r_info, addend, 0, 0, 0, 0, 0, 0, 0),
        );
        if self.r_addend.is_none() {
            proof {
                let big = fmt.is_big_endian;
                let ws = seq![self.r_offset, self.r_info, addend, 0u32, 0u32, 0u32, 0u32, 0u32, 0u32, 0u32];
                lemma_u32s_bytes_len(big, ws);
                lemma_u32s_bytes_at(big, ws, 0);
                lemma_u32s_bytes_at(big, ws, 1);
                let short = seq![self.r_offset, self.r_info];
                lemma_u32s_bytes_at(big, short, 0);
                lemma_u32s_bytes_at(big, short, 1);
                let a = u32s_bytes(big, ws);
                let b = u32s_bytes(big, short);
                assert(a.subrange(0, 4) == b.subrange(0, 4));
                assert(a.subrange(4, 8) == b.subrange(4, 8));
                assert forall|i: int| 0 <= i < 8 implies a[i] == b[i] by {
                    if i < 4 {
                        assert(a[i] == a.subrange(0, 4)[i]);
                        assert(b[i] == b.subrange(0, 4)[i]);
                    } else {
                        assert(a[i] == a.subrange(4, 8)[i - 4]);
                        assert(b[i] == b.subrange(4, 8)[i - 4]);
                    }
                }
                assert(a.take(8) =~= b);
            }
            result.truncate(8);
        }
        result
    }
}

/// Writing a relocation and reading it back in a section of the matching type gives the
/// same relocation.
pub proof fn lemma_relocation_roundtrip(big: bool, r: Relocation, sh_type: u32)
    requires
        r.r_addend is Some <==> sh_type == SHT_RELA,
    ensures
        !relocation_too_short(relocation_bytes(big, r), sh_type),
        relocation_of(big, relocation_bytes(big, r), sh_type) == r,
{
    let bytes = relocation_bytes(big, r);
    match r.r_addend {
        None => {
            let ws = seq![r.r_offset, r.r_info];
            lemma_u32s_bytes_at(big, ws, 0);
            lemma_u32s_bytes_at(big, ws, 1);
        },
        Some(a) => {
            let ws = seq![r.r_offset, r.r_info, a, 0u32, 0u32, 0u32, 0u32, 0u32, 0u32, 0u32];
            lemma_u32s_bytes_at(big, ws, 0);
            lemma_u32s_bytes_at(big, ws, 1);
            lemma_u32s_bytes_at(big, ws, 2);
        },
    }
}

} // verus!
