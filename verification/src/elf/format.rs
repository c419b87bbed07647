use crate::utils::error::Error;
use vstd::prelude::*;

verus! {

/// Byte order of an ELF file, with the packing and unpacking of the integers
/// that its headers and tables are made of.
#[derive(Debug, Clone, Copy, Default)]
pub struct ElfFormat {
    pub is_big_endian: bool,
}

/// The 16-bit value that two bytes encode in the given byte order.
pub open spec fn u16_of(big: bool, b0: u8, b1: u8) -> u16 {
    if big {
        ((b0 as u16) << 8u16) | (b1 as u16)
    } else {
        ((b1 as u16) << 8u16) | (b0 as u16)
    }
}

/// The 32-bit value that four bytes encode in the given byte order.
pub open spec fn u32_of(big: bool, b0: u8, b1: u8, b2: u8, b3: u8) -> u32 {
    if big {
        ((b0 as u32) << 24u32) | ((b1 as u32) << 16u32) | ((b2 as u32) << 8u32) | (b3 as u32)
    } else {
        ((b3 as u32) << 24u32) | ((b2 as u32) << 16u32) | ((b1 as u32) << 8u32) | (b0 as u32)
    }
}

/// The two bytes of a 16-bit value in the given byte order.
pub open spec fn u16_bytes(big: bool, v: u16) -> Seq<u8> {
    if big {
        seq![(v >> 8u16) as u8, (v & 0xffu16) as u8]
    } else {
        seq![(v & 0xffu16) as u8, (v >> 8u16) as u8]
    }
}

/// The four bytes of a 32-bit value in the given byte order.
pub open spec fn u32_bytes(big: bool, v: u32) -> Seq<u8> {
    if big {
        seq![(v >> 24u32) as u8, ((v >> 16u32) & 0xffu32) as u8, ((v >> 8u32) & 0xffu32) as u8, (v & 0xffu32) as u8]
    } else {
        seq![(v & 0xffu32) as u8, ((v >> 8u32) & 0xffu32) as u8, ((v >> 16u32) & 0xffu32) as u8, (v >> 24u32) as u8]
    }
}

/// The 16-bit value stored at byte position `pos` of `s`.
pub open spec fn u16_at(big: bool, s: Seq<u8>, pos: int) -> u16 {
    u16_of(big, s[pos], s[pos + 1])
}

/// The 32-bit value stored at byte position `pos` of `s`.
pub open spec fn u32_at(big: bool, s: Seq<u8>, pos: int) -> u32 {
    u32_of(big, s[pos], s[pos + 1], s[pos + 2], s[pos + 3])
}

/// The bytes of a sequence of 32-bit values, one after the other.
pub open spec fn u32s_bytes(big: bool, ws: Seq<u32>) -> Seq<u8>
    decreases ws.len(),
{
    if ws.len() == 0 {
        Seq::empty()
    } else {
        u32s_bytes(big, ws.drop_last()) + u32_bytes(big, ws.last())
    }
}

/// The `k`-th 32-bit word of `s`, or 0 where `s` does not hold that word in full.
pub open spec fn word_or_zero(big: bool, s: Seq<u8>, k: int) -> u32 {
    if 4 * k + 4 <= s.len() {
        u32_at(big, s, 4 * k)
    } else {
        0
    }
}

/// Decoding the encoding of a 16-bit value gives the value back.
pub proof fn lemma_u16_value_roundtrip(big: bool, v: u16)
    ensures
        u16_bytes(big, v).len() == 2,
        u16_of(big, u16_bytes(big, v)[0], u16_bytes(big, v)[1]) == v,
{
    assert(v == (((v >> 8u16) as u8 as u16) << 8u16) | ((v & 0xffu16) as u8 as u16)) by (bit_vector);
}

/// Encoding the value of two bytes gives the bytes back.
pub proof fn lemma_u16_bytes_roundtrip(big: bool, b0: u8, b1: u8)
    ensures
        u16_bytes(big, u16_of(big, b0, b1)) == seq![b0, b1],
{
    let x = ((b0 as u16) << 8u16) | (b1 as u16);
    assert((x >> 8u16) as u8 == b0 && (x & 0xffu16) as u8 == b1) by (bit_vector)
        requires x == ((b0 as u16) << 8u16) | (b1 as u16);
    let y = ((b1 as u16) << 8u16) | (b0 as u16);
    assert((y >> 8u16) as u8 == b1 && (y & 0xffu16) as u8 == b0) by (bit_vector)
        requires y == ((b1 as u16) << 8u16) | (b0 as u16);
    assert(u16_bytes(big, u16_of(big, b0, b1)) =~= seq![b0, b1]);
}

/// Decoding the encoding of a 32-bit value gives the value back.
pub proof fn lemma_u32_value_roundtrip(big: bool, v: u32)
    ensures
        u32_bytes(big, v).len() == 4,
        u32_of(
            big,
            u32_bytes(big, v)[0],
            u32_bytes(big, v)[1],
            u32_bytes(big, v)[2],
            u32_bytes(big, v)[3],
        ) == v,
{
    assert(v == (((v >> 24u32) as u8 as u32) << 24u32) | ((((v >> 16u32) & 0xffu32) as u8 as u32)
        << 16u32) | ((((v >> 8u32) & 0xffu32) as u8 as u32) << 8u32) | ((v & 0xffu32) as u8 as u32))
        by (bit_vector);
}

/// Encoding the value of four bytes gives the bytes back.
pub proof fn lemma_u32_bytes_roundtrip(big: bool, b0: u8, b1: u8, b2: u8, b3: u8)
    ensures
        u32_bytes(big, u32_of(big, b0, b1, b2, b3)) == seq![b0, b1, b2, b3],
{
    let x = ((b0 as u32) << 24u32) | ((b1 as u32) << 16u32) | ((b2 as u32) << 8u32) | (b3 as u32);
    assert((x >> 24u32) as u8 == b0 && ((x >> 16u32) & 0xffu32) as u8 == b1 && ((x >> 8u32)
        & 0xffu32) as u8 == b2 && (x & 0xffu32) as u8 == b3) by (bit_vector)
        requires
            x == ((b0 as u32) << 24u32) | ((b1 as u32) << 16u32) | ((b2 as u32) << 8u32) | (
            b3 as u32),
    ;
    let y = ((b3 as u32) << 24u32) | ((b2 as u32) << 16u32) | ((b1 as u32) << 8u32) | (b0 as u32);
    assert((y >> 24u32) as u8 == b3 && ((y >> 16u32) & 0xffu32) as u8 == b2 && ((y >> 8u32)
        & 0xffu32) as u8 == b1 && (y & 0xffu32) as u8 == b0) by (bit_vector)
        requires
            y == ((b3 as u32) << 24u32) | ((b2 as u32) << 16u32) | ((b1 as u32) << 8u32) | (
            b0 as u32),
    ;
    assert(u32_bytes(big, u32_of(big, b0, b1, b2, b3)) =~= seq![b0, b1, b2, b3]);
}

/// A 16-bit value stored at a position of a byte sequence reads back as itself.
pub proof fn lemma_u16_at(big: bool, s: Seq<u8>, pos: int, v: u16)
    requires
        0 <= pos,
        pos + 2 <= s.len(),
        s.subrange(pos, pos + 2) == u16_bytes(big, v),
    ensures
        u16_at(big, s, pos) == v,
{
    lemma_u16_value_roundtrip(big, v);
    assert(s[pos] == s.subrange(pos, pos + 2)[0]);
    assert(s[pos + 1] == s.subrange(pos, pos + 2)[1]);
}

/// A 32-bit value stored at a position of a byte sequence reads back as itself.
pub proof fn lemma_u32_at(big: bool, s: Seq<u8>, pos: int, v: u32)
    requires
        0 <= pos,
        pos + 4 <= s.len(),
        s.subrange(pos, pos + 4) == u32_bytes(big, v),
    ensures
        u32_at(big, s, pos) == v,
{
    lemma_u32_value_roundtrip(big, v);
    assert(s[pos] == s.subrange(pos, pos + 4)[0]);
    assert(s[pos + 1] == s.subrange(pos, pos + 4)[1]);
    assert(s[pos + 2] == s.subrange(pos, pos + 4)[2]);
    assert(s[pos + 3] == s.subrange(pos, pos + 4)[3]);
}

/// The four bytes at a position of a byte sequence are the encoding of the value read there.
pub proof fn lemma_u32_at_bytes(big: bool, s: Seq<u8>, pos: int)
    requires
        0 <= pos,
        pos + 4 <= s.len(),
    ensures
        s.subrange(pos, pos + 4) == u32_bytes(big, u32_at(big, s, pos)),
{
    lemma_u32_bytes_roundtrip(big, s[pos], s[pos + 1], s[pos + 2], s[pos + 3]);
    assert(s.subrange(pos, pos + 4) =~= seq![s[pos], s[pos + 1], s[pos + 2], s[pos + 3]]);
}

/// The encoding of `n` words is `4 * n` bytes long.
pub proof fn lemma_u32s_bytes_len(big: bool, ws: Seq<u32>)
    ensures
        u32s_bytes(big, ws).len() == 4 * ws.len(),
    decreases ws.len(),
{
    if ws.len() > 0 {
        lemma_u32s_bytes_len(big, ws.drop_last());
    }
}

/// Word `k` of the encoding of a sequence of words reads back as that word.
pub proof fn lemma_u32s_bytes_at(big: bool, ws: Seq<u32>, k: int)
    requires
        0 <= k < ws.len(),
    ensures
        u32s_bytes(big, ws).len() == 4 * ws.len(),
        u32s_bytes(big, ws).subrange(4 * k, 4 * k + 4) == u32_bytes(big, ws[k]),
        u32_at(big, u32s_bytes(big, ws), 4 * k) == ws[k],
    decreases ws.len(),
{
    lemma_u32s_bytes_len(big, ws);
    lemma_u32s_bytes_len(big, ws.drop_last());
    lemma_u32_value_roundtrip(big, ws.last());
    let prefix = u32s_bytes(big, ws.drop_last());
    let all = u32s_bytes(big, ws);
    assert(all == prefix + u32_bytes(big, ws.last()));
    if k == ws.len() - 1 {
        assert(all.subrange(4 * k, 4 * k + 4) =~= u32_bytes(big, ws[k]));
    } else {
        lemma_u32s_bytes_at(big, ws.drop_last(), k);
        assert(all.subrange(4 * k, 4 * k + 4) =~= prefix.subrange(4 * k, 4 * k + 4));
    }
    lemma_u32_at(big, all, 4 * k, ws[k]);
}

impl ElfFormat {
    pub fn new(is_big_endian: bool) -> (fmt: Self)
        ensures
            fmt.is_big_endian == is_big_endian,
    {
        Self { is_big_endian }
    }

    /// The two bytes of `value` in this byte order.
    pub fn pack_u16(&self, value: u16) -> (bytes: Vec<u8>)
        ensures
            bytes@ == u16_bytes(self.is_big_endian, value),
    {
        let hi = (value >> 8u16) as u8;
        let lo = (value & 0xffu16) as u8;
        let mut bytes = Vec::new();
        if self.is_big_endian {
            bytes.push(hi);
            bytes.push(lo);
        } else {
            bytes.push(lo);
            bytes.push(hi);
        }
        assert(bytes@ =~= u16_bytes(self.is_big_endian, value));
        bytes
    }

    /// The four bytes of `value` in this byte order.
    pub fn pack_u32(&self, value: u32) -> (bytes: Vec<u8>)
        ensures
            bytes@ == u32_bytes(self.is_big_endian, value),
    {
        let b3 = (value >> 24u32) as u8;
        let b2 = ((value >> 16u32) & 0xffu32) as u8;
        let b1 = ((value >> 8u32) & 0xffu32) as u8;
        let b0 = (value & 0xffu32) as u8;
        let mut bytes = Vec::new();
        if self.is_big_endian {
            bytes.push(b3);
            bytes.push(b2);
            bytes.push(b1);
            bytes.push(b0);
        } else {
            bytes.push(b0);
            bytes.push(b1);
            bytes.push(b2);
            bytes.push(b3);
        }
        assert(bytes@ =~= u32_bytes(self.is_big_endian, value));
        bytes
    }

    /// Appends the two bytes of `value` to `out`.
    pub fn push_u16(&self, out: &mut Vec<u8>, value: u16)
        ensures
            final(out)@ == old(out)@ + u16_bytes(self.is_big_endian, value),
    {
        let bytes = self.pack_u16(value);
        out.push(bytes[0]);
        out.push(bytes[1]);
        assert(final(out)@ =~= old(out)@ + u16_bytes(self.is_big_endian, value));
    }

    /// Appends the four bytes of `value` to `out`.
    pub fn push_u32(&self, out: &mut Vec<u8>, value: u32)
        ensures
            final(out)@ == old(out)@ + u32_bytes(self.is_big_endian, value),
    {
        let bytes = self.pack_u32(value);
        out.push(bytes[0]);
        out.push(bytes[1]);
        out.push(bytes[2]);
        out.push(bytes[3]);
        assert(final(out)@ =~= old(out)@ + u32_bytes(self.is_big_endian, value));
    }

    /// Overwrites the four bytes at position `pos` of `data` with the encoding of `value`.
    pub fn store_u32(&self, data: &mut Vec<u8>, pos: usize, value: u32)
        requires
            pos + 4 <= old(data)@.len(),
        ensures
            final(data)@ == old(data)@.subrange(0, pos as int) + u32_bytes(self.is_big_endian, value)
                + old(data)@.subrange(pos + 4, old(data)@.len() as int),
    {
        let len = data.len();
        assert(pos + 4 <= len);
        let bytes = self.pack_u32(value);
        data.set(pos, bytes[0]);
        data.set(pos + 1, bytes[1]);
        data.set(pos + 2, bytes[2]);
        data.set(pos + 3, bytes[3]);
        assert(final(data)@ =~= old(data)@.subrange(0, pos as int) + u32_bytes(self.is_big_endian, value)
            + old(data)@.subrange(pos + 4, old(data)@.len() as int));
    }

    /// The 16-bit value at byte position `pos` of `data`.
    pub fn read_u16(&self, data: &[u8], pos: usize) -> (v: u16)
        requires
            pos + 2 <= data@.len(),
        ensures
            v == u16_at(self.is_big_endian, data@, pos as int),
    {
        let b0 = data[pos];
        let b1 = data[pos + 1];
        if self.is_big_endian {
            ((b0 as u16) << 8u16) | (b1 as u16)
        } else {
            ((b1 as u16) << 8u16) | (b0 as u16)
        }
    }

    /// The 32-bit value at byte position `pos` of `data`.
    pub fn read_u32(&self, data: &[u8], pos: usize) -> (v: u32)
        requires
            pos + 4 <= data@.len(),
        ensures
            v == u32_at(self.is_big_endian, data@, pos as int),
    {
        let b0 = data[pos];
        let b1 = data[pos + 1];
        let b2 = data[pos + 2];
        let b3 = data[pos + 3];
        if self.is_big_endian {
            ((b0 as u32) << 24u32) | ((b1 as u32) << 16u32) | ((b2 as u32) << 8u32) | (b3 as u32)
        } else {
            ((b3 as u32) << 24u32) | ((b2 as u32) << 16u32) | ((b1 as u32) << 8u32) | (b0 as u32)
        }
    }

    /// The 16-bit value at the start of `data`; an error where `data` is shorter than two bytes.
    pub fn unpack_u16(&self, data: &[u8]) -> (r: Result<u16, Error>)
        ensures
            data@.len() >= 2 ==> r == Ok::<u16, Error>(u16_at(self.is_big_endian, data@, 0)),
            data@.len() < 2 ==> r matches Err(Error::InvalidFormat(_)),
    {
        if data.len() < 2 {
            return Err(Error::InvalidFormat("Not enough data for u16".to_owned()));
        }
        Ok(self.read_u16(data, 0))
    }

    /// The 32-bit value at the start of `data`; an error where `data` is shorter than four bytes.
    pub fn unpack_u32(&self, data: &[u8]) -> (r: Result<u32, Error>)
        ensures
            data@.len() >= 4 ==> r == Ok::<u32, Error>(u32_at(self.is_big_endian, data@, 0)),
            data@.len() < 4 ==> r matches Err(Error::InvalidFormat(_)),
    {
        if data.len() < 4 {
            return Err(Error::InvalidFormat("Not enough data for u32".to_owned()));
        }
        Ok(self.read_u32(data, 0))
    }

    /// The bytes of the given words, one after the other.
    pub fn pack_u32s(&self, words: &[u32]) -> (bytes: Vec<u8>)
        ensures
            bytes@ == u32s_bytes(self.is_big_endian, words@),
    {
        let mut bytes = Vec::new();
        let mut i: usize = 0;
        while i < words.len()
            invariant
                i <= words@.len(),
                bytes@ == u32s_bytes(self.is_big_endian, words@.take(i as int)),
            decreases words@.len() - i,
        {
            self.push_u32(&mut bytes, words[i]);
            assert(words@.take(i + 1).drop_last() =~= words@.take(i as int));
            i += 1;
        }
        assert(words@.take(i as int) =~= words@);
        bytes
    }

    /// The bytes of ten words, one after the other.
    pub fn pack_tuple_u32_10(&self, t: (u32, u32, u32, u32, u32, u32, u32, u32, u32, u32)) -> (bytes:
        Vec<u8>)
        ensures
            bytes@ == u32s_bytes(
                self.is_big_endian,
                seq![t.0, t.1, t.2, t.3, t.4, t.5, t.6, t.7, t.8, t.9],
            ),
    {
        let words = [t.0, t.1, t.2, t.3, t.4, t.5, t.6, t.7, t.8, t.9];
        let r = self.pack_u32s(words.as_slice());
        assert(words@ =~= seq![t.0, t.1, t.2, t.3, t.4, t.5, t.6, t.7, t.8, t.9]);
        r
    }
    /// Word `k` of `data`, or 0 where `data` does not hold that word in full.
    pub fn word_or_zero(&self, data: &[u8], k: usize) -> (w: u32)
        requires
            k <= 64,
        ensures
            w == word_or_zero(self.is_big_endian, data@, k as int),
    {
        if 4 * k + 4 <= data.len() {
            self.read_u32(data, 4 * k)
        } else {
            0
        }
    }

    /// The first twenty-five words of `data`; a word that `data` does not hold in full reads as 0.
    pub fn unpack_tuple_u32_25(&self, data: &[u8]) -> (r: Result<(u32, u32, u32, u32, u32, u32, u32, u32, u32, u32, u32, u32, u32, u32, u32, u32, u32, u32, u32, u32, u32, u32, u32, u32, u32), Error>)
        ensures
            r matches Ok(t) && t.0 == word_or_zero(self.is_big_endian, data@, 0),
            r matches Ok(t) && t.1 == word_or_zero(self.is_big_endian, data@, 1),
            r matches Ok(t) && t.2 == word_or_zero(self.is_big_endian, data@, 2),
            r matches Ok(t) && t.3 == word_or_zero(self.is_big_endian, data@, 3),
            r matches Ok(t) && t.4 == word_or_zero(self.is_big_endian, data@, 4),
            r matches Ok(t) && t.5 == word_or_zero(self.is_big_endian, data@, 5),
            r matches Ok(t) && t.6 == word_or_zero(self.is_big_endian, data@, 6),
            r matches Ok(t) && t.7 == word_or_zero(self.is_big_endian, data@, 7),
            r matches Ok(t) && t.8 == word_or_zero(self.is_big_endian, data@, 8),
            r matches Ok(t) && t.9 == word_or_zero(self.is_big_endian, data@, 9),
            r matches Ok(t) && t.10 == word_or_zero(self.is_big_endian, data@, 10),
            r matches Ok(t) && t.11 == word_or_zero(self.is_big_endian, data@, 11),
            r matches Ok(t) && t.12 == word_or_zero(self.is_big_endian, data@, 12),
            r matches Ok(t) && t.13 == word_or_zero(self.is_big_endian, data@, 13),
            r matches Ok(t) && t.14 == word_or_zero(self.is_big_endian, data@, 14),
            r matches Ok(t) && t.15 == word_or_zero(self.is_big_endian, data@, 15),
            r matches Ok(t) && t.16 == word_or_zero(self.is_big_endian, data@, 16),
            r matches Ok(t) && t.17 == word_or_zero(self.is_big_endian, data@, 17),
            r matches Ok(t) && t.18 == word_or_zero(self.is_big_endian, data@, 18),
            r matches Ok(t) && t.19 == word_or_zero(self.is_big_endian, data@, 19),
            r matches Ok(t) && t.20 == word_or_zero(self.is_big_endian, data@, 20),
            r matches Ok(t) && t.21 == word_or_zero(self.is_big_endian, data@, 21),
            r matches Ok(t) && t.22 == word_or_zero(self.is_big_endian, data@, 22),
            r matches Ok(t) && t.23 == word_or_zero(self.is_big_endian, data@, 23),
            r matches Ok(t) && t.24 == word_or_zero(self.is_big_endian, data@, 24),
    {
        Ok((
            self.word_or_zero(data, 0),
            self.word_or_zero(data, 1),
            self.word_or_zero(data, 2),
            self.word_or_zero(data, 3),
            self.word_or_zero(data, 4),
            self.word_or_zero(data, 5),
            self.word_or_zero(data, 6),
            self.word_or_zero(data, 7),
            self.word_or_zero(data, 8),
            self.word_or_zero(data, 9),
            self.word_or_zero(data, 10),
            self.word_or_zero(data, 11),
            self.word_or_zero(data, 12),
            self.word_or_zero(data, 13),
            self.word_or_zero(data, 14),
            self.word_or_zero(data, 15),
            self.word_or_zero(data, 16),
            self.word_or_zero(data, 17),
            self.word_or_zero(data, 18),
            self.word_or_zero(data, 19),
            self.word_or_zero(data, 20),
            self.word_or_zero(data, 21),
            self.word_or_zero(data, 22),
            self.word_or_zero(data, 23),
            self.word_or_zero(data, 24),
        ))
    }
}

} // verus!
