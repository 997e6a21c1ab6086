//! Little-endian integers on the wire: a reader over bytes held in memory,
//! and writers that append to a byte buffer.

use vstd::prelude::*;

verus! {

/// The two bytes of `x`, lowest first.
pub open spec fn u16_le(x: u16) -> Seq<u8> {
    seq![(x % 256) as u8, (x / 256) as u8]
}

/// The four bytes of `x`, lowest first.
pub open spec fn u32_le(x: u32) -> Seq<u8> {
    seq![
        (x % 256) as u8,
        (x / 0x100 % 256) as u8,
        (x / 0x1_0000 % 256) as u8,
        (x / 0x100_0000) as u8,
    ]
}

/// The eight bytes of `x`, lowest first.
pub open spec fn u64_le(x: u64) -> Seq<u8> {
    seq![
        (x % 256) as u8,
        (x / 0x100 % 256) as u8,
        (x / 0x1_0000 % 256) as u8,
        (x / 0x100_0000 % 256) as u8,
        (x / 0x1_0000_0000 % 256) as u8,
        (x / 0x100_0000_0000 % 256) as u8,
        (x / 0x1_0000_0000_0000 % 256) as u8,
        (x / 0x100_0000_0000_0000) as u8,
    ]
}

/// The number that the first two bytes of `bytes` spell, lowest byte first.
pub open spec fn le_u16(bytes: Seq<u8>) -> u16
    recommends
        bytes.len() >= 2,
{
    (bytes[0] + bytes[1] * 0x100) as u16
}

/// The number that the first four bytes of `bytes` spell, lowest byte first.
pub open spec fn le_u32(bytes: Seq<u8>) -> u32
    recommends
        bytes.len() >= 4,
{
    (bytes[0] + bytes[1] * 0x100 + bytes[2] * 0x1_0000 + bytes[3] * 0x100_0000) as u32
}

/// The number that the first eight bytes of `bytes` spell, lowest byte first.
pub open spec fn le_u64(bytes: Seq<u8>) -> u64
    recommends
        bytes.len() >= 8,
{
    (bytes[0] + bytes[1] * 0x100 + bytes[2] * 0x1_0000 + bytes[3] * 0x100_0000 + bytes[4]
        * 0x1_0000_0000 + bytes[5] * 0x100_0000_0000 + bytes[6] * 0x1_0000_0000_0000 + bytes[7]
        * 0x100_0000_0000_0000) as u64
}

/// Reading back what was written gives the number that was written,
/// whatever follows it.
pub proof fn lemma_le_round_trip(a: u16, b: u32, c: u64, rest: Seq<u8>)
    ensures
        u16_le(a).len() == 2,
        u32_le(b).len() == 4,
        u64_le(c).len() == 8,
        le_u16(u16_le(a) + rest) == a,
        le_u32(u32_le(b) + rest) == b,
        le_u64(u64_le(c) + rest) == c,
{
    assert(a % 256 + (a / 256) * 0x100 == a);
    assert(b % 256 + (b / 0x100 % 256) * 0x100 + (b / 0x1_0000 % 256) * 0x1_0000 + (b
        / 0x100_0000) * 0x100_0000 == b) by (bit_vector);
    assert(c % 256 + (c / 0x100 % 256) * 0x100 + (c / 0x1_0000 % 256) * 0x1_0000 + (c
        / 0x100_0000 % 256) * 0x100_0000 + (c / 0x1_0000_0000 % 256) * 0x1_0000_0000 + (c
        / 0x100_0000_0000 % 256) * 0x100_0000_0000 + (c / 0x1_0000_0000_0000 % 256)
        * 0x1_0000_0000_0000 + (c / 0x100_0000_0000_0000) * 0x100_0000_0000_0000 == c)
        by (bit_vector);
    assert(c / 0x100_0000_0000_0000 < 256 && b / 0x100_0000 < 256 && a / 256 < 256);
    let sa = u16_le(a) + rest;
    assert(sa[0] == u16_le(a)[0] && sa[1] == u16_le(a)[1]);
    let sb = u32_le(b) + rest;
    assert(sb[0] == u32_le(b)[0] && sb[1] == u32_le(b)[1] && sb[2] == u32_le(b)[2] && sb[3]
        == u32_le(b)[3]);
    let sc = u64_le(c) + rest;
    assert(sc[0] == u64_le(c)[0] && sc[1] == u64_le(c)[1] && sc[2] == u64_le(c)[2] && sc[3]
        == u64_le(c)[3]);
    assert(sc[4] == u64_le(c)[4] && sc[5] == u64_le(c)[5] && sc[6] == u64_le(c)[6] && sc[7]
        == u64_le(c)[7]);
}

/// Writing a number that was read gives back the bytes that were read.
pub proof fn lemma_le_bytes_round_trip(bytes: Seq<u8>)
    ensures
        bytes.len() == 2 ==> u16_le(le_u16(bytes)) == bytes,
        bytes.len() == 4 ==> u32_le(le_u32(bytes)) == bytes,
        bytes.len() == 8 ==> u64_le(le_u64(bytes)) == bytes,
{
    if bytes.len() == 2 {
        assert(u16_le(le_u16(bytes)) =~= bytes);
    }
    if bytes.len() == 4 {
        let (b0, b1, b2, b3) = (bytes[0], bytes[1], bytes[2], bytes[3]);
        let v: u32 = le_u32(bytes);
        assert(v == b0 + b1 * 0x100 + b2 * 0x1_0000 + b3 * 0x100_0000);
        assert(v % 256 == b0 && v / 0x100 % 256 == b1 && v / 0x1_0000 % 256 == b2 && v
            / 0x100_0000 == b3) by (bit_vector)
            requires
                v == b0 + b1 * 0x100 + b2 * 0x1_0000 + b3 * 0x100_0000,
        ;
        assert(u32_le(v) =~= bytes);
    }
    if bytes.len() == 8 {
        let (b0, b1, b2, b3) = (bytes[0], bytes[1], bytes[2], bytes[3]);
        let (b4, b5, b6, b7) = (bytes[4], bytes[5], bytes[6], bytes[7]);
        let v: u64 = le_u64(bytes);
        assert(v == b0 + b1 * 0x100 + b2 * 0x1_0000 + b3 * 0x100_0000 + b4 * 0x1_0000_0000 + b5
            * 0x100_0000_0000 + b6 * 0x1_0000_0000_0000 + b7 * 0x100_0000_0000_0000);
        assert(v % 256 == b0 && v / 0x100 % 256 == b1 && v / 0x1_0000 % 256 == b2 && v
            / 0x100_0000 % 256 == b3 && v / 0x1_0000_0000 % 256 == b4 && v / 0x100_0000_0000
            % 256 == b5 && v / 0x1_0000_0000_0000 % 256 == b6 && v / 0x100_0000_0000_0000
            == b7) by (bit_vector)
            requires
                v == b0 + b1 * 0x100 + b2 * 0x1_0000 + b3 * 0x100_0000 + b4 * 0x1_0000_0000 + b5
                    * 0x100_0000_0000 + b6 * 0x1_0000_0000_0000 + b7 * 0x100_0000_0000_0000,
        ;
        assert(u64_le(v) =~= bytes);
    }
}

/// Why a read failed.
#[derive(Debug, Clone, Copy, PartialEq, Eq, Structural)]
pub enum ReadError {
    /// The input ended before the value did.
    UnexpectedEof,
}

/// A cursor over bytes held in memory. Its view is the input not yet read.
pub struct Reader {
    data: Vec<u8>,
    pos: usize,
}

impl View for Reader {
    type V = Seq<u8>;

    closed spec fn view(&self) -> Seq<u8> {
        self.data@.skip(self.pos as int)
    }
}

impl Reader {
    #[verifier::type_invariant]
    spec fn inv(self) -> bool {
        self.pos <= self.data.len()
    }

    /// A reader at the start of `data`.
    pub fn new(data: Vec<u8>) -> (reader: Self)
        ensures
            reader@ == data@,
    {
        Self { data, pos: 0 }
    }

    /// The number of bytes not yet read.
    pub fn remaining(&self) -> (n: usize)
        ensures
            n == self@.len(),
    {
        proof {
            use_type_invariant(self);
        }
        self.data.len() - self.pos
    }

    /// The byte `offset` places ahead of the cursor, which stays.
    pub fn peek(&self, offset: usize) -> (byte: u8)
        requires
            offset < self@.len(),
        ensures
            byte == self@[offset as int],
    {
        proof {
            use_type_invariant(self);
        }
        self.data[self.pos + offset]
    }

    /// Moves the cursor `n` bytes on.
    pub fn advance(&mut self, n: usize)
        requires
            n <= old(self)@.len(),
        ensures
            final(self)@ == old(self)@.skip(n as int),
    {
        proof {
            use_type_invariant(&*self);
        }
        self.pos = self.pos + n;
    }

    /// Moves the cursor to the end of the input.
    pub fn drain(&mut self)
        ensures
            final(self)@ == Seq::<u8>::empty(),
    {
        self.pos = self.data.len();
    }
}

/// Reads one byte. A reader with nothing left fails.
pub fn read_u8(r: &mut Reader) -> (result: Result<u8, ReadError>)
    ensures
        old(r)@.len() >= 1 ==> result == Ok::<u8, ReadError>(old(r)@[0]) && final(r)@ == old(
            r,
        )@.skip(1),
        old(r)@.len() < 1 ==> result == Err::<u8, ReadError>(ReadError::UnexpectedEof)
            && final(r)@.len() == 0,
{
    if r.remaining() < 1 {
        r.drain();
        return Err(ReadError::UnexpectedEof);
    }
    let value = r.peek(0);
    r.advance(1);
    Ok(value)
}

/// Reads a 32-bit number, lowest byte first. A reader with fewer than four
/// bytes left fails and is left at the end of its input.
pub fn read_u32(r: &mut Reader) -> (result: Result<u32, ReadError>)
    ensures
        old(r)@.len() >= 4 ==> result == Ok::<u32, ReadError>(le_u32(old(r)@)) && final(r)@
            == old(r)@.skip(4),
        old(r)@.len() < 4 ==> result == Err::<u32, ReadError>(ReadError::UnexpectedEof)
            && final(r)@.len() == 0,
{
    if r.remaining() < 4 {
        r.drain();
        return Err(ReadError::UnexpectedEof);
    }
    let value: u32 = r.peek(0) as u32 + r.peek(1) as u32 * 0x100 + r.peek(2) as u32 * 0x1_0000
        + r.peek(3) as u32 * 0x100_0000;
    r.advance(4);
    Ok(value)
}

/// Reads a 64-bit number, lowest byte first. A reader with fewer than eight
/// bytes left fails and is left at the end of its input.
pub fn read_u64(r: &mut Reader) -> (result: Result<u64, ReadError>)
    ensures
        old(r)@.len() >= 8 ==> result == Ok::<u64, ReadError>(le_u64(old(r)@)) && final(r)@
            == old(r)@.skip(8),
        old(r)@.len() < 8 ==> result == Err::<u64, ReadError>(ReadError::UnexpectedEof)
            && final(r)@.len() == 0,
{
    if r.remaining() < 8 {
        r.drain();
        return Err(ReadError::UnexpectedEof);
    }
    let low: u64 = r.peek(0) as u64 + r.peek(1) as u64 * 0x100 + r.peek(2) as u64 * 0x1_0000
        + r.peek(3) as u64 * 0x100_0000;
    let high: u64 = r.peek(4) as u64 + r.peek(5) as u64 * 0x100 + r.peek(6) as u64 * 0x1_0000
        + r.peek(7) as u64 * 0x100_0000;
    r.advance(8);
    Ok(low + high * 0x1_0000_0000)
}

/// Appends one byte to `w`.
pub fn write_u8(w: &mut Vec<u8>, x: u8)
    ensures
        final(w)@ == old(w)@.push(x),
{
    w.push(x);
}

/// Appends the two bytes of `x` to `w`, lowest first.
pub fn write_u16(w: &mut Vec<u8>, x: u16)
    ensures
        final(w)@ == old(w)@ + u16_le(x),
{
    w.push((x % 256) as u8);
    w.push((x / 256) as u8);
    assert(w@ =~= old(w)@ + u16_le(x));
}

/// Appends the four bytes of `x` to `w`, lowest first.
pub fn write_u32(w: &mut Vec<u8>, x: u32)
    ensures
        final(w)@ == old(w)@ + u32_le(x),
{
    w.push((x % 256) as u8);
    w.push((x / 0x100 % 256) as u8);
    w.push((x / 0x1_0000 % 256) as u8);
    w.push((x / 0x100_0000) as u8);
    assert(w@ =~= old(w)@ + u32_le(x));
}

/// Appends the eight bytes of `x` to `w`, lowest first.
pub fn write_u64(w: &mut Vec<u8>, x: u64)
    ensures
        final(w)@ == old(w)@ + u64_le(x),
{
    w.push((x % 256) as u8);
    w.push((x / 0x100 % 256) as u8);
    w.push((x / 0x1_0000 % 256) as u8);
    w.push((x / 0x100_0000 % 256) as u8);
    w.push((x / 0x1_0000_0000 % 256) as u8);
    w.push((x / 0x100_0000_0000 % 256) as u8);
    w.push((x / 0x1_0000_0000_0000 % 256) as u8);
    w.push((x / 0x100_0000_0000_0000) as u8);
    assert(w@ =~= old(w)@ + u64_le(x));
}

} // verus!
