//! Big-endian fixed-width integer reads from a byte slice, and a mutable
//! cursor abstraction used by every decoder in the crate.
use crate::Error;
use vstd::prelude::*;

verus! {

/// The value of one byte read big-endian.
pub open spec fn spec_be_u8(s: Seq<u8>) -> u8 {
    s[0]
}

/// The value of two bytes read big-endian.
pub open spec fn spec_be_u16(s: Seq<u8>) -> u16 {
    (s[0] * 0x100 + s[1]) as u16
}

/// The value of four bytes read big-endian.
pub open spec fn spec_be_u32(s: Seq<u8>) -> u32 {
    (s[0] * 0x1000000 + s[1] * 0x10000 + s[2] * 0x100 + s[3]) as u32
}

/// The value of four bytes read big-endian, reinterpreted as signed.
pub open spec fn spec_be_i32(s: Seq<u8>) -> i32 {
    spec_be_u32(s) as i32
}

/// Reads a `u8` from a slice that must be exactly one byte long.
pub fn be_u8(value: &[u8]) -> (r: Result<u8, Error>)
    ensures
        value@.len() == 1 ==> r == Ok::<u8, Error>(spec_be_u8(value@)),
        value@.len() != 1 ==> r == Err::<u8, Error>(Error::MalformedPage),
{
    if value.len() == 1 {
        Ok(value[0])
    } else {
        Err(Error::MalformedPage)
    }
}

/// Reads a big-endian `u16` from a slice that must be exactly two bytes long.
pub fn be_u16(value: &[u8]) -> (r: Result<u16, Error>)
    ensures
        value@.len() == 2 ==> r == Ok::<u16, Error>(spec_be_u16(value@)),
        value@.len() != 2 ==> r == Err::<u16, Error>(Error::MalformedPage),
{
    if value.len() == 2 {
        Ok(value[0] as u16 * 0x100 + value[1] as u16)
    } else {
        Err(Error::MalformedPage)
    }
}

/// Reads a big-endian `u32` from a slice that must be exactly four bytes long.
pub fn be_u32(value: &[u8]) -> (r: Result<u32, Error>)
    ensures
        value@.len() == 4 ==> r == Ok::<u32, Error>(spec_be_u32(value@)),
        value@.len() != 4 ==> r == Err::<u32, Error>(Error::MalformedPage),
{
    if value.len() == 4 {
        Ok(
            value[0] as u32 * 0x1000000 + value[1] as u32 * 0x10000 + value[2] as u32 * 0x100
                + value[3] as u32,
        )
    } else {
        Err(Error::MalformedPage)
    }
}

/// Reads a big-endian `i32` from a slice that must be exactly four bytes long.
pub fn be_i32(value: &[u8]) -> (r: Result<i32, Error>)
    ensures
        value@.len() == 4 ==> r == Ok::<i32, Error>(spec_be_i32(value@)),
        value@.len() != 4 ==> r == Err::<i32, Error>(Error::MalformedPage),
{
    match be_u32(value) {
        Ok(v) => Ok(v as i32),
        Err(e) => Err(e),
    }
}

/// A cursor over a byte buffer: a plain position that decoders advance,
/// rewind, and reposition as they consume bytes.
#[derive(Debug)]
pub struct Position {
    pub pos: usize,
}

impl Position {
    /// A cursor standing at the start of the buffer.
    pub fn new() -> (r: Self)
        ensures
            r.pos == 0,
    {
        Self { pos: 0 }
    }

    /// The current position.
    pub fn v(&self) -> (r: usize)
        ensures
            r == self.pos,
    {
        self.pos
    }

    /// Advances the cursor by `value` bytes and returns the new position.
    pub fn incr(&mut self, value: usize) -> (r: usize)
        requires
            old(self).pos + value <= usize::MAX,
        ensures
            final(self).pos == old(self).pos + value,
            r == final(self).pos,
    {
        self.pos = self.pos + value;
        self.pos
    }

    /// Rewinds the cursor by `value` bytes and returns the new position.
    pub fn decr(&mut self, value: usize) -> (r: usize)
        requires
            value <= old(self).pos,
        ensures
            final(self).pos == old(self).pos - value,
            r == final(self).pos,
    {
        self.pos = self.pos - value;
        self.pos
    }

    /// Moves the cursor to an absolute position and returns it.
    pub fn set(&mut self, value: usize) -> (r: usize)
        ensures
            final(self).pos == value,
            r == value,
    {
        self.pos = value;
        self.pos
    }
}

/// Appends a byte slice to a vector.
pub fn append_bytes(out: &mut Vec<u8>, src: &[u8])
    ensures
        final(out)@ == old(out)@ + src@,
{
    let mut i: usize = 0;
    while i < src.len()
        invariant
            i <= src@.len(),
            out@ == old(out)@ + src@.subrange(0, i as int),
        decreases src@.len() - i,
    {
        proof {
            assert((old(out)@ + src@.subrange(0, i as int)).push(src@[i as int]) =~= old(out)@
                + src@.subrange(0, i + 1));
        }
        out.push(src[i]);
        i = i + 1;
    }
    proof {
        assert(src@.subrange(0, src@.len() as int) =~= src@);
    }
}
/// The two big-endian bytes of a 16-bit integer.
pub open spec fn spec_u16b(v: u16) -> Seq<u8> {
    seq![(v / 0x100) as u8, (v % 0x100) as u8]
}

/// The four big-endian bytes of a 32-bit integer.
pub open spec fn spec_u32b(v: u32) -> Seq<u8> {
    seq![
        (v / 0x1000000) as u8,
        ((v / 0x10000) % 0x100) as u8,
        ((v / 0x100) % 0x100) as u8,
        (v % 0x100) as u8,
    ]
}
/// Appends the two big-endian bytes of a 16-bit integer.
pub fn push_u16(out: &mut Vec<u8>, v: u16)
    ensures
        final(out)@ == old(out)@ + spec_u16b(v),
{
    out.push((v / 0x100) as u8);
    out.push((v % 0x100) as u8);
    proof {
        assert(out@ =~= old(out)@ + spec_u16b(v));
    }
}

/// Appends the four big-endian bytes of a 32-bit integer.
pub fn push_u32(out: &mut Vec<u8>, v: u32)
    ensures
        final(out)@ == old(out)@ + spec_u32b(v),
{
    out.push((v / 0x1000000) as u8);
    out.push(((v / 0x10000) % 0x100) as u8);
    out.push(((v / 0x100) % 0x100) as u8);
    out.push((v % 0x100) as u8);
    proof {
        assert(out@ =~= old(out)@ + spec_u32b(v));
    }
}
/// The two big-endian bytes of a 16-bit value read from two bytes are
/// those bytes again.
pub proof fn lemma_u16b_be(s2: Seq<u8>)
    requires
        s2.len() == 2,
    ensures
        spec_u16b(spec_be_u16(s2)) =~= s2,
{
    assert(spec_be_u16(s2) == s2[0] * 0x100 + s2[1]);
}

/// As `lemma_u16b_be` for 32-bit values and four bytes.
pub proof fn lemma_u32b_be(s4: Seq<u8>)
    requires
        s4.len() == 4,
    ensures
        spec_u32b(spec_be_u32(s4)) =~= s4,
{
    let v = spec_be_u32(s4);
    assert(v == s4[0] * 0x1000000 + s4[1] * 0x10000 + s4[2] * 0x100 + s4[3]);
    assert(v / 0x1000000 == s4[0] && (v / 0x10000) % 0x100 == s4[1] && (v / 0x100) % 0x100 == s4[2]
        && v % 0x100 == s4[3]) by (nonlinear_arith)
        requires
            v == s4[0] * 0x1000000 + s4[1] * 0x10000 + s4[2] * 0x100 + s4[3],
            s4[0] < 0x100,
            s4[1] < 0x100,
            s4[2] < 0x100,
            s4[3] < 0x100,
    ;
}

} // verus!
