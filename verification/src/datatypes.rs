//! The variable-length integer codec and the serial-type/value model of the
//! record format.
//!
//! A varint is a signed 64-bit integer encoded in 1 to 9 big-endian bytes.
//! Bytes 1 through 8 use the high bit as a continuation flag and contribute
//! 7 bits each; byte 9, if reached, contributes all 8 bits.
use crate::floatbits::{f64_bits_of_i64, f64_cmp, f64_cmp_bits, f64_of_i64, pow2_u64};
use crate::Error;
use core::cmp::Ordering;
use vstd::arithmetic::div_mod::{lemma_basic_div, lemma_div_basics, lemma_div_denominator, lemma_fundamental_div_mod};
use vstd::arithmetic::power2::{lemma2_to64, lemma2_to64_rest, lemma_pow2_adds, lemma_pow2_pos, pow2};
use vstd::prelude::*;
use vstd::slice::slice_to_vec;
use vstd::string::StringSliceAdditionalSpecFns;
use vstd::utf8::{decode_utf8, encode_utf8, valid_utf8};

verus! {

/// A signed 64-bit integer with the 1-to-9-byte variable-length encoding.
#[derive(Debug, Clone, Copy, Eq, PartialEq, Ord, PartialOrd, Structural)]
pub struct VarInt(pub i64);

/// One step of decoding: the accumulator and next byte index after
/// consuming `s[i]`, starting from accumulator `acc` at index `i`.
/// Returns the decoded 64-bit pattern and the number of bytes consumed.
pub open spec fn spec_varint_from(s: Seq<u8>, acc: u64, i: nat) -> (u64, nat)
    decreases 9 - i,
{
    if i >= s.len() || i >= 9 {
        (acc, i)
    } else if i == 8 {
        (((acc << 8) | (s[8] as u64)) as u64, 9)
    } else {
        let acc2 = ((acc << 7) | ((s[i as int] & 0x7f) as u64)) as u64;
        if s[i as int] < 0x80 {
            (acc2, (i + 1) as nat)
        } else {
            spec_varint_from(s, acc2, (i + 1) as nat)
        }
    }
}

/// The value and length of the varint at the head of `s`.
pub open spec fn spec_varint(s: Seq<u8>) -> (i64, nat) {
    let (v, n) = spec_varint_from(s, 0, 0);
    (v as i64, n)
}

/// The minimal number of bytes that encode the 64-bit pattern `u`.
pub open spec fn spec_varint_len(u: u64) -> nat {
    if u < 0x80 {
        1
    } else if u < 0x4000 {
        2
    } else if u < 0x200000 {
        3
    } else if u < 0x10000000 {
        4
    } else if u < 0x8_0000_0000 {
        5
    } else if u < 0x400_0000_0000 {
        6
    } else if u < 0x2_0000_0000_0000 {
        7
    } else if u < 0x100_0000_0000_0000 {
        8
    } else {
        9
    }
}

/// Byte `j` of the `n`-byte encoding of the 64-bit pattern `u`.
pub open spec fn spec_varint_byte(u: u64, n: nat, j: nat) -> u8 {
    if n == 9 {
        if j == 8 {
            (u & 0xff) as u8
        } else {
            (0x80 | ((u >> ((8 + 7 * (7 - j)) as u64)) & 0x7f)) as u8
        }
    } else {
        if j + 1 == n {
            (u & 0x7f) as u8
        } else {
            (0x80 | ((u >> ((7 * (n - 1 - j)) as u64)) & 0x7f)) as u8
        }
    }
}

/// After consuming the first `i` of `n` continuation bytes, the accumulator
/// holds the bits of `u` above position `7 * (n - i)` (with the ninth-byte
/// form holding the bits above `8 + 7 * (8 - i)`).
proof fn lemma_varint_decode_enc8(s: Seq<u8>, u: u64, n: nat, i: nat)
    requires
        1 <= n <= 8,
        n <= s.len(),
        i < n,
        forall|j: int| 0 <= j < n ==> s[j] == spec_varint_byte(u, n, j as nat),
    ensures
        spec_varint_from(s, u >> ((7 * (n - i)) as u64), i) == (u, n),
    decreases n - i,
{
    let k: u64 = (7 * (n - 1 - i)) as u64;
    let k7: u64 = (7 * (n - i)) as u64;
    assert(k7 == k + 7);
    if i + 1 == n {
        // the final byte has its continuation bit clear and carries u & 0x7f
        let b: u8 = (u & 0x7f) as u8;
        assert(s[i as int] == b);
        assert(b < 0x80 && (((u >> 7u64) << 7) | ((b & 0x7f) as u64)) == u) by (bit_vector)
            requires
                b == (u & 0x7f) as u8,
        ;
        assert(k7 == 7);
    } else {
        let b: u8 = (0x80 | ((u >> k) & 0x7f)) as u8;
        assert(s[i as int] == b);
        assert(b >= 0x80 && (((u >> k7) << 7) | ((b & 0x7f) as u64)) == u >> k) by (bit_vector)
            requires
                k <= 56 && k7 == k + 7 && b == (0x80 | ((u >> k) & 0x7f)) as u8,
        ;
        lemma_varint_decode_enc8(s, u, n, i + 1);
    }
}

proof fn lemma_varint_decode_enc9(s: Seq<u8>, u: u64, i: nat)
    requires
        9 <= s.len(),
        1 <= i < 9,
        forall|j: int| 0 <= j < 9 ==> s[j] == spec_varint_byte(u, 9, j as nat),
    ensures
        spec_varint_from(s, u >> ((8 + 7 * (8 - i)) as u64), i) == (u, 9nat),
    decreases 9 - i,
{
    if i == 8 {
        let b: u8 = (u & 0xff) as u8;
        assert(s[8] == b);
        assert((((u >> 8u64) << 8) | (b as u64)) == u) by (bit_vector)
            requires
                b == (u & 0xff) as u8,
        ;
    } else {
        let k: u64 = (8 + 7 * (8 - (i + 1))) as u64;
        let k7: u64 = (8 + 7 * (8 - i)) as u64;
        assert(k7 == k + 7);
        let b: u8 = (0x80 | ((u >> k) & 0x7f)) as u8;
        assert(s[i as int] == b);
        assert(b >= 0x80 && (((u >> k7) << 7) | ((b & 0x7f) as u64)) == u >> k) by (bit_vector)
            requires
                k <= 56 && k7 == k + 7 && b == (0x80 | ((u >> k) & 0x7f)) as u8,
        ;
        lemma_varint_decode_enc9(s, u, i + 1);
    }
}

impl VarInt {
    /// Wraps a plain signed 64-bit value.
    pub fn new(value: i64) -> (r: Self)
        ensures
            r.0 == value,
    {
        Self(value)
    }

    /// Decodes the varint at the head of `bytes`: reads up to 9 bytes, taking
    /// 7 bits from each of the first 8 and all 8 bits of the ninth, and
    /// returns the value with the number of bytes consumed.
    pub fn parse(bytes: &[u8]) -> (r: (Self, usize))
        ensures
            r.0.0 == spec_varint(bytes@).0,
            r.1 == spec_varint(bytes@).1,
            r.1 <= 9,
            r.1 <= bytes@.len(),
            bytes@.len() > 0 ==> r.1 >= 1,
    {
        let ghost s = bytes@;
        let mut varint: u64 = 0;
        let mut i: usize = 0;
        let mut done: bool = false;
        while !done && i < bytes.len() && i < 9
            invariant
                0 <= i <= 9,
                i <= s.len(),
                s == bytes@,
                !done ==> spec_varint_from(s, 0, 0) == spec_varint_from(s, varint, i as nat),
                done ==> spec_varint_from(s, 0, 0) == (varint, i as nat),
                done ==> 1 <= i,
            decreases 10 - i, (if done { 0int } else { 1int }),
        {
            let byte = bytes[i];
            if i == 8 {
                varint = (varint << 8) | (byte as u64);
                i = i + 1;
                done = true;
            } else {
                varint = (varint << 7) | ((byte & 0x7f) as u64);
                i = i + 1;
                if byte < 0x80 {
                    done = true;
                }
            }
        }
        (Self(varint as i64), i)
    }

    /// Encodes the value in the minimal number of bytes whose decoding
    /// round-trips: decoding the result yields the value back, consuming the
    /// whole encoding, which is between 1 and 9 bytes long.
    pub fn serialize(&self) -> (r: Vec<u8>)
        ensures
            r@ == spec_varint_bytes(self.0),
            r@.len() == spec_varint_len(self.0 as u64),
            1 <= r@.len() <= 9,
            spec_varint(r@).0 == self.0,
            spec_varint(r@).1 == r@.len(),
    {
        let u: u64 = self.0 as u64;
        let n: usize = if u < 0x80 {
            1
        } else if u < 0x4000 {
            2
        } else if u < 0x200000 {
            3
        } else if u < 0x10000000 {
            4
        } else if u < 0x8_0000_0000 {
            5
        } else if u < 0x400_0000_0000 {
            6
        } else if u < 0x2_0000_0000_0000 {
            7
        } else if u < 0x100_0000_0000_0000 {
            8
        } else {
            9
        };
        let mut out: Vec<u8> = Vec::new();
        let mut j: usize = 0;
        while j < n
            invariant
                n == spec_varint_len(u),
                1 <= n <= 9,
                0 <= j <= n,
                out@.len() == j,
                forall|jj: int| 0 <= jj < j ==> out@[jj] == spec_varint_byte(u, n as nat, jj as nat),
            decreases n - j,
        {
            let byte: u8 = if n == 9 {
                if j == 8 {
                    (u & 0xff) as u8
                } else {
                    let shift: u64 = 8 + 7 * (7 - j as u64);
                    (0x80u64 | ((u >> shift) & 0x7f)) as u8
                }
            } else {
                if j + 1 == n {
                    (u & 0x7f) as u8
                } else {
                    let shift: u64 = 7 * ((n - 1 - j) as u64);
                    (0x80u64 | ((u >> shift) & 0x7f)) as u8
                }
            };
            assert(byte == spec_varint_byte(u, n as nat, j as nat));
            out.push(byte);
            j = j + 1;
        }
        proof {
            lemma_varint_round_trip_bits(out@, u, n as nat);
            let v: i64 = self.0;
            assert((v as u64) as i64 == v) by (bit_vector);
            assert(out@ =~= spec_varint_bytes(self.0));
        }
        out
    }
}

/// The value of a big-endian byte string read as an unsigned integer.
pub open spec fn spec_be_uint(s: Seq<u8>) -> nat
    decreases s.len(),
{
    if s.len() == 0 {
        0
    } else {
        (spec_be_uint(s.drop_last()) * 256 + s.last()) as nat
    }
}

/// The value of a big-endian byte string read as a two's-complement signed
/// integer of `8 * s.len()` bits.
pub open spec fn spec_be_int(s: Seq<u8>) -> int {
    let raw = spec_be_uint(s);
    if s.len() > 0 && raw >= pow2((8 * s.len() - 1) as nat) {
        raw - pow2((8 * s.len()) as nat)
    } else {
        raw as int
    }
}

pub proof fn lemma_be_uint_bound(s: Seq<u8>)
    ensures
        spec_be_uint(s) < pow2((8 * s.len()) as nat),
    decreases s.len(),
{
    lemma2_to64();
    if s.len() == 0 {
    } else {
        lemma_be_uint_bound(s.drop_last());
        lemma_pow2_adds((8 * (s.len() - 1)) as nat, 8);
        assert(spec_be_uint(s.drop_last()) * 256 + 256 <= pow2((8 * (s.len() - 1)) as nat) * 256)
            by (nonlinear_arith)
            requires
                spec_be_uint(s.drop_last()) < pow2((8 * (s.len() - 1)) as nat),
        ;
    }
}

/// Reads at most eight bytes as a big-endian unsigned integer.
fn be_uint(bytes: &[u8]) -> (r: u64)
    requires
        bytes@.len() <= 8,
    ensures
        r as nat == spec_be_uint(bytes@),
{
    let n = bytes.len();
    let mut acc: u64 = 0;
    let mut i: usize = 0;
    while i < n
        invariant
            i <= n == bytes@.len() <= 8,
            acc as nat == spec_be_uint(bytes@.subrange(0, i as int)),
        decreases n - i,
    {
        proof {
            lemma_be_uint_bound(bytes@.subrange(0, i as int));
            lemma2_to64();
            lemma2_to64_rest();
            assert(bytes@.subrange(0, i + 1).drop_last() =~= bytes@.subrange(0, i as int));
            assert(bytes@.subrange(0, i + 1).last() == bytes@[i as int]);
        }
        acc = acc * 256 + (bytes[i] as u64);
        i = i + 1;
    }
    proof {
        assert(bytes@.subrange(0, n as int) =~= bytes@);
    }
    acc
}

/// Reads one to eight bytes as a big-endian two's-complement signed integer.
fn be_int(bytes: &[u8]) -> (r: i64)
    requires
        1 <= bytes@.len() <= 8,
    ensures
        r as int == spec_be_int(bytes@),
{
    let w = bytes.len();
    let raw = be_uint(bytes);
    proof {
        lemma_be_uint_bound(bytes@);
        lemma2_to64();
        lemma2_to64_rest();
    }
    if w == 8 {
        proof {
            let r64: u64 = raw;
            assert(r64 >= 0x8000_0000_0000_0000 ==> r64 as i64 == r64 - 0x1_0000_0000_0000_0000)
                by (bit_vector);
            assert(r64 < 0x8000_0000_0000_0000 ==> r64 as i64 == r64) by (bit_vector);
        }
        raw as i64
    } else {
        let half = pow2_u64((8 * w - 1) as u64);
        let full = pow2_u64((8 * w) as u64);
        if raw >= half {
            (raw as i64) - (full as i64)
        } else {
            raw as i64
        }
    }
}

/// The `w` big-endian bytes of the unsigned integer `u`, highest first.
pub open spec fn spec_uint_bytes(u: nat, w: nat) -> Seq<u8> {
    Seq::new(w, |i: int| ((u / pow2((8 * (w - 1 - i)) as nat)) % 256) as u8)
}

/// Reading back the big-endian bytes of an integer that fits them yields
/// the integer.
pub proof fn lemma_uint_bytes_be(u: nat, w: nat)
    requires
        u < pow2((8 * w) as nat),
    ensures
        spec_be_uint(spec_uint_bytes(u, w)) == u,
    decreases w,
{
    lemma2_to64();
    if w == 0 {
        assert(spec_uint_bytes(u, 0) =~= Seq::<u8>::empty());
    } else {
        lemma_pow2_adds((8 * (w - 1)) as nat, 8);
        lemma_pow2_pos((8 * (w - 1)) as nat);
        assert(u / 256 < pow2((8 * (w - 1)) as nat)) by (nonlinear_arith)
            requires
                u < pow2((8 * (w - 1)) as nat) * 256,
        ;
        lemma_uint_bytes_be(u / 256, (w - 1) as nat);
        assert(spec_uint_bytes(u, w).drop_last() =~= spec_uint_bytes(u / 256, (w - 1) as nat)) by {
            assert forall|i: int| 0 <= i < w - 1 implies spec_uint_bytes(u, w)[i] == spec_uint_bytes(
                u / 256,
                (w - 1) as nat,
            )[i] by {
                let k = (8 * (w - 2 - i)) as nat;
                lemma_pow2_pos(k);
                lemma_div_denominator(u as int, 256, pow2(k) as int);
                lemma_pow2_adds(k, 8);
                assert(pow2((8 * (w - 1 - i)) as nat) == pow2(k) * 256);
                assert((u / pow2((8 * (w - 1 - i)) as nat)) == (u / 256) / pow2(k)) by {
                    assert((u as int) / (256 * (pow2(k) as int)) == ((u as int) / 256) / (pow2(
                        k,
                    ) as int));
                }
            }
        }
        assert(spec_uint_bytes(u, w).last() == (u % 256) as u8) by {
            assert(pow2(0) == 1);
            lemma_div_basics(u as int);
        }
        lemma_fundamental_div_mod(u as int, 256);
    }
}

/// Emits `raw` as `w` big-endian bytes; `raw` must fit in them.
fn be_bytes_of(raw: u64, w: usize) -> (r: Vec<u8>)
    requires
        1 <= w <= 8,
        (raw as nat) < pow2((8 * w) as nat),
    ensures
        r@.len() == w,
        spec_be_uint(r@) == raw as nat,
        r@ == spec_uint_bytes(raw as nat, w as nat),
{
    let mut out: Vec<u8> = Vec::new();
    let mut j: usize = 0;
    proof {
        lemma2_to64();
        lemma2_to64_rest();
        lemma_basic_div(raw as int, pow2((8 * w) as nat) as int);
    }
    while j < w
        invariant
            j <= w,
            1 <= w <= 8,
            (raw as nat) < pow2((8 * w) as nat),
            out@.len() == j,
            spec_be_uint(out@) == (raw as nat) / pow2((8 * (w - j)) as nat),
            forall|jj: int|
                0 <= jj < j ==> out@[jj] == (((raw as nat) / pow2((8 * (w - 1 - jj)) as nat))
                    % 256) as u8,
        decreases w - j,
    {
        proof {
            lemma_pow2_pos((8 * (w - 1 - j)) as nat);
        }
        let d = pow2_u64((8 * (w - 1 - j)) as u64);
        let byte = ((raw / d) % 256) as u8;
        proof {
            lemma2_to64();
            lemma_pow2_adds((8 * (w - 1 - j)) as nat, 8);
            assert(pow2((8 * (w - j)) as nat) == d * 256);
            lemma_div_denominator(raw as int, d as int, 256);
            assert((raw as int) / ((d as int) * 256) == ((raw as int) / (d as int)) / 256);
            lemma_fundamental_div_mod((raw as int) / (d as int), 256);
            assert(out@.push(byte).drop_last() =~= out@);
            assert(spec_be_uint(out@.push(byte)) == spec_be_uint(out@) * 256 + byte);
        }
        out.push(byte);
        j = j + 1;
    }
    proof {
        lemma2_to64();
        assert(pow2(0) == 1);
        lemma_div_basics(raw as int);
        assert(out@ =~= spec_uint_bytes(raw as nat, w as nat));
    }
    out
}

/// The serial type of one record column: the storage class and, where the
/// class fixes it, the number of bytes a value of it occupies on disk.
#[derive(Debug, Clone, Copy)]
pub enum DataType {
    Null(usize),
    Int8(usize),
    Int16(usize),
    Int24(usize),
    Int32(usize),
    Int48(usize),
    Int64(usize),
    Float(usize),
    Integer0(usize),
    Integer1(usize),
    Internal,
    Blob(usize),
    String(usize),
}

/// The serial type denoted by the varint `x`: negative and reserved codes
/// (10 and 11), and codes too large for this machine, are invalid.
pub open spec fn spec_datatype_from(x: int) -> Result<DataType, Error> {
    if x < 0 || x > usize::MAX {
        Err(Error::InvalidSerialType)
    } else if x == 0 {
        Ok(DataType::Null(0))
    } else if x == 1 {
        Ok(DataType::Int8(1))
    } else if x == 2 {
        Ok(DataType::Int16(2))
    } else if x == 3 {
        Ok(DataType::Int24(3))
    } else if x == 4 {
        Ok(DataType::Int32(4))
    } else if x == 5 {
        Ok(DataType::Int48(6))
    } else if x == 6 {
        Ok(DataType::Int64(8))
    } else if x == 7 {
        Ok(DataType::Float(8))
    } else if x == 8 {
        Ok(DataType::Integer0(0))
    } else if x == 9 {
        Ok(DataType::Integer1(0))
    } else if x == 10 || x == 11 {
        Err(Error::InvalidSerialType)
    } else if x % 2 == 0 {
        Ok(DataType::Blob(((x - 12) / 2) as usize))
    } else {
        Ok(DataType::String(((x - 13) / 2) as usize))
    }
}

/// The on-disk width in bytes of a value of this serial type; `None` for
/// the reserved internal types, whose width is not defined.
pub open spec fn spec_datatype_size(dt: DataType) -> Option<usize> {
    match dt {
        DataType::Internal => None,
        DataType::Null(s) => Some(s),
        DataType::Int8(s) => Some(s),
        DataType::Int16(s) => Some(s),
        DataType::Int24(s) => Some(s),
        DataType::Int32(s) => Some(s),
        DataType::Int48(s) => Some(s),
        DataType::Int64(s) => Some(s),
        DataType::Float(s) => Some(s),
        DataType::Integer0(s) => Some(s),
        DataType::Integer1(s) => Some(s),
        DataType::Blob(s) => Some(s),
        DataType::String(s) => Some(s),
    }
}

/// Whether the size carried inside the serial type is the canonical width
/// of its storage class, as `DataType::from_varint` always produces it.
pub open spec fn spec_datatype_wf(dt: DataType) -> bool {
    match dt {
        DataType::Null(s) => s == 0,
        DataType::Int8(s) => s == 1,
        DataType::Int16(s) => s == 2,
        DataType::Int24(s) => s == 3,
        DataType::Int32(s) => s == 4,
        DataType::Int48(s) => s == 6,
        DataType::Int64(s) => s == 8,
        DataType::Float(s) => s == 8,
        DataType::Integer0(s) => s == 0,
        DataType::Integer1(s) => s == 0,
        DataType::Internal => true,
        DataType::Blob(_) => true,
        DataType::String(_) => true,
    }
}

/// The serial-type code that a column of this type writes into a record
/// header; the reserved internal types have no code of their own here.
pub open spec fn spec_serial_code(dt: DataType) -> int {
    match dt {
        DataType::Null(_) => 0,
        DataType::Int8(_) => 1,
        DataType::Int16(_) => 2,
        DataType::Int24(_) => 3,
        DataType::Int32(_) => 4,
        DataType::Int48(_) => 5,
        DataType::Int64(_) => 6,
        DataType::Float(_) => 7,
        DataType::Integer0(_) => 8,
        DataType::Integer1(_) => 9,
        DataType::Internal => 10,
        DataType::Blob(n) => 12 + 2 * n,
        DataType::String(n) => 13 + 2 * n,
    }
}

impl DataType {
    /// Maps a serial-type varint to its storage class and width; fails with
    /// `InvalidSerialType` on negative and reserved codes.
    pub fn from_varint(value: VarInt) -> (r: Result<Self, Error>)
        ensures
            r == spec_datatype_from(value.0 as int),
    {
        if value.0 < 0 {
            return Err(Error::InvalidSerialType);
        }
        let x64 = value.0 as u64;
        if x64 > (usize::MAX as u64) {
            return Err(Error::InvalidSerialType);
        }
        let x = x64 as usize;
        if x == 0 {
            Ok(Self::Null(0))
        } else if x == 1 {
            Ok(Self::Int8(1))
        } else if x == 2 {
            Ok(Self::Int16(2))
        } else if x == 3 {
            Ok(Self::Int24(3))
        } else if x == 4 {
            Ok(Self::Int32(4))
        } else if x == 5 {
            Ok(Self::Int48(6))
        } else if x == 6 {
            Ok(Self::Int64(8))
        } else if x == 7 {
            Ok(Self::Float(8))
        } else if x == 8 {
            Ok(Self::Integer0(0))
        } else if x == 9 {
            Ok(Self::Integer1(0))
        } else if x == 10 || x == 11 {
            Err(Error::InvalidSerialType)
        } else if x % 2 == 0 {
            Ok(Self::Blob((x - 12) / 2))
        } else {
            Ok(Self::String((x - 13) / 2))
        }
    }

    /// The on-disk width of a value of this type, or `None` for the
    /// reserved internal types.
    pub fn get_size(&self) -> (r: Option<usize>)
        ensures
            r == spec_datatype_size(*self),
    {
        match self {
            Self::Internal => None,
            Self::Null(s) => Some(*s),
            Self::Int8(s) => Some(*s),
            Self::Int16(s) => Some(*s),
            Self::Int24(s) => Some(*s),
            Self::Int32(s) => Some(*s),
            Self::Int48(s) => Some(*s),
            Self::Int64(s) => Some(*s),
            Self::Float(s) => Some(*s),
            Self::Integer0(s) => Some(*s),
            Self::Integer1(s) => Some(*s),
            Self::Blob(s) => Some(*s),
            Self::String(s) => Some(*s),
        }
    }

    /// The serial-type varint that denotes this type in a record header.
    pub fn to_varint(&self) -> (r: VarInt)
        requires
            !(*self is Internal),
            spec_serial_code(*self) <= i64::MAX,
        ensures
            r.0 == spec_serial_code(*self),
    {
        match self {
            Self::Null(_) => VarInt(0),
            Self::Int8(_) => VarInt(1),
            Self::Int16(_) => VarInt(2),
            Self::Int24(_) => VarInt(3),
            Self::Int32(_) => VarInt(4),
            Self::Int48(_) => VarInt(5),
            Self::Int64(_) => VarInt(6),
            Self::Float(_) => VarInt(7),
            Self::Integer0(_) => VarInt(8),
            Self::Integer1(_) => VarInt(9),
            Self::Internal => VarInt(10),
            Self::Blob(n) => VarInt(12 + 2 * (*n as i64)),
            Self::String(n) => VarInt(13 + 2 * (*n as i64)),
        }
    }
}

/// A decoded cell value.  Text and blob cells own their contents; a float
/// cell holds the big-endian IEEE-754 bit pattern of its double.
#[derive(Debug, Clone)]
pub enum Value {
    Null,
    Int8(i8),
    Int16(i16),
    Int24(i32),
    Int32(i32),
    Int48(i64),
    Int64(i64),
    Float(u64),
    Integer0,
    Integer1,
    Internal(Vec<u8>),
    Blob(Vec<u8>),
    String(String),
}

/// The name for what `String::from_utf8_lossy` returns on a byte string.
pub uninterp spec fn utf8_lossy_of(bytes: Seq<u8>) -> Seq<char>;

/// Relies on String::from_utf8_lossy: the result is a function of the bytes
/// alone, and valid UTF-8 decodes to exactly its own scalar values.
#[verifier::external_body]
fn utf8_lossy(value: &[u8]) -> (r: String)
    ensures
        r@ == utf8_lossy_of(value@),
        valid_utf8(value@) ==> r@ == decode_utf8(value@),
        value@.len() == 0 ==> r@.len() == 0,
{
    String::from_utf8_lossy(value).into_owned()
}

/// The numeric value of an integer-class cell, `None` for every other class.
pub open spec fn spec_int_val(v: Value) -> Option<i64> {
    match v {
        Value::Int8(x) => Some(x as i64),
        Value::Int16(x) => Some(x as i64),
        Value::Int24(x) => Some(x as i64),
        Value::Int32(x) => Some(x as i64),
        Value::Int48(x) => Some(x),
        Value::Int64(x) => Some(x),
        Value::Integer0 => Some(0),
        Value::Integer1 => Some(1),
        _ => None,
    }
}

/// As `spec_int_val`, defaulting to zero off the integer classes.
pub open spec fn spec_int_val_or0(v: Value) -> i64 {
    match spec_int_val(v) {
        Some(x) => x,
        None => 0,
    }
}

/// Lexicographic byte-wise order: the order of the first differing byte,
/// with a proper prefix ordered before what extends it.
pub open spec fn spec_bytes_cmp(a: Seq<u8>, b: Seq<u8>) -> Ordering
    decreases a.len(),
{
    if a.len() == 0 && b.len() == 0 {
        Ordering::Equal
    } else if a.len() == 0 {
        Ordering::Less
    } else if b.len() == 0 {
        Ordering::Greater
    } else if a[0] < b[0] {
        Ordering::Less
    } else if a[0] > b[0] {
        Ordering::Greater
    } else {
        spec_bytes_cmp(a.skip(1), b.skip(1))
    }
}

/// Equality of two cell values: value-based across the numeric classes
/// (a one-byte 1, the literal 1, and the double 1.0 are all equal; NaN
/// equals nothing), content-based within text, blob, and internal cells,
/// and false across classes.
pub open spec fn spec_val_eq(a: Value, b: Value) -> bool {
    match a {
        Value::Null => b is Null,
        Value::Internal(x) => b matches Value::Internal(y) && x@ == y@,
        Value::Blob(x) => b matches Value::Blob(y) && x@ == y@,
        Value::String(x) => b matches Value::String(y) && x@ == y@,
        Value::Float(fa) => match b {
            Value::Float(fb) => f64_cmp(fa, fb) == Some(Ordering::Equal),
            Value::Null | Value::Internal(_) | Value::Blob(_) | Value::String(_) => false,
            _ => f64_cmp(fa, f64_of_i64(spec_int_val_or0(b))) == Some(Ordering::Equal),
        },
        _ => match b {
            Value::Float(fb) => f64_cmp(f64_of_i64(spec_int_val_or0(a)), fb) == Some(
                Ordering::Equal,
            ),
            Value::Null | Value::Internal(_) | Value::Blob(_) | Value::String(_) => false,
            _ => spec_int_val_or0(a) == spec_int_val_or0(b),
        },
    }
}

/// The comparison order of two cell values: NULL first, then the numeric
/// classes in numeric order (integers widened to doubles against a double),
/// then text in byte order, then blobs in byte order.  Internal cells and
/// NaN compare with nothing.
pub open spec fn spec_val_cmp(a: Value, b: Value) -> Option<Ordering> {
    match a {
        Value::Internal(_) => None,
        Value::Null => match b {
            Value::Null => Some(Ordering::Equal),
            Value::Internal(_) => None,
            _ => Some(Ordering::Less),
        },
        Value::String(x) => match b {
            Value::String(y) => Some(spec_bytes_cmp(encode_utf8(x@), encode_utf8(y@))),
            Value::Blob(_) => Some(Ordering::Less),
            Value::Internal(_) => None,
            _ => Some(Ordering::Greater),
        },
        Value::Blob(x) => match b {
            Value::Blob(y) => Some(spec_bytes_cmp(x@, y@)),
            Value::Internal(_) => None,
            _ => Some(Ordering::Greater),
        },
        Value::Float(fa) => match b {
            Value::Null => Some(Ordering::Greater),
            Value::Float(fb) => f64_cmp(fa, fb),
            Value::Internal(_) => None,
            Value::String(_) | Value::Blob(_) => Some(Ordering::Less),
            _ => f64_cmp(fa, f64_of_i64(spec_int_val_or0(b))),
        },
        _ => match b {
            Value::Null => Some(Ordering::Greater),
            Value::Float(fb) => f64_cmp(f64_of_i64(spec_int_val_or0(a)), fb),
            Value::Internal(_) => None,
            Value::String(_) | Value::Blob(_) => Some(Ordering::Less),
            _ => {
                let ia = spec_int_val_or0(a);
                let ib = spec_int_val_or0(b);
                if ia == ib {
                    Some(Ordering::Equal)
                } else if ia < ib {
                    Some(Ordering::Less)
                } else {
                    Some(Ordering::Greater)
                }
            },
        },
    }
}

/// Compares two byte strings lexicographically.
fn bytes_cmp(a: &[u8], b: &[u8]) -> (r: Ordering)
    ensures
        r == spec_bytes_cmp(a@, b@),
{
    let mut i: usize = 0;
    proof {
        assert(a@.skip(0) =~= a@);
        assert(b@.skip(0) =~= b@);
    }
    while i < a.len() && i < b.len()
        invariant
            i <= a@.len(),
            i <= b@.len(),
            spec_bytes_cmp(a@, b@) == spec_bytes_cmp(a@.skip(i as int), b@.skip(i as int)),
        decreases a@.len() - i,
    {
        proof {
            assert(a@.skip(i as int)[0] == a@[i as int]);
            assert(b@.skip(i as int)[0] == b@[i as int]);
            assert(a@.skip(i as int).skip(1) =~= a@.skip(i as int + 1));
            assert(b@.skip(i as int).skip(1) =~= b@.skip(i as int + 1));
        }
        if a[i] < b[i] {
            return Ordering::Less;
        }
        if a[i] > b[i] {
            return Ordering::Greater;
        }
        i = i + 1;
    }
    if a.len() == b.len() {
        Ordering::Equal
    } else if i == a.len() {
        Ordering::Less
    } else {
        Ordering::Greater
    }
}

/// Compares two strings in binary collation: by their UTF-8 bytes.
fn str_cmp(a: &String, b: &String) -> (r: Ordering)
    ensures
        r == spec_bytes_cmp(encode_utf8(a@), encode_utf8(b@)),
{
    bytes_cmp(a.as_str().as_bytes(), b.as_str().as_bytes())
}

/// Compares an integer-class value against a double bit pattern, widening
/// the integer to the nearest double.
fn cmp_int_float(ia: i64, fb: u64) -> (r: Option<Ordering>)
    ensures
        r == f64_cmp(f64_of_i64(ia), fb),
{
    f64_cmp_bits(f64_bits_of_i64(ia), fb)
}

/// Compares a double bit pattern against an integer-class value, widening
/// the integer to the nearest double.
fn cmp_float_int(fa: u64, ib: i64) -> (r: Option<Ordering>)
    ensures
        r == f64_cmp(fa, f64_of_i64(ib)),
{
    f64_cmp_bits(fa, f64_bits_of_i64(ib))
}

/// Whether the precondition of `Value::new` holds: the byte string has the
/// canonical width of the serial type's storage class.
pub open spec fn spec_value_new_pre(dt: DataType, len: nat) -> bool {
    match dt {
        DataType::Null(_) => true,
        DataType::Integer0(_) => true,
        DataType::Integer1(_) => true,
        DataType::Internal => true,
        DataType::Int8(_) => len == 1,
        DataType::Int16(_) => len == 2,
        DataType::Int24(_) => len == 3,
        DataType::Int32(_) => len == 4,
        DataType::Int48(_) => len == 6,
        DataType::Int64(_) => len == 8,
        DataType::Float(_) => len == 8,
        DataType::Blob(n) => len == n,
        DataType::String(n) => len == n,
    }
}

/// What `Value::new` returns: integers are read big-endian and
/// sign-extended, a double keeps its bit pattern, text is decoded from
/// UTF-8, and blob and internal cells copy the bytes.
pub open spec fn spec_value_new_post(dt: DataType, s: Seq<u8>, r: Value) -> bool {
    match dt {
        DataType::Null(_) => r == Value::Null,
        DataType::Int8(_) => r == Value::Int8(spec_be_int(s) as i8),
        DataType::Int16(_) => r == Value::Int16(spec_be_int(s) as i16),
        DataType::Int24(_) => r == Value::Int24(spec_be_int(s) as i32),
        DataType::Int32(_) => r == Value::Int32(spec_be_int(s) as i32),
        DataType::Int48(_) => r == Value::Int48(spec_be_int(s) as i64),
        DataType::Int64(_) => r == Value::Int64(spec_be_int(s) as i64),
        DataType::Float(_) => r == Value::Float(spec_be_uint(s) as u64),
        DataType::Integer0(_) => r == Value::Integer0,
        DataType::Integer1(_) => r == Value::Integer1,
        DataType::Internal => r matches Value::Internal(v) && v@ == s,
        DataType::Blob(_) => r matches Value::Blob(v) && v@ == s,
        DataType::String(_) => r matches Value::String(v) && v@ == utf8_lossy_of(s) && (valid_utf8(
            s,
        ) ==> v@ == decode_utf8(s)),
    }
}

/// What `Value::serialize` emits for each value: the canonical width for
/// the fixed classes, holding the value's low bits big-endian, and the
/// contents themselves for text, blob, and internal cells.
pub open spec fn spec_value_ser_post(v: Value, s: Seq<u8>) -> bool {
    match v {
        Value::Null => s.len() == 0,
        Value::Integer0 => s.len() == 0,
        Value::Integer1 => s.len() == 0,
        Value::Int8(x) => s.len() == 1 && spec_be_uint(s) == (x as u64) % 0x100,
        Value::Int16(x) => s.len() == 2 && spec_be_uint(s) == (x as u64) % 0x10000,
        Value::Int24(x) => s.len() == 3 && spec_be_uint(s) == (x as u64) % 0x1000000,
        Value::Int32(x) => s.len() == 4 && spec_be_uint(s) == (x as u64) % 0x1_0000_0000,
        Value::Int48(x) => s.len() == 6 && spec_be_uint(s) == (x as u64) % 0x1_0000_0000_0000,
        Value::Int64(x) => s.len() == 8 && spec_be_uint(s) == x as u64,
        Value::Float(bits) => s.len() == 8 && spec_be_uint(s) == bits,
        Value::Internal(v) => s == v@,
        Value::Blob(v) => s == v@,
        Value::String(v) => s == encode_utf8(v@),
    }
}

/// The byte string `Value::serialize` emits, as a function of the value.
pub open spec fn spec_value_body(v: Value) -> Seq<u8> {
    match v {
        Value::Null => Seq::empty(),
        Value::Integer0 => Seq::empty(),
        Value::Integer1 => Seq::empty(),
        Value::Int8(x) => spec_uint_bytes(((x as u64) % 0x100) as nat, 1),
        Value::Int16(x) => spec_uint_bytes(((x as u64) % 0x10000) as nat, 2),
        Value::Int24(x) => spec_uint_bytes(((x as u64) % 0x1000000) as nat, 3),
        Value::Int32(x) => spec_uint_bytes(((x as u64) % 0x1_0000_0000) as nat, 4),
        Value::Int48(x) => spec_uint_bytes(((x as u64) % 0x1_0000_0000_0000) as nat, 6),
        Value::Int64(x) => spec_uint_bytes((x as u64) as nat, 8),
        Value::Float(bits) => spec_uint_bytes(bits as nat, 8),
        Value::Internal(v) => v@,
        Value::Blob(v) => v@,
        Value::String(s) => encode_utf8(s@),
    }
}

/// Whether a value belongs to the storage class of a serial type, with
/// the value within the width the class stores: the condition under which
/// writing the value under that type and reading it back is the identity.
pub open spec fn spec_value_fits(dt: DataType, v: Value) -> bool {
    match dt {
        DataType::Null(_) => v is Null,
        DataType::Int8(_) => v is Int8,
        DataType::Int16(_) => v is Int16,
        DataType::Int24(_) => v matches Value::Int24(x) && -0x800000 <= x < 0x800000,
        DataType::Int32(_) => v is Int32,
        DataType::Int48(_) => v matches Value::Int48(x) && -0x8000_0000_0000 <= x
            < 0x8000_0000_0000,
        DataType::Int64(_) => v is Int64,
        DataType::Float(_) => v is Float,
        DataType::Integer0(_) => v is Integer0,
        DataType::Integer1(_) => v is Integer1,
        DataType::Internal => false,
        DataType::Blob(n) => v matches Value::Blob(b) && b@.len() == n,
        DataType::String(n) => v matches Value::String(s) && encode_utf8(s@).len() == n,
    }
}

/// A value of a fixed-width class decodes from its own serialization back
/// to itself: whatever `Value::new` would accept as decoded from those
/// bytes under the same serial type is the value again.
pub proof fn lemma_value_decode_unique(dt: DataType, v: Value, w: Value)
    requires
        spec_datatype_wf(dt),
        spec_value_fits(dt, v),
        !(dt is Blob),
        !(dt is String),
        spec_value_new_post(dt, spec_value_body(v), w),
    ensures
        w == v,
{
    lemma2_to64();
    lemma2_to64_rest();
    match v {
        Value::Int8(x) => {
            let raw = (x as u64) % 0x100;
            lemma_uint_bytes_be(raw as nat, 1);
            let s = spec_value_body(v);
            assert(spec_be_uint(s) == raw as nat && s.len() == 1);
            assert((raw < 0x80 ==> raw == x) && (raw >= 0x80 ==> raw == x + 0x100))
                by (bit_vector)
                requires
                    raw == (x as u64) % 0x100,
            ;
            assert(spec_be_int(s) as i8 == x);
        },
        Value::Int16(x) => {
            let raw = (x as u64) % 0x10000;
            lemma_uint_bytes_be(raw as nat, 2);
            let s = spec_value_body(v);
            assert(spec_be_uint(s) == raw as nat && s.len() == 2);
            assert((raw < 0x8000 ==> raw == x) && (raw >= 0x8000 ==> raw == x + 0x10000))
                by (bit_vector)
                requires
                    raw == (x as u64) % 0x10000,
            ;
            assert(spec_be_int(s) as i16 == x);
        },
        Value::Int24(x) => {
            let raw = (x as u64) % 0x1000000;
            lemma_uint_bytes_be(raw as nat, 3);
            let s = spec_value_body(v);
            assert(spec_be_uint(s) == raw as nat && s.len() == 3);
            assert(raw < 0x800000 ==> raw == x) by (bit_vector)
                requires
                    -0x800000 <= x < 0x800000 && raw == (x as u64) % 0x1000000,
            ;
            assert(raw >= 0x800000 ==> raw == x + 0x1000000) by (bit_vector)
                requires
                    -0x800000 <= x < 0x800000 && raw == (x as u64) % 0x1000000,
            ;
            assert(spec_be_int(s) as i32 == x);
        },
        Value::Int32(x) => {
            let raw = (x as u64) % 0x1_0000_0000;
            lemma_uint_bytes_be(raw as nat, 4);
            let s = spec_value_body(v);
            assert(spec_be_uint(s) == raw as nat && s.len() == 4);
            assert((raw < 0x8000_0000 ==> raw == x) && (raw >= 0x8000_0000 ==> raw == x
                + 0x1_0000_0000)) by (bit_vector)
                requires
                    raw == (x as u64) % 0x1_0000_0000,
            ;
            assert(spec_be_int(s) as i32 == x);
        },
        Value::Int48(x) => {
            let raw = (x as u64) % 0x1_0000_0000_0000;
            lemma_uint_bytes_be(raw as nat, 6);
            let s = spec_value_body(v);
            assert(spec_be_uint(s) == raw as nat && s.len() == 6);
            assert(raw < 0x8000_0000_0000 ==> raw == x) by (bit_vector)
                requires
                    -0x8000_0000_0000 <= x < 0x8000_0000_0000 && raw == (x as u64)
                        % 0x1_0000_0000_0000,
            ;
            assert(raw >= 0x8000_0000_0000 ==> raw == x + 0x1_0000_0000_0000) by (bit_vector)
                requires
                    -0x8000_0000_0000 <= x < 0x8000_0000_0000 && raw == (x as u64)
                        % 0x1_0000_0000_0000,
            ;
            assert(spec_be_int(s) as i64 == x);
        },
        Value::Int64(x) => {
            let raw = x as u64;
            lemma_uint_bytes_be(raw as nat, 8);
            let s = spec_value_body(v);
            assert(spec_be_uint(s) == raw as nat && s.len() == 8);
            assert((raw < 0x8000_0000_0000_0000 ==> raw == x) && (raw >= 0x8000_0000_0000_0000
                ==> raw == x + 0x1_0000_0000_0000_0000)) by (bit_vector)
                requires
                    raw == x as u64,
            ;
            assert(spec_be_int(s) as i64 == x);
        },
        Value::Float(bits) => {
            lemma_uint_bytes_be(bits as nat, 8);
            let s = spec_value_body(v);
            assert(spec_be_uint(s) == bits as nat && s.len() == 8);
        },
        _ => {},
    }
}

/// Equality of two values at the level their contents: the same class,
/// and the same numeric value, bit pattern, characters, or bytes.  For
/// text, blob, and internal cells this is what decoding pins down; for
/// every fixed-width class it coincides with plain equality.
pub open spec fn val_content_eq(a: Value, b: Value) -> bool {
    match a {
        Value::Null => b is Null,
        Value::Int8(x) => b matches Value::Int8(y) && x == y,
        Value::Int16(x) => b matches Value::Int16(y) && x == y,
        Value::Int24(x) => b matches Value::Int24(y) && x == y,
        Value::Int32(x) => b matches Value::Int32(y) && x == y,
        Value::Int48(x) => b matches Value::Int48(y) && x == y,
        Value::Int64(x) => b matches Value::Int64(y) && x == y,
        Value::Float(x) => b matches Value::Float(y) && x == y,
        Value::Integer0 => b is Integer0,
        Value::Integer1 => b is Integer1,
        Value::Internal(x) => b matches Value::Internal(y) && x@ == y@,
        Value::Blob(x) => b matches Value::Blob(y) && x@ == y@,
        Value::String(x) => b matches Value::String(y) && x@ == y@,
    }
}

/// A value of any non-internal class decodes from its own serialization
/// back to its own contents: whatever `Value::new` would accept as
/// decoded from those bytes under the same serial type carries the same
/// class and contents.
pub proof fn lemma_value_decode_content(dt: DataType, v: Value, w: Value)
    requires
        spec_datatype_wf(dt),
        spec_value_fits(dt, v),
        spec_value_new_post(dt, spec_value_body(v), w),
    ensures
        val_content_eq(w, v),
{
    match dt {
        DataType::Internal => {},
        DataType::Blob(_) => {},
        DataType::String(_) => {
            match v {
                Value::String(x) => {
                    vstd::utf8::encode_utf8_valid_utf8(x@);
                    vstd::utf8::encode_utf8_decode_utf8(x@);
                },
                _ => {},
            }
        },
        _ => {
            lemma_value_decode_unique(dt, v, w);
        },
    }
}

/// Two values decoded from the same bytes under the same serial type are
/// indistinguishable to the comparison model: any third value equals and
/// orders against both alike.
pub proof fn lemma_val_ops_determined(x: Value, dt: DataType, s: Seq<u8>, v1: Value, v2: Value)
    requires
        spec_value_new_post(dt, s, v1),
        spec_value_new_post(dt, s, v2),
    ensures
        spec_val_eq(x, v1) == spec_val_eq(x, v2),
        spec_val_cmp(x, v1) == spec_val_cmp(x, v2),
        spec_val_eq(v1, x) == spec_val_eq(v2, x),
        spec_val_cmp(v1, x) == spec_val_cmp(v2, x),
{
    match dt {
        DataType::Internal => {},
        DataType::Blob(_) => {},
        DataType::String(_) => {},
        _ => {
            assert(v1 == v2);
        },
    }
}

impl Value {
    /// Decodes a value of the given serial type from exactly the bytes of
    /// its on-disk width.
    pub fn new(data_type: &DataType, value: &[u8]) -> (r: Self)
        requires
            spec_value_new_pre(*data_type, value@.len()),
        ensures
            spec_value_new_post(*data_type, value@, r),
    {
        match data_type {
            DataType::Null(_) => Self::Null,
            DataType::Int8(_) => Self::Int8(be_int(value) as i8),
            DataType::Int16(_) => Self::Int16(be_int(value) as i16),
            DataType::Int24(_) => Self::Int24(be_int(value) as i32),
            DataType::Int32(_) => Self::Int32(be_int(value) as i32),
            DataType::Int48(_) => Self::Int48(be_int(value)),
            DataType::Int64(_) => Self::Int64(be_int(value)),
            DataType::Float(_) => Self::Float(be_uint(value)),
            DataType::Integer0(_) => Self::Integer0,
            DataType::Integer1(_) => Self::Integer1,
            DataType::Internal => Self::Internal(slice_to_vec(value)),
            DataType::Blob(_) => Self::Blob(slice_to_vec(value)),
            DataType::String(_) => Self::String(utf8_lossy(value)),
        }
    }

    /// The numeric value of an integer-class cell, `None` otherwise.
    pub fn get_int_val(&self) -> (r: Option<i64>)
        ensures
            r == spec_int_val(*self),
    {
        match self {
            Self::Int8(v) => Some(*v as i64),
            Self::Int16(v) => Some(*v as i64),
            Self::Int24(v) => Some(*v as i64),
            Self::Int32(v) => Some(*v as i64),
            Self::Int48(v) => Some(*v),
            Self::Int64(v) => Some(*v),
            Self::Integer0 => Some(0),
            Self::Integer1 => Some(1),
            _ => None,
        }
    }

    /// Emits the value's on-disk body: its canonical width of big-endian
    /// bytes for the fixed classes, its contents for the variable ones.
    pub fn serialize(&self) -> (r: Vec<u8>)
        ensures
            spec_value_ser_post(*self, r@),
            r@ == spec_value_body(*self),
    {
        proof {
            lemma2_to64();
            lemma2_to64_rest();
        }
        match self {
            Self::Null => Vec::new(),
            Self::Integer0 => Vec::new(),
            Self::Integer1 => Vec::new(),
            Self::Int8(x) => be_bytes_of((*x as u64) % 0x100, 1),
            Self::Int16(x) => be_bytes_of((*x as u64) % 0x10000, 2),
            Self::Int24(x) => be_bytes_of((*x as u64) % 0x1000000, 3),
            Self::Int32(x) => be_bytes_of((*x as u64) % 0x1_0000_0000, 4),
            Self::Int48(x) => be_bytes_of((*x as u64) % 0x1_0000_0000_0000, 6),
            Self::Int64(x) => be_bytes_of(*x as u64, 8),
            Self::Float(bits) => be_bytes_of(*bits, 8),
            Self::Internal(v) => slice_to_vec(v.as_slice()),
            Self::Blob(v) => slice_to_vec(v.as_slice()),
            Self::String(v) => slice_to_vec(v.as_str().as_bytes()),
        }
    }

    /// Compares two values in the order of the record format, `None` where
    /// the order is undefined (NaN and internal cells).
    pub fn compare(&self, other: &Value) -> (r: Option<Ordering>)
        ensures
            r == spec_val_cmp(*self, *other),
    {
        match self {
            Self::Internal(_) => None,
            Self::Null => match other {
                Self::Null => Some(Ordering::Equal),
                Self::Internal(_) => None,
                _ => Some(Ordering::Less),
            },
            Self::String(x) => match other {
                Self::String(y) => Some(str_cmp(x, y)),
                Self::Blob(_) => Some(Ordering::Less),
                Self::Internal(_) => None,
                _ => Some(Ordering::Greater),
            },
            Self::Blob(x) => match other {
                Self::Blob(y) => Some(bytes_cmp(x.as_slice(), y.as_slice())),
                Self::Internal(_) => None,
                _ => Some(Ordering::Greater),
            },
            Self::Float(fa) => match other {
                Self::Null => Some(Ordering::Greater),
                Self::Float(fb) => f64_cmp_bits(*fa, *fb),
                Self::Internal(_) => None,
                Self::String(_) => Some(Ordering::Less),
                Self::Blob(_) => Some(Ordering::Less),
                _ => match other.get_int_val() {
                    Some(ib) => cmp_float_int(*fa, ib),
                    None => None,
                },
            },
            _ => {
                let ia = match self.get_int_val() {
                    Some(v) => v,
                    None => 0,
                };
                match other {
                    Self::Null => Some(Ordering::Greater),
                    Self::Float(fb) => cmp_int_float(ia, *fb),
                    Self::Internal(_) => None,
                    Self::String(_) => Some(Ordering::Less),
                    Self::Blob(_) => Some(Ordering::Less),
                    _ => {
                        let ib = match other.get_int_val() {
                            Some(v) => v,
                            None => 0,
                        };
                        if ia == ib {
                            Some(Ordering::Equal)
                        } else if ia < ib {
                            Some(Ordering::Less)
                        } else {
                            Some(Ordering::Greater)
                        }
                    },
                }
            },
        }
    }

    /// Tests two values for equality in the sense of the record format.
    pub fn equals(&self, other: &Value) -> (r: bool)
        ensures
            r == spec_val_eq(*self, *other),
    {
        match self {
            Self::Null => matches!(other, Self::Null),
            Self::Internal(x) => match other {
                Self::Internal(y) => bytes_eq(x.as_slice(), y.as_slice()),
                _ => false,
            },
            Self::Blob(x) => match other {
                Self::Blob(y) => bytes_eq(x.as_slice(), y.as_slice()),
                _ => false,
            },
            Self::String(x) => match other {
                Self::String(y) => x.eq(y),
                _ => false,
            },
            Self::Float(fa) => match other {
                Self::Null => false,
                Self::Internal(_) => false,
                Self::Blob(_) => false,
                Self::String(_) => false,
                Self::Float(fb) => matches!(f64_cmp_bits(*fa, *fb), Some(Ordering::Equal)),
                _ => {
                    let ib = match other.get_int_val() {
                        Some(v) => v,
                        None => 0,
                    };
                    matches!(cmp_float_int(*fa, ib), Some(Ordering::Equal))
                },
            },
            _ => {
                let ia = match self.get_int_val() {
                    Some(v) => v,
                    None => 0,
                };
                match other {
                    Self::Null => false,
                    Self::Internal(_) => false,
                    Self::Blob(_) => false,
                    Self::String(_) => false,
                    Self::Float(fb) => matches!(cmp_int_float(ia, *fb), Some(Ordering::Equal)),
                    _ => {
                        let ib = match other.get_int_val() {
                            Some(v) => v,
                            None => 0,
                        };
                        ia == ib
                    },
                }
            },
        }
    }
}

/// Tests two byte strings for equality.
fn bytes_eq(a: &[u8], b: &[u8]) -> (r: bool)
    ensures
        r == (a@ == b@),
{
    if a.len() != b.len() {
        return false;
    }
    let mut i: usize = 0;
    while i < a.len()
        invariant
            i <= a@.len() == b@.len(),
            forall|j: int| 0 <= j < i ==> a@[j] == b@[j],
        decreases a@.len() - i,
    {
        if a[i] != b[i] {
            return false;
        }
        i = i + 1;
    }
    proof {
        assert(a@ =~= b@);
    }
    true
}

impl PartialEq for Value {
    /// Value equality per the record format: value-based across the
    /// numeric classes, and never symmetric-breaking (but note that a NaN
    /// double equals nothing, itself included).
    fn eq(&self, other: &Self) -> (r: bool) {
        self.equals(other)
    }
}

impl vstd::std_specs::cmp::PartialEqSpecImpl for Value {
    open spec fn obeys_eq_spec() -> bool {
        true
    }

    open spec fn eq_spec(&self, other: &Self) -> bool {
        spec_val_eq(*self, *other)
    }
}

impl PartialOrd for Value {
    /// NULLs sort first, then the numeric classes in numeric order, then
    /// text, then blobs; NaN and internal cells compare with nothing.
    fn partial_cmp(&self, other: &Self) -> (r: Option<Ordering>) {
        self.compare(other)
    }
}

impl vstd::std_specs::cmp::PartialOrdSpecImpl for Value {
    open spec fn obeys_partial_cmp_spec() -> bool {
        true
    }

    open spec fn partial_cmp_spec(&self, other: &Self) -> Option<Ordering> {
        spec_val_cmp(*self, *other)
    }
}

/// Computes the minimal number of bytes that encode the pattern `u`.
pub fn varint_len_of(u: u64) -> (r: usize)
    ensures
        r as nat == spec_varint_len(u),
{
    if u < 0x80 {
        1
    } else if u < 0x4000 {
        2
    } else if u < 0x200000 {
        3
    } else if u < 0x10000000 {
        4
    } else if u < 0x8_0000_0000 {
        5
    } else if u < 0x400_0000_0000 {
        6
    } else if u < 0x2_0000_0000_0000 {
        7
    } else if u < 0x100_0000_0000_0000 {
        8
    } else {
        9
    }
}

/// The minimal encoding of a value, as a byte string.
pub open spec fn spec_varint_bytes(v: i64) -> Seq<u8> {
    let u = v as u64;
    let n = spec_varint_len(u);
    Seq::new(n, |j: int| spec_varint_byte(u, n, j as nat))
}

/// Wherever the minimal encoding of `v` stands at the head of a byte
/// string, decoding that string yields `v` and consumes the encoding.
pub proof fn lemma_varint_decode_prefix(s: Seq<u8>, v: i64)
    requires
        s.len() >= spec_varint_bytes(v).len(),
        forall|j: int| 0 <= j < spec_varint_bytes(v).len() ==> s[j] == spec_varint_bytes(v)[j],
    ensures
        spec_varint(s).0 == v,
        spec_varint(s).1 == spec_varint_bytes(v).len(),
{
    let u = v as u64;
    let n = spec_varint_len(u);
    lemma_varint_round_trip_bits(s, u, n);
    assert((u as i64) as u64 == u) by (bit_vector);
    assert((v as u64) as i64 == v) by (bit_vector);
}

/// Decoding the minimal encoding of the 64-bit pattern `u` yields `u` back
/// and consumes the whole encoding.
proof fn lemma_varint_round_trip_bits(s: Seq<u8>, u: u64, n: nat)
    requires
        n == spec_varint_len(u),
        s.len() >= n,
        forall|j: int| 0 <= j < n ==> s[j] == spec_varint_byte(u, n, j as nat),
    ensures
        spec_varint_from(s, 0, 0) == (u, n),
{
    if n <= 8 {
        let m: u64 = n as u64;
        let s7: u64 = (7 * n) as u64;
        assert(u >> s7 == 0) by (bit_vector)
            requires
                1 <= m <= 8,
                s7 == 7 * m,
                m == 1 ==> u < 0x80,
                m == 2 ==> u < 0x4000,
                m == 3 ==> u < 0x200000,
                m == 4 ==> u < 0x10000000,
                m == 5 ==> u < 0x8_0000_0000,
                m == 6 ==> u < 0x400_0000_0000,
                m == 7 ==> u < 0x2_0000_0000_0000,
                m == 8 ==> u < 0x100_0000_0000_0000,
        ;
        lemma_varint_decode_enc8(s, u, n, 0);
    } else {
        // the first byte carries bits 63..57; the accumulator starts at 0
        let acc1 = ((0u64 << 7) | ((s[0] & 0x7f) as u64)) as u64;
        assert(s[0] == (0x80 | ((u >> 57u64) & 0x7f)) as u8);
        assert({
            let b = (0x80 | ((u >> 57u64) & 0x7f)) as u8;
            b >= 0x80 && ((0u64 << 7) | ((b & 0x7f) as u64)) == u >> 57
        }) by (bit_vector);
        assert(spec_varint_from(s, 0, 0) == spec_varint_from(s, u >> 57u64, 1));
        lemma_varint_decode_enc9(s, u, 1);
    }
}

} // verus!
