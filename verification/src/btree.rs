//! The record codec, the four B-tree page variants, and the keyed-descent
//! navigator over them.
//!
//! A record is a length-prefixed header of serial-type varints followed by
//! the packed value bodies.  Records compare column by column with prefix
//! semantics: the left record's column count decides how many columns are
//! compared, so a short search key can match an index entry that trails a
//! row-id column.
use crate::datatypes::{
    lemma_val_ops_determined, lemma_value_decode_content, lemma_value_decode_unique,
    lemma_varint_decode_prefix, val_content_eq,
    spec_datatype_from, spec_datatype_size, spec_datatype_wf, spec_serial_code, spec_val_cmp,
    spec_val_eq, spec_value_body, spec_value_fits, spec_value_new_post, spec_varint,
    spec_varint_bytes, spec_varint_len, varint_len_of, DataType, Value, VarInt,
};
use crate::pager::{pager_same_file, pager_wf, spec_page_raw, Pager};
use crate::parsing::{append_bytes, be_u16, be_u32, lemma_u16b_be, lemma_u32b_be, push_u16, push_u32, spec_be_u16, spec_be_u32, spec_u16b, spec_u32b};
use crate::Error;
use core::cmp::Ordering;
use vstd::prelude::*;
use vstd::slice::{slice_subrange, slice_to_vec};

verus! {

/// A decoded record: the serial types of its columns and their values.
#[derive(Debug, Clone)]
pub struct Record {
    pub col_types: Vec<DataType>,
    pub values: Vec<Value>,
}

/// The serial types encoded in a record header region, read as a sequence
/// of varints that must exactly exhaust the region.
pub open spec fn spec_codes(h: Seq<u8>) -> Result<Seq<DataType>, Error>
    decreases h.len(),
{
    if h.len() == 0 {
        Ok(Seq::empty())
    } else {
        let (v, n) = spec_varint(h);
        if n < 1 || n > h.len() {
            Err(Error::MalformedPage)
        } else {
            match spec_datatype_from(v as int) {
                Err(e) => Err(e),
                Ok(dt) => match spec_codes(h.skip(n as int)) {
                    Err(e) => Err(e),
                    Ok(rest) => Ok(seq![dt] + rest),
                },
            }
        }
    }
}

/// The value bodies of a record, cut from the byte string after the header
/// by the widths of the serial types.
pub open spec fn spec_slices(ts: Seq<DataType>, body: Seq<u8>) -> Result<Seq<Seq<u8>>, Error>
    decreases ts.len(),
{
    if ts.len() == 0 {
        Ok(Seq::empty())
    } else {
        match spec_datatype_size(ts[0]) {
            None => Err(Error::InvalidSerialType),
            Some(w) => {
                if body.len() < w {
                    Err(Error::MalformedPage)
                } else {
                    match spec_slices(ts.skip(1), body.skip(w as int)) {
                        Err(e) => Err(e),
                        Ok(rest) => Ok(seq![body.take(w as int)] + rest),
                    }
                }
            },
        }
    }
}

/// The parse of a whole record: its header size varint, the serial types
/// filling the header, and the value bodies after it.
pub open spec fn spec_record_parse(s: Seq<u8>) -> Result<(Seq<DataType>, Seq<Seq<u8>>), Error> {
    if s.len() == 0 {
        Err(Error::MalformedPage)
    } else {
        let (hv, b) = spec_varint(s);
        if hv < b || hv > s.len() {
            Err(Error::MalformedPage)
        } else {
            match spec_codes(s.subrange(b as int, hv as int)) {
                Err(e) => Err(e),
                Ok(ts) => match spec_slices(ts, s.skip(hv as int)) {
                    Err(e) => Err(e),
                    Ok(sls) => Ok((ts, sls)),
                },
            }
        }
    }
}

/// Whether `rec` is what parsing `s` yields: the serial types of the
/// header, and one value decoded from each body slice.
pub open spec fn record_matches(rec: Record, s: Seq<u8>) -> bool {
    match spec_record_parse(s) {
        Err(_) => false,
        Ok((ts, sls)) => {
            &&& rec.col_types@ == ts
            &&& rec.values@.len() == sls.len()
            &&& forall|i: int|
                0 <= i < sls.len() ==> spec_value_new_post(ts[i], #[trigger] sls[i], rec.values@[i])
        },
    }
}

/// Everything whose size a successful parse fixes is wf: the serial types
/// a parse yields carry their canonical widths.
proof fn lemma_codes_wf(h: Seq<u8>, ts: Seq<DataType>)
    requires
        spec_codes(h) == Ok::<Seq<DataType>, Error>(ts),
    ensures
        forall|i: int|
            0 <= i < ts.len() ==> spec_datatype_wf(#[trigger] ts[i]) && !(ts[i] is Internal),
    decreases h.len(),
{
    if h.len() != 0 {
        let (v, n) = spec_varint(h);
        if n < 1 || n > h.len() {
            assert(false);
        } else {
            match spec_datatype_from(v as int) {
                Err(_) => {
                    assert(false);
                },
                Ok(dt) => {
                    match spec_codes(h.skip(n as int)) {
                        Err(_) => {
                            assert(false);
                        },
                        Ok(rest) => {
                            lemma_codes_wf(h.skip(n as int), rest);
                            assert(ts == seq![dt] + rest);
                            assert(spec_datatype_wf(dt) && !(dt is Internal));
                            assert forall|i: int|
                                0 <= i < ts.len() implies spec_datatype_wf(#[trigger] ts[i]) && !(
                            ts[i] is Internal) by {
                                if i == 0 {
                                    assert(ts[0] == dt);
                                } else {
                                    assert(ts[i] == rest[i - 1]);
                                    assert(spec_datatype_wf(rest[i - 1]));
                                }
                            }
                        },
                    }
                },
            }
        }
    }
}

impl Record {
    /// Builds a record from its columns.
    pub fn new(col_types: Vec<DataType>, values: Vec<Value>) -> (r: Self)
        ensures
            r.col_types == col_types,
            r.values == values,
    {
        Self { col_types, values }
    }

    /// Parses a record: the header-size varint, the serial-type varints
    /// that fill the header, then one value body per column.
    #[verifier::loop_isolation(false)]
    #[verifier::rlimit(60)]
    pub fn deserialize(i: &[u8]) -> (r: Result<Self, Error>)
        ensures
            r matches Ok(rec) ==> spec_record_parse(i@) is Ok && record_matches(rec, i@),
            r matches Err(e) ==> spec_record_parse(i@) == Err::<(Seq<DataType>, Seq<Seq<u8>>),
                Error,
            >(e),
    {
        if i.len() == 0 {
            return Err(Error::MalformedPage);
        }
        let (hv, b) = VarInt::parse(i);
        if hv.0 < (b as i64) || (hv.0 as u64) > (i.len() as u64) {
            return Err(Error::MalformedPage);
        }
        let hsize = hv.0 as usize;

        // the serial types, varints that must exactly fill the header
        let header = slice_subrange(i, b, hsize);
        let ghost hs = header@;
        let mut col_types: Vec<DataType> = Vec::new();
        let mut pos: usize = 0;
        proof {
            assert(hs.skip(0) =~= hs);
        }
        while pos < header.len()
            invariant
                pos <= hs.len(),
                hs == header@,
                header@.len() == hs.len(),
                spec_codes(hs) == (match spec_codes(hs.skip(pos as int)) {
                    Ok(rest) => Ok::<Seq<DataType>, Error>(col_types@ + rest),
                    Err(e) => Err::<Seq<DataType>, Error>(e),
                }),
            decreases hs.len() - pos,
        {
            let tail = slice_subrange(header, pos, header.len());
            let (cv, cb) = VarInt::parse(tail);
            proof {
                assert(tail@ =~= hs.skip(pos as int));
            }
            match DataType::from_varint(cv) {
                Err(e) => {
                    proof {
                        assert(spec_codes(hs.skip(pos as int)) == Err::<Seq<DataType>, Error>(e));
                        assert(spec_codes(hs) == Err::<Seq<DataType>, Error>(e));
                        assert(header@ == i@.subrange(b as int, hsize as int));
                        assert(i@.subrange(b as int, hsize as int) =~= hs);
                        assert(spec_record_parse(i@) == Err::<(Seq<DataType>, Seq<Seq<u8>>), Error>(
                            e,
                        ));
                    }
                    return Err(e);
                },
                Ok(dt) => {
                    proof {
                        assert(hs.skip(pos as int).skip(cb as int) =~= hs.skip(pos + cb));
                        assert(match spec_codes(hs.skip(pos + cb)) {
                            Ok(rest) => (col_types@ + (seq![dt] + rest)) =~= (col_types@.push(dt)
                                + rest),
                            Err(_) => true,
                        });
                    }
                    col_types.push(dt);
                    pos = pos + cb;
                },
            }
        }
        proof {
            assert(hs.skip(pos as int) =~= Seq::<u8>::empty());
            assert(col_types@ + Seq::<DataType>::empty() =~= col_types@);
            assert(spec_codes(hs) == Ok::<Seq<DataType>, Error>(col_types@));
            lemma_codes_wf(hs, col_types@);
            assert(i@.subrange(b as int, hsize as int) =~= hs);
            assert(i@.subrange(hsize as int, i@.len() as int) =~= i@.skip(hsize as int));
        }
        let ghost ts = col_types@;

        // the value bodies, one per column, cut by the widths of the types
        let body = slice_subrange(i, hsize, i.len());
        let ghost bs = body@;
        let mut values: Vec<Value> = Vec::new();
        let ghost mut gsl: Seq<Seq<u8>> = Seq::empty();
        let mut vpos: usize = 0;
        let mut idx: usize = 0;
        proof {
            assert(ts.skip(0) =~= ts);
            assert(bs.skip(0) =~= bs);
        }
        while idx < col_types.len()
            invariant
                idx <= ts.len(),
                vpos <= bs.len(),
                ts == col_types@,
                bs == body@,
                col_types@.len() == ts.len(),
                body@.len() == bs.len(),
                values@.len() == idx,
                gsl.len() == idx,
                spec_slices(ts, bs) == (match spec_slices(ts.skip(idx as int), bs.skip(
                    vpos as int,
                )) {
                    Ok(rest) => Ok::<Seq<Seq<u8>>, Error>(gsl + rest),
                    Err(e) => Err::<Seq<Seq<u8>>, Error>(e),
                }),
                forall|k: int|
                    0 <= k < idx ==> spec_value_new_post(ts[k], #[trigger] gsl[k], values@[k]),
            decreases ts.len() - idx,
        {
            proof {
                assert(ts.skip(idx as int)[0] == ts[idx as int]);
                assert(spec_datatype_wf(ts[idx as int]) && !(ts[idx as int] is Internal));
            }
            let w = match col_types[idx].get_size() {
                Some(w) => w,
                None => {
                    proof {
                        assert(false);
                    }
                    return Err(Error::InvalidSerialType);
                },
            };
            if body.len() - vpos < w {
                proof {
                    assert(spec_slices(ts.skip(idx as int), bs.skip(vpos as int)) == Err::<
                        Seq<Seq<u8>>,
                        Error,
                    >(Error::MalformedPage));
                    assert(spec_slices(ts, bs) == Err::<Seq<Seq<u8>>, Error>(Error::MalformedPage));
                    assert(spec_record_parse(i@) == Err::<(Seq<DataType>, Seq<Seq<u8>>), Error>(
                        Error::MalformedPage,
                    ));
                }
                return Err(Error::MalformedPage);
            }
            let piece = slice_subrange(body, vpos, vpos + w);
            proof {
                assert(piece@ =~= bs.skip(vpos as int).take(w as int));
                assert(bs.skip(vpos as int).skip(w as int) =~= bs.skip(vpos + w));
                assert(ts.skip(idx as int).skip(1) =~= ts.skip(idx + 1));
            }
            let val = Value::new(&col_types[idx], piece);
            proof {
                assert(match spec_slices(ts.skip(idx + 1), bs.skip(vpos + w)) {
                    Ok(rest) => (gsl + (seq![bs.skip(vpos as int).take(w as int)] + rest)) =~= (
                    gsl.push(piece@) + rest),
                    Err(_) => true,
                });
                gsl = gsl.push(piece@);
            }
            values.push(val);
            vpos = vpos + w;
            idx = idx + 1;
        }
        proof {
            assert(ts.skip(idx as int) =~= Seq::<DataType>::empty());
            assert(gsl + Seq::<Seq<u8>>::empty() =~= gsl);
        }
        Ok(Self { col_types, values })
    }
}

/// The concatenated serial-type varints of a record header.
pub open spec fn spec_codes_bytes(ts: Seq<DataType>) -> Seq<u8>
    decreases ts.len(),
{
    if ts.len() == 0 {
        Seq::empty()
    } else {
        spec_varint_bytes(spec_serial_code(ts[0]) as i64) + spec_codes_bytes(ts.skip(1))
    }
}

/// The concatenated value bodies of a record.
pub open spec fn spec_values_bytes(vs: Seq<Value>) -> Seq<u8>
    decreases vs.len(),
{
    if vs.len() == 0 {
        Seq::empty()
    } else {
        spec_value_body(vs[0]) + spec_values_bytes(vs.skip(1))
    }
}

/// The number of bytes of the header-size varint: the least count that
/// still encodes a header size covering the varint itself.
pub open spec fn spec_hfix(l: nat, b: nat) -> nat
    decreases 9 - b,
{
    if b >= 9 {
        9
    } else if spec_varint_len((l + b) as u64) == b {
        b
    } else {
        spec_hfix(l, b + 1)
    }
}

/// As `spec_hfix`, searched from one byte up.
pub open spec fn spec_header_varint_len(l: nat) -> nat {
    spec_hfix(l, 1)
}

/// The serialization of a record: a varint holding the total header size
/// (its own bytes included), the serial-type varints, the value bodies.
pub open spec fn spec_record_ser(rec: Record) -> Seq<u8> {
    let cbs = spec_codes_bytes(rec.col_types@);
    let hb = spec_header_varint_len(cbs.len());
    spec_varint_bytes((cbs.len() + hb) as i64) + cbs + spec_values_bytes(rec.values@)
}

/// Whether a record can be serialized: no reserved internal column, and
/// header bytes that stay within the sizes every machine here can address.
pub open spec fn record_serializable(rec: Record) -> bool {
    &&& forall|i: int|
        0 <= i < rec.col_types@.len() ==> !((#[trigger] rec.col_types@[i]) is Internal) && 0
            <= spec_serial_code(rec.col_types@[i]) <= 0x7fff_ffff
    &&& spec_codes_bytes(rec.col_types@).len() + 9 <= 0x7fff_ffff
}

/// A record whose columns declare exactly what its values are: canonical
/// widths, matching storage classes, and values within those widths.
pub open spec fn record_wf(rec: Record) -> bool {
    &&& record_serializable(rec)
    &&& rec.col_types@.len() == rec.values@.len()
    &&& forall|i: int|
        0 <= i < rec.col_types@.len() ==> spec_datatype_wf(#[trigger] rec.col_types@[i])
            && spec_value_fits(rec.col_types@[i], rec.values@[i])
}

/// As `record_wf`, with every column of a fixed-size storage class.
pub open spec fn record_fixed_wf(rec: Record) -> bool {
    &&& record_wf(rec)
    &&& forall|i: int|
        0 <= i < rec.col_types@.len() ==> !((#[trigger] rec.col_types@[i]) is Blob)
            && !(rec.col_types@[i] is String)
}

impl Record {
    /// Serializes the record: re-encodes the column-type varints into a
    /// header, prepends a varint whose value is the total header size
    /// including itself, and appends the packed value bodies.
    #[verifier::loop_isolation(false)]
    pub fn serialize(&self) -> (r: Vec<u8>)
        requires
            record_serializable(*self),
        ensures
            r@ == spec_record_ser(*self),
    {
        let ghost ts = self.col_types@;
        let mut codes: Vec<u8> = Vec::new();
        let mut idx: usize = 0;
        proof {
            assert(ts.skip(0) =~= ts);
            assert(codes@ + spec_codes_bytes(ts) =~= spec_codes_bytes(ts));
        }
        while idx < self.col_types.len()
            invariant
                idx <= ts.len(),
                spec_codes_bytes(ts) == codes@ + spec_codes_bytes(ts.skip(idx as int)),
            decreases ts.len() - idx,
        {
            proof {
                assert(ts.skip(idx as int)[0] == ts[idx as int]);
                assert(ts.skip(idx as int).skip(1) =~= ts.skip(idx + 1));
            }
            let vb = self.col_types[idx].to_varint().serialize();
            proof {
                assert((codes@ + vb@) + spec_codes_bytes(ts.skip(idx + 1)) =~= codes@ + (vb@
                    + spec_codes_bytes(ts.skip(idx + 1))));
            }
            append_bytes(&mut codes, vb.as_slice());
            idx = idx + 1;
        }
        proof {
            assert(ts.skip(idx as int) =~= Seq::<DataType>::empty());
            assert(codes@ + Seq::<u8>::empty() =~= codes@);
            assert(codes@ == spec_codes_bytes(ts));
        }
        let clen = codes.len();

        // the least varint length that also covers its own bytes
        let mut hb: usize = 1;
        while hb < 9 && varint_len_of((clen as u64) + (hb as u64)) != hb
            invariant
                1 <= hb <= 9,
                spec_hfix(clen as nat, 1) == spec_hfix(clen as nat, hb as nat),
            decreases 9 - hb,
        {
            hb = hb + 1;
        }
        proof {
            assert(spec_header_varint_len(clen as nat) == hb);
        }

        let hv = VarInt::new((clen + hb) as i64);
        let mut out = hv.serialize();
        proof {
            assert(out@ + codes@ =~= spec_varint_bytes((clen + hb) as i64) + spec_codes_bytes(ts));
        }
        append_bytes(&mut out, codes.as_slice());

        let ghost vs = self.values@;
        let ghost base = spec_varint_bytes((clen + hb) as i64) + spec_codes_bytes(ts);
        let ghost mut built: Seq<u8> = Seq::empty();
        let mut vix: usize = 0;
        proof {
            assert(vs.skip(0) =~= vs);
            assert(out@ =~= base + built);
            assert(built + spec_values_bytes(vs) =~= spec_values_bytes(vs));
        }
        while vix < self.values.len()
            invariant
                vix <= vs.len(),
                out@ == base + built,
                spec_values_bytes(vs) == built + spec_values_bytes(vs.skip(vix as int)),
            decreases vs.len() - vix,
        {
            proof {
                assert(vs.skip(vix as int)[0] == vs[vix as int]);
                assert(vs.skip(vix as int).skip(1) =~= vs.skip(vix + 1));
            }
            let vb = self.values[vix].serialize();
            proof {
                assert((base + built) + vb@ =~= base + (built + vb@));
                assert((built + vb@) + spec_values_bytes(vs.skip(vix + 1)) =~= built + (vb@
                    + spec_values_bytes(vs.skip(vix + 1))));
            }
            append_bytes(&mut out, vb.as_slice());
            proof {
                built = built + vb@;
            }
            vix = vix + 1;
        }
        proof {
            assert(vs.skip(vix as int) =~= Seq::<Value>::empty());
            assert(built + Seq::<u8>::empty() =~= built);
            assert(out@ =~= spec_record_ser(*self));
        }
        out
    }
}

/// A wf non-internal serial type is denoted by its own code.
proof fn lemma_from_of_code(dt: DataType)
    requires
        spec_datatype_wf(dt),
        !(dt is Internal),
        spec_serial_code(dt) <= 0x7fff_ffff,
    ensures
        spec_datatype_from(spec_serial_code(dt)) == Ok::<DataType, Error>(dt),
{
}

/// The serial-type varints of wf columns parse back to those columns.
proof fn lemma_codes_bytes_parse(ts: Seq<DataType>)
    requires
        forall|i: int|
            0 <= i < ts.len() ==> spec_datatype_wf(#[trigger] ts[i]) && !(ts[i] is Internal) && 0
                <= spec_serial_code(ts[i]) <= 0x7fff_ffff,
    ensures
        spec_codes(spec_codes_bytes(ts)) == Ok::<Seq<DataType>, Error>(ts),
    decreases ts.len(),
{
    if ts.len() == 0 {
        assert(spec_codes_bytes(ts) =~= Seq::<u8>::empty());
        assert(Ok::<Seq<DataType>, Error>(Seq::empty()) == Ok::<Seq<DataType>, Error>(ts)) by {
            assert(ts =~= Seq::<DataType>::empty());
        }
    } else {
        let code = spec_serial_code(ts[0]) as i64;
        let cb = spec_varint_bytes(code);
        let h = spec_codes_bytes(ts);
        assert(h == cb + spec_codes_bytes(ts.skip(1)));
        lemma_varint_decode_prefix(h, code);
        let n0 = spec_varint(h).1;
        assert(n0 == cb.len());
        assert(spec_varint(h).0 == code);
        assert(code == spec_serial_code(ts[0]));
        lemma_from_of_code(ts[0]);
        assert(h.skip(n0 as int) =~= spec_codes_bytes(ts.skip(1)));
        lemma_codes_bytes_parse(ts.skip(1));
        assert(seq![ts[0]] + ts.skip(1) =~= ts);
    }
}

/// The packed value bodies of fitting values cut back into exactly those
/// bodies.
proof fn lemma_values_bytes_slices(ts: Seq<DataType>, vs: Seq<Value>)
    requires
        ts.len() == vs.len(),
        forall|i: int|
            0 <= i < ts.len() ==> spec_datatype_wf(#[trigger] ts[i]) && spec_value_fits(
                ts[i],
                vs[i],
            ),
    ensures
        spec_slices(ts, spec_values_bytes(vs)) == Ok::<Seq<Seq<u8>>, Error>(
            Seq::new(vs.len(), |i: int| spec_value_body(vs[i])),
        ),
    decreases ts.len(),
{
    if ts.len() == 0 {
        assert(spec_values_bytes(vs) =~= Seq::<u8>::empty());
        assert(Seq::new(vs.len(), |i: int| spec_value_body(vs[i])) =~= Seq::<Seq<u8>>::empty());
    } else {
        let body = spec_values_bytes(vs);
        let b0 = spec_value_body(vs[0]);
        assert(body == b0 + spec_values_bytes(vs.skip(1)));
        match spec_datatype_size(ts[0]) {
            None => {
                assert(false);
            },
            Some(w) => {
                assert(b0.len() == w);
                assert(body.len() >= w);
                assert(body.take(w as int) =~= b0);
                assert(body.skip(w as int) =~= spec_values_bytes(vs.skip(1)));
                lemma_values_bytes_slices(ts.skip(1), vs.skip(1));
                assert(seq![b0] + Seq::new(
                    vs.skip(1).len(),
                    |i: int| spec_value_body(vs.skip(1)[i]),
                ) =~= Seq::new(vs.len(), |i: int| spec_value_body(vs[i])));
            },
        }
    }
}

/// The monotone search for the header varint length lands on a length
/// whose varint really has that length.
proof fn lemma_hfix_correct(l: nat, b: nat)
    requires
        1 <= b <= 9,
        l + 9 <= 0x7fff_ffff,
        spec_varint_len((l + b) as u64) >= b,
    ensures
        spec_hfix(l, b) <= 9,
        spec_varint_len((l + spec_hfix(l, b)) as u64) == spec_hfix(l, b),
        spec_hfix(l, b) >= b,
    decreases 9 - b,
{
    if b == 9 {
    } else if spec_varint_len((l + b) as u64) == b {
    } else {
        assert(spec_varint_len((l + b + 1) as u64) >= spec_varint_len((l + b) as u64));
        lemma_hfix_correct(l, b + 1);
    }
}

/// Record round-trip: a record with only fixed-size columns, well formed,
/// parses back from its own serialization to exactly its columns and
/// values.
pub proof fn lemma_record_round_trip(rec: Record, rec2: Record)
    requires
        record_fixed_wf(rec),
        record_matches(rec2, spec_record_ser(rec)),
    ensures
        rec2.col_types@ == rec.col_types@,
        rec2.values@ == rec.values@,
{
    let ts = rec.col_types@;
    let vs = rec.values@;
    let cbs = spec_codes_bytes(ts);
    let l = cbs.len();
    let hb = spec_header_varint_len(l);
    let vbs = spec_values_bytes(vs);
    let s = spec_record_ser(rec);
    assert(spec_varint_len((l + 1) as u64) >= 1);
    lemma_hfix_correct(l, 1);
    let hcode = (l + hb) as i64;
    let hvb = spec_varint_bytes(hcode);
    assert(hvb.len() == spec_varint_len(hcode as u64));
    assert((hcode as u64) == hcode) by (bit_vector)
        requires
            hcode >= 0,
    ;
    assert(hvb.len() == hb);
    assert(s == hvb + cbs + vbs);
    lemma_varint_decode_prefix(s, hcode);
    assert(spec_varint(s).0 == hcode && spec_varint(s).1 == hb);
    assert(s.len() == hb + l + vbs.len());
    assert(s.subrange(hb as int, (hb + l) as int) =~= cbs);
    assert(s.skip((hb + l) as int) =~= vbs);
    lemma_codes_bytes_parse(ts);
    lemma_values_bytes_slices(ts, vs);
    let bodies = Seq::new(vs.len(), |i: int| spec_value_body(vs[i]));
    assert(spec_record_parse(s) == Ok::<(Seq<DataType>, Seq<Seq<u8>>), Error>((ts, bodies)));
    assert(rec2.col_types@ == ts);
    assert(rec2.values@.len() == vs.len());
    assert forall|i: int| 0 <= i < vs.len() implies rec2.values@[i] == vs[i] by {
        assert(spec_value_new_post(ts[i], bodies[i], rec2.values@[i]));
        assert(bodies[i] == spec_value_body(vs[i]));
        lemma_value_decode_unique(ts[i], vs[i], rec2.values@[i]);
    }
    assert(rec2.values@ =~= vs);
}

/// Record round-trip for any well-formed record, text and blob columns
/// included: the record parses back from its own serialization to equal
/// columns and to values of the same classes and contents (text by its
/// characters, blobs by their bytes, every fixed class by its value).
pub proof fn lemma_record_round_trip_content(rec: Record, rec2: Record)
    requires
        record_wf(rec),
        record_matches(rec2, spec_record_ser(rec)),
    ensures
        rec2.col_types@ == rec.col_types@,
        rec2.values@.len() == rec.values@.len(),
        forall|i: int|
            0 <= i < rec.values@.len() ==> val_content_eq(
                #[trigger] rec2.values@[i],
                rec.values@[i],
            ),
{
    let ts = rec.col_types@;
    let vs = rec.values@;
    let cbs = spec_codes_bytes(ts);
    let l = cbs.len();
    let hb = spec_header_varint_len(l);
    let vbs = spec_values_bytes(vs);
    let s = spec_record_ser(rec);
    assert(spec_varint_len((l + 1) as u64) >= 1);
    lemma_hfix_correct(l, 1);
    let hcode = (l + hb) as i64;
    let hvb = spec_varint_bytes(hcode);
    assert(hvb.len() == spec_varint_len(hcode as u64));
    assert((hcode as u64) == hcode) by (bit_vector)
        requires
            hcode >= 0,
    ;
    assert(hvb.len() == hb);
    assert(s == hvb + cbs + vbs);
    lemma_varint_decode_prefix(s, hcode);
    assert(spec_varint(s).0 == hcode && spec_varint(s).1 == hb);
    assert(s.len() == hb + l + vbs.len());
    assert(s.subrange(hb as int, (hb + l) as int) =~= cbs);
    assert(s.skip((hb + l) as int) =~= vbs);
    lemma_codes_bytes_parse(ts);
    lemma_values_bytes_slices(ts, vs);
    let bodies = Seq::new(vs.len(), |i: int| spec_value_body(vs[i]));
    assert(spec_record_parse(s) == Ok::<(Seq<DataType>, Seq<Seq<u8>>), Error>((ts, bodies)));
    assert(rec2.col_types@ == ts);
    assert(rec2.values@.len() == vs.len());
    assert forall|i: int| 0 <= i < vs.len() implies val_content_eq(
        #[trigger] rec2.values@[i],
        vs[i],
    ) by {
        assert(spec_value_new_post(ts[i], bodies[i], rec2.values@[i]));
        assert(bodies[i] == spec_value_body(vs[i]));
        lemma_value_decode_content(ts[i], vs[i], rec2.values@[i]);
    }
}

/// Prefix-asymmetric record equality: the left record's column count
/// decides how many columns are compared; a right record that runs out
/// first differs, a left record that runs out first matches.
pub open spec fn spec_record_eq(a: Seq<Value>, b: Seq<Value>) -> bool
    decreases a.len(),
{
    if a.len() == 0 {
        true
    } else if b.len() == 0 {
        false
    } else {
        spec_val_eq(a[0], b[0]) && spec_record_eq(a.skip(1), b.skip(1))
    }
}

/// Prefix-asymmetric record order: the order of the first differing
/// column; a right record that runs out first is smaller; equality of all
/// compared columns is `Equal`.
pub open spec fn spec_record_cmp(a: Seq<Value>, b: Seq<Value>) -> Option<Ordering>
    decreases a.len(),
{
    if a.len() == 0 {
        Some(Ordering::Equal)
    } else if b.len() == 0 {
        Some(Ordering::Greater)
    } else if !spec_val_eq(a[0], b[0]) {
        spec_val_cmp(a[0], b[0])
    } else {
        spec_record_cmp(a.skip(1), b.skip(1))
    }
}

impl Record {
    /// Tests this record's columns against a prefix of `other`: every
    /// column of `self` must equal the column of `other` at its index.
    pub fn eq_prefix(&self, other: &Record) -> (r: bool)
        ensures
            r == spec_record_eq(self.values@, other.values@),
    {
        let ghost av = self.values@;
        let ghost bv = other.values@;
        let mut i: usize = 0;
        proof {
            assert(av.skip(0) =~= av);
            assert(bv.skip(0) =~= bv);
        }
        while i < self.values.len()
            invariant
                i <= av.len(),
                av == self.values@,
                bv == other.values@,
                i <= bv.len(),
                spec_record_eq(av, bv) == spec_record_eq(av.skip(i as int), bv.skip(i as int)),
            decreases av.len() - i,
        {
            if i >= other.values.len() {
                proof {
                    assert(bv.skip(i as int) =~= Seq::<Value>::empty());
                }
                return false;
            }
            proof {
                assert(av.skip(i as int)[0] == av[i as int]);
                assert(bv.skip(i as int)[0] == bv[i as int]);
                assert(av.skip(i as int).skip(1) =~= av.skip(i as int + 1));
                assert(bv.skip(i as int).skip(1) =~= bv.skip(i as int + 1));
            }
            if !self.values[i].equals(&other.values[i]) {
                return false;
            }
            i = i + 1;
        }
        true
    }

    /// Orders this record against `other` over the first `len(self)`
    /// columns: the order of the first differing column, `Greater` when
    /// `other` runs out first, `Equal` when every compared column matches.
    pub fn cmp_prefix(&self, other: &Record) -> (r: Option<Ordering>)
        ensures
            r == spec_record_cmp(self.values@, other.values@),
    {
        let ghost av = self.values@;
        let ghost bv = other.values@;
        let mut i: usize = 0;
        proof {
            assert(av.skip(0) =~= av);
            assert(bv.skip(0) =~= bv);
        }
        while i < self.values.len()
            invariant
                i <= av.len(),
                av == self.values@,
                bv == other.values@,
                i <= bv.len(),
                spec_record_cmp(av, bv) == spec_record_cmp(av.skip(i as int), bv.skip(i as int)),
            decreases av.len() - i,
        {
            if i >= other.values.len() {
                proof {
                    assert(bv.skip(i as int) =~= Seq::<Value>::empty());
                }
                return Some(Ordering::Greater);
            }
            proof {
                assert(av.skip(i as int)[0] == av[i as int]);
                assert(bv.skip(i as int)[0] == bv[i as int]);
                assert(av.skip(i as int).skip(1) =~= av.skip(i as int + 1));
                assert(bv.skip(i as int).skip(1) =~= bv.skip(i as int + 1));
            }
            if !self.values[i].equals(&other.values[i]) {
                return self.values[i].compare(&other.values[i]);
            }
            i = i + 1;
        }
        Some(Ordering::Equal)
    }
}

impl PartialEq for Record {
    /// Tests two records for equality.  Comparing records of different
    /// lengths is deliberately not symmetric: the left record's column
    /// count decides how many columns are compared, so a short search key
    /// on the left matches an index entry that trails a row-id column.
    fn eq(&self, other: &Self) -> (r: bool) {
        self.eq_prefix(other)
    }
}

impl vstd::std_specs::cmp::PartialEqSpecImpl for Record {
    open spec fn obeys_eq_spec() -> bool {
        true
    }

    open spec fn eq_spec(&self, other: &Self) -> bool {
        spec_record_eq(self.values@, other.values@)
    }
}

impl PartialOrd for Record {
    /// Orders two records with the same prefix asymmetry as equality.
    fn partial_cmp(&self, other: &Self) -> (r: Option<Ordering>) {
        self.cmp_prefix(other)
    }
}

impl vstd::std_specs::cmp::PartialOrdSpecImpl for Record {
    open spec fn obeys_partial_cmp_spec() -> bool {
        true
    }

    open spec fn partial_cmp_spec(&self, other: &Self) -> Option<Ordering> {
        spec_record_cmp(self.values@, other.values@)
    }
}

/// The kind of a B-tree page, as its type byte classifies it.
#[derive(Debug, Clone, Copy, PartialEq, Eq, Structural)]
pub enum PageType {
    IndexInterior,
    TableInterior,
    IndexLeaf,
    TableLeaf,
}

/// The on-disk type byte of each page kind.
pub open spec fn spec_page_type_code(t: PageType) -> u8 {
    match t {
        PageType::IndexInterior => 0x02,
        PageType::TableInterior => 0x05,
        PageType::IndexLeaf => 0x0a,
        PageType::TableLeaf => 0x0d,
    }
}

/// The page kind a type byte denotes; any other byte is malformed.
pub open spec fn spec_page_type_from(b: u8) -> Result<PageType, Error> {
    if b == 0x02 {
        Ok(PageType::IndexInterior)
    } else if b == 0x05 {
        Ok(PageType::TableInterior)
    } else if b == 0x0a {
        Ok(PageType::IndexLeaf)
    } else if b == 0x0d {
        Ok(PageType::TableLeaf)
    } else {
        Err(Error::MalformedPage)
    }
}

/// Whether the page kind is an interior one (it carries child pointers).
pub open spec fn spec_pt_interior(t: PageType) -> bool {
    t == PageType::IndexInterior || t == PageType::TableInterior
}

impl PageType {
    /// Classifies a page-type byte; fails with `MalformedPage` on any byte
    /// that denotes no B-tree page kind.
    pub fn from_byte(b: u8) -> (r: Result<Self, Error>)
        ensures
            r == spec_page_type_from(b),
    {
        if b == 0x02 {
            Ok(Self::IndexInterior)
        } else if b == 0x05 {
            Ok(Self::TableInterior)
        } else if b == 0x0a {
            Ok(Self::IndexLeaf)
        } else if b == 0x0d {
            Ok(Self::TableLeaf)
        } else {
            Err(Error::MalformedPage)
        }
    }

    /// The type byte of this page kind.
    pub fn as_byte(&self) -> (r: u8)
        ensures
            r == spec_page_type_code(*self),
    {
        match self {
            Self::IndexInterior => 0x02,
            Self::TableInterior => 0x05,
            Self::IndexLeaf => 0x0a,
            Self::TableLeaf => 0x0d,
        }
    }

    /// Whether the kind is one of the two interior kinds.
    pub fn is_interior(&self) -> (r: bool)
        ensures
            r == spec_pt_interior(*self),
    {
        match self {
            Self::IndexInterior => true,
            Self::TableInterior => true,
            _ => false,
        }
    }

    /// Whether the kind is one of the two leaf kinds.
    pub fn is_leaf(&self) -> (r: bool)
        ensures
            r == !spec_pt_interior(*self),
    {
        match self {
            Self::IndexLeaf => true,
            Self::TableLeaf => true,
            _ => false,
        }
    }
}

/// The concatenated big-endian bytes of a cell-pointer array.
pub open spec fn spec_ptrs_bytes(ps: Seq<u16>) -> Seq<u8>
    decreases ps.len(),
{
    if ps.len() == 0 {
        Seq::empty()
    } else {
        spec_u16b(ps[0]) + spec_ptrs_bytes(ps.skip(1))
    }
}

proof fn lemma_ptrs_bytes_index(ps: Seq<u16>)
    ensures
        spec_ptrs_bytes(ps).len() == 2 * ps.len(),
        forall|i: int|
            0 <= i < ps.len() ==> spec_ptrs_bytes(ps)[2 * i] == (#[trigger] ps[i] / 0x100) as u8
                && spec_ptrs_bytes(ps)[2 * i + 1] == (ps[i] % 0x100) as u8,
    decreases ps.len(),
{
    if ps.len() != 0 {
        lemma_ptrs_bytes_index(ps.skip(1));
        assert forall|i: int|
            0 <= i < ps.len() implies spec_ptrs_bytes(ps)[2 * i] == (#[trigger] ps[i]
            / 0x100) as u8 && spec_ptrs_bytes(ps)[2 * i + 1] == (ps[i] % 0x100) as u8 by {
            if i > 0 {
                assert(ps.skip(1)[i - 1] == ps[i]);
                assert(spec_ptrs_bytes(ps)[2 * i] == spec_ptrs_bytes(ps.skip(1))[2 * (i - 1)]);
                assert(spec_ptrs_bytes(ps)[2 * i + 1] == spec_ptrs_bytes(ps.skip(1))[2 * (i - 1)
                    + 1]);
            }
        }
    }
}

/// The spec-level model of a parsed page header.
pub struct HeaderView {
    pub page_type: PageType,
    pub offset: nat,
    pub first_freeblock: u16,
    pub num_cells: u16,
    pub cell_start: u16,
    pub fragmented_bytes: u8,
    pub right_pointer: Option<u32>,
    pub cell_pointers: Seq<u16>,
}

/// The number of bytes the header occupies: 8 or 12 fixed bytes, then the
/// cell-pointer array.
pub open spec fn spec_header_len(h: HeaderView) -> nat {
    (if spec_pt_interior(h.page_type) {
        12nat
    } else {
        8nat
    }) + 2 * h.cell_pointers.len()
}

/// The parse of a page header from the byte string that starts at it.
/// `offset` is only recorded: where the header stands inside its page.
pub open spec fn spec_parse_header(s: Seq<u8>, offset: nat) -> Result<HeaderView, Error> {
    if s.len() < 8 {
        Err(Error::MalformedPage)
    } else {
        match spec_page_type_from(s[0]) {
            Err(e) => Err(e),
            Ok(t) => {
                let hdr_len: nat = if spec_pt_interior(t) {
                    12
                } else {
                    8
                };
                let num_cells = spec_be_u16(s.subrange(3, 5));
                if s.len() < hdr_len + 2 * num_cells {
                    Err(Error::MalformedPage)
                } else {
                    Ok(
                        HeaderView {
                            page_type: t,
                            offset: offset,
                            first_freeblock: spec_be_u16(s.subrange(1, 3)),
                            num_cells: num_cells,
                            cell_start: spec_be_u16(s.subrange(5, 7)),
                            fragmented_bytes: s[7],
                            right_pointer: if spec_pt_interior(t) {
                                Some(spec_be_u32(s.subrange(8, 12)))
                            } else {
                                None
                            },
                            cell_pointers: Seq::new(
                                num_cells as nat,
                                |i: int|
                                    spec_be_u16(
                                        s.subrange(hdr_len + 2 * i, hdr_len + 2 * i + 2),
                                    ),
                            ),
                        },
                    )
                }
            },
        }
    }
}

/// The serialization of a page header.
pub open spec fn spec_ser_header(h: HeaderView) -> Seq<u8> {
    seq![spec_page_type_code(h.page_type)] + spec_u16b(h.first_freeblock) + spec_u16b(h.num_cells)
        + spec_u16b(h.cell_start) + seq![h.fragmented_bytes] + (match h.right_pointer {
        Some(p) => spec_u32b(p),
        None => Seq::empty(),
    }) + spec_ptrs_bytes(h.cell_pointers)
}

/// The 8- or 12-byte page header and the cell-pointer array after it.
#[derive(Debug, Clone)]
pub struct PageHeader {
    pub page_type: PageType,
    pub offset: usize,
    pub first_freeblock: u16,
    pub num_cells: u16,
    pub cell_start: u16,
    pub fragmented_bytes: u8,
    pub right_pointer: Option<u32>,
    pub cell_pointers: Vec<u16>,
}

/// The model of a parsed page header value.
pub open spec fn header_view(h: PageHeader) -> HeaderView {
    HeaderView {
        page_type: h.page_type,
        offset: h.offset as nat,
        first_freeblock: h.first_freeblock,
        num_cells: h.num_cells,
        cell_start: h.cell_start,
        fragmented_bytes: h.fragmented_bytes,
        right_pointer: h.right_pointer,
        cell_pointers: h.cell_pointers@,
    }
}

/// A header consistent with itself: as many cell pointers as the count
/// field says, and a right pointer exactly on the interior kinds.
pub open spec fn header_wf(h: HeaderView) -> bool {
    &&& h.cell_pointers.len() == h.num_cells
    &&& h.right_pointer is Some <==> spec_pt_interior(h.page_type)
}

impl PageHeader {
    /// An empty header for a fresh page of the given kind: no cells, cell
    /// content starting at the end of the usable area.
    pub fn new(page_type: PageType, page_size: usize, reserved_space: u8) -> (r: Self)
        requires
            reserved_space <= page_size,
        ensures
            r.page_type == page_type,
            r.offset == 0,
            r.first_freeblock == 0,
            r.num_cells == 0,
            r.cell_start == (if page_size - reserved_space > u16::MAX {
                0
            } else {
                (page_size - reserved_space) as u16
            }),
            r.fragmented_bytes == 0,
            r.right_pointer is None,
            r.cell_pointers@ == Seq::<u16>::empty(),
    {
        let cell_start: u16 = if page_size - (reserved_space as usize) > (u16::MAX as usize) {
            0
        } else {
            (page_size - (reserved_space as usize)) as u16
        };
        Self {
            page_type,
            offset: 0,
            first_freeblock: 0,
            num_cells: 0,
            cell_start,
            fragmented_bytes: 0,
            right_pointer: None,
            cell_pointers: Vec::new(),
        }
    }

    /// Parses a page header from the bytes that start at it; `offset` is
    /// recorded as the header's position inside its page.
    #[verifier::loop_isolation(false)]
    pub fn deserialize(i: &[u8], offset: usize) -> (r: Result<Self, Error>)
        ensures
            r matches Ok(h) ==> spec_parse_header(i@, offset as nat) == Ok::<HeaderView, Error>(
                header_view(h),
            ) && header_wf(header_view(h)),
            r matches Err(e) ==> spec_parse_header(i@, offset as nat) == Err::<HeaderView, Error>(
                e,
            ),
    {
        if i.len() < 8 {
            return Err(Error::MalformedPage);
        }
        let page_type = match PageType::from_byte(i[0]) {
            Ok(t) => t,
            Err(e) => {
                return Err(e);
            },
        };
        let hdr_len: usize = if page_type.is_interior() {
            12
        } else {
            8
        };
        let first_freeblock = match be_u16(slice_subrange(i, 1, 3)) {
            Ok(v) => v,
            Err(e) => {
                return Err(e);
            },
        };
        let num_cells = match be_u16(slice_subrange(i, 3, 5)) {
            Ok(v) => v,
            Err(e) => {
                return Err(e);
            },
        };
        let cell_start = match be_u16(slice_subrange(i, 5, 7)) {
            Ok(v) => v,
            Err(e) => {
                return Err(e);
            },
        };
        let fragmented_bytes = i[7];
        if i.len() < hdr_len + 2 * (num_cells as usize) {
            return Err(Error::MalformedPage);
        }
        let right_pointer: Option<u32> = if page_type.is_interior() {
            match be_u32(slice_subrange(i, 8, 12)) {
                Ok(v) => Some(v),
                Err(e) => {
                    return Err(e);
                },
            }
        } else {
            None
        };
        let mut cell_pointers: Vec<u16> = Vec::new();
        let mut k: usize = 0;
        while k < num_cells as usize
            invariant
                k <= num_cells,
                cell_pointers@.len() == k,
                forall|j: int|
                    0 <= j < k ==> cell_pointers@[j] == spec_be_u16(
                        i@.subrange(hdr_len + 2 * j, hdr_len + 2 * j + 2),
                    ),
            decreases num_cells - k,
        {
            let p = match be_u16(slice_subrange(i, hdr_len + 2 * k, hdr_len + 2 * k + 2)) {
                Ok(v) => v,
                Err(e) => {
                    proof {
                        assert(false);
                    }
                    return Err(e);
                },
            };
            cell_pointers.push(p);
            k = k + 1;
        }
        let r = Self {
            page_type,
            offset,
            first_freeblock,
            num_cells,
            cell_start,
            fragmented_bytes,
            right_pointer,
            cell_pointers,
        };
        proof {
            let hv = header_view(r);
            match spec_parse_header(i@, offset as nat) {
                Err(_) => {
                    assert(false);
                },
                Ok(h2) => {
                    assert(h2.cell_pointers =~= hv.cell_pointers);
                    assert(h2 == hv);
                },
            }
        }
        Ok(r)
    }

    /// Serializes the header: the type byte, the fixed fields, the right
    /// pointer on interior kinds, then the cell-pointer array.
    #[verifier::loop_isolation(false)]
    pub fn serialize(&self) -> (r: Vec<u8>)
        ensures
            r@ == spec_ser_header(header_view(*self)),
            r@.len() == (if self.right_pointer is Some {
                12
            } else {
                8int
            }) + 2 * self.cell_pointers@.len(),
    {
        let mut out: Vec<u8> = Vec::new();
        out.push(self.page_type.as_byte());
        push_u16(&mut out, self.first_freeblock);
        push_u16(&mut out, self.num_cells);
        push_u16(&mut out, self.cell_start);
        out.push(self.fragmented_bytes);
        match self.right_pointer {
            Some(p) => push_u32(&mut out, p),
            None => {},
        }
        let ghost base = out@;
        proof {
            lemma_ptrs_bytes_index(self.cell_pointers@);
            assert(base + spec_ptrs_bytes(self.cell_pointers@).take(0) =~= base);
        }
        let mut k: usize = 0;
        while k < self.cell_pointers.len()
            invariant
                k <= self.cell_pointers@.len(),
                out@ == base + spec_ptrs_bytes(self.cell_pointers@).take(2 * k),
            decreases self.cell_pointers@.len() - k,
        {
            let ghost pbs = spec_ptrs_bytes(self.cell_pointers@);
            proof {
                assert(pbs.take(2 * k).push(pbs[2 * k]).push(pbs[2 * k + 1]) =~= pbs.take(
                    2 * (k + 1),
                ));
                assert((base + pbs.take(2 * k)).push(pbs[2 * k]).push(pbs[2 * k + 1]) =~= base
                    + pbs.take(2 * (k + 1)));
            }
            push_u16(&mut out, self.cell_pointers[k]);
            proof {
                assert(out@ =~= base + pbs.take(2 * (k + 1)));
            }
            k = k + 1;
        }
        proof {
            let pbs = spec_ptrs_bytes(self.cell_pointers@);
            assert(pbs.take(2 * self.cell_pointers@.len() as int) =~= pbs);
            assert(out@ =~= spec_ser_header(header_view(*self)));
        }
        out
    }
}

/// Serializing a parsed header reproduces exactly the bytes it came from.
pub proof fn lemma_header_round_trip(s: Seq<u8>, offset: nat)
    ensures
        spec_parse_header(s, offset) matches Ok(h) ==> spec_ser_header(h) == s.subrange(
            0,
            spec_header_len(h) as int,
        ),
{
    match spec_parse_header(s, offset) {
        Err(_) => {},
        Ok(h) => {
            let hdr_len: int = if spec_pt_interior(h.page_type) {
                12
            } else {
                8
            };
            let nc = h.num_cells as int;
            let ser = spec_ser_header(h);
            lemma_ptrs_bytes_index(h.cell_pointers);
            lemma_u16b_be(s.subrange(1, 3));
            lemma_u16b_be(s.subrange(3, 5));
            lemma_u16b_be(s.subrange(5, 7));
            if spec_pt_interior(h.page_type) {
                lemma_u32b_be(s.subrange(8, 12));
            }
            assert(ser.len() == hdr_len + 2 * nc);
            assert forall|k: int| 0 <= k < ser.len() implies ser[k] == s[k] by {
                if k == 0 {
                    assert(ser[0] == spec_page_type_code(h.page_type));
                } else if k < 3 {
                    assert(ser[k] == spec_u16b(h.first_freeblock)[k - 1]);
                    assert(s.subrange(1, 3)[k - 1] == s[k]);
                } else if k < 5 {
                    assert(ser[k] == spec_u16b(h.num_cells)[k - 3]);
                    assert(s.subrange(3, 5)[k - 3] == s[k]);
                } else if k < 7 {
                    assert(ser[k] == spec_u16b(h.cell_start)[k - 5]);
                    assert(s.subrange(5, 7)[k - 5] == s[k]);
                } else if k == 7 {
                    assert(ser[7] == h.fragmented_bytes);
                } else if k < hdr_len {
                    match h.right_pointer {
                        Some(p) => {
                            assert(ser[k] == spec_u32b(p)[k - 8]);
                            assert(s.subrange(8, 12)[k - 8] == s[k]);
                        },
                        None => {
                            assert(false);
                        },
                    }
                } else {
                    let i = (k - hdr_len) / 2;
                    let pi = h.cell_pointers[i];
                    assert(pi == spec_be_u16(s.subrange(hdr_len + 2 * i, hdr_len + 2 * i + 2)));
                    lemma_u16b_be(s.subrange(hdr_len + 2 * i, hdr_len + 2 * i + 2));
                    assert(ser[k] == spec_ptrs_bytes(h.cell_pointers)[k - hdr_len]);
                    if (k - hdr_len) % 2 == 0 {
                        assert(k == hdr_len + 2 * i);
                        assert(spec_ptrs_bytes(h.cell_pointers)[2 * i] == (pi / 0x100) as u8);
                        assert(s.subrange(hdr_len + 2 * i, hdr_len + 2 * i + 2)[0] == s[k]);
                    } else {
                        assert(k == hdr_len + 2 * i + 1);
                        assert(spec_ptrs_bytes(h.cell_pointers)[2 * i + 1] == (pi % 0x100) as u8);
                        assert(s.subrange(hdr_len + 2 * i, hdr_len + 2 * i + 2)[1] == s[k]);
                    }
                }
            }
            assert(ser =~= s.subrange(0, spec_header_len(h) as int));
        },
    }
}

/// Whether a page geometry admits the payload-threshold calculation: the
/// usable space must hold at least a minimal cell.
pub open spec fn spec_payload_pre(page_size: nat, reserved: nat) -> bool {
    &&& reserved <= page_size
    &&& page_size - reserved >= 196
    &&& page_size <= 65536
}

/// The number of payload bytes stored on the cell's own page, per the
/// file format: `U` the usable size, `X` the most a cell may keep, `M`
/// the least, `K` the spill remainder.
pub open spec fn spec_payload_on_page(
    page_size: nat,
    reserved: nat,
    payload: nat,
    is_index: bool,
) -> nat {
    let usable = page_size - reserved;
    let maxp = if is_index {
        (usable - 12) * 64 / 255 - 23
    } else {
        usable - 35
    };
    let minp = (usable - 12) * 32 / 255 - 23;
    let k = if payload < minp {
        minp
    } else {
        minp + (payload - minp) % (usable - 4)
    };
    (if payload <= maxp {
        payload as int
    } else if k <= maxp {
        k
    } else {
        minp
    }) as nat
}

/// Computes how many payload bytes of a cell stay on its own page; the
/// rest spill to an overflow chain.
pub fn calc_payload_on_page(
    page_size: usize,
    reserved_space: usize,
    payload_size: usize,
    is_index_page: bool,
) -> (r: usize)
    requires
        spec_payload_pre(page_size as nat, reserved_space as nat),
    ensures
        r == spec_payload_on_page(
            page_size as nat,
            reserved_space as nat,
            payload_size as nat,
            is_index_page,
        ),
        r <= page_size,
{
    let usable_space = page_size - reserved_space;
    let max_payload = if is_index_page {
        ((usable_space - 12) * 64 / 255) - 23
    } else {
        usable_space - 35
    };
    let min_payload = ((usable_space - 12) * 32 / 255) - 23;
    let k = if payload_size < min_payload {
        min_payload
    } else {
        min_payload + (payload_size - min_payload) % (usable_space - 4)
    };
    if payload_size <= max_payload {
        payload_size
    } else if k <= max_payload {
        k
    } else {
        min_payload
    }
}

/// Threshold monotonicity: below the on-page maximum the threshold is the
/// payload itself, hence non-decreasing; above it, the result always lies
/// between the minimum and the maximum.
pub proof fn lemma_payload_on_page_monotone(
    page_size: nat,
    reserved: nat,
    p1: nat,
    p2: nat,
    is_index: bool,
)
    requires
        spec_payload_pre(page_size, reserved),
        p1 <= p2,
        p2 <= ({
            let usable = page_size - reserved;
            if is_index {
                (usable - 12) * 64 / 255 - 23
            } else {
                usable - 35
            }
        }),
    ensures
        spec_payload_on_page(page_size, reserved, p1, is_index) <= spec_payload_on_page(
            page_size,
            reserved,
            p2,
            is_index,
        ),
{
}

/// Above the on-page maximum, the threshold stays between the minimum and
/// the maximum: the cell keeps at least `M` and at most `X` bytes.
pub proof fn lemma_payload_on_page_bounds(page_size: nat, reserved: nat, p: nat, is_index: bool)
    requires
        spec_payload_pre(page_size, reserved),
        p > ({
            let usable = page_size - reserved;
            if is_index {
                (usable - 12) * 64 / 255 - 23
            } else {
                usable - 35
            }
        }),
    ensures
        ({
            let usable = page_size - reserved;
            let maxp = if is_index {
                (usable - 12) * 64 / 255 - 23
            } else {
                usable - 35
            };
            let minp = (usable - 12) * 32 / 255 - 23;
            minp <= spec_payload_on_page(page_size, reserved, p, is_index) <= maxp
        }),
{
    let usable = page_size - reserved;
    assert((usable - 12) * 32 / 255 - 23 <= (usable - 12) * 64 / 255 - 23) by (nonlinear_arith)
        requires
            usable >= 196,
    ;
    assert((usable - 12) * 64 / 255 - 23 <= usable - 35) by (nonlinear_arith)
        requires
            196 <= usable <= 65536,
    ;
}

/// A freeblock inside a page: the offset of the next freeblock, zero for
/// none, and this block's size.
#[derive(Debug, Clone)]
pub struct Freeblock {
    pub next: Option<u16>,
    pub size: u16,
}

impl Freeblock {
    /// Parses a freeblock header: two big-endian 16-bit fields, the next
    /// pointer (zero meaning none) and the size.
    pub fn deserialize(i: &[u8]) -> (r: Result<Self, Error>)
        ensures
            i@.len() >= 4 ==> (r matches Ok(fb) && fb.next == (if spec_be_u16(i@.subrange(0, 2))
                > 0 {
                Some(spec_be_u16(i@.subrange(0, 2)))
            } else {
                None
            }) && fb.size == spec_be_u16(i@.subrange(2, 4))),
            i@.len() < 4 ==> r == Err::<Freeblock, Error>(Error::MalformedPage),
    {
        if i.len() < 4 {
            return Err(Error::MalformedPage);
        }
        let next = match be_u16(slice_subrange(i, 0, 2)) {
            Ok(v) => v,
            Err(e) => {
                return Err(e);
            },
        };
        let size = match be_u16(slice_subrange(i, 2, 4)) {
            Ok(v) => v,
            Err(e) => {
                return Err(e);
            },
        };
        Ok(
            Self {
                next: if next > 0 {
                    Some(next)
                } else {
                    None
                },
                size,
            },
        )
    }
}

/// A header parsed from these page bytes at its recorded offset, counts
/// consistent with the arrays.
pub open spec fn page_parts_wf(hv: HeaderView, bytes: Seq<u8>) -> bool {
    &&& hv.offset + spec_header_len(hv) <= bytes.len()
    &&& spec_parse_header(bytes.skip(hv.offset as int), hv.offset) == Ok::<HeaderView, Error>(hv)
    &&& header_wf(hv)
}

/// The parse of a table-leaf cell at `ptr`: a payload-size varint, a
/// row-id varint, then the on-page prefix of the payload.
pub open spec fn spec_tl_cell(s: Seq<u8>, ptr: nat, ps: nat, rs: nat) -> Result<
    (i64, Seq<u8>),
    Error,
> {
    if ptr > s.len() {
        Err(Error::MalformedPage)
    } else {
        let (psize, n1) = spec_varint(s.skip(ptr as int));
        let (rowid, n2) = spec_varint(s.skip((ptr + n1) as int));
        if psize < 0 || psize > usize::MAX {
            Err(Error::MalformedPage)
        } else {
            let pol = spec_payload_on_page(ps, rs, psize as nat, false);
            if ptr + n1 + n2 + pol <= s.len() {
                Ok(
                    (
                        rowid,
                        s.subrange((ptr + n1 + n2) as int, (ptr + n1 + n2 + pol) as int),
                    ),
                )
            } else {
                Err(Error::MalformedPage)
            }
        }
    }
}

/// The parse of an index-leaf cell at `ptr`: a payload-size varint, then
/// the on-page prefix of the payload.
pub open spec fn spec_il_cell(s: Seq<u8>, ptr: nat, ps: nat, rs: nat) -> Result<Seq<u8>, Error> {
    if ptr > s.len() {
        Err(Error::MalformedPage)
    } else {
        let (psize, n1) = spec_varint(s.skip(ptr as int));
        if psize < 0 || psize > usize::MAX {
            Err(Error::MalformedPage)
        } else {
            let pol = spec_payload_on_page(ps, rs, psize as nat, true);
            if ptr + n1 + pol <= s.len() {
                Ok(s.subrange((ptr + n1) as int, (ptr + n1 + pol) as int))
            } else {
                Err(Error::MalformedPage)
            }
        }
    }
}

/// The parse of a table-interior cell at `ptr`: a 32-bit left-child page
/// number, then a row-id-key varint.
pub open spec fn spec_ti_cell(s: Seq<u8>, ptr: nat) -> Result<(u32, i64), Error> {
    if ptr + 4 > s.len() {
        Err(Error::MalformedPage)
    } else {
        let child = spec_be_u32(s.subrange(ptr as int, (ptr + 4) as int));
        let (key, n) = spec_varint(s.skip((ptr + 4) as int));
        Ok((child, key))
    }
}

/// The parse of an index-interior cell at `ptr`: a 32-bit left-child page
/// number, a payload-size varint, then the on-page payload prefix.
pub open spec fn spec_ii_cell(s: Seq<u8>, ptr: nat, ps: nat, rs: nat) -> Result<
    (u32, Seq<u8>),
    Error,
> {
    if ptr + 4 > s.len() {
        Err(Error::MalformedPage)
    } else {
        let child = spec_be_u32(s.subrange(ptr as int, (ptr + 4) as int));
        match spec_il_cell(s, ptr + 4, ps, rs) {
            Err(e) => Err(e),
            Ok(body) => Ok((child, body)),
        }
    }
}

/// Whether the table-leaf cell at `ptr` parses in full, record included.
pub open spec fn spec_tl_cell_good(s: Seq<u8>, ptr: nat, ps: nat, rs: nat) -> bool {
    match spec_tl_cell(s, ptr, ps, rs) {
        Err(_) => false,
        Ok((rowid, body)) => spec_record_parse(body) is Ok,
    }
}

/// Whether `c` is the parsed table-leaf cell at `ptr`.
pub open spec fn spec_tl_cell_matches(
    s: Seq<u8>,
    ptr: nat,
    ps: nat,
    rs: nat,
    c: (VarInt, Record),
) -> bool {
    match spec_tl_cell(s, ptr, ps, rs) {
        Err(_) => false,
        Ok((rowid, body)) => c.0.0 == rowid && record_matches(c.1, body),
    }
}

/// Whether the index-leaf cell at `ptr` parses in full, record included.
pub open spec fn spec_il_cell_good(s: Seq<u8>, ptr: nat, ps: nat, rs: nat) -> bool {
    match spec_il_cell(s, ptr, ps, rs) {
        Err(_) => false,
        Ok(body) => spec_record_parse(body) is Ok,
    }
}

/// Whether `c` is the parsed index-leaf cell at `ptr`.
pub open spec fn spec_il_cell_matches(s: Seq<u8>, ptr: nat, ps: nat, rs: nat, c: Record) -> bool {
    match spec_il_cell(s, ptr, ps, rs) {
        Err(_) => false,
        Ok(body) => record_matches(c, body),
    }
}

/// Whether the index-interior cell at `ptr` parses in full.
pub open spec fn spec_ii_cell_good(s: Seq<u8>, ptr: nat, ps: nat, rs: nat) -> bool {
    match spec_ii_cell(s, ptr, ps, rs) {
        Err(_) => false,
        Ok((child, body)) => spec_record_parse(body) is Ok,
    }
}

/// Whether `c` is the parsed index-interior cell at `ptr`.
pub open spec fn spec_ii_cell_matches(
    s: Seq<u8>,
    ptr: nat,
    ps: nat,
    rs: nat,
    c: (u32, Record),
) -> bool {
    match spec_ii_cell(s, ptr, ps, rs) {
        Err(_) => false,
        Ok((child, body)) => c.0 == child && record_matches(c.1, body),
    }
}

/// Parses the table-leaf cell at `ptr`.
fn parse_tl_cell(bytes: &[u8], ptr: usize, page_size: usize, reserved_space: u8) -> (r: Result<
    (VarInt, Record),
    Error,
>)
    requires
        spec_payload_pre(page_size as nat, reserved_space as nat),
    ensures
        r is Ok ==> spec_tl_cell_good(bytes@, ptr as nat, page_size as nat, reserved_space as nat),
        r matches Ok(c) ==> spec_tl_cell_matches(
            bytes@,
            ptr as nat,
            page_size as nat,
            reserved_space as nat,
            c,
        ),
        r is Err ==> !spec_tl_cell_good(bytes@, ptr as nat, page_size as nat, reserved_space as nat),
{
    if ptr > bytes.len() {
        return Err(Error::MalformedPage);
    }
    let (psize, n1) = VarInt::parse(slice_subrange(bytes, ptr, bytes.len()));
    let p1 = ptr + n1;
    let (rowid, n2) = VarInt::parse(slice_subrange(bytes, p1, bytes.len()));
    let p2 = p1 + n2;
    if psize.0 < 0 || (psize.0 as u64) > (usize::MAX as u64) {
        return Err(Error::MalformedPage);
    }
    let pol = calc_payload_on_page(page_size, reserved_space as usize, psize.0 as usize, false);
    if pol > bytes.len() - p2 {
        return Err(Error::MalformedPage);
    }
    match Record::deserialize(slice_subrange(bytes, p2, p2 + pol)) {
        Err(e) => Err(e),
        Ok(rec) => Ok((rowid, rec)),
    }
}

/// Parses the index-leaf cell at `ptr`.
fn parse_il_cell(bytes: &[u8], ptr: usize, page_size: usize, reserved_space: u8) -> (r: Result<
    Record,
    Error,
>)
    requires
        spec_payload_pre(page_size as nat, reserved_space as nat),
    ensures
        r is Ok ==> spec_il_cell_good(bytes@, ptr as nat, page_size as nat, reserved_space as nat),
        r matches Ok(c) ==> spec_il_cell_matches(
            bytes@,
            ptr as nat,
            page_size as nat,
            reserved_space as nat,
            c,
        ),
        r is Err ==> !spec_il_cell_good(bytes@, ptr as nat, page_size as nat, reserved_space as nat),
{
    if ptr > bytes.len() {
        return Err(Error::MalformedPage);
    }
    let (psize, n1) = VarInt::parse(slice_subrange(bytes, ptr, bytes.len()));
    let p1 = ptr + n1;
    if psize.0 < 0 || (psize.0 as u64) > (usize::MAX as u64) {
        return Err(Error::MalformedPage);
    }
    let pol = calc_payload_on_page(page_size, reserved_space as usize, psize.0 as usize, true);
    if pol > bytes.len() - p1 {
        return Err(Error::MalformedPage);
    }
    Record::deserialize(slice_subrange(bytes, p1, p1 + pol))
}

/// Parses the table-interior cell at `ptr`.
fn parse_ti_cell(bytes: &[u8], ptr: usize) -> (r: Result<(u32, VarInt), Error>)
    ensures
        match spec_ti_cell(bytes@, ptr as nat) {
            Err(e) => r == Err::<(u32, VarInt), Error>(e),
            Ok((child, key)) => r matches Ok(c) && c.0 == child && c.1.0 == key,
        },
{
    if ptr > bytes.len() || 4 > bytes.len() - ptr {
        return Err(Error::MalformedPage);
    }
    let child = match be_u32(slice_subrange(bytes, ptr, ptr + 4)) {
        Ok(v) => v,
        Err(e) => {
            proof {
                assert(false);
            }
            return Err(e);
        },
    };
    let (key, _n) = VarInt::parse(slice_subrange(bytes, ptr + 4, bytes.len()));
    Ok((child, key))
}

/// Parses the index-interior cell at `ptr`.
fn parse_ii_cell(bytes: &[u8], ptr: usize, page_size: usize, reserved_space: u8) -> (r: Result<
    (u32, Record),
    Error,
>)
    requires
        spec_payload_pre(page_size as nat, reserved_space as nat),
    ensures
        r is Ok ==> spec_ii_cell_good(bytes@, ptr as nat, page_size as nat, reserved_space as nat),
        r matches Ok(c) ==> spec_ii_cell_matches(
            bytes@,
            ptr as nat,
            page_size as nat,
            reserved_space as nat,
            c,
        ),
        r is Err ==> !spec_ii_cell_good(bytes@, ptr as nat, page_size as nat, reserved_space as nat),
{
    if ptr > bytes.len() || 4 > bytes.len() - ptr {
        return Err(Error::MalformedPage);
    }
    let child = match be_u32(slice_subrange(bytes, ptr, ptr + 4)) {
        Ok(v) => v,
        Err(e) => {
            proof {
                assert(false);
            }
            return Err(e);
        },
    };
    match parse_il_cell(bytes, ptr + 4, page_size, reserved_space) {
        Err(e) => Err(e),
        Ok(rec) => Ok((child, rec)),
    }
}

/// A table-leaf page: cells of `(row_id, record)`.
#[derive(Debug, Clone)]
pub struct TableLeafPage {
    pub header: PageHeader,
    pub bytes: Vec<u8>,
    pub page_size: usize,
    pub reserved_space: u8,
}

/// A parsed table-leaf page: its header came from its bytes, and its
/// geometry admits the payload threshold.
pub open spec fn tl_page_wf(p: TableLeafPage) -> bool {
    &&& page_parts_wf(header_view(p.header), p.bytes@)
    &&& p.header.page_type == PageType::TableLeaf
    &&& spec_payload_pre(p.page_size as nat, p.reserved_space as nat)
}

/// Whether every cell the pointer array names parses in full.
pub open spec fn tl_cells_good(p: TableLeafPage) -> bool {
    forall|i: int|
        0 <= i < p.header.cell_pointers@.len() ==> spec_tl_cell_good(
            p.bytes@,
            (#[trigger] p.header.cell_pointers@[i]) as nat,
            p.page_size as nat,
            p.reserved_space as nat,
        )
}

/// Whether `v` is the page's full cell sequence, in pointer-array order.
pub open spec fn tl_cells_match(p: TableLeafPage, v: Seq<(VarInt, Record)>) -> bool {
    &&& v.len() == p.header.cell_pointers@.len()
    &&& forall|i: int|
        0 <= i < v.len() ==> spec_tl_cell_matches(
            p.bytes@,
            p.header.cell_pointers@[i] as nat,
            p.page_size as nat,
            p.reserved_space as nat,
            #[trigger] v[i],
        )
}

impl TableLeafPage {
    /// Builds the page value from its parsed header and raw bytes.
    pub fn new(page_header: PageHeader, bytes: &[u8], page_size: usize, reserved_space: u8) -> (r:
        Self)
        ensures
            r.header == page_header,
            r.bytes@ == bytes@,
            r.page_size == page_size,
            r.reserved_space == reserved_space,
    {
        Self { header: page_header, bytes: slice_to_vec(bytes), page_size, reserved_space }
    }

    /// Serializes the page, reproducing exactly the bytes it was parsed
    /// from, byte for byte.
    pub fn serialize(&self) -> (r: Vec<u8>)
        requires
            tl_page_wf(*self),
        ensures
            r@ == self.bytes@,
    {
        page_serialize(&self.header, &self.bytes)
    }

    /// Parses every cell the pointer array names, in order.
    #[verifier::loop_isolation(false)]
    pub fn cells(&self) -> (r: Result<Vec<(VarInt, Record)>, Error>)
        requires
            tl_page_wf(*self),
        ensures
            r is Ok <==> tl_cells_good(*self),
            r matches Ok(v) ==> tl_cells_match(*self, v@),
    {
        let mut out: Vec<(VarInt, Record)> = Vec::new();
        let mut k: usize = 0;
        let n = self.header.cell_pointers.len();
        while k < n
            invariant
                k <= n,
                out@.len() == k,
                forall|i: int|
                    0 <= i < k ==> spec_tl_cell_good(
                        self.bytes@,
                        (#[trigger] self.header.cell_pointers@[i]) as nat,
                        self.page_size as nat,
                        self.reserved_space as nat,
                    ),
                forall|i: int|
                    0 <= i < k ==> spec_tl_cell_matches(
                        self.bytes@,
                        self.header.cell_pointers@[i] as nat,
                        self.page_size as nat,
                        self.reserved_space as nat,
                        #[trigger] out@[i],
                    ),
            decreases n - k,
        {
            let ptr = self.header.cell_pointers[k];
            match parse_tl_cell(
                self.bytes.as_slice(),
                ptr as usize,
                self.page_size,
                self.reserved_space,
            ) {
                Err(e) => {
                    return Err(e);
                },
                Ok(c) => {
                    out.push(c);
                },
            }
            k = k + 1;
        }
        Ok(out)
    }

    /// An iterator over the page's parsed cells.
    pub fn iter<'a>(&'a self) -> (r: TableLeafIter<'a>)
        requires
            tl_page_wf(*self),
        ensures
            r.cursor == 0,
            r.page == self,
    {
        TableLeafIter::new(self)
    }
}

/// An iterator over the cells of a table-leaf page, parsed one by one
/// from the cell-pointer array.
#[derive(Debug)]
pub struct TableLeafIter<'a> {
    pub page: &'a TableLeafPage,
    pub cursor: usize,
}

impl<'a> TableLeafIter<'a> {
    /// Stands before the first cell of the page.
    pub fn new(page_ref: &'a TableLeafPage) -> (r: Self)
        requires
            tl_page_wf(*page_ref),
        ensures
            r.cursor == 0,
            r.page == page_ref,
    {
        Self { page: page_ref, cursor: 0 }
    }

    /// The next cell, or `None` past the last.
    pub fn next(&mut self) -> (r: Option<(VarInt, Record)>)
        requires
            tl_page_wf(*old(self).page),
            tl_cells_good(*old(self).page),
        ensures
            final(self).page == old(self).page,
            old(self).cursor < old(self).page.header.cell_pointers@.len() ==> final(self).cursor
                == old(self).cursor + 1 && (r matches Some(c) && spec_tl_cell_matches(
                old(self).page.bytes@,
                old(self).page.header.cell_pointers@[old(self).cursor as int] as nat,
                old(self).page.page_size as nat,
                old(self).page.reserved_space as nat,
                c,
            )),
            old(self).cursor >= old(self).page.header.cell_pointers@.len() ==> r is None && *final(self) == *old(self),
    {
        if self.cursor < self.page.header.cell_pointers.len() {
            let ptr = self.page.header.cell_pointers[self.cursor];
            match parse_tl_cell(
                self.page.bytes.as_slice(),
                ptr as usize,
                self.page.page_size,
                self.page.reserved_space,
            ) {
                Ok(c) => {
                    self.cursor = self.cursor + 1;
                    Some(c)
                },
                Err(_) => {
                    proof {
                        assert(false);
                    }
                    None
                },
            }
        } else {
            None
        }
    }
}

/// An index-leaf page: cells of one record each.
#[derive(Debug, Clone)]
pub struct IndexLeafPage {
    pub header: PageHeader,
    pub bytes: Vec<u8>,
    pub page_size: usize,
    pub reserved_space: u8,
}

/// A parsed index-leaf page.
pub open spec fn il_page_wf(p: IndexLeafPage) -> bool {
    &&& page_parts_wf(header_view(p.header), p.bytes@)
    &&& p.header.page_type == PageType::IndexLeaf
    &&& spec_payload_pre(p.page_size as nat, p.reserved_space as nat)
}

/// Whether every cell the pointer array names parses in full.
pub open spec fn il_cells_good(p: IndexLeafPage) -> bool {
    forall|i: int|
        0 <= i < p.header.cell_pointers@.len() ==> spec_il_cell_good(
            p.bytes@,
            (#[trigger] p.header.cell_pointers@[i]) as nat,
            p.page_size as nat,
            p.reserved_space as nat,
        )
}

/// Whether `v` is the page's full cell sequence, in pointer-array order.
pub open spec fn il_cells_match(p: IndexLeafPage, v: Seq<Record>) -> bool {
    &&& v.len() == p.header.cell_pointers@.len()
    &&& forall|i: int|
        0 <= i < v.len() ==> spec_il_cell_matches(
            p.bytes@,
            p.header.cell_pointers@[i] as nat,
            p.page_size as nat,
            p.reserved_space as nat,
            #[trigger] v[i],
        )
}

impl IndexLeafPage {
    /// Builds the page value from its parsed header and raw bytes.
    pub fn new(page_header: PageHeader, bytes: &[u8], page_size: usize, reserved_space: u8) -> (r:
        Self)
        ensures
            r.header == page_header,
            r.bytes@ == bytes@,
            r.page_size == page_size,
            r.reserved_space == reserved_space,
    {
        Self { header: page_header, bytes: slice_to_vec(bytes), page_size, reserved_space }
    }

    /// Serializes the page, reproducing exactly the bytes it was parsed
    /// from, byte for byte.
    pub fn serialize(&self) -> (r: Vec<u8>)
        requires
            il_page_wf(*self),
        ensures
            r@ == self.bytes@,
    {
        page_serialize(&self.header, &self.bytes)
    }

    /// Parses every cell the pointer array names, in order.
    #[verifier::loop_isolation(false)]
    pub fn cells(&self) -> (r: Result<Vec<Record>, Error>)
        requires
            il_page_wf(*self),
        ensures
            r is Ok <==> il_cells_good(*self),
            r matches Ok(v) ==> il_cells_match(*self, v@),
    {
        let mut out: Vec<Record> = Vec::new();
        let mut k: usize = 0;
        let n = self.header.cell_pointers.len();
        while k < n
            invariant
                k <= n,
                out@.len() == k,
                forall|i: int|
                    0 <= i < k ==> spec_il_cell_good(
                        self.bytes@,
                        (#[trigger] self.header.cell_pointers@[i]) as nat,
                        self.page_size as nat,
                        self.reserved_space as nat,
                    ),
                forall|i: int|
                    0 <= i < k ==> spec_il_cell_matches(
                        self.bytes@,
                        self.header.cell_pointers@[i] as nat,
                        self.page_size as nat,
                        self.reserved_space as nat,
                        #[trigger] out@[i],
                    ),
            decreases n - k,
        {
            let ptr = self.header.cell_pointers[k];
            match parse_il_cell(
                self.bytes.as_slice(),
                ptr as usize,
                self.page_size,
                self.reserved_space,
            ) {
                Err(e) => {
                    return Err(e);
                },
                Ok(c) => {
                    out.push(c);
                },
            }
            k = k + 1;
        }
        Ok(out)
    }

    /// An iterator over the page's parsed cells.
    pub fn iter<'a>(&'a self) -> (r: IndexLeafIter<'a>)
        requires
            il_page_wf(*self),
        ensures
            r.cursor == 0,
            r.page == self,
    {
        IndexLeafIter::new(self)
    }
}

/// An iterator over the cells of an index-leaf page, parsed one by one
/// from the cell-pointer array.
#[derive(Debug)]
pub struct IndexLeafIter<'a> {
    pub page: &'a IndexLeafPage,
    pub cursor: usize,
}

impl<'a> IndexLeafIter<'a> {
    /// Stands before the first cell of the page.
    pub fn new(page_ref: &'a IndexLeafPage) -> (r: Self)
        requires
            il_page_wf(*page_ref),
        ensures
            r.cursor == 0,
            r.page == page_ref,
    {
        Self { page: page_ref, cursor: 0 }
    }

    /// The next cell, or `None` past the last.
    pub fn next(&mut self) -> (r: Option<Record>)
        requires
            il_page_wf(*old(self).page),
            il_cells_good(*old(self).page),
        ensures
            final(self).page == old(self).page,
            old(self).cursor < old(self).page.header.cell_pointers@.len() ==> final(self).cursor
                == old(self).cursor + 1 && (r matches Some(c) && spec_il_cell_matches(
                old(self).page.bytes@,
                old(self).page.header.cell_pointers@[old(self).cursor as int] as nat,
                old(self).page.page_size as nat,
                old(self).page.reserved_space as nat,
                c,
            )),
            old(self).cursor >= old(self).page.header.cell_pointers@.len() ==> r is None && *final(self) == *old(self),
    {
        if self.cursor < self.page.header.cell_pointers.len() {
            let ptr = self.page.header.cell_pointers[self.cursor];
            match parse_il_cell(
                self.page.bytes.as_slice(),
                ptr as usize,
                self.page.page_size,
                self.page.reserved_space,
            ) {
                Ok(c) => {
                    self.cursor = self.cursor + 1;
                    Some(c)
                },
                Err(_) => {
                    proof {
                        assert(false);
                    }
                    None
                },
            }
        } else {
            None
        }
    }
}

/// A table-interior page: cells of `(left_child, row_id_key)` and a
/// right-most child pointer in the header.
#[derive(Debug, Clone)]
pub struct TableInteriorPage {
    pub header: PageHeader,
    pub bytes: Vec<u8>,
}

/// A parsed table-interior page.
pub open spec fn ti_page_wf(p: TableInteriorPage) -> bool {
    &&& page_parts_wf(header_view(p.header), p.bytes@)
    &&& p.header.page_type == PageType::TableInterior
}

/// Whether `v` is the page's full cell sequence, in pointer-array order.
pub open spec fn ti_cells_match(p: TableInteriorPage, v: Seq<(u32, VarInt)>) -> bool {
    &&& v.len() == p.header.cell_pointers@.len()
    &&& forall|i: int|
        0 <= i < v.len() ==> spec_ti_cell(p.bytes@, p.header.cell_pointers@[i] as nat) == Ok::<
            (u32, i64),
            Error,
        >(((#[trigger] v[i]).0, v[i].1.0))
}

/// Whether every cell the pointer array names parses.
pub open spec fn ti_cells_good(p: TableInteriorPage) -> bool {
    forall|i: int|
        0 <= i < p.header.cell_pointers@.len() ==> spec_ti_cell(
            p.bytes@,
            (#[trigger] p.header.cell_pointers@[i]) as nat,
        ) is Ok
}

impl TableInteriorPage {
    /// Builds the page value from its parsed header and raw bytes.
    pub fn new(page_header: PageHeader, bytes: &[u8]) -> (r: Self)
        ensures
            r.header == page_header,
            r.bytes@ == bytes@,
    {
        Self { header: page_header, bytes: slice_to_vec(bytes) }
    }

    /// Serializes the page, reproducing exactly the bytes it was parsed
    /// from, byte for byte.
    pub fn serialize(&self) -> (r: Vec<u8>)
        requires
            ti_page_wf(*self),
        ensures
            r@ == self.bytes@,
    {
        page_serialize(&self.header, &self.bytes)
    }

    /// Parses every cell the pointer array names, in order.
    #[verifier::loop_isolation(false)]
    pub fn cells(&self) -> (r: Result<Vec<(u32, VarInt)>, Error>)
        requires
            ti_page_wf(*self),
        ensures
            r is Ok <==> ti_cells_good(*self),
            r matches Ok(v) ==> ti_cells_match(*self, v@),
    {
        let mut out: Vec<(u32, VarInt)> = Vec::new();
        let mut k: usize = 0;
        let n = self.header.cell_pointers.len();
        while k < n
            invariant
                k <= n,
                out@.len() == k,
                forall|i: int|
                    0 <= i < k ==> spec_ti_cell(
                        self.bytes@,
                        (#[trigger] self.header.cell_pointers@[i]) as nat,
                    ) is Ok,
                forall|i: int|
                    0 <= i < k ==> spec_ti_cell(self.bytes@, self.header.cell_pointers@[i] as nat)
                        == Ok::<(u32, i64), Error>(((#[trigger] out@[i]).0, out@[i].1.0)),
            decreases n - k,
        {
            let ptr = self.header.cell_pointers[k];
            match parse_ti_cell(self.bytes.as_slice(), ptr as usize) {
                Err(e) => {
                    return Err(e);
                },
                Ok(c) => {
                    out.push(c);
                },
            }
            k = k + 1;
        }
        Ok(out)
    }

    /// An iterator over the page's parsed cells.
    pub fn iter<'a>(&'a self) -> (r: TableInteriorIter<'a>)
        requires
            ti_page_wf(*self),
        ensures
            r.cursor == 0,
            r.page == self,
    {
        TableInteriorIter::new(self)
    }
}

/// An iterator over the cells of a table-interior page, parsed one by
/// one from the cell-pointer array.
#[derive(Debug)]
pub struct TableInteriorIter<'a> {
    pub page: &'a TableInteriorPage,
    pub cursor: usize,
}

impl<'a> TableInteriorIter<'a> {
    /// Stands before the first cell of the page.
    pub fn new(page_ref: &'a TableInteriorPage) -> (r: Self)
        requires
            ti_page_wf(*page_ref),
        ensures
            r.cursor == 0,
            r.page == page_ref,
    {
        Self { page: page_ref, cursor: 0 }
    }

    /// The next cell, or `None` past the last.
    pub fn next(&mut self) -> (r: Option<(u32, VarInt)>)
        requires
            ti_page_wf(*old(self).page),
            ti_cells_good(*old(self).page),
        ensures
            final(self).page == old(self).page,
            old(self).cursor < old(self).page.header.cell_pointers@.len() ==> final(self).cursor
                == old(self).cursor + 1 && (r matches Some(c) && spec_ti_cell(
                old(self).page.bytes@,
                old(self).page.header.cell_pointers@[old(self).cursor as int] as nat,
            ) == Ok::<(u32, i64), Error>((c.0, c.1.0))),
            old(self).cursor >= old(self).page.header.cell_pointers@.len() ==> r is None && *final(self) == *old(self),
    {
        if self.cursor < self.page.header.cell_pointers.len() {
            let ptr = self.page.header.cell_pointers[self.cursor];
            match parse_ti_cell(self.page.bytes.as_slice(), ptr as usize) {
                Ok(c) => {
                    self.cursor = self.cursor + 1;
                    Some(c)
                },
                Err(_) => {
                    proof {
                        assert(false);
                    }
                    None
                },
            }
        } else {
            None
        }
    }
}

/// An index-interior page: cells of `(left_child, record)` and a
/// right-most child pointer in the header.
#[derive(Debug, Clone)]
pub struct IndexInteriorPage {
    pub header: PageHeader,
    pub bytes: Vec<u8>,
    pub page_size: usize,
    pub reserved_space: u8,
}

/// A parsed index-interior page.
pub open spec fn ii_page_wf(p: IndexInteriorPage) -> bool {
    &&& page_parts_wf(header_view(p.header), p.bytes@)
    &&& p.header.page_type == PageType::IndexInterior
    &&& spec_payload_pre(p.page_size as nat, p.reserved_space as nat)
}

/// Whether every cell the pointer array names parses in full.
pub open spec fn ii_cells_good(p: IndexInteriorPage) -> bool {
    forall|i: int|
        0 <= i < p.header.cell_pointers@.len() ==> spec_ii_cell_good(
            p.bytes@,
            (#[trigger] p.header.cell_pointers@[i]) as nat,
            p.page_size as nat,
            p.reserved_space as nat,
        )
}

/// Whether `v` is the page's full cell sequence, in pointer-array order.
pub open spec fn ii_cells_match(p: IndexInteriorPage, v: Seq<(u32, Record)>) -> bool {
    &&& v.len() == p.header.cell_pointers@.len()
    &&& forall|i: int|
        0 <= i < v.len() ==> spec_ii_cell_matches(
            p.bytes@,
            p.header.cell_pointers@[i] as nat,
            p.page_size as nat,
            p.reserved_space as nat,
            #[trigger] v[i],
        )
}

impl IndexInteriorPage {
    /// Builds the page value from its parsed header and raw bytes.
    pub fn new(page_header: PageHeader, bytes: &[u8], page_size: usize, reserved_space: u8) -> (r:
        Self)
        ensures
            r.header == page_header,
            r.bytes@ == bytes@,
            r.page_size == page_size,
            r.reserved_space == reserved_space,
    {
        Self { header: page_header, bytes: slice_to_vec(bytes), page_size, reserved_space }
    }

    /// Serializes the page, reproducing exactly the bytes it was parsed
    /// from, byte for byte.
    pub fn serialize(&self) -> (r: Vec<u8>)
        requires
            ii_page_wf(*self),
        ensures
            r@ == self.bytes@,
    {
        page_serialize(&self.header, &self.bytes)
    }

    /// Parses every cell the pointer array names, in order.
    #[verifier::loop_isolation(false)]
    pub fn cells(&self) -> (r: Result<Vec<(u32, Record)>, Error>)
        requires
            ii_page_wf(*self),
        ensures
            r is Ok <==> ii_cells_good(*self),
            r matches Ok(v) ==> ii_cells_match(*self, v@),
    {
        let mut out: Vec<(u32, Record)> = Vec::new();
        let mut k: usize = 0;
        let n = self.header.cell_pointers.len();
        while k < n
            invariant
                k <= n,
                out@.len() == k,
                forall|i: int|
                    0 <= i < k ==> spec_ii_cell_good(
                        self.bytes@,
                        (#[trigger] self.header.cell_pointers@[i]) as nat,
                        self.page_size as nat,
                        self.reserved_space as nat,
                    ),
                forall|i: int|
                    0 <= i < k ==> spec_ii_cell_matches(
                        self.bytes@,
                        self.header.cell_pointers@[i] as nat,
                        self.page_size as nat,
                        self.reserved_space as nat,
                        #[trigger] out@[i],
                    ),
            decreases n - k,
        {
            let ptr = self.header.cell_pointers[k];
            match parse_ii_cell(
                self.bytes.as_slice(),
                ptr as usize,
                self.page_size,
                self.reserved_space,
            ) {
                Err(e) => {
                    return Err(e);
                },
                Ok(c) => {
                    out.push(c);
                },
            }
            k = k + 1;
        }
        Ok(out)
    }

    /// An iterator over the page's parsed cells.
    pub fn iter<'a>(&'a self) -> (r: IndexInteriorIter<'a>)
        requires
            ii_page_wf(*self),
        ensures
            r.cursor == 0,
            r.page == self,
    {
        IndexInteriorIter::new(self)
    }
}

/// An iterator over the cells of an index-interior page, parsed one by
/// one from the cell-pointer array.
#[derive(Debug)]
pub struct IndexInteriorIter<'a> {
    pub page: &'a IndexInteriorPage,
    pub cursor: usize,
}

impl<'a> IndexInteriorIter<'a> {
    /// Stands before the first cell of the page.
    pub fn new(page_ref: &'a IndexInteriorPage) -> (r: Self)
        requires
            ii_page_wf(*page_ref),
        ensures
            r.cursor == 0,
            r.page == page_ref,
    {
        Self { page: page_ref, cursor: 0 }
    }

    /// The next cell, or `None` past the last.
    pub fn next(&mut self) -> (r: Option<(u32, Record)>)
        requires
            ii_page_wf(*old(self).page),
            ii_cells_good(*old(self).page),
        ensures
            final(self).page == old(self).page,
            old(self).cursor < old(self).page.header.cell_pointers@.len() ==> final(self).cursor
                == old(self).cursor + 1 && (r matches Some(c) && spec_ii_cell_matches(
                old(self).page.bytes@,
                old(self).page.header.cell_pointers@[old(self).cursor as int] as nat,
                old(self).page.page_size as nat,
                old(self).page.reserved_space as nat,
                c,
            )),
            old(self).cursor >= old(self).page.header.cell_pointers@.len() ==> r is None && *final(self) == *old(self),
    {
        if self.cursor < self.page.header.cell_pointers.len() {
            let ptr = self.page.header.cell_pointers[self.cursor];
            match parse_ii_cell(
                self.page.bytes.as_slice(),
                ptr as usize,
                self.page.page_size,
                self.page.reserved_space,
            ) {
                Ok(c) => {
                    self.cursor = self.cursor + 1;
                    Some(c)
                },
                Err(_) => {
                    proof {
                        assert(false);
                    }
                    None
                },
            }
        } else {
            None
        }
    }
}

/// The common serialization of all four page kinds: the bytes before
/// the header verbatim, the header's bytes, then the raw page from the
/// end of the header on; together, the page it was parsed from.
fn page_serialize(header: &PageHeader, bytes: &Vec<u8>) -> (r: Vec<u8>)
    requires
        page_parts_wf(header_view(*header), bytes@),
    ensures
        r@ == bytes@,
{
    // the bytes before the page header stand verbatim: on page 1 they are
    // the 100-byte file header, elsewhere there are none
    let mut output: Vec<u8> = Vec::new();
    append_bytes(&mut output, slice_subrange(bytes.as_slice(), 0, header.offset));
    let hdr = header.serialize();
    proof {
        let hv = header_view(*header);
        lemma_header_round_trip(bytes@.skip(header.offset as int), header.offset as nat);
        assert(hdr@.len() == spec_header_len(hv));
        assert(hdr@ == bytes@.skip(header.offset as int).subrange(0, spec_header_len(hv) as int));
    }
    append_bytes(&mut output, hdr.as_slice());
    let blen = bytes.len();
    let offset = header.offset + hdr.len();
    append_bytes(&mut output, slice_subrange(bytes.as_slice(), offset, bytes.len()));
    proof {
        let hv = header_view(*header);
        let off = header.offset as int;
        let hl = spec_header_len(hv) as int;
        assert(bytes@.subrange(off + hl, bytes@.len() as int) =~= bytes@.skip(off).skip(hl));
        assert(bytes@.skip(off).subrange(0, hl) + bytes@.skip(off).skip(hl) =~= bytes@.skip(off));
        assert(bytes@.subrange(0, off) + bytes@.skip(off) =~= bytes@);
        assert(output@ =~= bytes@);
    }
    output
}

/// A parsed B-tree page of any of the four kinds.
#[derive(Debug, Clone)]
pub enum BtreePage {
    TableLeaf(TableLeafPage),
    IndexLeaf(IndexLeafPage),
    TableInterior(TableInteriorPage),
    IndexInterior(IndexInteriorPage),
}

/// The file-header offset inside a page: page 1 begins with the 100-byte
/// database header, every other page with its B-tree page header.
pub open spec fn spec_page_offset(page_num: nat) -> nat {
    if page_num == 1 {
        100
    } else {
        0
    }
}

/// Whether the variant's inner page is parsed and consistent.
pub open spec fn btree_page_wf(p: BtreePage) -> bool {
    match p {
        BtreePage::TableLeaf(pg) => tl_page_wf(pg),
        BtreePage::IndexLeaf(pg) => il_page_wf(pg),
        BtreePage::TableInterior(pg) => ti_page_wf(pg),
        BtreePage::IndexInterior(pg) => ii_page_wf(pg),
    }
}

/// The raw bytes the page was parsed from.
pub open spec fn page_bytes(p: BtreePage) -> Seq<u8> {
    match p {
        BtreePage::TableLeaf(pg) => pg.bytes@,
        BtreePage::IndexLeaf(pg) => pg.bytes@,
        BtreePage::TableInterior(pg) => pg.bytes@,
        BtreePage::IndexInterior(pg) => pg.bytes@,
    }
}

/// The parsed header of the page.
pub open spec fn page_header_of(p: BtreePage) -> HeaderView {
    match p {
        BtreePage::TableLeaf(pg) => header_view(pg.header),
        BtreePage::IndexLeaf(pg) => header_view(pg.header),
        BtreePage::TableInterior(pg) => header_view(pg.header),
        BtreePage::IndexInterior(pg) => header_view(pg.header),
    }
}

/// Whether the page records the given geometry (the table-interior kind
/// stores none, its cells hold no payload).
pub open spec fn page_geometry_is(p: BtreePage, page_size: nat, reserved: nat) -> bool {
    match p {
        BtreePage::TableLeaf(pg) => pg.page_size == page_size && pg.reserved_space == reserved,
        BtreePage::IndexLeaf(pg) => pg.page_size == page_size && pg.reserved_space == reserved,
        BtreePage::TableInterior(pg) => true,
        BtreePage::IndexInterior(pg) => pg.page_size == page_size && pg.reserved_space == reserved,
    }
}

impl BtreePage {
    /// An empty page of the given kind: no cells, no freeblocks, no
    /// fragmented bytes, no right pointer yet, and cell content starting
    /// at the end of the usable area (zero when that area is 65536 and
    /// overflows the 16-bit field).
    pub fn new(page_type: PageType, page_size: usize, reserved_space: u8) -> (r: Self)
        requires
            reserved_space <= page_size,
        ensures
            page_header_of(r).page_type == page_type,
            page_header_of(r).offset == 0,
            page_header_of(r).first_freeblock == 0,
            page_header_of(r).num_cells == 0,
            page_header_of(r).cell_pointers == Seq::<u16>::empty(),
            page_header_of(r).fragmented_bytes == 0,
            page_header_of(r).right_pointer is None,
            page_header_of(r).cell_start == (if page_size - reserved_space > u16::MAX {
                0
            } else {
                (page_size - reserved_space) as u16
            }),
            page_bytes(r) == Seq::<u8>::empty(),
    {
        let page_header = PageHeader::new(page_type, page_size, reserved_space);
        let empty: Vec<u8> = Vec::new();
        match page_type {
            PageType::TableLeaf => Self::TableLeaf(
                TableLeafPage::new(page_header, empty.as_slice(), page_size, reserved_space),
            ),
            PageType::IndexLeaf => Self::IndexLeaf(
                IndexLeafPage::new(page_header, empty.as_slice(), page_size, reserved_space),
            ),
            PageType::TableInterior => Self::TableInterior(
                TableInteriorPage::new(page_header, empty.as_slice()),
            ),
            PageType::IndexInterior => Self::IndexInterior(
                IndexInteriorPage::new(page_header, empty.as_slice(), page_size, reserved_space),
            ),
        }
    }

    /// Parses page number `page_num` from its raw bytes: the page header
    /// stands at offset 100 on page 1 and at offset 0 elsewhere, and the
    /// type byte selects the variant.
    pub fn deserialize(i: &[u8], page_num: usize, page_size: usize, reserved_space: u8) -> (r:
        Result<Self, Error>)
        requires
            spec_payload_pre(page_size as nat, reserved_space as nat),
        ensures
            ({
                let off = spec_page_offset(page_num as nat);
                &&& i@.len() < off ==> r == Err::<BtreePage, Error>(Error::MalformedPage)
                &&& i@.len() >= off ==> match spec_parse_header(i@.skip(off as int), off) {
                    Err(e) => r == Err::<BtreePage, Error>(e),
                    Ok(hv) => r matches Ok(p) && btree_page_wf(p) && page_bytes(p) == i@
                        && page_header_of(p) == hv && page_geometry_is(
                        p,
                        page_size as nat,
                        reserved_space as nat,
                    ),
                }
            }),
    {
        let offset: usize = if page_num == 1 {
            100
        } else {
            0
        };
        if i.len() < offset {
            return Err(Error::MalformedPage);
        }
        let header = match PageHeader::deserialize(slice_subrange(i, offset, i.len()), offset) {
            Ok(h) => h,
            Err(e) => {
                return Err(e);
            },
        };
        match header.page_type {
            PageType::TableLeaf => Ok(
                Self::TableLeaf(TableLeafPage::new(header, i, page_size, reserved_space)),
            ),
            PageType::IndexLeaf => Ok(
                Self::IndexLeaf(IndexLeafPage::new(header, i, page_size, reserved_space)),
            ),
            PageType::TableInterior => Ok(Self::TableInterior(TableInteriorPage::new(header, i))),
            PageType::IndexInterior => Ok(
                Self::IndexInterior(IndexInteriorPage::new(header, i, page_size, reserved_space)),
            ),
        }
    }

    /// Serializes the page, reproducing exactly the bytes it was parsed
    /// from: on page 1 the 100-byte file header comes back verbatim too.
    pub fn serialize(&self) -> (r: Vec<u8>)
        requires
            btree_page_wf(*self),
        ensures
            r@ == page_bytes(*self),
    {
        match self {
            Self::TableLeaf(pg) => pg.serialize(),
            Self::IndexLeaf(pg) => pg.serialize(),
            Self::TableInterior(pg) => pg.serialize(),
            Self::IndexInterior(pg) => pg.serialize(),
        }
    }

    /// Whether the page is one of the two interior kinds.
    pub fn is_interior(&self) -> (r: bool)
        ensures
            r == (*self is TableInterior || *self is IndexInterior),
    {
        match self {
            Self::TableInterior(_) => true,
            Self::IndexInterior(_) => true,
            _ => false,
        }
    }

    /// Whether the page is one of the two leaf kinds.
    pub fn is_leaf(&self) -> (r: bool)
        ensures
            r == (*self is TableLeaf || *self is IndexLeaf),
    {
        match self {
            Self::TableLeaf(_) => true,
            Self::IndexLeaf(_) => true,
            _ => false,
        }
    }

    /// The name of the page's kind.
    pub fn get_page_type(&self) -> (r: String)
        ensures
            *self is TableLeaf ==> r@ == "TableLeaf"@,
            *self is IndexLeaf ==> r@ == "IndexLeaf"@,
            *self is TableInterior ==> r@ == "TableInterior"@,
            *self is IndexInterior ==> r@ == "IndexInterior"@,
    {
        match self {
            Self::TableLeaf(_) => "TableLeaf".to_owned(),
            Self::IndexLeaf(_) => "IndexLeaf".to_owned(),
            Self::TableInterior(_) => "TableInterior".to_owned(),
            Self::IndexInterior(_) => "IndexInterior".to_owned(),
        }
    }
}

/// The values of the record a cell body parses to.  Any two records the
/// same body parses to agree on everything the comparison model reads,
/// so which one stands here is immaterial.
pub open spec fn cell_record_values(body: Seq<u8>) -> Seq<Value> {
    (choose|rec: Record| record_matches(rec, body)).values@
}

/// Whether a search key equals the record in a cell body, prefix-wise.
pub open spec fn spec_key_eq_cell(key: Seq<Value>, body: Seq<u8>) -> bool {
    spec_record_eq(key, cell_record_values(body))
}

/// The prefix order of a search key against the record in a cell body.
pub open spec fn spec_key_cmp_cell(key: Seq<Value>, body: Seq<u8>) -> Option<Ordering> {
    spec_record_cmp(key, cell_record_values(body))
}

proof fn lemma_record_ops_determined(a: Seq<Value>, b1: Seq<Value>, b2: Seq<Value>)
    requires
        b1.len() == b2.len(),
        forall|j: int, x: Value|
            0 <= j < b1.len() ==> #[trigger] spec_val_eq(x, b1[j]) == spec_val_eq(x, b2[j]),
        forall|j: int, x: Value|
            0 <= j < b1.len() ==> #[trigger] spec_val_cmp(x, b1[j]) == spec_val_cmp(x, b2[j]),
    ensures
        spec_record_eq(a, b1) == spec_record_eq(a, b2),
        spec_record_cmp(a, b1) == spec_record_cmp(a, b2),
    decreases a.len(),
{
    if a.len() == 0 {
    } else if b1.len() == 0 {
    } else {
        assert(spec_val_eq(a[0], b1[0]) == spec_val_eq(a[0], b2[0]));
        assert(spec_val_cmp(a[0], b1[0]) == spec_val_cmp(a[0], b2[0]));
        assert forall|j: int, x: Value|
            0 <= j < b1.skip(1).len() implies #[trigger] spec_val_eq(x, b1.skip(1)[j])
            == spec_val_eq(x, b2.skip(1)[j]) by {
            assert(b1.skip(1)[j] == b1[j + 1]);
            assert(b2.skip(1)[j] == b2[j + 1]);
            assert(spec_val_eq(x, b1[j + 1]) == spec_val_eq(x, b2[j + 1]));
        }
        assert forall|j: int, x: Value|
            0 <= j < b1.skip(1).len() implies #[trigger] spec_val_cmp(x, b1.skip(1)[j])
            == spec_val_cmp(x, b2.skip(1)[j]) by {
            assert(b1.skip(1)[j] == b1[j + 1]);
            assert(b2.skip(1)[j] == b2[j + 1]);
            assert(spec_val_cmp(x, b1[j + 1]) == spec_val_cmp(x, b2[j + 1]));
        }
        lemma_record_ops_determined(a.skip(1), b1.skip(1), b2.skip(1));
    }
}

/// Whatever record a cell body parses to compares against a search key
/// exactly as the abstract cell does.
pub proof fn lemma_cell_record(key: Seq<Value>, body: Seq<u8>, rec: Record)
    requires
        record_matches(rec, body),
    ensures
        spec_record_eq(key, rec.values@) == spec_key_eq_cell(key, body),
        spec_record_cmp(key, rec.values@) == spec_key_cmp_cell(key, body),
{
    assert(exists|r: Record| record_matches(r, body)) by {
        assert(record_matches(rec, body));
    }
    let rec2 = choose|r: Record| record_matches(r, body);
    match spec_record_parse(body) {
        Err(_) => {
            assert(false);
        },
        Ok((ts, sls)) => {
            assert forall|j: int, x: Value|
                0 <= j < rec.values@.len() implies #[trigger] spec_val_eq(x, rec.values@[j])
                == spec_val_eq(x, rec2.values@[j]) by {
                lemma_val_ops_determined(x, ts[j], sls[j], rec.values@[j], rec2.values@[j]);
            }
            assert forall|j: int, x: Value|
                0 <= j < rec.values@.len() implies #[trigger] spec_val_cmp(x, rec.values@[j])
                == spec_val_cmp(x, rec2.values@[j]) by {
                lemma_val_ops_determined(x, ts[j], sls[j], rec.values@[j], rec2.values@[j]);
            }
            lemma_record_ops_determined(key, rec.values@, rec2.values@);
        },
    }
}

/// The index of the first table-leaf cell holding the row id, searched
/// from cell `i` on; `None` when no cell matches or one is malformed.
pub open spec fn spec_tl_find(
    raw: Seq<u8>,
    ptrs: Seq<u16>,
    ps: nat,
    rs: nat,
    row_id: i64,
    i: nat,
) -> Option<int>
    decreases ptrs.len() - i,
{
    if i >= ptrs.len() {
        None
    } else {
        match spec_tl_cell(raw, ptrs[i as int] as nat, ps, rs) {
            Err(_) => None,
            Ok((rid, body)) => {
                if spec_record_parse(body) is Err {
                    None
                } else if rid == row_id {
                    Some(i as int)
                } else {
                    spec_tl_find(raw, ptrs, ps, rs, row_id, i + 1)
                }
            },
        }
    }
}

/// The index of the first index-leaf cell whose record the search key
/// equals, from cell `i` on.
pub open spec fn spec_il_find(
    raw: Seq<u8>,
    ptrs: Seq<u16>,
    ps: nat,
    rs: nat,
    key: Seq<Value>,
    i: nat,
) -> Option<int>
    decreases ptrs.len() - i,
{
    if i >= ptrs.len() {
        None
    } else {
        match spec_il_cell(raw, ptrs[i as int] as nat, ps, rs) {
            Err(_) => None,
            Ok(body) => {
                if spec_record_parse(body) is Err {
                    None
                } else if spec_key_eq_cell(key, body) {
                    Some(i as int)
                } else {
                    spec_il_find(raw, ptrs, ps, rs, key, i + 1)
                }
            },
        }
    }
}

/// What a table-interior page tells the descent to do next.
pub enum InteriorStep {
    Bad,
    Child(u32),
    RightMost,
}

/// The first cell whose key the row id does not exceed decides the
/// child; past the last cell the right-most child is next.
pub open spec fn spec_ti_pick(raw: Seq<u8>, ptrs: Seq<u16>, row_id: i64, i: nat) -> InteriorStep
    decreases ptrs.len() - i,
{
    if i >= ptrs.len() {
        InteriorStep::RightMost
    } else {
        match spec_ti_cell(raw, ptrs[i as int] as nat) {
            Err(_) => InteriorStep::Bad,
            Ok((child, keyv)) => {
                if row_id <= keyv {
                    InteriorStep::Child(child)
                } else {
                    spec_ti_pick(raw, ptrs, row_id, i + 1)
                }
            },
        }
    }
}

/// What an index-interior page tells the descent to do next: stop on an
/// equal record, descend left of the first not-smaller record, or take
/// the right-most child.
pub enum IndexStep {
    Bad,
    Found(int),
    Child(u32),
    RightMost,
}

pub open spec fn spec_ii_pick(
    raw: Seq<u8>,
    ptrs: Seq<u16>,
    ps: nat,
    rs: nat,
    key: Seq<Value>,
    i: nat,
) -> IndexStep
    decreases ptrs.len() - i,
{
    if i >= ptrs.len() {
        IndexStep::RightMost
    } else {
        match spec_ii_cell(raw, ptrs[i as int] as nat, ps, rs) {
            Err(_) => IndexStep::Bad,
            Ok((child, body)) => {
                if spec_record_parse(body) is Err {
                    IndexStep::Bad
                } else if spec_key_eq_cell(key, body) {
                    IndexStep::Found(i as int)
                } else if spec_key_cmp_cell(key, body) matches Some(o) && (o == Ordering::Less || o
                    == Ordering::Equal) {
                    IndexStep::Child(child)
                } else {
                    spec_ii_pick(raw, ptrs, ps, rs, key, i + 1)
                }
            },
        }
    }
}

/// Whether `r` is what the row-id descent starting at `page_num` with
/// `depth` pages of budget returns: at a table leaf the first matching
/// cell's record; at a table interior the descent into the picked child;
/// `None` on the other kinds, on malformed pages, and when the budget
/// runs out.
pub open spec fn spec_get_row_rel(
    file: Seq<u8>,
    ps: nat,
    rs: nat,
    row_id: i64,
    page_num: nat,
    depth: nat,
    r: Option<Record>,
) -> bool
    decreases depth,
{
    if depth == 0 {
        r is None
    } else if !(1 <= page_num && page_num * ps <= file.len()) {
        r is None
    } else {
        let raw = spec_page_raw(file, page_num, ps);
        let off = spec_page_offset(page_num);
        match spec_parse_header(raw.skip(off as int), off) {
            Err(_) => r is None,
            Ok(hv) => {
                if hv.page_type == PageType::TableLeaf {
                    match spec_tl_find(raw, hv.cell_pointers, ps, rs, row_id, 0) {
                        None => r is None,
                        Some(j) => match spec_tl_cell(raw, hv.cell_pointers[j] as nat, ps, rs) {
                            Err(_) => false,
                            Ok((rid, body)) => r matches Some(rec) && record_matches(rec, body),
                        },
                    }
                } else if hv.page_type == PageType::TableInterior {
                    match spec_ti_pick(raw, hv.cell_pointers, row_id, 0) {
                        InteriorStep::Bad => r is None,
                        InteriorStep::Child(c) => spec_get_row_rel(
                            file,
                            ps,
                            rs,
                            row_id,
                            c as nat,
                            (depth - 1) as nat,
                            r,
                        ),
                        InteriorStep::RightMost => match hv.right_pointer {
                            Some(rp) => spec_get_row_rel(
                                file,
                                ps,
                                rs,
                                row_id,
                                rp as nat,
                                (depth - 1) as nat,
                                r,
                            ),
                            None => r is None,
                        },
                    }
                } else {
                    r is None
                }
            },
        }
    }
}

/// Whether `r` is what the record-key descent starting at `page_num`
/// returns: at an index leaf the first cell the key equals; at an index
/// interior either the equal cell's own record or the descent into the
/// picked child.
pub open spec fn spec_get_index_rel(
    file: Seq<u8>,
    ps: nat,
    rs: nat,
    key: Seq<Value>,
    page_num: nat,
    depth: nat,
    r: Option<Record>,
) -> bool
    decreases depth,
{
    if depth == 0 {
        r is None
    } else if !(1 <= page_num && page_num * ps <= file.len()) {
        r is None
    } else {
        let raw = spec_page_raw(file, page_num, ps);
        let off = spec_page_offset(page_num);
        match spec_parse_header(raw.skip(off as int), off) {
            Err(_) => r is None,
            Ok(hv) => {
                if hv.page_type == PageType::IndexLeaf {
                    match spec_il_find(raw, hv.cell_pointers, ps, rs, key, 0) {
                        None => r is None,
                        Some(j) => match spec_il_cell(raw, hv.cell_pointers[j] as nat, ps, rs) {
                            Err(_) => false,
                            Ok(body) => r matches Some(rec) && record_matches(rec, body),
                        },
                    }
                } else if hv.page_type == PageType::IndexInterior {
                    match spec_ii_pick(raw, hv.cell_pointers, ps, rs, key, 0) {
                        IndexStep::Bad => r is None,
                        IndexStep::Found(j) => match spec_ii_cell(
                            raw,
                            hv.cell_pointers[j] as nat,
                            ps,
                            rs,
                        ) {
                            Err(_) => false,
                            Ok((c, body)) => r matches Some(rec) && record_matches(rec, body),
                        },
                        IndexStep::Child(c) => spec_get_index_rel(
                            file,
                            ps,
                            rs,
                            key,
                            c as nat,
                            (depth - 1) as nat,
                            r,
                        ),
                        IndexStep::RightMost => match hv.right_pointer {
                            Some(rp) => spec_get_index_rel(
                                file,
                                ps,
                                rs,
                                key,
                                rp as nat,
                                (depth - 1) as nat,
                                r,
                            ),
                            None => r is None,
                        },
                    }
                } else {
                    r is None
                }
            },
        }
    }
}

/// A B-tree navigator: the catalog object's names and its root page
/// number.  It holds no page state of its own; every lookup asks the
/// pager for pages afresh.
#[derive(Debug, Clone)]
pub struct Btree {
    pub name: String,
    pub table_name: String,
    pub root_page: usize,
}

impl Btree {
    /// A navigator over the B-tree rooted at `root_page`.
    pub fn new(name: String, table_name: String, root_page: usize) -> (r: Self)
        ensures
            r.name == name,
            r.table_name == table_name,
            r.root_page == root_page,
    {
        Self { name, table_name, root_page }
    }

    /// Primary-key lookup on a table B-tree: the record stored under the
    /// row id, or `None` when no leaf holds it, the budget of one page
    /// per file page runs out, or a page on the way is malformed.
    pub fn get_row(&self, pager: &mut Pager, row_id: VarInt) -> (r: Option<Record>)
        requires
            pager_wf(*old(pager)),
        ensures
            pager_wf(*final(pager)),
            pager_same_file(*final(pager), *old(pager)),
            spec_get_row_rel(
                old(pager).file@,
                old(pager).page_size as nat,
                old(pager).reserved_space as nat,
                row_id.0,
                self.root_page as nat,
                (old(pager).num_pages + 1) as nat,
                r,
            ),
    {
        proof {
            assert((pager.num_pages as int) * 196 <= (pager.num_pages as int) * (
            pager.page_size as int)) by (nonlinear_arith)
                requires
                    pager.page_size >= 196,
            ;
        }
        let depth = pager.num_pages + 1;
        self.get_row_rcrs(pager, row_id, self.root_page, depth)
    }

    /// One step of the row-id descent at `page_num`.
    #[verifier::loop_isolation(false)]
    fn get_row_rcrs(&self, pager: &mut Pager, row_id: VarInt, page_num: usize, depth: usize) -> (r:
        Option<Record>)
        requires
            pager_wf(*old(pager)),
        ensures
            pager_wf(*final(pager)),
            pager_same_file(*final(pager), *old(pager)),
            spec_get_row_rel(
                old(pager).file@,
                old(pager).page_size as nat,
                old(pager).reserved_space as nat,
                row_id.0,
                page_num as nat,
                depth as nat,
                r,
            ),
        decreases depth,
    {
        let ghost file = pager.file@;
        let ghost ps = pager.page_size as nat;
        let ghost rs = pager.reserved_space as nat;
        if depth == 0 {
            return None;
        }
        proof {
            assert(page_num <= pager.num_pages ==> (page_num as int) * (pager.page_size as int)
                <= (pager.num_pages as int) * (pager.page_size as int)) by (nonlinear_arith);
            assert(page_num > pager.num_pages ==> (page_num as int) * (pager.page_size as int) > (
            pager.num_pages as int) * (pager.page_size as int)) by (nonlinear_arith)
                requires
                    pager.page_size >= 196,
            ;
        }
        let page = match pager.get_page(page_num) {
            Ok(p) => p,
            Err(_) => {
                return None;
            },
        };
        let ghost raw = spec_page_raw(file, page_num as nat, ps);
        match page {
            BtreePage::TableLeaf(pg) => {
                let ghost ptrs = header_view(pg.header).cell_pointers;
                let n = pg.header.cell_pointers.len();
                let mut i: usize = 0;
                while i < n
                    invariant
                        i <= n,
                        spec_tl_find(raw, ptrs, ps, rs, row_id.0, 0) == spec_tl_find(
                            raw,
                            ptrs,
                            ps,
                            rs,
                            row_id.0,
                            i as nat,
                        ),
                    decreases n - i,
                {
                    let ptr = pg.header.cell_pointers[i];
                    match parse_tl_cell(
                        pg.bytes.as_slice(),
                        ptr as usize,
                        pg.page_size,
                        pg.reserved_space,
                    ) {
                        Err(_) => {
                            return None;
                        },
                        Ok(c) => {
                            if c.0.0 == row_id.0 {
                                return Some(c.1);
                            }
                        },
                    }
                    i = i + 1;
                }
                None
            },
            BtreePage::TableInterior(pg) => {
                let ghost ptrs = header_view(pg.header).cell_pointers;
                let n = pg.header.cell_pointers.len();
                let mut i: usize = 0;
                while i < n
                    invariant
                        i <= n,
                        pager_wf(*pager),
                        pager_same_file(*pager, *old(pager)),
                        spec_ti_pick(raw, ptrs, row_id.0, 0) == spec_ti_pick(
                            raw,
                            ptrs,
                            row_id.0,
                            i as nat,
                        ),
                    decreases n - i,
                {
                    let ptr = pg.header.cell_pointers[i];
                    match parse_ti_cell(pg.bytes.as_slice(), ptr as usize) {
                        Err(_) => {
                            return None;
                        },
                        Ok(c) => {
                            if row_id.0 <= c.1.0 {
                                return self.get_row_rcrs(pager, row_id, c.0 as usize, depth - 1);
                            }
                        },
                    }
                    i = i + 1;
                }
                match pg.header.right_pointer {
                    Some(rp) => self.get_row_rcrs(pager, row_id, rp as usize, depth - 1),
                    None => None,
                }
            },
            _ => None,
        }
    }
}

impl Btree {
    /// Equality probe on an index B-tree: the first entry the search key
    /// equals, prefix-wise, so a key of leading columns matches an entry
    /// that trails a row-id column; `None` when no entry matches, the
    /// budget runs out, or a page on the way is malformed.
    pub fn get_index(&self, pager: &mut Pager, index: Record) -> (r: Option<Record>)
        requires
            pager_wf(*old(pager)),
        ensures
            pager_wf(*final(pager)),
            pager_same_file(*final(pager), *old(pager)),
            spec_get_index_rel(
                old(pager).file@,
                old(pager).page_size as nat,
                old(pager).reserved_space as nat,
                index.values@,
                self.root_page as nat,
                (old(pager).num_pages + 1) as nat,
                r,
            ),
    {
        proof {
            assert((pager.num_pages as int) * 196 <= (pager.num_pages as int) * (
            pager.page_size as int)) by (nonlinear_arith)
                requires
                    pager.page_size >= 196,
            ;
        }
        let depth = pager.num_pages + 1;
        self.get_index_rcrs(pager, &index, self.root_page, depth)
    }

    /// One step of the record-key descent at `page_num`.
    #[verifier::loop_isolation(false)]
    #[verifier::rlimit(60)]
    fn get_index_rcrs(&self, pager: &mut Pager, index: &Record, page_num: usize, depth: usize) -> (r:
        Option<Record>)
        requires
            pager_wf(*old(pager)),
        ensures
            pager_wf(*final(pager)),
            pager_same_file(*final(pager), *old(pager)),
            spec_get_index_rel(
                old(pager).file@,
                old(pager).page_size as nat,
                old(pager).reserved_space as nat,
                index.values@,
                page_num as nat,
                depth as nat,
                r,
            ),
        decreases depth,
    {
        let ghost file = pager.file@;
        let ghost ps = pager.page_size as nat;
        let ghost rs = pager.reserved_space as nat;
        let ghost key = index.values@;
        if depth == 0 {
            return None;
        }
        proof {
            assert(page_num <= pager.num_pages ==> (page_num as int) * (pager.page_size as int)
                <= (pager.num_pages as int) * (pager.page_size as int)) by (nonlinear_arith);
            assert(page_num > pager.num_pages ==> (page_num as int) * (pager.page_size as int) > (
            pager.num_pages as int) * (pager.page_size as int)) by (nonlinear_arith)
                requires
                    pager.page_size >= 196,
            ;
        }
        let page = match pager.get_page(page_num) {
            Ok(p) => p,
            Err(_) => {
                return None;
            },
        };
        let ghost raw = spec_page_raw(file, page_num as nat, ps);
        match page {
            BtreePage::IndexLeaf(pg) => {
                let ghost ptrs = header_view(pg.header).cell_pointers;
                let n = pg.header.cell_pointers.len();
                let mut i: usize = 0;
                while i < n
                    invariant
                        i <= n,
                        spec_il_find(raw, ptrs, ps, rs, key, 0) == spec_il_find(
                            raw,
                            ptrs,
                            ps,
                            rs,
                            key,
                            i as nat,
                        ),
                    decreases n - i,
                {
                    let ptr = pg.header.cell_pointers[i];
                    match parse_il_cell(
                        pg.bytes.as_slice(),
                        ptr as usize,
                        pg.page_size,
                        pg.reserved_space,
                    ) {
                        Err(_) => {
                            return None;
                        },
                        Ok(rec) => {
                            proof {
                                match spec_il_cell(raw, ptrs[i as int] as nat, ps, rs) {
                                    Err(_) => {
                                        assert(false);
                                    },
                                    Ok(body) => {
                                        lemma_cell_record(key, body, rec);
                                    },
                                }
                            }
                            if index.eq_prefix(&rec) {
                                return Some(rec);
                            }
                        },
                    }
                    i = i + 1;
                }
                None
            },
            BtreePage::IndexInterior(pg) => {
                let ghost ptrs = header_view(pg.header).cell_pointers;
                let n = pg.header.cell_pointers.len();
                let mut i: usize = 0;
                while i < n
                    invariant
                        i <= n,
                        pager_wf(*pager),
                        pager_same_file(*pager, *old(pager)),
                        spec_ii_pick(raw, ptrs, ps, rs, key, 0) == spec_ii_pick(
                            raw,
                            ptrs,
                            ps,
                            rs,
                            key,
                            i as nat,
                        ),
                    decreases n - i,
                {
                    let ptr = pg.header.cell_pointers[i];
                    match parse_ii_cell(
                        pg.bytes.as_slice(),
                        ptr as usize,
                        pg.page_size,
                        pg.reserved_space,
                    ) {
                        Err(_) => {
                            return None;
                        },
                        Ok(c) => {
                            proof {
                                match spec_ii_cell(raw, ptrs[i as int] as nat, ps, rs) {
                                    Err(_) => {
                                        assert(false);
                                    },
                                    Ok((ch, body)) => {
                                        lemma_cell_record(key, body, c.1);
                                    },
                                }
                            }
                            if index.eq_prefix(&c.1) {
                                return Some(c.1);
                            }
                            let ord = index.cmp_prefix(&c.1);
                            let le = match ord {
                                Some(Ordering::Less) => true,
                                Some(Ordering::Equal) => true,
                                _ => false,
                            };
                            if le {
                                return self.get_index_rcrs(pager, index, c.0 as usize, depth - 1);
                            }
                        },
                    }
                    i = i + 1;
                }
                match pg.header.right_pointer {
                    Some(rp) => self.get_index_rcrs(pager, index, rp as usize, depth - 1),
                    None => None,
                }
            },
            _ => None,
        }
    }
}

/// The `(row id, record body)` pair of a table-leaf cell.
pub open spec fn spec_tl_pair(raw: Seq<u8>, ptr: nat, ps: nat, rs: nat) -> (i64, Seq<u8>) {
    match spec_tl_cell(raw, ptr, ps, rs) {
        Ok(p) => p,
        Err(_) => (0, Seq::empty()),
    }
}

/// The `(row id, record body)` pairs of the table subtree rooted at
/// `page_num`, visited in order: each child's subtree in cell order,
/// then the right-most child's.  A malformed page, a page of another
/// kind, or an exhausted budget contributes nothing further.
pub open spec fn spec_scan(file: Seq<u8>, ps: nat, rs: nat, page_num: nat, depth: nat) -> Seq<
    (i64, Seq<u8>),
>
    decreases depth, 1int, 0int,
{
    if depth == 0 {
        Seq::empty()
    } else if !(1 <= page_num && page_num * ps <= file.len()) {
        Seq::empty()
    } else {
        let raw = spec_page_raw(file, page_num, ps);
        let off = spec_page_offset(page_num);
        match spec_parse_header(raw.skip(off as int), off) {
            Err(_) => Seq::empty(),
            Ok(hv) => {
                if hv.page_type == PageType::TableLeaf {
                    if forall|i: int|
                        0 <= i < hv.cell_pointers.len() ==> spec_tl_cell_good(
                            raw,
                            (#[trigger] hv.cell_pointers[i]) as nat,
                            ps,
                            rs,
                        ) {
                        Seq::new(
                            hv.cell_pointers.len(),
                            |i: int| spec_tl_pair(raw, hv.cell_pointers[i] as nat, ps, rs),
                        )
                    } else {
                        Seq::empty()
                    }
                } else if hv.page_type == PageType::TableInterior {
                    spec_scan_children(file, ps, rs, raw, hv, depth, 0)
                } else {
                    Seq::empty()
                }
            },
        }
    }
}

/// The pairs of the subtrees under the children of a table-interior
/// page, from cell `i` on, ending with the right-most child's subtree.
pub open spec fn spec_scan_children(
    file: Seq<u8>,
    ps: nat,
    rs: nat,
    raw: Seq<u8>,
    hv: HeaderView,
    depth: nat,
    i: nat,
) -> Seq<(i64, Seq<u8>)>
    decreases depth, 0int, hv.cell_pointers.len() - i,
{
    if depth == 0 {
        Seq::empty()
    } else if i >= hv.cell_pointers.len() {
        match hv.right_pointer {
            Some(rp) => spec_scan(file, ps, rs, rp as nat, (depth - 1) as nat),
            None => Seq::empty(),
        }
    } else {
        match spec_ti_cell(raw, hv.cell_pointers[i as int] as nat) {
            Err(_) => Seq::empty(),
            Ok((child, k)) => spec_scan(file, ps, rs, child as nat, (depth - 1) as nat)
                + spec_scan_children(file, ps, rs, raw, hv, depth, i + 1),
        }
    }
}

/// Whether `v` carries exactly the scan's pairs: the row ids themselves
/// and one record parsed from each body.
pub open spec fn scan_matches(v: Seq<(VarInt, Record)>, s: Seq<(i64, Seq<u8>)>) -> bool {
    &&& v.len() == s.len()
    &&& forall|i: int|
        0 <= i < s.len() ==> (#[trigger] v[i]).0.0 == s[i].0 && record_matches(v[i].1, s[i].1)
}

proof fn lemma_scan_matches_concat(
    v1: Seq<(VarInt, Record)>,
    s1: Seq<(i64, Seq<u8>)>,
    v2: Seq<(VarInt, Record)>,
    s2: Seq<(i64, Seq<u8>)>,
)
    requires
        scan_matches(v1, s1),
        scan_matches(v2, s2),
    ensures
        scan_matches(v1 + v2, s1 + s2),
{
    assert forall|i: int|
        0 <= i < (s1 + s2).len() implies ((#[trigger] (v1 + v2)[i]).0.0 == (s1 + s2)[i].0
        && record_matches((v1 + v2)[i].1, (s1 + s2)[i].1)) by {
        if i < s1.len() {
            assert((v1 + v2)[i] == v1[i]);
            assert((s1 + s2)[i] == s1[i]);
        } else {
            assert((v1 + v2)[i] == v2[i - s1.len()]);
            assert((s1 + s2)[i] == s2[i - s1.len()]);
        }
    }
}

impl Btree {
    /// Full in-order scan of a table B-tree: every `(row id, record)`
    /// pair of the tree, in row order when the file's key order holds.
    pub fn list_records(&self, pager: &mut Pager) -> (r: Vec<(VarInt, Record)>)
        requires
            pager_wf(*old(pager)),
        ensures
            pager_wf(*final(pager)),
            pager_same_file(*final(pager), *old(pager)),
            scan_matches(
                r@,
                spec_scan(
                    old(pager).file@,
                    old(pager).page_size as nat,
                    old(pager).reserved_space as nat,
                    self.root_page as nat,
                    (old(pager).num_pages + 1) as nat,
                ),
            ),
    {
        proof {
            assert((pager.num_pages as int) * 196 <= (pager.num_pages as int) * (
            pager.page_size as int)) by (nonlinear_arith)
                requires
                    pager.page_size >= 196,
            ;
        }
        let depth = pager.num_pages + 1;
        self.list_records_rcrs(pager, self.root_page, depth)
    }

    /// One page of the in-order scan.
    #[verifier::loop_isolation(false)]
    fn list_records_rcrs(&self, pager: &mut Pager, page_num: usize, depth: usize) -> (r: Vec<
        (VarInt, Record),
    >)
        requires
            pager_wf(*old(pager)),
        ensures
            pager_wf(*final(pager)),
            pager_same_file(*final(pager), *old(pager)),
            scan_matches(
                r@,
                spec_scan(
                    old(pager).file@,
                    old(pager).page_size as nat,
                    old(pager).reserved_space as nat,
                    page_num as nat,
                    depth as nat,
                ),
            ),
        decreases depth,
    {
        let ghost file = pager.file@;
        let ghost ps = pager.page_size as nat;
        let ghost rs = pager.reserved_space as nat;
        let mut output: Vec<(VarInt, Record)> = Vec::new();
        if depth == 0 {
            return output;
        }
        proof {
            assert(page_num <= pager.num_pages ==> (page_num as int) * (pager.page_size as int)
                <= (pager.num_pages as int) * (pager.page_size as int)) by (nonlinear_arith);
            assert(page_num > pager.num_pages ==> (page_num as int) * (pager.page_size as int) > (
            pager.num_pages as int) * (pager.page_size as int)) by (nonlinear_arith)
                requires
                    pager.page_size >= 196,
            ;
        }
        let page = match pager.get_page(page_num) {
            Ok(p) => p,
            Err(_) => {
                return output;
            },
        };
        let ghost raw = spec_page_raw(file, page_num as nat, ps);
        match page {
            BtreePage::TableLeaf(pg) => {
                match pg.cells() {
                    Ok(v) => {
                        let ghost hv = header_view(pg.header);
                        proof {
                            let s = spec_scan(file, ps, rs, page_num as nat, depth as nat);
                            assert(s =~= Seq::new(
                                hv.cell_pointers.len(),
                                |i: int| spec_tl_pair(raw, hv.cell_pointers[i] as nat, ps, rs),
                            ));
                        }
                        v
                    },
                    Err(_) => output,
                }
            },
            BtreePage::TableInterior(pg) => {
                let ghost hv = header_view(pg.header);
                let n = pg.header.cell_pointers.len();
                let ghost mut sacc: Seq<(i64, Seq<u8>)> = Seq::empty();
                let mut i: usize = 0;
                proof {
                    assert(output@ =~= Seq::<(VarInt, Record)>::empty());
                }
                while i < n
                    invariant
                        i <= n,
                        pager_wf(*pager),
                        pager_same_file(*pager, *old(pager)),
                        scan_matches(output@, sacc),
                        spec_scan_children(file, ps, rs, raw, hv, depth as nat, 0) == sacc
                            + spec_scan_children(file, ps, rs, raw, hv, depth as nat, i as nat),
                    decreases n - i,
                {
                    let ptr = pg.header.cell_pointers[i];
                    match parse_ti_cell(pg.bytes.as_slice(), ptr as usize) {
                        Err(_) => {
                            proof {
                                assert(sacc + Seq::<(i64, Seq<u8>)>::empty() =~= sacc);
                            }
                            return output;
                        },
                        Ok(c) => {
                            let mut sub = self.list_records_rcrs(pager, c.0 as usize, depth - 1);
                            let ghost subspec = spec_scan(
                                file,
                                ps,
                                rs,
                                c.0 as nat,
                                (depth - 1) as nat,
                            );
                            proof {
                                lemma_scan_matches_concat(output@, sacc, sub@, subspec);
                                assert((sacc + subspec) + spec_scan_children(
                                    file,
                                    ps,
                                    rs,
                                    raw,
                                    hv,
                                    depth as nat,
                                    (i + 1) as nat,
                                ) =~= sacc + (subspec + spec_scan_children(
                                    file,
                                    ps,
                                    rs,
                                    raw,
                                    hv,
                                    depth as nat,
                                    (i + 1) as nat,
                                )));
                            }
                            output.append(&mut sub);
                            proof {
                                sacc = sacc + subspec;
                            }
                        },
                    }
                    i = i + 1;
                }
                match pg.header.right_pointer {
                    Some(rp) => {
                        let mut sub = self.list_records_rcrs(pager, rp as usize, depth - 1);
                        let ghost subspec = spec_scan(file, ps, rs, rp as nat, (depth - 1) as nat);
                        proof {
                            lemma_scan_matches_concat(output@, sacc, sub@, subspec);
                        }
                        output.append(&mut sub);
                        output
                    },
                    None => {
                        proof {
                            assert(sacc + Seq::<(i64, Seq<u8>)>::empty() =~= sacc);
                        }
                        output
                    },
                }
            },
            _ => output,
        }
    }
}

/// The row-id key of a table-interior cell.
pub open spec fn spec_ti_key(raw: Seq<u8>, ptr: nat) -> i64 {
    match spec_ti_cell(raw, ptr) {
        Ok((c, k)) => k,
        Err(_) => 0,
    }
}

/// The left-child page number of a table-interior cell.
pub open spec fn spec_ti_child(raw: Seq<u8>, ptr: nat) -> u32 {
    match spec_ti_cell(raw, ptr) {
        Ok((c, k)) => c,
        Err(_) => 0,
    }
}

/// The open lower bound of the `i`-th child's row ids: the key of the
/// cell before it, or the page's own lower bound for the first child.
pub open spec fn spec_child_lo(raw: Seq<u8>, ptrs: Seq<u16>, i: int, lo: int) -> int {
    if i == 0 {
        lo
    } else {
        spec_ti_key(raw, ptrs[i - 1] as nat) as int
    }
}

/// The key-order invariant of a table B-tree subtree, §3 of the file
/// format: every row id lies in `(lo, hi]`; a leaf holds its cells in
/// strictly increasing row-id order; an interior page holds
/// non-decreasing keys, each child's subtree bounded by the keys around
/// it, and the right-most child above the last key.
pub open spec fn table_subtree_wf(
    file: Seq<u8>,
    ps: nat,
    rs: nat,
    page_num: nat,
    depth: nat,
    lo: int,
    hi: int,
) -> bool
    decreases depth,
{
    &&& depth >= 1
    &&& 1 <= page_num && page_num * ps <= file.len()
    &&& match spec_parse_header(
        spec_page_raw(file, page_num, ps).skip(spec_page_offset(page_num) as int),
        spec_page_offset(page_num),
    ) {
        Err(_) => false,
        Ok(hv) => {
            let raw = spec_page_raw(file, page_num, ps);
            let ptrs = hv.cell_pointers;
            if hv.page_type == PageType::TableLeaf {
                &&& forall|j: int|
                    0 <= j < ptrs.len() ==> spec_tl_cell_good(
                        raw,
                        (#[trigger] ptrs[j]) as nat,
                        ps,
                        rs,
                    )
                &&& forall|j: int|
                    0 <= j < ptrs.len() ==> lo < spec_tl_pair(
                        raw,
                        (#[trigger] ptrs[j]) as nat,
                        ps,
                        rs,
                    ).0 <= hi
                &&& forall|j1: int, j2: int|
                    0 <= j1 < j2 < ptrs.len() ==> spec_tl_pair(
                        raw,
                        (#[trigger] ptrs[j1]) as nat,
                        ps,
                        rs,
                    ).0 < spec_tl_pair(raw, (#[trigger] ptrs[j2]) as nat, ps, rs).0
            } else if hv.page_type == PageType::TableInterior {
                &&& hv.right_pointer is Some
                &&& forall|j: int|
                    0 <= j < ptrs.len() ==> spec_ti_cell(raw, (#[trigger] ptrs[j]) as nat) is Ok
                &&& forall|j: int|
                    0 <= j < ptrs.len() ==> lo < spec_ti_key(raw, (#[trigger] ptrs[j]) as nat)
                        <= hi
                &&& forall|j1: int, j2: int|
                    0 <= j1 < j2 < ptrs.len() ==> spec_ti_key(raw, (#[trigger] ptrs[j1]) as nat)
                        <= spec_ti_key(raw, (#[trigger] ptrs[j2]) as nat)
                &&& forall|j: int|
                    0 <= j < ptrs.len() ==> table_subtree_wf(
                        file,
                        ps,
                        rs,
                        spec_ti_child(raw, (#[trigger] ptrs[j]) as nat) as nat,
                        (depth - 1) as nat,
                        spec_child_lo(raw, ptrs, j, lo),
                        spec_ti_key(raw, ptrs[j] as nat) as int,
                    )
                &&& table_subtree_wf(
                    file,
                    ps,
                    rs,
                    hv.right_pointer->0 as nat,
                    (depth - 1) as nat,
                    spec_child_lo(raw, ptrs, ptrs.len() as int, lo),
                    hi,
                )
            } else {
                false
            }
        },
    }
}

proof fn lemma_children_bounds(
    file: Seq<u8>,
    ps: nat,
    rs: nat,
    page_num: nat,
    depth: nat,
    hv: HeaderView,
    i: nat,
    lo: int,
    hi: int,
)
    requires
        table_subtree_wf(file, ps, rs, page_num, depth, lo, hi),
        spec_parse_header(
            spec_page_raw(file, page_num, ps).skip(spec_page_offset(page_num) as int),
            spec_page_offset(page_num),
        ) == Ok::<HeaderView, Error>(hv),
        hv.page_type == PageType::TableInterior,
        0 <= i <= hv.cell_pointers.len(),
    ensures
        ({
            let raw = spec_page_raw(file, page_num, ps);
            let s = spec_scan_children(file, ps, rs, raw, hv, depth, i);
            forall|t: int|
                0 <= t < s.len() ==> spec_child_lo(raw, hv.cell_pointers, i as int, lo) < (
                #[trigger] s[t]).0 <= hi
        }),
    decreases depth, 0int, hv.cell_pointers.len() - i,
{
    let raw = spec_page_raw(file, page_num, ps);
    let ptrs = hv.cell_pointers;
    let clo = spec_child_lo(raw, ptrs, i as int, lo);
    if i < ptrs.len() {
        assert(spec_ti_cell(raw, ptrs[i as int] as nat) is Ok);
        let key = spec_ti_key(raw, ptrs[i as int] as nat) as int;
        let child = spec_ti_child(raw, ptrs[i as int] as nat) as nat;
        if i == 0 {
            assert(lo < spec_ti_key(raw, ptrs[0] as nat));
        } else {
            assert(spec_ti_key(raw, ptrs[i as int - 1] as nat) <= spec_ti_key(
                raw,
                ptrs[i as int] as nat,
            ));
        }
        assert(clo <= key);
        let sub = spec_scan(file, ps, rs, child, (depth - 1) as nat);
        lemma_scan_bounds(file, ps, rs, child, (depth - 1) as nat, clo, key);
        lemma_children_bounds(file, ps, rs, page_num, depth, hv, i + 1, lo, hi);
        let rest = spec_scan_children(file, ps, rs, raw, hv, depth, i + 1);
        let s = spec_scan_children(file, ps, rs, raw, hv, depth, i);
        assert(s == sub + rest);
        assert(key <= hi);
        assert(spec_child_lo(raw, ptrs, i as int + 1, lo) == key);
        assert forall|t: int| 0 <= t < s.len() implies clo < (#[trigger] s[t]).0 <= hi by {
            if t < sub.len() {
                assert(s[t] == sub[t]);
                assert(clo < sub[t].0 <= key);
            } else {
                assert(s[t] == rest[t - sub.len()]);
                assert(key < rest[t - sub.len()].0 <= hi);
            }
        }
    } else {
        match hv.right_pointer {
            Some(rp) => {
                let s = spec_scan_children(file, ps, rs, raw, hv, depth, i);
                assert(s == spec_scan(file, ps, rs, rp as nat, (depth - 1) as nat));
                lemma_scan_bounds(file, ps, rs, rp as nat, (depth - 1) as nat, clo, hi);
            },
            None => {
                assert(false);
            },
        }
    }
}

proof fn lemma_scan_bounds(
    file: Seq<u8>,
    ps: nat,
    rs: nat,
    page_num: nat,
    depth: nat,
    lo: int,
    hi: int,
)
    requires
        table_subtree_wf(file, ps, rs, page_num, depth, lo, hi),
    ensures
        ({
            let s = spec_scan(file, ps, rs, page_num, depth);
            forall|t: int| 0 <= t < s.len() ==> lo < (#[trigger] s[t]).0 <= hi
        }),
    decreases depth, 1int, 0int,
{
    let raw = spec_page_raw(file, page_num, ps);
    let off = spec_page_offset(page_num);
    match spec_parse_header(raw.skip(off as int), off) {
        Err(_) => {
            assert(false);
        },
        Ok(hv) => {
            let ptrs = hv.cell_pointers;
            let s = spec_scan(file, ps, rs, page_num, depth);
            if hv.page_type == PageType::TableLeaf {
                assert(s.len() == ptrs.len());
                assert forall|t: int| 0 <= t < s.len() implies lo < (#[trigger] s[t]).0 <= hi by {
                    assert(s[t] == spec_tl_pair(raw, ptrs[t] as nat, ps, rs));
                    assert(lo < spec_tl_pair(raw, ptrs[t] as nat, ps, rs).0 <= hi);
                }
            } else {
                assert(s == spec_scan_children(file, ps, rs, raw, hv, depth, 0));
                lemma_children_bounds(file, ps, rs, page_num, depth, hv, 0, lo, hi);
                assert(spec_child_lo(raw, ptrs, 0, lo) == lo);
            }
        },
    }
}

proof fn lemma_pick_not_bad(raw: Seq<u8>, ptrs: Seq<u16>, rid: i64, i: nat)
    requires
        forall|j: int| 0 <= j < ptrs.len() ==> spec_ti_cell(raw, (#[trigger] ptrs[j]) as nat) is Ok,
        i <= ptrs.len(),
    ensures
        !(spec_ti_pick(raw, ptrs, rid, i) is Bad),
    decreases ptrs.len() - i,
{
    if i < ptrs.len() {
        assert(spec_ti_cell(raw, ptrs[i as int] as nat) is Ok);
        lemma_pick_not_bad(raw, ptrs, rid, i + 1);
    }
}

proof fn lemma_children_descent(
    file: Seq<u8>,
    ps: nat,
    rs: nat,
    page_num: nat,
    depth: nat,
    hv: HeaderView,
    i: nat,
    lo: int,
    hi: int,
    k: int,
    r: Option<Record>,
)
    requires
        table_subtree_wf(file, ps, rs, page_num, depth, lo, hi),
        spec_parse_header(
            spec_page_raw(file, page_num, ps).skip(spec_page_offset(page_num) as int),
            spec_page_offset(page_num),
        ) == Ok::<HeaderView, Error>(hv),
        hv.page_type == PageType::TableInterior,
        0 <= i <= hv.cell_pointers.len(),
        0 <= k < spec_scan_children(
            file,
            ps,
            rs,
            spec_page_raw(file, page_num, ps),
            hv,
            depth,
            i,
        ).len(),
        ({
            let raw = spec_page_raw(file, page_num, ps);
            let pair = spec_scan_children(file, ps, rs, raw, hv, depth, i)[k];
            match spec_ti_pick(raw, hv.cell_pointers, pair.0, i) {
                InteriorStep::Bad => false,
                InteriorStep::Child(c) => spec_get_row_rel(
                    file,
                    ps,
                    rs,
                    pair.0,
                    c as nat,
                    (depth - 1) as nat,
                    r,
                ),
                InteriorStep::RightMost => match hv.right_pointer {
                    Some(rp) => spec_get_row_rel(
                        file,
                        ps,
                        rs,
                        pair.0,
                        rp as nat,
                        (depth - 1) as nat,
                        r,
                    ),
                    None => false,
                },
            }
        }),
    ensures
        ({
            let pair = spec_scan_children(
                file,
                ps,
                rs,
                spec_page_raw(file, page_num, ps),
                hv,
                depth,
                i,
            )[k];
            r matches Some(rec) && record_matches(rec, pair.1)
        }),
    decreases depth, 0int, hv.cell_pointers.len() - i,
{
    let raw = spec_page_raw(file, page_num, ps);
    let ptrs = hv.cell_pointers;
    let clo = spec_child_lo(raw, ptrs, i as int, lo);
    let s = spec_scan_children(file, ps, rs, raw, hv, depth, i);
    let pair = s[k];
    if i < ptrs.len() {
        let key = spec_ti_key(raw, ptrs[i as int] as nat) as int;
        let child = spec_ti_child(raw, ptrs[i as int] as nat) as nat;
        let sub = spec_scan(file, ps, rs, child, (depth - 1) as nat);
        let rest = spec_scan_children(file, ps, rs, raw, hv, depth, i + 1);
        assert(s == sub + rest);
        if k < sub.len() {
            assert(pair == sub[k]);
            lemma_scan_bounds(file, ps, rs, child, (depth - 1) as nat, clo, key);
            assert(pair.0 <= key);
            assert(spec_ti_pick(raw, ptrs, pair.0, i) == InteriorStep::Child(
                spec_ti_child(raw, ptrs[i as int] as nat),
            ));
            lemma_descent_finds_scanned_wf(
                file,
                ps,
                rs,
                child,
                (depth - 1) as nat,
                clo,
                key,
                k,
                r,
            );
        } else {
            assert(pair == rest[k - sub.len()]);
            lemma_children_bounds(file, ps, rs, page_num, depth, hv, i + 1, lo, hi);
            assert(spec_child_lo(raw, ptrs, i as int + 1, lo) == key);
            assert(pair.0 > key);
            assert(spec_ti_pick(raw, ptrs, pair.0, i) == spec_ti_pick(raw, ptrs, pair.0, i + 1));
            lemma_children_descent(
                file,
                ps,
                rs,
                page_num,
                depth,
                hv,
                i + 1,
                lo,
                hi,
                k - sub.len(),
                r,
            );
        }
    } else {
        match hv.right_pointer {
            Some(rp) => {
                assert(spec_ti_pick(raw, ptrs, pair.0, i) == InteriorStep::RightMost);
                lemma_descent_finds_scanned_wf(
                    file,
                    ps,
                    rs,
                    rp as nat,
                    (depth - 1) as nat,
                    clo,
                    hi,
                    k,
                    r,
                );
            },
            None => {
                assert(false);
            },
        }
    }
}

/// Descent correctness: in a table B-tree that keeps the key-order
/// invariant of the file format, looking up the row id of any pair the
/// full scan yields returns exactly that pair's record.
pub proof fn lemma_descent_finds_scanned_wf(
    file: Seq<u8>,
    ps: nat,
    rs: nat,
    page_num: nat,
    depth: nat,
    lo: int,
    hi: int,
    k: int,
    r: Option<Record>,
)
    requires
        table_subtree_wf(file, ps, rs, page_num, depth, lo, hi),
        0 <= k < spec_scan(file, ps, rs, page_num, depth).len(),
        spec_get_row_rel(
            file,
            ps,
            rs,
            spec_scan(file, ps, rs, page_num, depth)[k].0,
            page_num,
            depth,
            r,
        ),
    ensures
        r matches Some(rec) && record_matches(rec, spec_scan(file, ps, rs, page_num, depth)[k].1),
    decreases depth, 1int, 0int,
{
    let raw = spec_page_raw(file, page_num, ps);
    let off = spec_page_offset(page_num);
    let s = spec_scan(file, ps, rs, page_num, depth);
    match spec_parse_header(raw.skip(off as int), off) {
        Err(_) => {
            assert(false);
        },
        Ok(hv) => {
            let ptrs = hv.cell_pointers;
            if hv.page_type == PageType::TableLeaf {
                assert(s.len() == ptrs.len());
                assert(s[k] == spec_tl_pair(raw, ptrs[k] as nat, ps, rs));
                assert forall|j: int|
                    0 <= j < ptrs.len() && j != k implies spec_tl_pair(
                    raw,
                    (#[trigger] ptrs[j]) as nat,
                    ps,
                    rs,
                ).0 != spec_tl_pair(raw, ptrs[k] as nat, ps, rs).0 by {
                    if j < k {
                        assert(spec_tl_pair(raw, ptrs[j] as nat, ps, rs).0 < spec_tl_pair(
                            raw,
                            ptrs[k] as nat,
                            ps,
                            rs,
                        ).0);
                    } else {
                        assert(spec_tl_pair(raw, ptrs[k] as nat, ps, rs).0 < spec_tl_pair(
                            raw,
                            ptrs[j] as nat,
                            ps,
                            rs,
                        ).0);
                    }
                }
                lemma_tl_find_unique(raw, ptrs, ps, rs, k, 0);
                assert(spec_tl_cell_good(raw, ptrs[k] as nat, ps, rs));
            } else {
                assert(s == spec_scan_children(file, ps, rs, raw, hv, depth, 0));
                lemma_pick_not_bad(raw, ptrs, s[k].0, 0);
                match spec_ti_pick(raw, ptrs, s[k].0, 0) {
                    InteriorStep::Bad => {
                        assert(false);
                    },
                    InteriorStep::Child(c) => {
                        assert(spec_get_row_rel(
                            file,
                            ps,
                            rs,
                            s[k].0,
                            c as nat,
                            (depth - 1) as nat,
                            r,
                        ));
                    },
                    InteriorStep::RightMost => {
                        match hv.right_pointer {
                            Some(rp) => {
                                assert(spec_get_row_rel(
                                    file,
                                    ps,
                                    rs,
                                    s[k].0,
                                    rp as nat,
                                    (depth - 1) as nat,
                                    r,
                                ));
                            },
                            None => {
                                assert(false);
                            },
                        }
                    },
                }
                lemma_children_descent(file, ps, rs, page_num, depth, hv, 0, lo, hi, k, r);
            }
        },
    }
}

proof fn lemma_tl_find_unique(raw: Seq<u8>, ptrs: Seq<u16>, ps: nat, rs: nat, k: int, i: nat)
    requires
        forall|j: int|
            0 <= j < ptrs.len() ==> spec_tl_cell_good(raw, (#[trigger] ptrs[j]) as nat, ps, rs),
        forall|j: int|
            0 <= j < ptrs.len() && j != k ==> spec_tl_pair(raw, (#[trigger] ptrs[j]) as nat, ps, rs).0
                != spec_tl_pair(raw, ptrs[k] as nat, ps, rs).0,
        0 <= i <= k < ptrs.len(),
    ensures
        spec_tl_find(raw, ptrs, ps, rs, spec_tl_pair(raw, ptrs[k] as nat, ps, rs).0, i) == Some(k),
    decreases k - i,
{
    let rid = spec_tl_pair(raw, ptrs[k] as nat, ps, rs).0;
    assert(spec_tl_cell_good(raw, ptrs[i as int] as nat, ps, rs));
    assert(spec_tl_cell_good(raw, ptrs[k] as nat, ps, rs));
    if i as int == k {
    } else {
        assert(spec_tl_pair(raw, ptrs[i as int] as nat, ps, rs).0 != rid);
        lemma_tl_find_unique(raw, ptrs, ps, rs, k, i + 1);
    }
}

proof fn lemma_il_find_first(raw: Seq<u8>, ptrs: Seq<u16>, ps: nat, rs: nat, key: Seq<Value>, k: int, i: nat)
    requires
        forall|j: int|
            0 <= j < ptrs.len() ==> spec_il_cell_good(raw, (#[trigger] ptrs[j]) as nat, ps, rs),
        forall|j: int|
            0 <= j < k ==> !spec_key_eq_cell(
                key,
                spec_il_body(raw, (#[trigger] ptrs[j]) as nat, ps, rs),
            ),
        spec_key_eq_cell(key, spec_il_body(raw, ptrs[k] as nat, ps, rs)),
        0 <= i <= k < ptrs.len(),
    ensures
        spec_il_find(raw, ptrs, ps, rs, key, i) == Some(k),
    decreases k - i,
{
    assert(spec_il_cell_good(raw, ptrs[i as int] as nat, ps, rs));
    assert(spec_il_cell_good(raw, ptrs[k] as nat, ps, rs));
    if i as int == k {
    } else {
        assert(!spec_key_eq_cell(key, spec_il_body(raw, ptrs[i as int] as nat, ps, rs)));
        lemma_il_find_first(raw, ptrs, ps, rs, key, k, i + 1);
    }
}

/// The payload body of an index-leaf cell.
pub open spec fn spec_il_body(raw: Seq<u8>, ptr: nat, ps: nat, rs: nat) -> Seq<u8> {
    match spec_il_cell(raw, ptr, ps, rs) {
        Ok(body) => body,
        Err(_) => Seq::empty(),
    }
}

/// Index descent correctness on a one-page index tree: when the root is
/// an index leaf whose cells all parse, probing with a key that equals
/// cell `k`'s record and no earlier cell's returns exactly that cell's
/// record.  (A search key holding a NaN double equals no cell at all
/// and finds nothing.)
pub proof fn lemma_leaf_index_probe_finds_entry(
    file: Seq<u8>,
    ps: nat,
    rs: nat,
    page_num: nat,
    depth: nat,
    hv: HeaderView,
    key: Seq<Value>,
    k: int,
    r: Option<Record>,
)
    requires
        depth >= 1,
        1 <= page_num && page_num * ps <= file.len(),
        spec_parse_header(
            spec_page_raw(file, page_num, ps).skip(spec_page_offset(page_num) as int),
            spec_page_offset(page_num),
        ) == Ok::<HeaderView, Error>(hv),
        hv.page_type == PageType::IndexLeaf,
        forall|j: int|
            0 <= j < hv.cell_pointers.len() ==> spec_il_cell_good(
                spec_page_raw(file, page_num, ps),
                (#[trigger] hv.cell_pointers[j]) as nat,
                ps,
                rs,
            ),
        0 <= k < hv.cell_pointers.len(),
        forall|j: int|
            0 <= j < k ==> !spec_key_eq_cell(
                key,
                spec_il_body(
                    spec_page_raw(file, page_num, ps),
                    (#[trigger] hv.cell_pointers[j]) as nat,
                    ps,
                    rs,
                ),
            ),
        spec_key_eq_cell(
            key,
            spec_il_body(spec_page_raw(file, page_num, ps), hv.cell_pointers[k] as nat, ps, rs),
        ),
        spec_get_index_rel(file, ps, rs, key, page_num, depth, r),
    ensures
        r matches Some(rec) && record_matches(
            rec,
            spec_il_body(spec_page_raw(file, page_num, ps), hv.cell_pointers[k] as nat, ps, rs),
        ),
{
    let raw = spec_page_raw(file, page_num, ps);
    let ptrs = hv.cell_pointers;
    lemma_il_find_first(raw, ptrs, ps, rs, key, k, 0);
    assert(spec_il_cell_good(raw, ptrs[k] as nat, ps, rs));
}

} // verus!
