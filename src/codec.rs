use vstd::prelude::*;
use crate::types::{
    datum_has_type, datum_view, DataType, Datum, DatumValue, OrderType, Row, ScalarImpl,
    ScalarValue, TableError,
};

verus! {

#[verifier::external_type_specification]
#[verifier::external_body]
pub struct ExMemcmpError(memcomparable::Error);

/// Four bytes, most significant first.
pub open spec fn be4(x: u32) -> Seq<u8> {
    seq![(x >> 24u32) as u8, (x >> 16u32) as u8, (x >> 8u32) as u8, x as u8]
}

/// An `i32` shifted into `u32` so that unsigned order is signed order.
pub open spec fn flip_sign(v: i32) -> u32 {
    (v as int + 0x8000_0000) as u32
}

/// The order-preserving encoding of an `i32`.
pub open spec fn i32_encoding(v: i32) -> Seq<u8> {
    be4(flip_sign(v))
}

/// What `memcomparable::to_vec` makes of a string with the characters `s`.
pub uninterp spec fn memcmp_str(s: Seq<char>) -> Seq<u8>;

/// Groups of nine bytes, read until one whose last byte is not 9.
pub open spec fn chunks_readable(c: Seq<u8>) -> bool
    decreases c.len(),
{
    c.len() >= 9 && (c[8] == 9 ==> chunks_readable(c.skip(9)))
}

/// Bytes from which a byte string can be read without running out of input:
/// a tag byte, then, for a tag of 1, the groups of nine.
pub open spec fn str_readable(b: Seq<u8>) -> bool {
    b.len() >= 1 && (b[0] == 1 ==> chunks_readable(b.skip(1)))
}

/// Relies on `memcomparable::to_vec` on an `i32`: the value with its sign bit
/// flipped, as four big-endian bytes; it does not fail.
#[verifier::external_body]
fn memcmp_encode_i32(v: i32) -> (r: Result<Vec<u8>, memcomparable::Error>)
    ensures
        r is Ok,
        r->Ok_0@ == i32_encoding(v),
{
    memcomparable::to_vec(&v)
}

/// Relies on `memcomparable::from_slice::<i32>`: four big-endian bytes with the
/// sign bit flipped back.
#[verifier::external_body]
fn memcmp_decode_i32(b: &[u8]) -> (r: Result<i32, memcomparable::Error>)
    requires
        b@.len() == 4,
    ensures
        r is Ok,
        i32_encoding(r->Ok_0) == b@,
{
    memcomparable::from_slice::<i32>(b)
}

/// Relies on `memcomparable::to_vec` on a string: the tag byte and the groups of
/// nine that its reader walks; it does not fail.
#[verifier::external_body]
fn memcmp_encode_str(s: &str) -> (r: Result<Vec<u8>, memcomparable::Error>)
    ensures
        r is Ok,
        r->Ok_0@ == memcmp_str(s@),
        str_readable(r->Ok_0@),
{
    memcomparable::to_vec(&s)
}

/// Relies on `memcomparable::from_slice::<String>`: it reads back what
/// `memcomparable::to_vec` wrote for a string.
#[verifier::external_body]
fn memcmp_decode_str(b: &[u8]) -> (r: Result<String, memcomparable::Error>)
    requires
        str_readable(b@),
    ensures
        forall|s: Seq<char>| #[trigger] memcmp_str(s) == b@ ==> r is Ok && r->Ok_0@ == s,
{
    memcomparable::from_slice::<String>(b)
}

/// Whether bytes can be handed to the string reader without running out.
fn check_str_readable(b: &[u8]) -> (r: bool)
    ensures
        r == str_readable(b@),
{
    if b.len() == 0 {
        return false;
    }
    if b[0] != 1 {
        return true;
    }
    let mut pos: usize = 1;
    while pos <= b.len()
        invariant
            1 <= pos <= b.len() + 9,
            b@.len() >= 1,
            b@[0] == 1,
            str_readable(b@) == (pos <= b@.len() && chunks_readable(b@.skip(pos as int))),
        decreases b.len() + 9 - pos,
    {
        let ghost c = b@.skip(pos as int);
        if b.len() - pos < 9 {
            return false;
        }
        if b[pos + 8] != 9 {
            return true;
        }
        assert(c.skip(9) =~= b@.skip(pos + 9));
        pos = pos + 9;
        if pos > b.len() {
            assert(b@.skip(pos - 9).len() == 9);
            assert(!chunks_readable(b@.skip(pos - 9).skip(9)));
        }
    }
    false
}

/// Bytes `from..` of `b`.
fn tail_of(b: &[u8], from: usize) -> (r: Vec<u8>)
    requires
        from <= b@.len(),
    ensures
        r@ == b@.skip(from as int),
{
    let mut r: Vec<u8> = Vec::new();
    let mut i: usize = from;
    while i < b.len()
        invariant
            from <= i <= b@.len(),
            r@ == b@.subrange(from as int, i as int),
        decreases b.len() - i,
    {
        r.push(b[i]);
        i = i + 1;
    }
    assert(r@ =~= b@.skip(from as int));
    r
}

/// The encoding of a datum: a tag byte, 0 for null and 1 for a value, then the value.
pub open spec fn datum_encoding(d: DatumValue) -> Seq<u8> {
    match d {
        None => seq![0u8],
        Some(ScalarValue::Int(v)) => seq![1u8] + i32_encoding(v),
        Some(ScalarValue::Str(s)) => seq![1u8] + memcmp_str(s),
    }
}

/// Whether the encoding of a datum can be handed to its reader: always so
/// for the encodings that `serialize_datum` writes.
pub open spec fn datum_readable(d: DatumValue) -> bool {
    match d {
        Some(ScalarValue::Str(s)) => str_readable(memcmp_str(s)),
        _ => true,
    }
}

/// Encodes a datum as a cell value.
pub fn serialize_datum(d: &Datum) -> (r: Result<Vec<u8>, TableError>)
    ensures
        r matches Ok(b) && b@ == datum_encoding(datum_view(*d)),
        datum_readable(datum_view(*d)),
{
    let mut out: Vec<u8> = Vec::new();
    match d {
        None => {
            out.push(0u8);
            assert(out@ =~= seq![0u8]);
            Ok(out)
        },
        Some(s) => {
            let enc = match s {
                ScalarImpl::Int32(v) => memcmp_encode_i32(*v),
                ScalarImpl::Utf8(t) => memcmp_encode_str(t.as_str()),
            };
            match enc {
                Ok(mut bytes) => {
                    out.push(1u8);
                    out.append(&mut bytes);
                    Ok(out)
                },
                Err(_) => Err(TableError::Codec),
            }
        },
    }
}

/// Decodes a cell value of a column of type `t`.
pub fn deserialize_datum(b: &[u8], t: DataType) -> (r: Result<Datum, TableError>)
    ensures
        forall|d: DatumValue|
            datum_has_type(d, t) && datum_readable(d) && #[trigger] datum_encoding(d) == b@ ==> (r matches Ok(x)
                && datum_view(x) == d),
        r matches Ok(x) ==> datum_has_type(datum_view(x), t),
        t == DataType::Int32 ==> (r is Ok <==> (b@ == seq![0u8] || (b@.len() == 5 && b@[0]
            == 1))),
        b@.len() == 0 ==> r is Err,
{
    if b.len() == 0 {
        return Err(TableError::Codec);
    }
    if b[0] == 0 {
        if b.len() == 1 {
            assert(b@ =~= seq![0u8]);
            return Ok(None);
        }
        proof {
            assert forall|d: DatumValue| #[trigger] datum_encoding(d) != b@ by {
                if d is Some {
                    assert(datum_encoding(d)[0] == 1);
                }
            }
        }
        return Err(TableError::Codec);
    }
    if b[0] != 1 {
        proof {
            assert forall|d: DatumValue| #[trigger] datum_encoding(d) != b@ by {
                assert(datum_encoding(d)[0] == 0 || datum_encoding(d)[0] == 1);
            }
        }
        return Err(TableError::Codec);
    }
    let rest = tail_of(b, 1);
    proof {
        assert forall|d: DatumValue| #[trigger] datum_encoding(d) == b@ && d is Some implies
            datum_encoding(d).skip(1) == rest@ by {}
    }
    match t {
        DataType::Int32 => {
            if rest.len() != 4 {
                return Err(TableError::Codec);
            }
            match memcmp_decode_i32(rest.as_slice()) {
                Ok(v) => {
                    proof {
                        assert forall|d: DatumValue|
                            datum_has_type(d, t) && #[trigger] datum_encoding(d) == b@ implies
                            datum_view(Some(ScalarImpl::Int32(v))) == d by {
                            if let Some(ScalarValue::Int(w)) = d {
                                assert(datum_encoding(d).skip(1) =~= i32_encoding(w));
                                lemma_i32_encoding_injective(v, w);
                            } else {
                                assert(datum_encoding(d) =~= seq![0u8]);
                            }
                        }
                    }
                    Ok(Some(ScalarImpl::Int32(v)))
                },
                Err(_) => Err(TableError::Codec),
            }
        },
        DataType::Varchar => {
            if !check_str_readable(rest.as_slice()) {
                proof {
                    assert forall|d: DatumValue|
                        datum_has_type(d, t) && datum_readable(d) && #[trigger] datum_encoding(d) == b@ implies false by {
                        if let Some(ScalarValue::Str(s)) = d {
                            assert(datum_encoding(d).skip(1) =~= memcmp_str(s));
                        }
                    }
                }
                return Err(TableError::Codec);
            }
            match memcmp_decode_str(rest.as_slice()) {
                Ok(s) => {
                    proof {
                        assert forall|d: DatumValue|
                            datum_has_type(d, t) && #[trigger] datum_encoding(d) == b@ implies
                            datum_view(Some(ScalarImpl::Utf8(s))) == d by {
                            if let Some(ScalarValue::Str(w)) = d {
                                assert(datum_encoding(d).skip(1) =~= memcmp_str(w));
                                assert(memcmp_str(w) == rest@);
                            } else {
                                assert(datum_encoding(d) =~= seq![0u8]);
                            }
                        }
                    }
                    Ok(Some(ScalarImpl::Utf8(s)))
                },
                Err(_) => {
                    proof {
                        assert forall|d: DatumValue|
                            datum_has_type(d, t) && #[trigger] datum_encoding(d) == b@ implies false by {
                            if let Some(ScalarValue::Str(w)) = d {
                                assert(datum_encoding(d).skip(1) =~= memcmp_str(w));
                                assert(memcmp_str(w) == rest@);
                            }
                        }
                    }
                    Err(TableError::Codec)
                },
            }
        },
    }
}

/// Four big-endian bytes determine the number.
pub proof fn lemma_be4_injective(x: u32, y: u32)
    requires
        be4(x) == be4(y),
    ensures
        x == y,
{
    assert(be4(x)[0] == be4(y)[0]);
    assert(be4(x)[1] == be4(y)[1]);
    assert(be4(x)[2] == be4(y)[2]);
    assert(be4(x)[3] == be4(y)[3]);
    assert(((x >> 24u32) as u8 == (y >> 24u32) as u8 && (x >> 16u32) as u8 == (y >> 16u32) as u8
        && (x >> 8u32) as u8 == (y >> 8u32) as u8 && x as u8 == y as u8) ==> x == y)
        by (bit_vector);
}

/// Distinct integers have distinct encodings.
pub proof fn lemma_i32_encoding_injective(v: i32, w: i32)
    requires
        i32_encoding(v) == i32_encoding(w),
    ensures
        v == w,
{
    lemma_be4_injective(flip_sign(v), flip_sign(w));
}

} // verus!
