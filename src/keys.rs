use vstd::prelude::*;
use crate::codec::{be4, datum_encoding, serialize_datum};
use crate::types::{datum_view, DatumValue, OrderType, Row, TableError};

verus! {

/// Every byte inverted, which reverses the order of equal-length strings.
pub open spec fn flip_bytes(b: Seq<u8>) -> Seq<u8> {
    b.map_values(|x: u8| (255 - x) as u8)
}

/// The part of a key that one primary-key column contributes.
pub open spec fn column_key_part(d: DatumValue, o: OrderType) -> Seq<u8> {
    match o {
        OrderType::Ascending => datum_encoding(d),
        OrderType::Descending => flip_bytes(datum_encoding(d)),
    }
}

/// The encoding of a primary key: its columns' parts, one after another.
pub open spec fn pk_encoding(pk: Seq<DatumValue>, orders: Seq<OrderType>) -> Seq<u8>
    decreases pk.len(),
{
    if pk.len() == 0 {
        Seq::empty()
    } else {
        pk_encoding(pk.drop_last(), orders) + column_key_part(pk.last(), orders[pk.len() - 1])
    }
}

/// The key of one cell: keyspace prefix, encoded primary key, column index.
pub open spec fn cell_key(prefix: Seq<u8>, pk: Seq<u8>, column: u32) -> Seq<u8> {
    prefix + pk + be4(column)
}

/// Encodes a primary key under the given column directions.
pub fn serialize_pk(pk: &Row, orders: &Vec<OrderType>) -> (r: Result<Vec<u8>, TableError>)
    requires
        pk@.len() == orders@.len(),
    ensures
        r is Ok,
        r->Ok_0@ == pk_encoding(pk@, orders@),
{
    let mut out: Vec<u8> = Vec::new();
    let mut n: usize = 0;
    while n < pk.0.len()
        invariant
            n <= pk@.len(),
            pk@.len() == pk.0@.len(),
            pk@.len() == orders@.len(),
            out@ == pk_encoding(pk@.take(n as int), orders@),
        decreases pk.0.len() - n,
    {
        let part = serialize_datum(&pk.0[n]);
        let mut bytes = match part {
            Ok(b) => b,
            Err(e) => {
                return Err(e);
            },
        };
        let ghost enc = bytes@;
        if orders[n] == OrderType::Descending {
            let mut j: usize = 0;
            while j < bytes.len()
                invariant
                    j <= bytes@.len(),
                    bytes@.len() == enc.len(),
                    forall|x: int| 0 <= x < j ==> bytes@[x] == (255 - enc[x]) as u8,
                    forall|x: int| j <= x < bytes@.len() ==> bytes@[x] == enc[x],
                decreases bytes.len() - j,
            {
                let b = bytes[j];
                bytes.set(j, 255 - b);
                j = j + 1;
            }
            assert(bytes@ =~= flip_bytes(enc));
        }
        proof {
            let t = pk@.take(n + 1);
            assert(t.drop_last() =~= pk@.take(n as int));
            assert(t.last() == datum_view(pk.0@[n as int]));
        }
        out.append(&mut bytes);
        n = n + 1;
    }
    assert(pk@.take(n as int) =~= pk@);
    Ok(out)
}

/// The column index as four big-endian bytes.
pub fn serialize_cell_idx(column: u32) -> (r: Vec<u8>)
    ensures
        r@ == be4(column),
{
    let mut out: Vec<u8> = Vec::new();
    out.push((column >> 24u32) as u8);
    out.push((column >> 16u32) as u8);
    out.push((column >> 8u32) as u8);
    out.push(column as u8);
    assert(out@ =~= be4(column));
    out
}

/// Builds the key of one cell.
pub fn make_cell_key(prefix: &[u8], pk: &[u8], column: u32) -> (r: Vec<u8>)
    ensures
        r@ == cell_key(prefix@, pk@, column),
{
    let mut out: Vec<u8> = Vec::new();
    let mut i: usize = 0;
    while i < prefix.len()
        invariant
            i <= prefix@.len(),
            out@ == prefix@.take(i as int),
        decreases prefix.len() - i,
    {
        out.push(prefix[i]);
        assert(prefix@.take(i + 1) =~= prefix@.take(i as int).push(prefix@[i as int]));
        i = i + 1;
    }
    let mut j: usize = 0;
    while j < pk.len()
        invariant
            j <= pk@.len(),
            out@ == prefix@ + pk@.take(j as int),
        decreases pk.len() - j,
    {
        out.push(pk[j]);
        assert(pk@.take(j + 1) =~= pk@.take(j as int).push(pk@[j as int]));
        j = j + 1;
    }
    let mut suffix = serialize_cell_idx(column);
    out.append(&mut suffix);
    assert(prefix@.take(i as int) =~= prefix@);
    assert(pk@.take(j as int) =~= pk@);
    assert(out@ =~= cell_key(prefix@, pk@, column));
    out
}

} // verus!
