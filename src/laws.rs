use vstd::prelude::*;
use crate::codec::{
    be4, datum_encoding, datum_readable, flip_sign, i32_encoding, lemma_be4_injective,
};
use crate::keys::{cell_key, column_key_part, flip_bytes, pk_encoding};
use crate::order::{lemma_lex_common_prefix, lemma_lex_decided, lemma_lex_irreflexive, lex_lt};
use crate::state::{buffer_keys_unique, buffer_with, flush_ops, row_ops, Buffer, Mutation};
use crate::store::{apply_ops, key_has_prefix, OpValue};
use crate::table::cell_decodes;
use crate::types::{datum_has_type, row_has_types, DataType, DatumValue, OrderType, ScalarValue};

verus! {

/// Buffering a mutation of a primary key and then another one of the same key
/// leaves the buffer exactly as buffering only the second one, so the next
/// flush writes the same batch.
pub proof fn law_last_write_wins(b: Buffer, pk: Seq<u8>, m1: Mutation, m2: Mutation)
    requires
        buffer_keys_unique(b),
    ensures
        buffer_with(buffer_with(b, pk, m1), pk, m2) == buffer_with(b, pk, m2),
{
    let b1 = buffer_with(b, pk, m1);
    if exists|i: int| 0 <= i < b.len() && b[i].0 == pk {
        let c = choose|i: int| 0 <= i < b.len() && b[i].0 == pk;
        assert(b1[c].0 == pk);
        let c1 = choose|i: int| 0 <= i < b1.len() && b1[i].0 == pk;
        if c1 != c {
            assert(b1[c1] == b[c1]);
            if c1 < c {
                assert(b[c1].0 != b[c].0);
            } else {
                assert(b[c].0 != b[c1].0);
            }
        }
        assert(b1.update(c1, (pk, m2)) =~= b.update(c, (pk, m2)));
    } else {
        let n = b.len() as int;
        assert(b1[n].0 == pk);
        let c1 = choose|i: int| 0 <= i < b1.len() && b1[i].0 == pk;
        if c1 != n {
            assert(b1[c1] == b[c1]);
        }
        assert(b1.update(c1, (pk, m2)) =~= b.push((pk, m2)));
    }
}

/// Distinct columns of one row have distinct keys.
pub proof fn lemma_cell_keys_distinct(prefix: Seq<u8>, pk: Seq<u8>, i: int, j: int)
    requires
        0 <= i <= u32::MAX,
        0 <= j <= u32::MAX,
        i != j,
    ensures
        cell_key(prefix, pk, i as u32) != cell_key(prefix, pk, j as u32),
{
    if cell_key(prefix, pk, i as u32) == cell_key(prefix, pk, j as u32) {
        let l = (prefix + pk).len() as int;
        assert(cell_key(prefix, pk, i as u32).skip(l) =~= be4(i as u32));
        assert(cell_key(prefix, pk, j as u32).skip(l) =~= be4(j as u32));
        lemma_be4_injective(i as u32, j as u32);
    }
}

/// The first `t` writes for one pending mutation leave each of its first `t`
/// cells holding the new datum's encoding, or absent for a deletion.
pub proof fn lemma_row_ops_effect(
    m: Map<Seq<u8>, Seq<u8>>,
    prefix: Seq<u8>,
    pk: Seq<u8>,
    mu: Mutation,
    n: nat,
    t: int,
)
    requires
        n <= u32::MAX,
        0 <= t <= n,
        mu matches Some(row) ==> row.len() == n,
    ensures
        forall|i: int|
            0 <= i < t ==> match mu {
                Some(row) => apply_ops(m, row_ops(prefix, pk, mu, n).take(t)).contains_key(
                    #[trigger] cell_key(prefix, pk, i as u32),
                ) && apply_ops(m, row_ops(prefix, pk, mu, n).take(t))[cell_key(
                    prefix,
                    pk,
                    i as u32,
                )] == datum_encoding(row[i]),
                None => !apply_ops(m, row_ops(prefix, pk, mu, n).take(t)).contains_key(
                    cell_key(prefix, pk, i as u32),
                ),
            },
    decreases t,
{
    if t > 0 {
        let ro = row_ops(prefix, pk, mu, n);
        lemma_row_ops_effect(m, prefix, pk, mu, n, t - 1);
        assert(ro.take(t).drop_last() =~= ro.take(t - 1));
        assert forall|i: int| 0 <= i < t - 1 implies #[trigger] cell_key(prefix, pk, i as u32) != cell_key(
            prefix,
            pk,
            (t - 1) as u32,
        ) by {
            lemma_cell_keys_distinct(prefix, pk, i, t - 1);
        }
    }
}

/// What a flush of a single buffered mutation leaves under the row's cells.
pub proof fn lemma_single_flush(m: Map<Seq<u8>, Seq<u8>>, prefix: Seq<u8>, pk: Seq<u8>, mu: Mutation, n: nat)
    requires
        n <= u32::MAX,
        mu matches Some(row) ==> row.len() == n,
    ensures
        apply_ops(m, flush_ops(prefix, buffer_with(Seq::empty(), pk, mu), n)) == apply_ops(
            m,
            row_ops(prefix, pk, mu, n).take(n as int),
        ),
{
    let b = buffer_with(Seq::<(Seq<u8>, Mutation)>::empty(), pk, mu);
    assert(b =~= seq![(pk, mu)]);
    assert(b.drop_last() =~= Seq::<(Seq<u8>, Mutation)>::empty());
    assert(flush_ops(prefix, b.drop_last(), n) =~= Seq::<OpValue>::empty());
    assert(flush_ops(prefix, b, n) =~= row_ops(prefix, pk, mu, n));
    assert(row_ops(prefix, pk, mu, n).take(n as int) =~= row_ops(prefix, pk, mu, n));
}

/// After `put(pk, row)` and a flush, the cell of every column `i` holds the
/// encoding of `row[i]`, which reads back as `row[i]`: a `get` of it returns
/// `Some(row[i])`.
pub proof fn law_put_flush_get(
    m: Map<Seq<u8>, Seq<u8>>,
    prefix: Seq<u8>,
    pk: Seq<u8>,
    row: Seq<DatumValue>,
    types: Seq<DataType>,
    i: int,
)
    requires
        row_has_types(row, types),
        types.len() <= u32::MAX,
        0 <= i < row.len(),
        datum_readable(row[i]),
    ensures
        ({
            let after = apply_ops(m, flush_ops(prefix, buffer_with(Seq::empty(), pk, Some(row)), row.len()));
            &&& after.contains_key(cell_key(prefix, pk, i as u32))
            &&& after[cell_key(prefix, pk, i as u32)] == datum_encoding(row[i])
            &&& cell_decodes(after[cell_key(prefix, pk, i as u32)], types[i])
        }),
{
    let n = row.len();
    lemma_single_flush(m, prefix, pk, Some(row), n);
    lemma_row_ops_effect(m, prefix, pk, Some(row), n, n as int);
    assert(datum_has_type(row[i], types[i]));
    assert(cell_decodes(datum_encoding(row[i]), types[i]));
}

/// After `delete(pk)` and a flush, no cell of the row is left, whatever the
/// store held: a `get` of any column returns `None`.
pub proof fn law_delete_flush_get(m: Map<Seq<u8>, Seq<u8>>, prefix: Seq<u8>, pk: Seq<u8>, n: nat, i: int)
    requires
        n <= u32::MAX,
        0 <= i < n,
    ensures
        !apply_ops(m, flush_ops(prefix, buffer_with(Seq::empty(), pk, None), n)).contains_key(
            cell_key(prefix, pk, i as u32),
        ),
{
    lemma_single_flush(m, prefix, pk, None, n);
    lemma_row_ops_effect(m, prefix, pk, None, n, n as int);
}

/// Every datum of a column's type reads back from its encoding: decoding
/// the encoding of `d` yields `d`.
pub proof fn law_cell_round_trip(d: DatumValue, t: DataType)
    requires
        datum_has_type(d, t),
        datum_readable(d),
    ensures
        cell_decodes(datum_encoding(d), t),
{
}

/// Writes under one keyspace prefix leave every key of another prefix of the
/// same length as it was: tables on distinct keyspaces of one store do not
/// see each other's rows.
pub proof fn law_keyspace_isolation(
    m: Map<Seq<u8>, Seq<u8>>,
    prefix: Seq<u8>,
    other: Seq<u8>,
    b: Buffer,
    n: nat,
    k: Seq<u8>,
)
    requires
        prefix.len() == other.len(),
        prefix != other,
        key_has_prefix(k, other),
    ensures
        apply_ops(m, flush_ops(prefix, b, n)).contains_key(k) == m.contains_key(k),
        m.contains_key(k) ==> apply_ops(m, flush_ops(prefix, b, n))[k] == m[k],
    decreases b.len(),
{
    if b.len() > 0 {
        law_keyspace_isolation(m, prefix, other, b.drop_last(), n, k);
        let before = flush_ops(prefix, b.drop_last(), n);
        let ro = row_ops(prefix, b.last().0, b.last().1, n);
        assert forall|j: int| 0 <= j < ro.len() implies match #[trigger] ro[j] {
            OpValue::Put(x, _) => key_has_prefix(x, prefix),
            OpValue::Delete(x) => key_has_prefix(x, prefix),
        } by {
            let key = cell_key(prefix, b.last().0, j as u32);
            assert(key.take(prefix.len() as int) =~= prefix);
        }
        lemma_foreign_ops(apply_ops(m, before), prefix, other, ro, k);
        lemma_apply_concat(m, before, ro);
    }
}

/// Applying two batches one after the other is applying their concatenation.
pub proof fn lemma_apply_concat(m: Map<Seq<u8>, Seq<u8>>, a: Seq<OpValue>, c: Seq<OpValue>)
    ensures
        apply_ops(m, a + c) == apply_ops(apply_ops(m, a), c),
    decreases c.len(),
{
    if c.len() == 0 {
        assert(a + c =~= a);
    } else {
        assert((a + c).drop_last() =~= a + c.drop_last());
        lemma_apply_concat(m, a, c.drop_last());
    }
}

/// Writes of a row under `prefix` leave the keys of another prefix alone.
proof fn lemma_foreign_ops(m: Map<Seq<u8>, Seq<u8>>, prefix: Seq<u8>, other: Seq<u8>, ops: Seq<OpValue>, k: Seq<u8>)
    requires
        prefix.len() == other.len(),
        prefix != other,
        key_has_prefix(k, other),
        forall|j: int|
            0 <= j < ops.len() ==> match #[trigger] ops[j] {
                OpValue::Put(x, _) => key_has_prefix(x, prefix),
                OpValue::Delete(x) => key_has_prefix(x, prefix),
            },
    ensures
        apply_ops(m, ops).contains_key(k) == m.contains_key(k),
        m.contains_key(k) ==> apply_ops(m, ops)[k] == m[k],
    decreases ops.len(),
{
    if ops.len() > 0 {
        lemma_foreign_ops(m, prefix, other, ops.drop_last(), k);
        let last = ops[ops.len() - 1];
        match last {
            OpValue::Put(x, _) => {
                if x == k {
                    assert(x.take(prefix.len() as int) == prefix);
                }
            },
            OpValue::Delete(x) => {
                if x == k {
                    assert(x.take(prefix.len() as int) == prefix);
                }
            },
        }
    }
}

/// The order of nullable integers: null first, then by value.
pub open spec fn int_datum_lt(a: DatumValue, b: DatumValue) -> bool {
    match (a, b) {
        (None, Some(_)) => true,
        (Some(ScalarValue::Int(x)), Some(ScalarValue::Int(y))) => x < y,
        _ => false,
    }
}

/// A null or an integer.
pub open spec fn is_int_datum(d: DatumValue) -> bool {
    d is None || d matches Some(ScalarValue::Int(_))
}

/// The order of one primary-key column under its direction.
pub open spec fn column_lt(a: DatumValue, b: DatumValue, o: OrderType) -> bool {
    match o {
        OrderType::Ascending => int_datum_lt(a, b),
        OrderType::Descending => int_datum_lt(b, a),
    }
}

/// The order of primary-key tuples: the first column where they differ decides.
pub open spec fn tuple_lt(a: Seq<DatumValue>, b: Seq<DatumValue>, orders: Seq<OrderType>) -> bool {
    exists|i: int|
        0 <= i < a.len() && a.take(i) == b.take(i) && a[i] != b[i] && #[trigger] column_lt(
            a[i],
            b[i],
            orders[i],
        )
}

/// Two distinct integer datums' key parts first differ at a byte that both
/// have, and that byte orders them as their column does.
proof fn lemma_part_differs(x: DatumValue, y: DatumValue, o: OrderType) -> (k: int)
    requires
        is_int_datum(x),
        is_int_datum(y),
        x != y,
    ensures
        0 <= k < column_key_part(x, o).len(),
        k < column_key_part(y, o).len(),
        column_key_part(x, o).take(k) == column_key_part(y, o).take(k),
        column_key_part(x, o)[k] != column_key_part(y, o)[k],
        (column_key_part(x, o)[k] < column_key_part(y, o)[k]) == column_lt(x, y, o),
{
    let ex = datum_encoding(x);
    let ey = datum_encoding(y);
    let k: int = match (x, y) {
        (Some(ScalarValue::Int(v)), Some(ScalarValue::Int(w))) => {
            let a = flip_sign(v);
            let b = flip_sign(w);
            assert(ex =~= seq![1u8] + i32_encoding(v));
            assert(ey =~= seq![1u8] + i32_encoding(w));
            assert(a != b);
            assert((v < w) == (a < b));
            let a0 = (a >> 24u32) as u8;
            let b0 = (b >> 24u32) as u8;
            let a1 = (a >> 16u32) as u8;
            let b1 = (b >> 16u32) as u8;
            let a2 = (a >> 8u32) as u8;
            let b2 = (b >> 8u32) as u8;
            let a3 = a as u8;
            let b3 = b as u8;
            assert(a0 != b0 ==> ((a < b) == (a0 < b0))) by (bit_vector)
                requires
                    a0 == (a >> 24u32) as u8,
                    b0 == (b >> 24u32) as u8,
            ;
            assert(a0 == b0 && a1 != b1 ==> ((a < b) == (a1 < b1))) by (bit_vector)
                requires
                    a0 == (a >> 24u32) as u8,
                    b0 == (b >> 24u32) as u8,
                    a1 == (a >> 16u32) as u8,
                    b1 == (b >> 16u32) as u8,
            ;
            assert(a0 == b0 && a1 == b1 && a2 != b2 ==> ((a < b) == (a2 < b2))) by (bit_vector)
                requires
                    a0 == (a >> 24u32) as u8,
                    b0 == (b >> 24u32) as u8,
                    a1 == (a >> 16u32) as u8,
                    b1 == (b >> 16u32) as u8,
                    a2 == (a >> 8u32) as u8,
                    b2 == (b >> 8u32) as u8,
            ;
            assert(a0 == b0 && a1 == b1 && a2 == b2 && a != b ==> (a3 != b3 && (a < b) == (a3
                < b3))) by (bit_vector)
                requires
                    a0 == (a >> 24u32) as u8,
                    b0 == (b >> 24u32) as u8,
                    a1 == (a >> 16u32) as u8,
                    b1 == (b >> 16u32) as u8,
                    a2 == (a >> 8u32) as u8,
                    b2 == (b >> 8u32) as u8,
                    a3 == a as u8,
                    b3 == b as u8,
            ;
            if a0 != b0 {
                1
            } else if a1 != b1 {
                2
            } else if a2 != b2 {
                3
            } else {
                4
            }
        },
        _ => 0,
    };
    assert(ex.take(k) =~= ey.take(k)) by {
        if k > 1 {
            assert(ex.take(k) =~= ex.take(1) + ex.subrange(1, k));
            assert(ey.take(k) =~= ey.take(1) + ey.subrange(1, k));
        }
    }
    match o {
        OrderType::Ascending => {},
        OrderType::Descending => {
            assert(flip_bytes(ex).take(k) =~= flip_bytes(ey).take(k)) by {
                assert forall|j: int| 0 <= j < k implies flip_bytes(ex)[j] == flip_bytes(ey)[j] by {
                    assert(ex.take(k)[j] == ey.take(k)[j]);
                }
            }
        },
    }
    k
}

/// The encoding of the first `j` columns is a prefix of the whole key.
proof fn lemma_pk_prefix(a: Seq<DatumValue>, orders: Seq<OrderType>, j: int)
    requires
        0 <= j <= a.len(),
    ensures
        pk_encoding(a, orders) == pk_encoding(a.take(j), orders) + pk_encoding(a, orders).skip(
            pk_encoding(a.take(j), orders).len() as int,
        ),
    decreases a.len(),
{
    if j == a.len() {
        assert(a.take(j) =~= a);
        assert(pk_encoding(a, orders).skip(pk_encoding(a, orders).len() as int) =~= Seq::<u8>::empty());
        assert(pk_encoding(a, orders) =~= pk_encoding(a, orders) + Seq::<u8>::empty());
    } else {
        lemma_pk_prefix(a.drop_last(), orders, j);
        assert(a.drop_last().take(j) =~= a.take(j));
        let p = pk_encoding(a.take(j), orders);
        let whole = pk_encoding(a, orders);
        assert(whole == pk_encoding(a.drop_last(), orders) + column_key_part(a.last(), orders[a.len() - 1]));
        assert(whole =~= p + whole.skip(p.len() as int));
    }
}

/// The key of a tuple: the first `i` columns, column `i`, then the rest.
proof fn lemma_pk_split(a: Seq<DatumValue>, orders: Seq<OrderType>, i: int)
    requires
        0 <= i < a.len(),
    ensures
        pk_encoding(a, orders) == pk_encoding(a.take(i), orders) + column_key_part(a[i], orders[i])
            + pk_encoding(a, orders).skip(pk_encoding(a.take(i + 1), orders).len() as int),
{
    lemma_pk_prefix(a, orders, i + 1);
    let t = a.take(i + 1);
    assert(t.drop_last() =~= a.take(i));
    assert(t.last() == a[i]);
    assert(pk_encoding(t, orders) == pk_encoding(a.take(i), orders) + column_key_part(a[i], orders[i]));
}

/// Where two distinct tuples differ at some column, they differ first at some column.
proof fn lemma_first_difference(a: Seq<DatumValue>, b: Seq<DatumValue>, j: int) -> (i: int)
    requires
        a.len() == b.len(),
        0 <= j < a.len(),
        a[j] != b[j],
    ensures
        0 <= i <= j,
        a[i] != b[i],
        a.take(i) == b.take(i),
    decreases j,
{
    if exists|k: int| 0 <= k < j && a[k] != b[k] {
        let k = choose|k: int| 0 <= k < j && a[k] != b[k];
        lemma_first_difference(a, b, k)
    } else {
        assert(a.take(j) =~= b.take(j));
        j
    }
}

/// The key encoding preserves the order of primary keys of integer columns:
/// one key comes before another in the store's byte order exactly when its
/// tuple comes first under the columns' directions.
pub proof fn law_pk_order(a: Seq<DatumValue>, b: Seq<DatumValue>, orders: Seq<OrderType>)
    requires
        a.len() == b.len(),
        a.len() == orders.len(),
        forall|i: int| 0 <= i < a.len() ==> is_int_datum(#[trigger] a[i]),
        forall|i: int| 0 <= i < b.len() ==> is_int_datum(#[trigger] b[i]),
    ensures
        lex_lt(pk_encoding(a, orders), pk_encoding(b, orders)) == tuple_lt(a, b, orders),
{
    if a =~= b {
        lemma_lex_irreflexive(pk_encoding(a, orders));
        if tuple_lt(a, b, orders) {
            let i = choose|i: int|
                0 <= i < a.len() && a.take(i) == b.take(i) && a[i] != b[i] && #[trigger] column_lt(
                    a[i],
                    b[i],
                    orders[i],
                );
        }
    } else {
        let j = choose|j: int| 0 <= j < a.len() && a[j] != b[j];
        let i = lemma_first_difference(a, b, j);
        lemma_pk_split(a, orders, i);
        lemma_pk_split(b, orders, i);
        let p = pk_encoding(a.take(i), orders);
        assert(pk_encoding(b.take(i), orders) == p);
        let pa = column_key_part(a[i], orders[i]);
        let pb = column_key_part(b[i], orders[i]);
        let ra = pk_encoding(a, orders).skip(pk_encoding(a.take(i + 1), orders).len() as int);
        let rb = pk_encoding(b, orders).skip(pk_encoding(b.take(i + 1), orders).len() as int);
        let k = lemma_part_differs(a[i], b[i], orders[i]);
        assert(p + pa + ra =~= p + (pa + ra));
        assert(p + pb + rb =~= p + (pb + rb));
        lemma_lex_common_prefix(p, pa + ra, pb + rb);
        lemma_lex_decided(pa, pb, ra, rb, k);
        if tuple_lt(a, b, orders) {
            let i2 = choose|i2: int|
                0 <= i2 < a.len() && a.take(i2) == b.take(i2) && a[i2] != b[i2] && #[trigger] column_lt(
                    a[i2],
                    b[i2],
                    orders[i2],
                );
            if i2 < i {
                assert(a.take(i)[i2] == b.take(i)[i2]);
            } else if i2 > i {
                assert(a.take(i2)[i] == b.take(i2)[i]);
            }
        }
        if column_lt(a[i], b[i], orders[i]) {
            assert(tuple_lt(a, b, orders));
        }
    }
}

} // verus!
