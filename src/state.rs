use vstd::prelude::*;
use crate::codec::{datum_encoding, serialize_datum};
use crate::keys::{cell_key, make_cell_key, pk_encoding, serialize_pk};
use crate::order::bytes_eq;
use crate::store::{apply_ops, ops_view, MemoryStateStore, OpValue, WriteOp};
use crate::table::Keyspace;
use crate::types::{DataType, DatumValue, OrderType, Row, Schema, TableError};

verus! {

/// A buffered mutation of one row: the new row, or `None` for a deletion.
pub type Mutation = Option<Seq<DatumValue>>;

/// The buffer as encoded primary keys with their pending mutations.
pub type Buffer = Seq<(Seq<u8>, Mutation)>;

/// The buffer after a mutation of `pk`: a pending mutation of the same key is
/// replaced in place, else the new one goes last.
pub open spec fn buffer_with(b: Buffer, pk: Seq<u8>, m: Mutation) -> Buffer {
    if exists|i: int| 0 <= i < b.len() && b[i].0 == pk {
        b.update(choose|i: int| 0 <= i < b.len() && b[i].0 == pk, (pk, m))
    } else {
        b.push((pk, m))
    }
}

/// No two pending mutations share a key.
pub open spec fn buffer_keys_unique(b: Buffer) -> bool {
    forall|i: int, j: int| 0 <= i < j < b.len() ==> #[trigger] b[i].0 != #[trigger] b[j].0
}

/// The writes for one pending mutation: one per column, in column order.
pub open spec fn row_ops(prefix: Seq<u8>, pk: Seq<u8>, m: Mutation, n: nat) -> Seq<OpValue> {
    Seq::new(
        n,
        |i: int|
            match m {
                Some(row) => OpValue::Put(cell_key(prefix, pk, i as u32), datum_encoding(row[i])),
                None => OpValue::Delete(cell_key(prefix, pk, i as u32)),
            },
    )
}

/// The batch that a flush of buffer `b` writes.
pub open spec fn flush_ops(prefix: Seq<u8>, b: Buffer, n: nat) -> Seq<OpValue>
    decreases b.len(),
{
    if b.len() == 0 {
        Seq::empty()
    } else {
        flush_ops(prefix, b.drop_last(), n) + row_ops(prefix, b.last().0, b.last().1, n)
    }
}

/// Buffers row mutations and writes them to the store as one batch per flush.
pub struct ManagedMViewState {
    keyspace: Keyspace,
    schema: Schema,
    pk_columns: Vec<usize>,
    orderings: Vec<OrderType>,
    cache: Vec<(Vec<u8>, Option<Row>)>,
}

/// A pending row, if any, has one datum per column.
pub open spec fn row_fits(m: Option<Row>, n: nat) -> bool {
    m matches Some(r) ==> r@.len() == n
}

pub open spec fn mutation_view(m: Option<Row>) -> Mutation {
    match m {
        Some(r) => Some(r@),
        None => None,
    }
}

impl ManagedMViewState {
    pub closed spec fn prefix(&self) -> Seq<u8> {
        self.keyspace@
    }

    pub closed spec fn types(&self) -> Seq<DataType> {
        self.schema@
    }

    pub closed spec fn orders(&self) -> Seq<OrderType> {
        self.orderings@
    }

    pub closed spec fn buffer(&self) -> Buffer {
        self.cache@.map_values(|e: (Vec<u8>, Option<Row>)| (e.0@, mutation_view(e.1)))
    }

    pub closed spec fn wf(&self) -> bool {
        &&& 0 < self.schema@.len() <= u32::MAX
        &&& buffer_keys_unique(self.buffer())
        &&& forall|i: int|
            0 <= i < self.cache@.len() ==> row_fits(#[trigger] self.cache@[i].1, self.schema@.len())
    }

    pub fn new(
        keyspace: Keyspace,
        schema: Schema,
        pk_columns: Vec<usize>,
        orderings: Vec<OrderType>,
    ) -> (r: Self)
        requires
            0 < schema@.len() <= u32::MAX,
        ensures
            r.wf(),
            r.prefix() == keyspace@,
            r.types() == schema@,
            r.orders() == orderings@,
            r.buffer() == Seq::<(Seq<u8>, Mutation)>::empty(),
    {
        let r = ManagedMViewState { keyspace, schema, pk_columns, orderings, cache: Vec::new() };
        assert(r.buffer() =~= Seq::<(Seq<u8>, Mutation)>::empty());
        r
    }

    fn buffer_mutation(&mut self, pk: Vec<u8>, m: Option<Row>)
        requires
            old(self).wf(),
            m matches Some(r) ==> r@.len() == old(self).types().len(),
        ensures
            final(self).wf(),
            final(self).prefix() == old(self).prefix(),
            final(self).types() == old(self).types(),
            final(self).orders() == old(self).orders(),
            final(self).buffer() == buffer_with(old(self).buffer(), pk@, mutation_view(m)),
    {
        let ghost b = self.buffer();
        let ghost entry = (pk@, mutation_view(m));
        let mut i: usize = 0;
        while i < self.cache.len()
            invariant
                i <= self.cache@.len(),
                self.cache@ == old(self).cache@,
                self.schema@ == old(self).schema@,
                self.keyspace@ == old(self).keyspace@,
                self.orderings@ == old(self).orderings@,
                b == old(self).buffer(),
                b == self.buffer(),
                buffer_keys_unique(b),
                0 < self.schema@.len() <= u32::MAX,
                entry == (pk@, mutation_view(m)),
                m matches Some(r) ==> r@.len() == self.schema@.len(),
                b.len() == self.cache@.len(),
                forall|j: int| 0 <= j < i ==> b[j].0 != pk@,
                forall|x: int|
                    0 <= x < old(self).cache@.len() ==> row_fits(
                        #[trigger] old(self).cache@[x].1,
                        self.schema@.len(),
                    ),
            decreases self.cache.len() - i,
        {
            if bytes_eq(self.cache[i].0.as_slice(), pk.as_slice()) {
                assert(b[i as int].0 == self.cache@[i as int].0@);
                assert(b[i as int].0 == pk@);
                assert(buffer_keys_unique(b));
                self.cache.set(i, (pk, m));
                proof {
                    assert(b[i as int].0 == entry.0);
                    let c = choose|c: int| 0 <= c < b.len() && b[c].0 == entry.0;
                    if c < i {
                        assert(b[c].0 != b[i as int].0);
                    } else if c > i {
                        assert(b[i as int].0 != b[c].0);
                    }
                    assert(self.buffer() =~= b.update(i as int, entry));
                    let nb = self.buffer();
                    assert forall|x: int, y: int| 0 <= x < y < nb.len() implies #[trigger] nb[x].0
                        != #[trigger] nb[y].0 by {
                        assert(nb[x].0 == b[x].0 && nb[y].0 == b[y].0);
                    }
                    assert forall|x: int| 0 <= x < self.cache@.len() implies row_fits(#[trigger] self.cache@[x].1, self.schema@.len()) by {
                        if x != i {
                            assert(self.cache@[x] == old(self).cache@[x]);
                            assert(row_fits(old(self).cache@[x].1, self.schema@.len()));
                        } else {
                            assert(self.cache@[x].1 == m);
                            if let Some(r) = m {
                                assert(r@.len() == self.schema@.len());
                            }
                        }
                    }
                }
                return;
            }
            i = i + 1;
        }
        self.cache.push((pk, m));
        proof {
            assert(self.buffer() =~= b.push(entry));
            assert forall|x: int| 0 <= x < self.cache@.len() implies row_fits(#[trigger] self.cache@[x].1, self.schema@.len()) by {
                if x < b.len() {
                    assert(self.cache@[x] == old(self).cache@[x]);
                    assert(row_fits(old(self).cache@[x].1, self.schema@.len()));
                }
            }
        }
    }

    /// Buffers `row` as the new content of the row with primary key `pk`.
    pub fn put(&mut self, pk: Row, row: Row)
        requires
            old(self).wf(),
            pk@.len() == old(self).orders().len(),
            row@.len() == old(self).types().len(),
        ensures
            final(self).wf(),
            final(self).prefix() == old(self).prefix(),
            final(self).types() == old(self).types(),
            final(self).orders() == old(self).orders(),
            final(self).buffer() == buffer_with(
                old(self).buffer(),
                pk_encoding(pk@, old(self).orders()),
                Some(row@),
            ),
    {
        match serialize_pk(&pk, &self.orderings) {
            Ok(key) => self.buffer_mutation(key, Some(row)),
            Err(_) => {},
        }
    }

    /// Buffers the deletion of the row with primary key `pk`.
    pub fn delete(&mut self, pk: Row)
        requires
            old(self).wf(),
            pk@.len() == old(self).orders().len(),
        ensures
            final(self).wf(),
            final(self).prefix() == old(self).prefix(),
            final(self).types() == old(self).types(),
            final(self).orders() == old(self).orders(),
            final(self).buffer() == buffer_with(
                old(self).buffer(),
                pk_encoding(pk@, old(self).orders()),
                None,
            ),
    {
        match serialize_pk(&pk, &self.orderings) {
            Ok(key) => self.buffer_mutation(key, None),
            Err(_) => {},
        }
    }

    /// Writes every buffered mutation to the store as one batch tagged with
    /// `epoch`, then empties the buffer.
    pub fn flush(&mut self, store: &mut MemoryStateStore, epoch: u64) -> (r: Result<(), TableError>)
        requires
            old(self).wf(),
            old(store).wf(),
        ensures
            r is Ok,
            final(self).wf(),
            final(store).wf(),
            final(self).prefix() == old(self).prefix(),
            final(self).types() == old(self).types(),
            final(self).orders() == old(self).orders(),
            final(self).buffer() == Seq::<(Seq<u8>, Mutation)>::empty(),
            final(store)@ == apply_ops(
                old(store)@,
                flush_ops(old(self).prefix(), old(self).buffer(), old(self).types().len()),
            ),
    {
        let ghost b = self.buffer();
        let ghost prefix = self.keyspace@;
        let n = self.schema.len();
        let mut ops: Vec<WriteOp> = Vec::new();
        let mut e: usize = 0;
        while e < self.cache.len()
            invariant
                e <= self.cache@.len(),
                b == self.buffer(),
                b.len() == self.cache@.len(),
                prefix == self.keyspace@,
                n == self.schema@.len(),
                self.wf(),
                ops_view(ops@) == flush_ops(prefix, b.take(e as int), n as nat),
            decreases self.cache.len() - e,
        {
            let ghost before = ops_view(ops@);
            let ghost pk_v = b[e as int].0;
            let ghost m_v = b[e as int].1;
            let mut col: usize = 0;
            while col < n
                invariant
                    e < self.cache@.len(),
                    b == self.buffer(),
                    b.len() == self.cache@.len(),
                    prefix == self.keyspace@,
                    n == self.schema@.len(),
                    n <= u32::MAX,
                    self.wf(),
                    pk_v == b[e as int].0,
                    m_v == b[e as int].1,
                    col <= n,
                    ops_view(ops@) == before + row_ops(prefix, pk_v, m_v, n as nat).take(col as int),
                decreases n - col,
            {
                let key = make_cell_key(self.keyspace.key(), self.cache[e].0.as_slice(), col as u32);
                let op = match &self.cache[e].1 {
                    Some(row) => {
                        assert(row@.len() == n);
                        let value = match serialize_datum(&row.0[col]) {
                            Ok(v) => v,
                            Err(err) => {
                                return Err(err);
                            },
                        };
                        WriteOp::Put(key, value)
                    },
                    None => WriteOp::Delete(key),
                };
                ops.push(op);
                proof {
                    let ro = row_ops(prefix, pk_v, m_v, n as nat);
                    assert(ro.take(col + 1) =~= ro.take(col as int).push(ro[col as int]));
                    assert(ops_view(ops@) =~= ops_view(ops@).drop_last().push(op@));
                    assert(ops_view(ops@).drop_last() =~= before + ro.take(col as int));
                }
                col = col + 1;
            }
            proof {
                let ro = row_ops(prefix, pk_v, m_v, n as nat);
                assert(ro.take(n as int) =~= ro);
                assert(b.take(e + 1).drop_last() =~= b.take(e as int));
            }
            e = e + 1;
        }
        assert(b.take(e as int) =~= b);
        let r = store.ingest_batch(ops, epoch);
        match r {
            Ok(()) => {
                self.cache.clear();
                assert(self.buffer() =~= Seq::<(Seq<u8>, Mutation)>::empty());
                Ok(())
            },
            Err(err) => Err(err),
        }
    }
}

} // verus!
