use vstd::prelude::*;
use crate::codec::{be4, datum_encoding, datum_readable, deserialize_datum};
use crate::keys::{cell_key, make_cell_key, pk_encoding, serialize_pk};
use crate::order::{bytes_eq, copy_range};
use crate::store::{entries_sorted, entries_view, key_has_prefix, Entries, MemoryStateStore};
use crate::types::{
    DataType, datum_has_type, datum_view, row_has_types, Datum, DatumValue, OrderType, Row, Schema,
    TableError,
};

verus! {

/// A namespaced range of the store: every key of it starts with its prefix.
#[derive(Clone, Debug)]
pub struct Keyspace {
    prefix: Vec<u8>,
}

impl View for Keyspace {
    type V = Seq<u8>;

    closed spec fn view(&self) -> Seq<u8> {
        self.prefix@
    }
}

impl Keyspace {
    /// The keyspace of an executor: the byte `e`, then its id as four big-endian bytes.
    pub fn executor_root(executor_id: u32) -> (r: Keyspace)
        ensures
            r@ == seq![101u8] + be4(executor_id),
    {
        let mut prefix: Vec<u8> = Vec::new();
        prefix.push(101u8);
        prefix.push((executor_id >> 24u32) as u8);
        prefix.push((executor_id >> 16u32) as u8);
        prefix.push((executor_id >> 8u32) as u8);
        prefix.push(executor_id as u8);
        let r = Keyspace { prefix };
        assert(r@ =~= seq![101u8] + be4(executor_id));
        r
    }

    pub fn key(&self) -> (r: &[u8])
        ensures
            r@ == self@,
    {
        self.prefix.as_slice()
    }
}

/// Whether a scanned key is long enough to hold a prefix of `plen` bytes and
/// the column suffix.
pub open spec fn key_ok(k: Seq<u8>, plen: nat) -> bool {
    k.len() >= plen + 4
}

/// The encoded primary key inside a cell key.
pub open spec fn pk_part(k: Seq<u8>, plen: nat) -> Seq<u8> {
    k.subrange(plen as int, k.len() - 4)
}

/// The `m` entries from `pos` on exist, have well-formed keys and share the
/// primary key of the entry at `pos`.
pub open spec fn group_ok(s: Entries, pos: int, plen: nat, m: int) -> bool {
    forall|j: int| pos <= j < pos + m ==> #[trigger] in_group(s, pos, plen, j)
}

/// The entry at `j` exists, has a well-formed key and the primary key of the
/// entry at `pos`.
pub open spec fn in_group(s: Entries, pos: int, plen: nat, j: int) -> bool {
    &&& 0 <= j < s.len()
    &&& key_ok(s[j].0, plen)
    &&& pk_part(s[j].0, plen) == pk_part(s[pos].0, plen)
}

/// The error that ends a group whose entries are fine up to `m`.
pub open spec fn group_error(s: Entries, pos: int, plen: nat, m: int) -> TableError {
    if pos + m < s.len() && !key_ok(s[pos + m].0, plen) {
        TableError::MalformedKey
    } else {
        TableError::IncompleteItem
    }
}

/// Whether `b` is the encoding of some datum of type `t`.
pub open spec fn cell_decodes(b: Seq<u8>, t: crate::types::DataType) -> bool {
    exists|d: DatumValue| datum_has_type(d, t) && datum_readable(d) && #[trigger] datum_encoding(d) == b
}

/// A group that holds up to `m` holds up to any shorter length.
pub proof fn lemma_group_shorter(s: Entries, pos: int, plen: nat, m: int)
    requires
        group_ok(s, pos, plen, m),
    ensures
        forall|m2: int| m2 <= m ==> #[trigger] group_ok(s, pos, plen, m2),
{
    assert forall|m2: int| m2 <= m implies #[trigger] group_ok(s, pos, plen, m2) by {
        assert forall|j: int| pos <= j < pos + m2 implies #[trigger] in_group(s, pos, plen, j) by {
            assert(pos <= j < pos + m);
        }
    }
}

/// Where a group holds up to `m` and not to `m + 1`, `m` is the only such length.
pub proof fn lemma_first_failure(s: Entries, pos: int, plen: nat, m: int)
    requires
        0 <= m,
        group_ok(s, pos, plen, m),
        !group_ok(s, pos, plen, m + 1),
    ensures
        forall|m2: int|
            0 <= m2 && group_ok(s, pos, plen, m2) && !#[trigger] group_ok(s, pos, plen, m2 + 1) ==> m2
                == m,
{
    assert forall|m2: int|
        0 <= m2 && group_ok(s, pos, plen, m2) && !#[trigger] group_ok(s, pos, plen, m2 + 1) implies m2
        == m by {
        if m2 < m {
            assert forall|j: int| pos <= j < pos + m2 + 1 implies #[trigger] in_group(
                s,
                pos,
                plen,
                j,
            ) by {
                assert(pos <= j < pos + m);
            }
        } else if m2 > m {
            assert forall|j: int| pos <= j < pos + m + 1 implies #[trigger] in_group(
                s,
                pos,
                plen,
                j,
            ) by {
                assert(pos <= j < pos + m2);
            }
        }
    }
}

/// A single-pass cursor over a table's cells, grouping them into rows.
pub struct MViewTableIter {
    entries: Vec<(Vec<u8>, Vec<u8>)>,
    pos: usize,
    prefix: Vec<u8>,
    schema: Schema,
}

impl MViewTableIter {
    pub closed spec fn entries_seq(&self) -> Entries {
        entries_view(self.entries@)
    }

    pub closed spec fn position(&self) -> int {
        self.pos as int
    }

    pub closed spec fn prefix_len(&self) -> nat {
        self.prefix@.len()
    }

    pub closed spec fn types(&self) -> Seq<crate::types::DataType> {
        self.schema@
    }

    pub closed spec fn wf(&self) -> bool {
        &&& self.pos <= self.entries@.len()
        &&& self.schema@.len() > 0
    }

    fn new(entries: Vec<(Vec<u8>, Vec<u8>)>, prefix: Vec<u8>, schema: Schema) -> (r: Self)
        requires
            schema@.len() > 0,
        ensures
            r.wf(),
            r.entries_seq() == entries_view(entries@),
            r.position() == 0,
            r.prefix_len() == prefix@.len(),
            r.types() == schema@,
    {
        MViewTableIter { entries, pos: 0, prefix, schema }
    }

    /// The next complete row, `None` at the end, or the corruption found.
    pub fn next(&mut self) -> (r: Result<Option<Row>, TableError>)
        requires
            old(self).wf(),
        ensures
            final(self).wf(),
            final(self).entries_seq() == old(self).entries_seq(),
            final(self).prefix_len() == old(self).prefix_len(),
            final(self).types() == old(self).types(),
            old(self).position() == old(self).entries_seq().len() ==> r == Ok::<
                Option<Row>,
                TableError,
            >(None) && final(self).position() == old(self).position(),
            forall|m: int|
                old(self).position() < old(self).entries_seq().len() && 0 <= m < old(
                    self,
                ).types().len() && group_ok(
                    old(self).entries_seq(),
                    old(self).position(),
                    old(self).prefix_len(),
                    m,
                ) && !#[trigger] group_ok(
                    old(self).entries_seq(),
                    old(self).position(),
                    old(self).prefix_len(),
                    m + 1,
                ) ==> r == Err::<Option<Row>, TableError>(
                    group_error(old(self).entries_seq(), old(self).position(), old(self).prefix_len(), m),
                ),
            old(self).position() < old(self).entries_seq().len() && group_ok(
                old(self).entries_seq(),
                old(self).position(),
                old(self).prefix_len(),
                old(self).types().len() as int,
            ) ==> (r == Err::<Option<Row>, TableError>(TableError::Codec) || r is Ok && r->Ok_0 is Some),
            old(self).position() < old(self).entries_seq().len() && group_ok(
                old(self).entries_seq(),
                old(self).position(),
                old(self).prefix_len(),
                old(self).types().len() as int,
            ) && (forall|c: int|
                0 <= c < old(self).types().len() ==> cell_decodes(
                    #[trigger] old(self).entries_seq()[old(self).position() + c].1,
                    old(self).types()[c],
                )) ==> r is Ok,
            r matches Ok(Some(row)) ==> final(self).position() == old(self).position() + old(
                self,
            ).types().len(),
            r matches Ok(Some(row)) ==> group_ok(
                old(self).entries_seq(),
                old(self).position(),
                old(self).prefix_len(),
                old(self).types().len() as int,
            ),
            r matches Ok(Some(row)) ==> row_has_types(row@, old(self).types()),
            r matches Ok(Some(row)) ==> forall|c: int, d: DatumValue|
                0 <= c < old(self).types().len() && datum_has_type(d, old(self).types()[c])
                    && datum_readable(d) && #[trigger] datum_encoding(d) == old(
                    self,
                ).entries_seq()[old(self).position() + c].1 ==> #[trigger] row@[c] == d,
    {
        let ghost s = self.entries_seq();
        let ghost p = self.pos as int;
        let ghost plen = self.prefix@.len();
        let n = self.schema.len();
        let prefix_len = self.prefix.len();
        let mut restored: usize = 0;
        let mut pk_buf: Vec<u8> = Vec::new();
        let mut values: Vec<Vec<u8>> = Vec::new();
        loop
            invariant_except_break
                restored < n,
            invariant
                p == old(self).position(),
                s == old(self).entries_seq(),
                plen == old(self).prefix_len(),
                self.schema@ == old(self).types(),
                self.entries@ == old(self).entries@,
                self.prefix@ == old(self).prefix@,
                self.schema@ == old(self).schema@,
                s == self.entries_seq(),
                s.len() == self.entries@.len(),
                plen == self.prefix@.len(),
                prefix_len == plen,
                n == self.schema@.len(),
                n > 0,
                self.pos <= self.entries@.len(),
                restored == self.pos - p,
                restored <= n,
                group_ok(s, p, plen, restored as int),
                restored > 0 ==> pk_buf@ == pk_part(s[p].0, plen),
                values@.len() == restored,
                forall|c: int| 0 <= c < restored ==> (#[trigger] values@[c])@ == s[p + c].1,
            ensures
                restored == n,
            decreases self.entries@.len() - self.pos,
        {
            if self.pos >= self.entries.len() {
                if restored == 0 {
                    return Ok(None);
                }
                assert(!in_group(s, p, plen, p + restored));
                assert(!group_ok(s, p, plen, restored + 1));
                proof {
                    lemma_first_failure(s, p, plen, restored as int);
                }
                return Err(TableError::IncompleteItem);
            }
            let key = self.entries[self.pos].0.as_slice();
            assert(key@ == s[self.pos as int].0);
            if key.len() < 4 || key.len() - 4 < prefix_len {
                assert(!key_ok(s[p + restored].0, plen));
                assert(!in_group(s, p, plen, p + restored));
                assert(!group_ok(s, p, plen, restored + 1));
                proof {
                    lemma_first_failure(s, p, plen, restored as int);
                }
                return Err(TableError::MalformedKey);
            }
            let cur = copy_range(key, prefix_len, key.len() - 4);
            if restored == 0 {
                pk_buf = cur;
            } else if !bytes_eq(pk_buf.as_slice(), cur.as_slice()) {
                assert(in_group(s, p, plen, p));
                assert(!in_group(s, p, plen, p + restored));
                assert(!in_group(s, p, plen, p + restored));
                assert(!group_ok(s, p, plen, restored + 1));
                proof {
                    lemma_first_failure(s, p, plen, restored as int);
                }
                return Err(TableError::IncompleteItem);
            }
            assert(self.entries@[self.pos as int].1@ == s[self.pos as int].1);
            values.push(self.entries[self.pos].1.clone());
            restored = restored + 1;
            self.pos = self.pos + 1;
            assert(in_group(s, p, plen, self.pos - 1));
            assert(group_ok(s, p, plen, restored as int));
            if restored == n {
                break;
            }
        }
        let mut row: Vec<Datum> = Vec::new();
        let mut c: usize = 0;
        while c < n
            invariant
                p == old(self).position(),
                s == old(self).entries_seq(),
                plen == old(self).prefix_len(),
                self.schema@ == old(self).types(),
                self.entries@ == old(self).entries@,
                self.prefix@ == old(self).prefix@,
                self.schema@ == old(self).schema@,
                self.pos == p + n,
                group_ok(s, p, plen, n as int),
                self.pos <= self.entries@.len(),
                s == self.entries_seq(),
                c <= n,
                n == self.schema@.len(),
                values@.len() == n,
                forall|x: int| 0 <= x < n ==> (#[trigger] values@[x])@ == s[p + x].1,
                row@.len() == c,
                forall|x: int|
                    0 <= x < c ==> datum_has_type(datum_view(#[trigger] row@[x]), self.schema@[x]),
                forall|x: int, d: DatumValue|
                    0 <= x < c && datum_has_type(d, self.schema@[x]) && datum_readable(d)
                        && #[trigger] datum_encoding(d) == s[p + x].1 ==> datum_view(
                        #[trigger] row@[x],
                    ) == d,
            decreases n - c,
        {
            let t = self.schema.data_type_at(c);
            match deserialize_datum(values[c].as_slice(), t) {
                Ok(d) => {
                    row.push(d);
                },
                Err(_) => {
                    proof {
                        assert(!cell_decodes(s[p + c].1, self.schema@[c as int]));
                        lemma_group_shorter(s, p, plen, n as int);
                    }
                    return Err(TableError::Codec);
                },
            }
            c = c + 1;
        }
        let r = Row(row);
        proof {
            assert forall|x: int| 0 <= x < n implies datum_has_type(#[trigger] r@[x], self.schema@[x]) by {
                assert(r@[x] == datum_view(r.0@[x]));
            }
            assert forall|x: int, d: DatumValue|
                0 <= x < n && datum_has_type(d, self.schema@[x]) && datum_readable(d)
                    && #[trigger] datum_encoding(d) == s[p + x].1 implies #[trigger] r@[x] == d by {
                assert(r@[x] == datum_view(r.0@[x]));
            }
        }
        Ok(Some(r))
    }
}

/// A read-only view of a materialized view's rows, one cell per column.
#[derive(Debug)]
pub struct MViewTable {
    keyspace: Keyspace,
    schema: Schema,
    pk_columns: Vec<usize>,
    orderings: Vec<OrderType>,
}

impl MViewTable {
    pub closed spec fn prefix(&self) -> Seq<u8> {
        self.keyspace@
    }

    pub closed spec fn types(&self) -> Seq<DataType> {
        self.schema@
    }

    pub closed spec fn orders(&self) -> Seq<OrderType> {
        self.orderings@
    }

    pub closed spec fn pk_indices(&self) -> Seq<usize> {
        self.pk_columns@
    }

    pub closed spec fn wf(&self) -> bool {
        0 < self.schema@.len() <= u32::MAX
    }

    /// The key of column `column` of the row with primary key `pk`.
    pub open spec fn key_of(&self, pk: Seq<DatumValue>, column: int) -> Seq<u8> {
        cell_key(self.prefix(), pk_encoding(pk, self.orders()), column as u32)
    }

    /// A table over `keyspace` whose primary key is the columns `pk_columns`,
    /// ordered by `orderings`.
    pub fn new(
        keyspace: Keyspace,
        schema: Schema,
        pk_columns: Vec<usize>,
        orderings: Vec<OrderType>,
    ) -> (r: Self)
        requires
            0 < schema@.len() <= u32::MAX,
        ensures
            r.wf(),
            r.prefix() == keyspace@,
            r.types() == schema@,
            r.orders() == orderings@,
            r.pk_indices() == pk_columns@,
    {
        MViewTable { keyspace, schema, pk_columns, orderings }
    }

    pub fn schema(&self) -> (r: &Schema)
        ensures
            r@ == self.types(),
    {
        &self.schema
    }

    /// The datum in column `cell_idx` of the row with primary key `pk`;
    /// `None` where the store holds no such cell.
    pub fn get(&self, store: &MemoryStateStore, pk: &Row, cell_idx: usize) -> (r: Result<
        Option<Datum>,
        TableError,
    >)
        requires
            self.wf(),
            store.wf(),
        ensures
            (cell_idx >= self.types().len() || pk@.len() != self.orders().len()) <==> r == Err::<
                Option<Datum>,
                TableError,
            >(TableError::InvalidArgument),
            cell_idx < self.types().len() && pk@.len() == self.orders().len() && !store@.contains_key(
                self.key_of(pk@, cell_idx as int),
            ) ==> r == Ok::<Option<Datum>, TableError>(None),
            cell_idx < self.types().len() && pk@.len() == self.orders().len() && store@.contains_key(
                self.key_of(pk@, cell_idx as int),
            ) ==> (r == Err::<Option<Datum>, TableError>(TableError::Codec) || r is Ok
                && r->Ok_0 is Some),
            cell_idx < self.types().len() && pk@.len() == self.orders().len() && store@.contains_key(
                self.key_of(pk@, cell_idx as int),
            ) && cell_decodes(store@[self.key_of(pk@, cell_idx as int)], self.types()[cell_idx as int])
                ==> r is Ok,
            r matches Ok(Some(x)) ==> datum_has_type(datum_view(x), self.types()[cell_idx as int]),
            r matches Ok(Some(x)) ==> forall|d: DatumValue|
                datum_has_type(d, self.types()[cell_idx as int]) && datum_readable(d)
                    && #[trigger] datum_encoding(d) == store@[self.key_of(pk@, cell_idx as int)]
                    ==> datum_view(x) == d,
    {
        if cell_idx >= self.schema.len() || pk.0.len() != self.orderings.len() {
            return Err(TableError::InvalidArgument);
        }
        let pk_bytes = match serialize_pk(pk, &self.orderings) {
            Ok(b) => b,
            Err(e) => {
                return Err(e);
            },
        };
        let key = make_cell_key(self.keyspace.key(), pk_bytes.as_slice(), cell_idx as u32);
        match store.get(key.as_slice()) {
            None => Ok(None),
            Some(buf) => {
                let t = self.schema.data_type_at(cell_idx);
                match deserialize_datum(buf.as_slice(), t) {
                    Ok(d) => {
                        if d.is_none() {
                            proof {
                                assert(datum_view(d) == None::<crate::types::ScalarValue>);
                            }
                        }
                        Ok(Some(d))
                    },
                    Err(_) => Err(TableError::Codec),
                }
            },
        }
    }

    /// A cursor over the table's rows, in key order.
    pub fn iter(&self, store: &MemoryStateStore) -> (r: Result<MViewTableIter, TableError>)
        requires
            self.wf(),
            store.wf(),
        ensures
            r is Ok,
            r->Ok_0.wf(),
            r->Ok_0.position() == 0,
            r->Ok_0.prefix_len() == self.prefix().len(),
            r->Ok_0.types() == self.types(),
            entries_sorted(r->Ok_0.entries_seq()),
            forall|m: int|
                0 <= m < r->Ok_0.entries_seq().len() ==> key_has_prefix(
                    #[trigger] r->Ok_0.entries_seq()[m].0,
                    self.prefix(),
                ) && store@.contains_key(r->Ok_0.entries_seq()[m].0) && store@[r->Ok_0.entries_seq()[m].0]
                    == r->Ok_0.entries_seq()[m].1,
            forall|k: Seq<u8>|
                #[trigger] store@.contains_key(k) && key_has_prefix(k, self.prefix()) ==> exists|m: int|
                    0 <= m < r->Ok_0.entries_seq().len() && r->Ok_0.entries_seq()[m].0 == k,
    {
        let entries = store.scan(self.keyspace.key());
        let mut prefix: Vec<u8> = Vec::new();
        let key = self.keyspace.key();
        let mut i: usize = 0;
        while i < key.len()
            invariant
                i <= key@.len(),
                prefix@ == key@.take(i as int),
            decreases key.len() - i,
        {
            prefix.push(key[i]);
            assert(key@.take(i + 1) =~= key@.take(i as int).push(key@[i as int]));
            i = i + 1;
        }
        assert(prefix@ =~= key@);
        Ok(MViewTableIter::new(entries, prefix, self.schema.copied()))
    }
}

} // verus!
