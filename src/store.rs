use vstd::prelude::*;
use crate::types::TableError;
use crate::order::{
    bytes_eq, bytes_lt, has_prefix, lemma_lex_irreflexive, lemma_lex_total, lemma_lex_transitive,
    lex_lt,
};

verus! {

/// Key-value pairs as byte sequences.
pub type Entries = Seq<(Seq<u8>, Seq<u8>)>;

/// Keys strictly increasing in the store's order.
pub open spec fn entries_sorted(s: Entries) -> bool {
    forall|i: int, j: int| 0 <= i < j < s.len() ==> lex_lt(#[trigger] s[i].0, #[trigger] s[j].0)
}

/// A position of `k` among the keys of `s`, where it occurs.
pub open spec fn key_index(s: Entries, k: Seq<u8>) -> int {
    choose|i: int| 0 <= i < s.len() && s[i].0 == k
}

/// The map that a sequence of pairs with distinct keys stands for.
pub open spec fn entries_map(s: Entries) -> Map<Seq<u8>, Seq<u8>> {
    Map::new(
        |k: Seq<u8>| exists|i: int| 0 <= i < s.len() && s[i].0 == k,
        |k: Seq<u8>| s[key_index(s, k)].1,
    )
}

pub open spec fn entries_view(v: Seq<(Vec<u8>, Vec<u8>)>) -> Entries {
    v.map_values(|e: (Vec<u8>, Vec<u8>)| (e.0@, e.1@))
}

pub open spec fn key_has_prefix(k: Seq<u8>, p: Seq<u8>) -> bool {
    p.len() <= k.len() && k.take(p.len() as int) == p
}

/// In a sorted sequence each pair is what the map holds for its key.
pub proof fn lemma_entries_map_at(s: Entries, i: int)
    requires
        entries_sorted(s),
        0 <= i < s.len(),
    ensures
        entries_map(s).contains_key(s[i].0),
        entries_map(s)[s[i].0] == s[i].1,
{
    let k = s[i].0;
    assert(exists|j: int| 0 <= j < s.len() && s[j].0 == k);
    let j = key_index(s, k);
    if j < i {
        assert(lex_lt(s[j].0, s[i].0));
        lemma_lex_irreflexive(k);
    } else if i < j {
        assert(lex_lt(s[i].0, s[j].0));
        lemma_lex_irreflexive(k);
    }
    assert(j == i);
    assert(entries_map(s).dom().contains(k));
    assert(entries_map(s)[k] == s[j].1);
}

/// One write of a batch.
#[derive(Clone, Debug)]
pub enum WriteOp {
    Put(Vec<u8>, Vec<u8>),
    Delete(Vec<u8>),
}

/// The mathematical value of a write.
pub ghost enum OpValue {
    Put(Seq<u8>, Seq<u8>),
    Delete(Seq<u8>),
}

impl View for WriteOp {
    type V = OpValue;

    open spec fn view(&self) -> OpValue {
        match self {
            WriteOp::Put(k, v) => OpValue::Put(k@, v@),
            WriteOp::Delete(k) => OpValue::Delete(k@),
        }
    }
}

pub open spec fn ops_view(ops: Seq<WriteOp>) -> Seq<OpValue> {
    ops.map_values(|o: WriteOp| o@)
}

pub open spec fn apply_op(m: Map<Seq<u8>, Seq<u8>>, op: OpValue) -> Map<Seq<u8>, Seq<u8>> {
    match op {
        OpValue::Put(k, v) => m.insert(k, v),
        OpValue::Delete(k) => m.remove(k),
    }
}

/// The map after a batch of writes, applied in order.
pub open spec fn apply_ops(m: Map<Seq<u8>, Seq<u8>>, ops: Seq<OpValue>) -> Map<Seq<u8>, Seq<u8>>
    decreases ops.len(),
{
    if ops.len() == 0 {
        m
    } else {
        apply_op(apply_ops(m, ops.drop_last()), ops.last())
    }
}

/// An ordered key-value store held in memory.
pub struct MemoryStateStore {
    entries: Vec<(Vec<u8>, Vec<u8>)>,
}

impl View for MemoryStateStore {
    type V = Map<Seq<u8>, Seq<u8>>;

    open spec fn view(&self) -> Map<Seq<u8>, Seq<u8>> {
        entries_map(self.entries_seq())
    }
}

impl MemoryStateStore {
    pub closed spec fn entries_seq(&self) -> Entries {
        entries_view(self.entries@)
    }

    pub open spec fn wf(&self) -> bool {
        entries_sorted(self.entries_seq())
    }

    pub fn new() -> (r: MemoryStateStore)
        ensures
            r.wf(),
            r@ == Map::<Seq<u8>, Seq<u8>>::empty(),
    {
        let r = MemoryStateStore { entries: Vec::new() };
        assert(r@ =~= Map::<Seq<u8>, Seq<u8>>::empty());
        r
    }

    /// The first position whose key is not below `key`.
    fn lower_bound(&self, key: &[u8]) -> (r: usize)
        requires
            self.wf(),
        ensures
            r <= self.entries_seq().len(),
            forall|j: int| 0 <= j < r ==> lex_lt(#[trigger] self.entries_seq()[j].0, key@),
            r < self.entries_seq().len() ==> !lex_lt(self.entries_seq()[r as int].0, key@),
    {
        let mut i: usize = 0;
        while i < self.entries.len()
            invariant
                i <= self.entries@.len(),
                self.entries_seq().len() == self.entries@.len(),
                forall|j: int| 0 <= j < i ==> lex_lt(#[trigger] self.entries_seq()[j].0, key@),
            decreases self.entries.len() - i,
        {
            if !bytes_lt(self.entries[i].0.as_slice(), key) {
                return i;
            }
            i = i + 1;
        }
        i
    }

    /// Where `key` stands, if it is present.
    fn position_of(&self, key: &[u8]) -> (r: Option<usize>)
        requires
            self.wf(),
        ensures
            match r {
                Some(i) => i < self.entries_seq().len() && self.entries_seq()[i as int].0 == key@,
                None => !self@.contains_key(key@),
            },
    {
        let i = self.lower_bound(key);
        if i < self.entries.len() && bytes_eq(self.entries[i].0.as_slice(), key) {
            return Some(i);
        }
        proof {
            let s = self.entries_seq();
            if self@.contains_key(key@) {
                let j = choose|j: int| 0 <= j < s.len() && s[j].0 == key@;
                if j < i {
                    lemma_lex_irreflexive(key@);
                } else if j > i {
                    lemma_lex_transitive(s[i as int].0, s[j].0, key@);
                    assert(lex_lt(s[i as int].0, s[j].0));
                }
            }
        }
        None
    }

    /// The value stored under `key`.
    pub fn get(&self, key: &[u8]) -> (r: Option<Vec<u8>>)
        requires
            self.wf(),
        ensures
            match r {
                Some(v) => self@.contains_key(key@) && self@[key@] == v@,
                None => !self@.contains_key(key@),
            },
    {
        match self.position_of(key) {
            Some(i) => {
                proof {
                    lemma_entries_map_at(self.entries_seq(), i as int);
                }
                Some(self.entries[i].1.clone())
            },
            None => None,
        }
    }

    /// Stores `value` under `key`.
    pub fn put(&mut self, key: Vec<u8>, value: Vec<u8>)
        requires
            old(self).wf(),
        ensures
            final(self).wf(),
            final(self)@ == old(self)@.insert(key@, value@),
    {
        let ghost s = self.entries_seq();
        let i = self.lower_bound(key.as_slice());
        if i < self.entries.len() && bytes_eq(self.entries[i].0.as_slice(), key.as_slice()) {
            let ghost kv = key@;
            let ghost vv = value@;
            self.entries.set(i, (key, value));
            proof {
                let t = self.entries_seq();
                assert(t =~= s.update(i as int, (kv, vv)));
                assert forall|a: int, b: int| 0 <= a < b < t.len() implies lex_lt(
                    #[trigger] t[a].0,
                    #[trigger] t[b].0,
                ) by {
                    assert(s[a].0 == t[a].0 && s[b].0 == t[b].0);
                }
                self.lemma_map_after_set(s, i as int, kv, vv);
            }
        } else {
            let ghost kv = key@;
            let ghost vv = value@;
            self.entries.insert(i, (key, value));
            proof {
                let t = self.entries_seq();
                assert(t =~= s.insert(i as int, (kv, vv)));
                if i < s.len() {
                    lemma_lex_total(s[i as int].0, kv);
                }
                assert forall|m: int| i <= m < s.len() implies lex_lt(kv, #[trigger] s[m].0) by {
                    if m > i {
                        lemma_lex_transitive(kv, s[i as int].0, s[m].0);
                    }
                }
                assert forall|a: int, b: int| 0 <= a < b < t.len() implies lex_lt(
                    #[trigger] t[a].0,
                    #[trigger] t[b].0,
                ) by {
                    if b == i {
                    } else if a == i {
                        assert(lex_lt(kv, s[b - 1].0));
                    } else if a < i && b > i {
                        assert(lex_lt(kv, s[b - 1].0));
                        lemma_lex_transitive(s[a].0, kv, s[b - 1].0);
                    } else if a > i {
                        assert(t[a] == s[a - 1] && t[b] == s[b - 1]);
                    }
                }
                assert forall|j: int| 0 <= j < s.len() implies s[j].0 != kv by {
                    if j < i {
                        lemma_lex_irreflexive(kv);
                    } else if j > i {
                        lemma_lex_transitive(kv, s[i as int].0, s[j].0);
                        lemma_lex_irreflexive(kv);
                    }
                }
                assert(self@ =~= entries_map(s).insert(kv, vv)) by {
                    assert forall|k: Seq<u8>| #[trigger] self@.contains_key(k) <==> entries_map(
                        s,
                    ).insert(kv, vv).contains_key(k) by {
                        if k != kv && self@.contains_key(k) {
                            let j = choose|j: int| 0 <= j < t.len() && t[j].0 == k;
                            assert(j < i ==> t[j] == s[j]);
                            assert(j > i ==> t[j] == s[j - 1]);
                        }
                        if k != kv && entries_map(s).contains_key(k) {
                            let j = choose|j: int| 0 <= j < s.len() && s[j].0 == k;
                            assert(j < i ==> t[j] == s[j]);
                            assert(j >= i ==> t[j + 1] == s[j]);
                        }
                        if k == kv {
                            assert(t[i as int].0 == kv);
                        }
                    }
                    assert forall|k: Seq<u8>| #[trigger] self@.contains_key(k) implies self@[k]
                        == entries_map(s).insert(kv, vv)[k] by {
                        let j = choose|j: int| 0 <= j < t.len() && t[j].0 == k;
                        lemma_entries_map_at(t, j);
                        if j < i {
                            assert(t[j] == s[j]);
                            lemma_entries_map_at(s, j);
                            assert(s[j].0 != kv);
                        } else if j > i {
                            assert(t[j] == s[j - 1]);
                            lemma_entries_map_at(s, j - 1);
                            assert(s[j - 1].0 != kv);
                        } else {
                            assert(t[j] == (kv, vv));
                        }
                    }
                }
            }
        }
    }

    proof fn lemma_map_after_set(&self, s: Entries, i: int, kv: Seq<u8>, vv: Seq<u8>)
        requires
            entries_sorted(s),
            0 <= i < s.len(),
            s[i].0 == kv,
            self.entries_seq() == s.update(i, (kv, vv)),
            self.wf(),
        ensures
            self@ == entries_map(s).insert(kv, vv),
    {
        let t = self.entries_seq();
        lemma_entries_map_at(s, i);
        assert forall|k: Seq<u8>| #[trigger] self@.contains_key(k) <==> entries_map(s).insert(
            kv,
            vv,
        ).contains_key(k) by {
            if self@.contains_key(k) {
                let j = choose|j: int| 0 <= j < t.len() && t[j].0 == k;
                assert(s[j].0 == k);
            }
            if entries_map(s).contains_key(k) {
                let j = choose|j: int| 0 <= j < s.len() && s[j].0 == k;
                assert(t[j].0 == k);
            }
        }
        assert forall|k: Seq<u8>| #[trigger] self@.contains_key(k) implies self@[k]
            == entries_map(s).insert(kv, vv)[k] by {
            let j = choose|j: int| 0 <= j < t.len() && t[j].0 == k;
            lemma_entries_map_at(t, j);
            if j != i {
                lemma_entries_map_at(s, j);
                if j < i {
                    assert(lex_lt(s[j].0, s[i].0));
                } else {
                    assert(lex_lt(s[i].0, s[j].0));
                }
                lemma_lex_irreflexive(kv);
                assert(k != kv);
            }
        }
        assert(self@ =~= entries_map(s).insert(kv, vv));
    }

    /// Removes what is stored under `key`, if anything.
    pub fn delete(&mut self, key: &[u8])
        requires
            old(self).wf(),
        ensures
            final(self).wf(),
            final(self)@ == old(self)@.remove(key@),
    {
        let ghost s = self.entries_seq();
        match self.position_of(key) {
            None => {
                assert(self@ =~= entries_map(s).remove(key@));
            },
            Some(i) => {
                self.entries.remove(i);
                proof {
                    let t = self.entries_seq();
                    assert(t =~= s.remove(i as int));
                    assert forall|a: int, b: int| 0 <= a < b < t.len() implies lex_lt(
                        #[trigger] t[a].0,
                        #[trigger] t[b].0,
                    ) by {
                        let a2 = if a < i { a } else { a + 1 };
                        let b2 = if b < i { b } else { b + 1 };
                        assert(t[a] == s[a2] && t[b] == s[b2]);
                    }
                    assert forall|k: Seq<u8>| #[trigger] self@.contains_key(k) <==> entries_map(
                        s,
                    ).remove(key@).contains_key(k) by {
                        if self@.contains_key(k) {
                            let j = choose|j: int| 0 <= j < t.len() && t[j].0 == k;
                            let j2 = if j < i { j } else { j + 1 };
                            assert(t[j] == s[j2]);
                            if k == key@ {
                                if j2 < i {
                                    lemma_lex_irreflexive(k);
                                } else {
                                    lemma_lex_irreflexive(k);
                                }
                            }
                        }
                        if entries_map(s).remove(key@).contains_key(k) {
                            let j = choose|j: int| 0 <= j < s.len() && s[j].0 == k;
                            assert(j != i);
                            let j2 = if j < i { j } else { j - 1 };
                            assert(t[j2] == s[j]);
                        }
                    }
                    assert forall|k: Seq<u8>| #[trigger] self@.contains_key(k) implies self@[k]
                        == entries_map(s).remove(key@)[k] by {
                        let j = choose|j: int| 0 <= j < t.len() && t[j].0 == k;
                        let j2 = if j < i { j } else { j + 1 };
                        assert(t[j] == s[j2]);
                        lemma_entries_map_at(t, j);
                        lemma_entries_map_at(s, j2);
                    }
                    assert(self@ =~= entries_map(s).remove(key@));
                }
            },
        }
    }

    /// Applies a batch of writes, in order, as one step. The memory store keeps
    /// no versions, so the epoch is not recorded.
    pub fn ingest_batch(&mut self, ops: Vec<WriteOp>, epoch: u64) -> (r: Result<(), TableError>)
        requires
            old(self).wf(),
        ensures
            r is Ok,
            final(self).wf(),
            final(self)@ == apply_ops(old(self)@, ops_view(ops@)),
    {
        let ghost m0 = self@;
        let mut n: usize = 0;
        while n < ops.len()
            invariant
                n <= ops@.len(),
                self.wf(),
                self@ == apply_ops(m0, ops_view(ops@).take(n as int)),
            decreases ops.len() - n,
        {
            proof {
                assert(ops_view(ops@).take(n + 1).drop_last() =~= ops_view(ops@).take(n as int));
            }
            match &ops[n] {
                WriteOp::Put(k, v) => {
                    self.put(k.clone(), v.clone());
                },
                WriteOp::Delete(k) => {
                    self.delete(k.as_slice());
                },
            }
            n = n + 1;
        }
        assert(ops_view(ops@).take(n as int) =~= ops_view(ops@));
        Ok(())
    }

    /// The pairs whose keys start with `prefix`, in the store's order.
    pub fn scan(&self, prefix: &[u8]) -> (r: Vec<(Vec<u8>, Vec<u8>)>)
        requires
            self.wf(),
        ensures
            entries_sorted(entries_view(r@)),
            forall|m: int|
                0 <= m < r@.len() ==> key_has_prefix(#[trigger] entries_view(r@)[m].0, prefix@)
                    && self@.contains_key(entries_view(r@)[m].0) && self@[entries_view(r@)[m].0]
                    == entries_view(r@)[m].1,
            forall|k: Seq<u8>|
                #[trigger] self@.contains_key(k) && key_has_prefix(k, prefix@) ==> exists|m: int|
                    0 <= m < r@.len() && entries_view(r@)[m].0 == k,
    {
        let ghost s = self.entries_seq();
        let mut r: Vec<(Vec<u8>, Vec<u8>)> = Vec::new();
        let mut i: usize = 0;
        while i < self.entries.len()
            invariant
                i <= s.len(),
                s == self.entries_seq(),
                s.len() == self.entries@.len(),
                self.wf(),
                entries_sorted(entries_view(r@)),
                forall|m: int, j: int|
                    0 <= m < r@.len() && i <= j < s.len() ==> lex_lt(
                        #[trigger] entries_view(r@)[m].0,
                        #[trigger] s[j].0,
                    ),
                forall|m: int|
                    0 <= m < r@.len() ==> key_has_prefix(#[trigger] entries_view(r@)[m].0, prefix@)
                        && self@.contains_key(entries_view(r@)[m].0) && self@[entries_view(
                        r@,
                    )[m].0] == entries_view(r@)[m].1,
                forall|j: int|
                    0 <= j < i && key_has_prefix(#[trigger] s[j].0, prefix@) ==> exists|m: int|
                        0 <= m < r@.len() && entries_view(r@)[m].0 == s[j].0,
            decreases self.entries.len() - i,
        {
            if has_prefix(self.entries[i].0.as_slice(), prefix) {
                let ghost old_r = entries_view(r@);
                r.push((self.entries[i].0.clone(), self.entries[i].1.clone()));
                proof {
                    let nr = entries_view(r@);
                    assert(nr =~= old_r.push(s[i as int]));
                    lemma_entries_map_at(s, i as int);
                    assert forall|m: int, j: int|
                        0 <= m < nr.len() && i + 1 <= j < s.len() implies lex_lt(
                        #[trigger] nr[m].0,
                        #[trigger] s[j].0,
                    ) by {
                        assert(lex_lt(s[i as int].0, s[j].0));
                        if m < old_r.len() {
                            assert(nr[m] == old_r[m]);
                        }
                    }
                    assert forall|j: int|
                        0 <= j < i + 1 && key_has_prefix(#[trigger] s[j].0, prefix@) implies exists|m: int|
                        0 <= m < nr.len() && nr[m].0 == s[j].0 by {
                        if j == i {
                            assert(nr[old_r.len() as int].0 == s[j].0);
                        } else {
                            let m = choose|m: int| 0 <= m < old_r.len() && old_r[m].0 == s[j].0;
                            assert(nr[m] == old_r[m]);
                        }
                    }
                }
            } else {
                proof {
                    let nr = entries_view(r@);
                    assert forall|m: int, j: int|
                        0 <= m < nr.len() && i + 1 <= j < s.len() implies lex_lt(
                        #[trigger] nr[m].0,
                        #[trigger] s[j].0,
                    ) by {
                        assert(lex_lt(nr[m].0, s[i as int].0));
                        assert(lex_lt(s[i as int].0, s[j].0));
                        lemma_lex_transitive(nr[m].0, s[i as int].0, s[j].0);
                    }
                }
            }
            i = i + 1;
        }
        proof {
            assert forall|k: Seq<u8>|
                #[trigger] self@.contains_key(k) && key_has_prefix(k, prefix@) implies exists|m: int|
                0 <= m < r@.len() && entries_view(r@)[m].0 == k by {
                let j = key_index(s, k);
                assert(key_has_prefix(s[j].0, prefix@));
            }
        }
        r
    }
}

} // verus!
