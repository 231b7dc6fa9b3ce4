//! The partitioned intermediate store. A [`Partition`] owns a mapping from
//! key to the ordered sequence of values emitted under that key; a
//! [`PartitionStore`] is the fixed-size collection of partitions shared by
//! the map phase; an [`Emitter`] routes each emitted pair into the partition
//! chosen by the partition function; a [`Getter`] hands a reduce call the
//! values grouped under one key.

use vstd::prelude::*;

use crate::bytes::bytes_eq;
use crate::bytes::bytes_lt;
use crate::bytes::lemma_lex_lt_transitive;
use crate::bytes::lex_lt;
use crate::bytes::strictly_sorted_lex;
use crate::hash::Partitioner;

verus! {

/// The views of a sequence of byte vectors.
pub open spec fn views_of(vs: Seq<Vec<u8>>) -> Seq<Seq<u8>> {
    vs.map_values(|v: Vec<u8>| v@)
}

/// The effect of one emit on a partition's contents: append `value` to the
/// sequence stored under `key`, creating the key if it is absent. Emitting
/// never replaces a value.
pub open spec fn emit_one(
    m: Map<Seq<u8>, Seq<Seq<u8>>>,
    key: Seq<u8>,
    value: Seq<u8>,
) -> Map<Seq<u8>, Seq<Seq<u8>>> {
    if m.contains_key(key) {
        m.insert(key, m[key].push(value))
    } else {
        m.insert(key, seq![value])
    }
}

/// One emit is append-only: the emitted value lands at the end of its key's
/// sequence, every value already stored under the key is retained at its
/// position, and no other key of the partition is touched. Two emits with
/// equal keys are therefore both retained, whatever order they arrive in.
pub proof fn lemma_emit_one_effect(m: Map<Seq<u8>, Seq<Seq<u8>>>, key: Seq<u8>, value: Seq<u8>)
    ensures
        emit_one(m, key, value).contains_key(key),
        emit_one(m, key, value)[key] == (if m.contains_key(key) {
            m[key]
        } else {
            Seq::<Seq<u8>>::empty()
        }).push(value),
        forall|k2: Seq<u8>|
            k2 != key ==> (emit_one(m, key, value).contains_key(k2) <==> m.contains_key(k2)),
        forall|k2: Seq<u8>|
            k2 != key && m.contains_key(k2) ==> emit_one(m, key, value)[k2] == m[k2],
{
    if !m.contains_key(key) {
        assert(seq![value] =~= Seq::<Seq<u8>>::empty().push(value));
    }
}

/// The map described by an association list, later entries taking precedence.
spec fn map_of(s: Seq<(Seq<u8>, Seq<Seq<u8>>)>) -> Map<Seq<u8>, Seq<Seq<u8>>>
    decreases s.len(),
{
    if s.len() == 0 {
        Map::empty()
    } else {
        map_of(s.drop_last()).insert(s.last().0, s.last().1)
    }
}

/// Every key occurs in at most one entry.
spec fn keys_distinct(s: Seq<(Seq<u8>, Seq<Seq<u8>>)>) -> bool {
    forall|i: int, j: int| 0 <= i < j < s.len() ==> s[i].0 != s[j].0
}

proof fn lemma_map_of_contains(s: Seq<(Seq<u8>, Seq<Seq<u8>>)>, k: Seq<u8>)
    ensures
        map_of(s).contains_key(k) <==> exists|i: int| 0 <= i < s.len() && s[i].0 == k,
    decreases s.len(),
{
    if s.len() > 0 {
        lemma_map_of_contains(s.drop_last(), k);
        assert(forall|i: int| 0 <= i < s.len() - 1 ==> s.drop_last()[i] == s[i]);
        if s.last().0 == k {
            assert(s[s.len() - 1].0 == k);
        } else {
            if exists|i: int| 0 <= i < s.len() && s[i].0 == k {
                let i = choose|i: int| 0 <= i < s.len() && s[i].0 == k;
                assert(i < s.len() - 1);
                assert(s.drop_last()[i].0 == k);
            }
        }
    }
}

proof fn lemma_map_of_index(s: Seq<(Seq<u8>, Seq<Seq<u8>>)>, i: int)
    requires
        keys_distinct(s),
        0 <= i < s.len(),
    ensures
        map_of(s).contains_key(s[i].0),
        map_of(s)[s[i].0] == s[i].1,
    decreases s.len(),
{
    if i < s.len() - 1 {
        assert(forall|j: int| 0 <= j < s.len() - 1 ==> s.drop_last()[j] == s[j]);
        lemma_map_of_index(s.drop_last(), i);
        assert(s[i].0 != s[s.len() - 1].0);
    }
}

proof fn lemma_map_of_update(s: Seq<(Seq<u8>, Seq<Seq<u8>>)>, i: int, vs: Seq<Seq<u8>>)
    requires
        keys_distinct(s),
        0 <= i < s.len(),
    ensures
        map_of(s.update(i, (s[i].0, vs))) == map_of(s).insert(s[i].0, vs),
    decreases s.len(),
{
    let t = s.update(i, (s[i].0, vs));
    if i == s.len() - 1 {
        assert(t.drop_last() =~= s.drop_last());
        assert(t.last() == (s[i].0, vs));
        assert(map_of(t) =~= map_of(s).insert(s[i].0, vs));
    } else {
        assert(forall|j: int| 0 <= j < s.len() - 1 ==> s.drop_last()[j] == s[j]);
        lemma_map_of_update(s.drop_last(), i, vs);
        assert(t.drop_last() =~= s.drop_last().update(i, (s[i].0, vs)));
        assert(t.last() == s.last());
        assert(s[i].0 != s.last().0);
        assert(map_of(t) =~= map_of(s).insert(s[i].0, vs));
    }
}

proof fn lemma_map_of_push(s: Seq<(Seq<u8>, Seq<Seq<u8>>)>, k: Seq<u8>, vs: Seq<Seq<u8>>)
    ensures
        map_of(s.push((k, vs))) == map_of(s).insert(k, vs),
{
    assert(s.push((k, vs)).drop_last() =~= s);
    assert(s.push((k, vs)).last() == (k, vs));
}

/// One key of a partition together with the values emitted under it, in
/// insertion order.
struct PartEntry {
    key: Vec<u8>,
    values: Vec<Vec<u8>>,
}

/// One shard of the intermediate key space: a mapping from key to the
/// ordered sequence of values emitted under that key.
pub struct Partition {
    entries: Vec<PartEntry>,
}

impl Partition {
    spec fn entry_pairs(&self) -> Seq<(Seq<u8>, Seq<Seq<u8>>)> {
        self.entries@.map_values(|e: PartEntry| (e.key@, views_of(e.values@)))
    }

    /// The partition's contents: each key mapped to the ordered sequence of
    /// values emitted under it.
    pub closed spec fn view(&self) -> Map<Seq<u8>, Seq<Seq<u8>>> {
        map_of(self.entry_pairs())
    }

    /// Well-formed: the partition holds one entry per key.
    pub closed spec fn wf(&self) -> bool {
        keys_distinct(self.entry_pairs())
    }

    /// An empty partition.
    pub fn new() -> (p: Partition)
        ensures
            p.wf(),
            p@ == Map::<Seq<u8>, Seq<Seq<u8>>>::empty(),
    {
        let p = Partition { entries: Vec::new() };
        proof {
            assert(p.entry_pairs() =~= Seq::<(Seq<u8>, Seq<Seq<u8>>)>::empty());
        }
        p
    }

    fn find(&self, key: &Vec<u8>) -> (r: Option<usize>)
        ensures
            match r {
                Some(i) => i < self.entry_pairs().len() && self.entry_pairs()[i as int].0 == key@,
                None => forall|i: int|
                    0 <= i < self.entry_pairs().len() ==> self.entry_pairs()[i].0 != key@,
            },
    {
        let mut i: usize = 0;
        while i < self.entries.len()
            invariant
                i <= self.entries@.len(),
                forall|j: int| 0 <= j < i ==> self.entry_pairs()[j].0 != key@,
            decreases self.entries@.len() - i,
    {
            if bytes_eq(&self.entries[i].key, key) {
                return Some(i);
            }
            i = i + 1;
        }
        None
    }

    /// Whether any value has been emitted under `key` in this partition.
    pub fn contains_key(&self, key: &Vec<u8>) -> (r: bool)
        ensures
            r == self@.contains_key(key@),
    {
        proof {
            lemma_map_of_contains(self.entry_pairs(), key@);
        }
        self.find(key).is_some()
    }

    /// Append `value` to the sequence stored under `key`, creating the key's
    /// sequence if it is absent. Appending never drops or replaces an
    /// already-stored value.
    pub fn append(&mut self, key: &Vec<u8>, value: Vec<u8>)
        requires
            old(self).wf(),
        ensures
            final(self).wf(),
            final(self)@ == emit_one(old(self)@, key@, value@),
    {
        proof {
            lemma_map_of_contains(self.entry_pairs(), key@);
        }
        match self.find(key) {
            Some(i) => {
                proof {
                    lemma_map_of_index(self.entry_pairs(), i as int);
                    lemma_map_of_update(
                        self.entry_pairs(),
                        i as int,
                        self.entry_pairs()[i as int].1.push(value@),
                    );
                }
                let ghost old_pairs = self.entry_pairs();
                let e = &mut self.entries[i];
                e.values.push(value);
                proof {
                    assert(views_of(self.entries@[i as int].values@) =~= old_pairs[i as int].1.push(
                        value@,
                    ));
                    assert(self.entry_pairs() =~= old_pairs.update(
                        i as int,
                        (key@, old_pairs[i as int].1.push(value@)),
                    ));
                }
            },
            None => {
                let ghost old_pairs = self.entry_pairs();
                proof {
                    lemma_map_of_push(old_pairs, key@, seq![value@]);
                }
                let mut vs: Vec<Vec<u8>> = Vec::new();
                vs.push(value);
                let k = copy_bytes(key);
                proof {
                    assert(views_of(vs@) =~= seq![value@]);
                }
                self.entries.push(PartEntry { key: k, values: vs });
                proof {
                    assert(self.entry_pairs() =~= old_pairs.push((key@, views_of(vs@))));
                }
            },
        }
    }

    /// The number of values stored under `key`, zero if the key is absent.
    pub fn value_count(&self, key: &Vec<u8>) -> (n: usize)
        requires
            self.wf(),
        ensures
            n == if self@.contains_key(key@) {
                self@[key@].len()
            } else {
                0
            },
    {
        proof {
            lemma_map_of_contains(self.entry_pairs(), key@);
        }
        match self.find(key) {
            Some(i) => {
                proof {
                    lemma_map_of_index(self.entry_pairs(), i as int);
                }
                self.entries[i].values.len()
            },
            None => 0,
        }
    }

    /// The values stored under `key`, in insertion order.
    pub fn values_ref(&self, key: &Vec<u8>) -> (r: &Vec<Vec<u8>>)
        requires
            self.wf(),
            self@.contains_key(key@),
        ensures
            views_of(r@) == self@[key@],
    {
        proof {
            lemma_map_of_contains(self.entry_pairs(), key@);
        }
        match self.find(key) {
            Some(i) => {
                proof {
                    lemma_map_of_index(self.entry_pairs(), i as int);
                }
                &self.entries[i].values
            },
            None => {
                proof {
                    assert(false);
                }
                &self.entries[0].values
            },
        }
    }
}

fn lower_bound(out: &Vec<Vec<u8>>, x: &Vec<u8>) -> (j: usize)
    ensures
        j <= out@.len(),
        forall|k: int| 0 <= k < j ==> lex_lt(views_of(out@)[k], x@),
        j < out@.len() ==> !lex_lt(views_of(out@)[j as int], x@),
{
    let mut j: usize = 0;
    while j < out.len()
        invariant
            j <= out@.len(),
            forall|k: int| 0 <= k < j ==> lex_lt(views_of(out@)[k], x@),
        decreases out@.len() - j,
    {
        if !bytes_lt(&out[j], x) {
            return j;
        }
        j = j + 1;
    }
    j
}

/// Insert a key that is not yet present into a strictly sorted key list,
/// keeping it strictly sorted.
fn insert_sorted(out: &mut Vec<Vec<u8>>, x: Vec<u8>)
    requires
        strictly_sorted_lex(views_of(old(out)@)),
        !views_of(old(out)@).contains(x@),
    ensures
        strictly_sorted_lex(views_of(final(out)@)),
        final(out)@.len() == old(out)@.len() + 1,
        forall|k: Seq<u8>|
            views_of(final(out)@).contains(k) <==> (views_of(old(out)@).contains(k) || k == x@),
{
    let ghost v = views_of(out@);
    let j = lower_bound(out, &x);
    proof {
        if (j as int) < v.len() {
            crate::bytes::lemma_lex_le_total(v[j as int], x@);
            assert(v.contains(v[j as int]));
            assert(v[j as int] != x@);
            assert(lex_lt(x@, v[j as int]));
        }
        assert forall|k: int| j <= k < v.len() implies lex_lt(x@, v[k]) by {
            if k > j {
                lemma_lex_lt_transitive(x@, v[j as int], v[k]);
            }
        }
    }
    out.insert(j, x);
    proof {
        let nv = views_of(out@);
        assert(nv =~= v.insert(j as int, x@));
        assert forall|i1: int, i2: int| 0 <= i1 < i2 < nv.len() implies lex_lt(nv[i1], nv[i2]) by {
            assert(nv[i1] == if i1 < j { v[i1] } else if i1 == j { x@ } else { v[i1 - 1] });
            assert(nv[i2] == if i2 < j { v[i2] } else if i2 == j { x@ } else { v[i2 - 1] });
        }
        assert forall|k: Seq<u8>| nv.contains(k) <==> (v.contains(k) || k == x@) by {
            if nv.contains(k) {
                let i = choose|i: int| 0 <= i < nv.len() && nv[i] == k;
                if i < j {
                    assert(v[i] == k);
                } else if i > j {
                    assert(v[i - 1] == k);
                }
            }
            if v.contains(k) {
                let i = choose|i: int| 0 <= i < v.len() && v[i] == k;
                if i < j {
                    assert(nv[i] == k);
                } else {
                    assert(nv[i + 1] == k);
                }
            }
            if k == x@ {
                assert(nv[j as int] == k);
            }
        }
    }
}

impl Partition {
    /// The distinct keys of the partition, in strictly increasing
    /// byte-lexicographic order: the canonical, deterministic order in which
    /// a reduce job visits its partition's keys.
    pub fn sorted_keys(&self) -> (r: Vec<Vec<u8>>)
        requires
            self.wf(),
        ensures
            strictly_sorted_lex(views_of(r@)),
            forall|k: Seq<u8>| views_of(r@).contains(k) <==> self@.contains_key(k),
    {
        let mut r: Vec<Vec<u8>> = Vec::new();
        let mut i: usize = 0;
        proof {
            assert(views_of(r@) =~= Seq::<Seq<u8>>::empty());
        }
        while i < self.entries.len()
            invariant
                self.wf(),
                i <= self.entries@.len(),
                strictly_sorted_lex(views_of(r@)),
                forall|k: Seq<u8>|
                    views_of(r@).contains(k) <==> exists|j: int|
                        0 <= j < i && self.entry_pairs()[j].0 == k,
            decreases self.entries@.len() - i,
        {
            let key_copy = copy_bytes(&self.entries[i].key);
            proof {
                assert(key_copy@ == self.entry_pairs()[i as int].0);
                if views_of(r@).contains(key_copy@) {
                    let j = choose|j: int| 0 <= j < i && self.entry_pairs()[j].0 == key_copy@;
                    assert(false);
                }
            }
            insert_sorted(&mut r, key_copy);
            i = i + 1;
        }
        proof {
            assert forall|k: Seq<u8>| views_of(r@).contains(k) <==> self@.contains_key(k) by {
                lemma_map_of_contains(self.entry_pairs(), k);
            }
        }
        r
    }
}

/// The read-side capability handed to a reduce call: it retrieves the `i`-th
/// value stored for one key within one partition. The partition's data is
/// immutable during the reduce phase, so a getter needs no synchronization.
pub struct Getter<'a> {
    /// The key this getter is bound to.
    pub key: &'a Vec<u8>,
    /// The values stored under that key, in insertion order.
    pub values: &'a Vec<Vec<u8>>,
}

impl<'a> Getter<'a> {
    /// The sequence of values the getter ranges over.
    pub open spec fn view(&self) -> Seq<Seq<u8>> {
        views_of(self.values@)
    }

    /// The value at position `index` within the value sequence for `key`.
    /// Every index in `[0, value_count)` yields the value emitted at that
    /// position; an out-of-range index yields the not-found sentinel `None`
    /// rather than faulting.
    pub fn getter(&self, key: &Vec<u8>, index: usize) -> (r: Option<&Vec<u8>>)
        requires
            key@ == self.key@,
        ensures
            index < self@.len() ==> (r matches Some(v) && v@ == self@[index as int]),
            index >= self@.len() ==> r is None,
    {
        if index < self.values.len() {
            Some(&self.values[index])
        } else {
            None
        }
    }
}

/// The fixed-size collection of partitions shared by the whole map phase.
/// Each partition is an independently held unit; the store is created before
/// the map phase begins and read during the reduce phase.
pub struct PartitionStore {
    parts: Vec<Partition>,
}

impl PartitionStore {
    /// The contents of each partition, by partition index.
    pub closed spec fn view(&self) -> Seq<Map<Seq<u8>, Seq<Seq<u8>>>> {
        self.parts@.map_values(|p: Partition| p@)
    }

    /// Well-formed: every partition is well-formed.
    pub closed spec fn wf(&self) -> bool {
        forall|i: int| 0 <= i < self.parts@.len() ==> (#[trigger] self.parts@[i]).wf()
    }

    /// A store of `num_partitions` empty partitions.
    pub fn new(num_partitions: usize) -> (s: PartitionStore)
        requires
            num_partitions >= 1,
        ensures
            s.wf(),
            s@.len() == num_partitions,
            forall|i: int|
                0 <= i < num_partitions ==> s@[i] == Map::<Seq<u8>, Seq<Seq<u8>>>::empty(),
    {
        let mut parts: Vec<Partition> = Vec::new();
        let mut i: usize = 0;
        while i < num_partitions
            invariant
                i <= num_partitions,
                parts@.len() == i,
                forall|j: int| 0 <= j < i ==> (#[trigger] parts@[j]).wf(),
                forall|j: int|
                    0 <= j < i ==> parts@[j]@ == Map::<Seq<u8>, Seq<Seq<u8>>>::empty(),
            decreases num_partitions - i,
        {
            parts.push(Partition::new());
            i = i + 1;
        }
        PartitionStore { parts }
    }

    /// The number of partitions.
    pub fn num_partitions(&self) -> (n: usize)
        ensures
            n == self@.len(),
    {
        self.parts.len()
    }

    /// Read access to partition `i`.
    pub fn part(&self, i: usize) -> (p: &Partition)
        requires
            i < self@.len(),
        ensures
            p@ == self@[i as int],
            self.wf() ==> p.wf(),
    {
        &self.parts[i]
    }

    /// Append `value` under `key` in partition `p`; no other partition and
    /// no other key is touched.
    pub fn append_at(&mut self, p: usize, key: &Vec<u8>, value: Vec<u8>)
        requires
            old(self).wf(),
            p < old(self)@.len(),
        ensures
            final(self).wf(),
            final(self)@ == old(self)@.update(
                p as int,
                emit_one(old(self)@[p as int], key@, value@),
            ),
    {
        let part = &mut self.parts[p];
        part.append(key, value);
        proof {
            assert(self@ =~= old(self)@.update(
                p as int,
                emit_one(old(self)@[p as int], key@, value@),
            ));
        }
    }
}

/// The write-side capability bound to a partition function: it routes every
/// emitted `(key, value)` pair into the partition the function assigns to
/// the key. The relative order of values emitted under one key from
/// concurrently running mappers is whatever order their emits arrive in; it
/// is not deterministic across runs, and nothing here promises otherwise.
pub struct Emitter<P: Partitioner> {
    /// The partitioned intermediate store being filled.
    pub store: PartitionStore,
    /// The routing rule: fixed for the whole map phase.
    pub partitioner: P,
}

impl<P: Partitioner> Emitter<P> {
    /// Every key present in a partition was routed there by the partition
    /// function: a key's partition depends on nothing but the key bytes and
    /// the partition count — not on which mapper emitted it, how many
    /// times, or in what interleaving.
    pub open spec fn routed(&self) -> bool {
        forall|i: int, k: Seq<u8>|
            0 <= i < self.store@.len() && (#[trigger] self.store@[i].contains_key(k))
                ==> self.partitioner.part_of(k, self.store@.len() as int) == i
    }

    /// Well-formed: at least one partition, every partition well-formed, and
    /// every stored key routed to its own partition.
    pub open spec fn wf(&self) -> bool {
        self.store.wf() && self.store@.len() >= 1 && self.routed()
    }

    /// The number of partitions emitted into.
    pub open spec fn nparts(&self) -> int {
        self.store@.len() as int
    }

    /// An emitter over `num_partitions` empty partitions.
    pub fn new(num_partitions: usize, partitioner: P) -> (em: Emitter<P>)
        requires
            num_partitions >= 1,
        ensures
            em.wf(),
            em.nparts() == num_partitions,
            em.partitioner == partitioner,
            forall|i: int|
                0 <= i < num_partitions ==> em.store@[i] == Map::<Seq<u8>, Seq<Seq<u8>>>::empty(),
    {
        let em = Emitter { store: PartitionStore::new(num_partitions), partitioner };
        em
    }

    /// Route one emitted pair into the partition the partition function
    /// assigns to its key, and append it there: the pair is appended to the
    /// key's value sequence, and every other partition and key is unchanged.
    pub fn emit(&mut self, key: &Vec<u8>, value: Vec<u8>)
        requires
            old(self).wf(),
        ensures
            final(self).wf(),
            final(self).partitioner == old(self).partitioner,
            final(self).nparts() == old(self).nparts(),
            ({
                let p = old(self).partitioner.part_of(key@, old(self).nparts());
                &&& 0 <= p < old(self).nparts()
                &&& final(self).store@ == old(self).store@.update(
                    p,
                    emit_one(old(self).store@[p], key@, value@),
                )
            }),
    {
        let n = self.store.num_partitions();
        let p = self.partitioner.partition(key, n);
        self.store.append_at(p, key, value);
        proof {
            assert forall|i: int, k: Seq<u8>|
                0 <= i < self.store@.len() && (#[trigger] self.store@[i].contains_key(k))
                    implies self.partitioner.part_of(k, self.store@.len() as int) == i by {
                if i == p {
                    if k != key@ {
                        assert(old(self).store@[i].contains_key(k));
                    }
                }
            }
        }
    }
}

/// The effect of one routed emit on a whole store: the pair is appended in
/// the partition the partition function assigns to its key.
pub open spec fn store_emit<P: Partitioner>(
    s: Seq<Map<Seq<u8>, Seq<Seq<u8>>>>,
    p: P,
    key: Seq<u8>,
    value: Seq<u8>,
) -> Seq<Map<Seq<u8>, Seq<Seq<u8>>>> {
    s.update(p.part_of(key, s.len() as int), emit_one(s[p.part_of(key, s.len() as int)], key, value))
}

/// The effect of a sequence of routed emits on a whole store, applied in
/// emission order.
pub open spec fn store_after_emits<P: Partitioner>(
    s: Seq<Map<Seq<u8>, Seq<Seq<u8>>>>,
    p: P,
    pairs: Seq<(Seq<u8>, Seq<u8>)>,
) -> Seq<Map<Seq<u8>, Seq<Seq<u8>>>>
    decreases pairs.len(),
{
    if pairs.len() == 0 {
        s
    } else {
        store_emit(store_after_emits(s, p, pairs.drop_last()), p, pairs.last().0, pairs.last().1)
    }
}

/// Emitting one more pair extends the fold by one routed emit.
pub proof fn lemma_store_after_emits_push<P: Partitioner>(
    s: Seq<Map<Seq<u8>, Seq<Seq<u8>>>>,
    p: P,
    pairs: Seq<(Seq<u8>, Seq<u8>)>,
    key: Seq<u8>,
    value: Seq<u8>,
)
    ensures
        store_after_emits(s, p, pairs.push((key, value))) == store_emit(
            store_after_emits(s, p, pairs),
            p,
            key,
            value,
        ),
{
    assert(pairs.push((key, value)).drop_last() =~= pairs);
    assert(pairs.push((key, value)).last() == (key, value));
}

/// `keys` lists exactly the keys of `m`, in strictly increasing
/// byte-lexicographic order. For a finite map there is exactly one such
/// sequence: the canonical order in which a reduce job visits its
/// partition's keys.
pub open spec fn is_sorted_key_seq(m: Map<Seq<u8>, Seq<Seq<u8>>>, keys: Seq<Seq<u8>>) -> bool {
    strictly_sorted_lex(keys) && (forall|k: Seq<u8>| keys.contains(k) <==> m.contains_key(k))
}

/// There is only one strictly sorted sequence with a given membership: the
/// sorted key order of a partition is deterministic.
pub proof fn lemma_sorted_key_seq_unique(a: Seq<Seq<u8>>, b: Seq<Seq<u8>>)
    requires
        strictly_sorted_lex(a),
        strictly_sorted_lex(b),
        forall|k: Seq<u8>| a.contains(k) <==> b.contains(k),
    ensures
        a == b,
    decreases a.len(),
{
    if a.len() == 0 {
        if b.len() > 0 {
            assert(b.contains(b[0]));
            assert(false);
        }
        assert(a =~= b);
    } else {
        assert(a.contains(a[0]));
        assert(b.contains(a[0]));
        assert(b.len() > 0);
        assert(b.contains(b[0]));
        assert(a.contains(b[0]));
        if a[0] != b[0] {
            let i = choose|i: int| 0 <= i < b.len() && b[i] == a[0];
            assert(i > 0);
            assert(lex_lt(b[0], b[i]));
            let j = choose|j: int| 0 <= j < a.len() && a[j] == b[0];
            assert(j > 0);
            assert(lex_lt(a[0], a[j]));
            crate::bytes::lemma_lex_le_antisymmetric(a[0], b[0]);
            assert(false);
        }
        assert forall|i1: int, i2: int| 0 <= i1 < i2 < a.skip(1).len() implies lex_lt(
            a.skip(1)[i1],
            a.skip(1)[i2],
        ) by {
            assert(a.skip(1)[i1] == a[i1 + 1]);
            assert(a.skip(1)[i2] == a[i2 + 1]);
        }
        assert forall|i1: int, i2: int| 0 <= i1 < i2 < b.skip(1).len() implies lex_lt(
            b.skip(1)[i1],
            b.skip(1)[i2],
        ) by {
            assert(b.skip(1)[i1] == b[i1 + 1]);
            assert(b.skip(1)[i2] == b[i2 + 1]);
        }
        assert forall|k: Seq<u8>| a.skip(1).contains(k) <==> b.skip(1).contains(k) by {
            lemma_tail_membership(a, k);
            lemma_tail_membership(b, k);
        }
        lemma_sorted_key_seq_unique(a.skip(1), b.skip(1));
        assert forall|i: int| 0 <= i < a.len() implies a[i] == b[i] by {
            if i > 0 {
                assert(a[i] == a.skip(1)[i - 1]);
                assert(b[i] == b.skip(1)[i - 1]);
            }
        }
        assert(a =~= b);
    }
}

/// In a strictly sorted sequence, the tail holds exactly the members other
/// than the head.
proof fn lemma_tail_membership(a: Seq<Seq<u8>>, k: Seq<u8>)
    requires
        strictly_sorted_lex(a),
        a.len() > 0,
    ensures
        a.skip(1).contains(k) <==> (a.contains(k) && k != a[0]),
{
    if a.skip(1).contains(k) {
        let i = choose|i: int| 0 <= i < a.skip(1).len() && a.skip(1)[i] == k;
        assert(a[i + 1] == k);
        assert(lex_lt(a[0], a[i + 1]));
    }
    if a.contains(k) && k != a[0] {
        let i = choose|i: int| 0 <= i < a.len() && a[i] == k;
        assert(i > 0);
        assert(a.skip(1)[i - 1] == k);
    }
}

/// Whatever sequence of emits produced the store, a key found in partition
/// `i` has partition assignment `i` under the partition function — the
/// assignment does not depend on which mapper emitted the key, how many
/// times, or in what order.
pub proof fn lemma_partition_assignment<P: Partitioner>(em: &Emitter<P>, i: int, k: Seq<u8>)
    requires
        em.wf(),
        0 <= i < em.store@.len(),
        em.store@[i].contains_key(k),
    ensures
        em.partitioner.part_of(k, em.nparts()) == i,
{
}

/// An owned copy of a byte string.
pub fn copy_bytes(v: &Vec<u8>) -> (r: Vec<u8>)
    ensures
        r@ == v@,
{
    let mut r: Vec<u8> = Vec::new();
    let mut i: usize = 0;
    while i < v.len()
        invariant
            i <= v@.len(),
            r@ == v@.take(i as int),
        decreases v@.len() - i,
    {
        r.push(v[i]);
        proof {
            assert(v@.take(i + 1) =~= v@.take(i as int).push(v@[i as int]));
        }
        i = i + 1;
    }
    proof {
        assert(v@.take(v@.len() as int) =~= v@);
    }
    r
}

} // verus!
