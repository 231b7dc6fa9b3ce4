//! The two-phase driver: validate the worker counts, drain every input file
//! through the map callback, and only then — the phase barrier — visit each
//! partition's keys in sorted order through the reduce callback. The
//! contracts pin both phases: the final store is the fold of every file's
//! emissions routed by the partition function, and the reducer's final state
//! is the fold of one invocation per stored key, partitions in index order,
//! keys in sorted order.

use vstd::prelude::*;

use crate::bytes::bytes_eq;
use crate::carray::CArray;
use crate::hash::Partitioner;
use crate::store::Emitter;
use crate::store::Getter;
use crate::store::PartitionStore;
use crate::store::copy_bytes;
use crate::store::is_sorted_key_seq;
use crate::store::lemma_store_after_emits_push;
use crate::store::store_after_emits;
use crate::store::store_emit;
use crate::store::views_of;
use crate::threadpool::ThreadPool;

verus! {

/// The error the engine reports before any work runs.
#[derive(Clone, Copy, Debug, PartialEq, Eq, Structural)]
pub enum MapReduceError {
    /// Fewer than one mapper or fewer than one reducer was requested.
    Config,
}

/// A map callback: it reads the input named by `file` and emits zero or more
/// `(key, value)` pairs through the emitter. The engine does not interpret
/// emitted data; a mapper touches the store only by emitting, and its
/// emissions for a file are fixed by its `emits` specification.
pub trait Mapper<P: Partitioner>: Sized {
    /// The pairs this mapper emits for `file`, in emission order.
    spec fn emits(&self, file: Seq<u8>) -> Seq<(Seq<u8>, Seq<u8>)>;

    /// Process one input file: after the call the store holds exactly the
    /// prior contents extended by this mapper's emissions for `file`, each
    /// routed by the partition function.
    fn map(&self, file: &Vec<u8>, em: &mut Emitter<P>)
        requires
            old(em).wf(),
        ensures
            final(em).wf(),
            final(em).nparts() == old(em).nparts(),
            final(em).partitioner == old(em).partitioner,
            final(em).store@ == store_after_emits(
                old(em).store@,
                old(em).partitioner,
                self.emits(file@),
            ),
    ;
}

/// A reduce callback: the engine invokes it exactly once per distinct key of
/// a partition, with the number of values grouped under that key and a
/// getter that yields the value at every index in `[0, value_count)`. Each
/// invocation changes the reducer's state as its `reduced` relation says.
pub trait Reducer: Sized {
    /// How one invocation with `key` and its grouped `values` relates the
    /// reducer's state before the call to its state after it.
    spec fn reduced(pre: Self, key: Seq<u8>, values: Seq<Seq<u8>>, post: Self) -> bool;

    fn reduce<'a>(&mut self, key: &Vec<u8>, getter: &Getter<'a>, value_count: usize)
        requires
            getter.key@ == key@,
            value_count == getter@.len(),
        ensures
            Self::reduced(*old(self), key@, getter@, *final(self)),
    ;
}

/// `post` is `pre` after one reduce invocation per key of `keys`, in order,
/// each invocation receiving the values `m` holds under its key.
pub open spec fn reduce_fold<R: Reducer>(
    pre: R,
    m: Map<Seq<u8>, Seq<Seq<u8>>>,
    keys: Seq<Seq<u8>>,
    post: R,
) -> bool
    decreases keys.len(),
{
    if keys.len() == 0 {
        post == pre
    } else {
        exists|mid: R|
            #[trigger] R::reduced(mid, keys.last(), m[keys.last()], post) && reduce_fold(
                pre,
                m,
                keys.drop_last(),
                mid,
            )
    }
}

/// `post` is `pre` after reducing partitions `0..p` of `store` in index
/// order, each partition's distinct keys visited exactly once, in strictly
/// increasing byte-lexicographic order.
pub open spec fn reduce_phase_fold<R: Reducer>(
    pre: R,
    store: Seq<Map<Seq<u8>, Seq<Seq<u8>>>>,
    p: int,
    post: R,
) -> bool
    decreases p,
{
    if p <= 0 {
        post == pre
    } else {
        exists|mid: R, keys: Seq<Seq<u8>>|
            #[trigger] reduce_fold(mid, store[p - 1], keys, post) && is_sorted_key_seq(
                store[p - 1],
                keys,
            ) && reduce_phase_fold(pre, store, p - 1, mid)
    }
}

/// The store contents after the map phase: each file of `files[1..argc]`,
/// in index order, contributes the mapper's emissions for it, routed by the
/// partition function. The first entry names the program and contributes
/// nothing.
pub open spec fn store_after_map_phase<P: Partitioner, M: Mapper<P>>(
    s: Seq<Map<Seq<u8>, Seq<Seq<u8>>>>,
    p: P,
    m: M,
    files: Seq<Vec<u8>>,
    argc: int,
) -> Seq<Map<Seq<u8>, Seq<Seq<u8>>>>
    decreases argc,
{
    if argc <= 1 {
        s
    } else {
        store_after_emits(
            store_after_map_phase(s, p, m, files, argc - 1),
            p,
            m.emits(files[argc - 1]@),
        )
    }
}

/// Run one map job per input file — every file in `files[1..argc]`; the
/// first entry conventionally names the program and is skipped — and return
/// only when all of them have completed. This return is the phase barrier:
/// no reduce job starts before it, so by then every partition's key set and
/// value sequences are complete and will not be further mutated. The store
/// afterwards holds exactly each file's emissions, applied in file order.
pub fn run_map_phase<P: Partitioner, M: Mapper<P>>(
    files: &CArray<Vec<u8>>,
    argc: usize,
    map: &M,
    em: &mut Emitter<P>,
)
    requires
        argc <= files@.len(),
        old(em).wf(),
    ensures
        final(em).wf(),
        final(em).nparts() == old(em).nparts(),
        final(em).partitioner == old(em).partitioner,
        final(em).store@ == store_after_map_phase(
            old(em).store@,
            old(em).partitioner,
            *map,
            files@,
            argc as int,
        ),
{
    let mut i: usize = 1;
    while i < argc
        invariant
            argc <= files@.len(),
            argc <= 1 ==> i == 1,
            argc > 1 ==> 1 <= i <= argc,
            em.wf(),
            em.nparts() == old(em).nparts(),
            em.partitioner == old(em).partitioner,
            em.store@ == store_after_map_phase(
                old(em).store@,
                old(em).partitioner,
                *map,
                files@,
                i as int,
            ),
        decreases argc - i,
    {
        map.map(files.index(i), em);
        i = i + 1;
    }
    proof {
        if argc as int <= 1 {
            assert(store_after_map_phase(
                old(em).store@,
                old(em).partitioner,
                *map,
                files@,
                argc as int,
            ) == old(em).store@);
            assert(store_after_map_phase(
                old(em).store@,
                old(em).partitioner,
                *map,
                files@,
                1,
            ) == old(em).store@);
        }
    }
}

/// Reducing one more partition extends the phase fold by that partition's
/// reduce job.
proof fn lemma_reduce_phase_fold_step<R: Reducer>(
    pre: R,
    store: Seq<Map<Seq<u8>, Seq<Seq<u8>>>>,
    p: int,
    mid: R,
    keys: Seq<Seq<u8>>,
    post: R,
)
    requires
        0 <= p,
        reduce_phase_fold(pre, store, p, mid),
        is_sorted_key_seq(store[p], keys),
        reduce_fold(mid, store[p], keys, post),
    ensures
        reduce_phase_fold(pre, store, p + 1, post),
{
    assert(reduce_fold(mid, store[p + 1 - 1], keys, post));
    assert(is_sorted_key_seq(store[p + 1 - 1], keys));
    assert(reduce_phase_fold(pre, store, p + 1 - 1, mid));
}

/// One reduce job: visit every distinct key of partition `p` exactly once,
/// in strictly increasing byte-lexicographic order, and invoke the reducer
/// for each key with the values grouped under it.
pub fn run_reduce_partition<R: Reducer>(store: &PartitionStore, p: usize, reduce: &mut R)
    requires
        store.wf(),
        p < store@.len(),
    ensures
        exists|keys: Seq<Seq<u8>>|
            #[trigger] reduce_fold(*old(reduce), store@[p as int], keys, *final(reduce))
                && is_sorted_key_seq(store@[p as int], keys),
{
    let part = store.part(p);
    let keys = part.sorted_keys();
    let mut j: usize = 0;
    proof {
        assert(views_of(keys@).take(0) =~= Seq::<Seq<u8>>::empty());
    }
    while j < keys.len()
        invariant
            part.wf(),
            part@ == store@[p as int],
            j <= keys@.len(),
            forall|k: Seq<u8>| views_of(keys@).contains(k) <==> part@.contains_key(k),
            crate::bytes::strictly_sorted_lex(views_of(keys@)),
            reduce_fold(*old(reduce), part@, views_of(keys@).take(j as int), *reduce),
        decreases keys@.len() - j,
    {
        let ghost pre_call = *reduce;
        let key = &keys[j];
        proof {
            assert(views_of(keys@)[j as int] == key@);
            assert(views_of(keys@).contains(key@));
        }
        let values = part.values_ref(key);
        let count = values.len();
        let g = Getter { key, values };
        reduce.reduce(key, &g, count);
        proof {
            assert(R::reduced(pre_call, key@, part@[key@], *reduce));
            let prefix = views_of(keys@).take(j as int);
            let extended = views_of(keys@).take(j + 1);
            assert(extended.drop_last() =~= prefix);
            assert(extended.last() == key@);
            assert(reduce_fold(*old(reduce), part@, prefix, pre_call) && R::reduced(
                pre_call,
                extended.last(),
                part@[extended.last()],
                *reduce,
            ));
            assert(reduce_fold(*old(reduce), part@, extended, *reduce));
        }
        j = j + 1;
    }
    proof {
        assert(views_of(keys@).take(keys@.len() as int) =~= views_of(keys@));
        assert(is_sorted_key_seq(part@, views_of(keys@)));
    }
}

/// For each partition index in `[0, num_partitions)` in turn, run that
/// partition's reduce job: the reducer's final state is the fold of one
/// invocation per stored key, partitions in index order, each partition's
/// keys in strictly increasing byte-lexicographic order with their grouped
/// values.
pub fn run_reduce_phase<R: Reducer>(store: &PartitionStore, reduce: &mut R)
    requires
        store.wf(),
    ensures
        reduce_phase_fold(*old(reduce), store@, store@.len() as int, *final(reduce)),
{
    let n = store.num_partitions();
    let mut p: usize = 0;
    while p < n
        invariant
            n == store@.len(),
            store.wf(),
            p <= n,
            reduce_phase_fold(*old(reduce), store@, p as int, *reduce),
        decreases n - p,
    {
        let ghost pre_part = *reduce;
        run_reduce_partition(store, p, reduce);
        proof {
            let keys = choose|keys: Seq<Seq<u8>>|
                #[trigger] reduce_fold(pre_part, store@[p as int], keys, *reduce)
                    && is_sorted_key_seq(store@[p as int], keys);
            lemma_reduce_phase_fold_step(*old(reduce), store@, p as int, pre_part, keys, *reduce);
        }
        p = p + 1;
    }
}

/// Drive one complete MapReduce computation. `argv[0]` names the program
/// and is skipped; `argv[1..argc]` are the input files. The worker counts
/// are validated first: if either is below one, a configuration error is
/// returned and no work at all happens. Otherwise the map phase fully
/// drains — the returned store holds exactly the emissions of
/// `argv[1..argc]`, in file order, routed by the partitioner — and then the
/// reduce phase visits every partition in index order, each partition's
/// keys in sorted order, before the call returns.
#[allow(non_snake_case)]
pub fn MR_Run<P: Partitioner, M: Mapper<P>, R: Reducer>(
    argc: usize,
    argv: &CArray<Vec<u8>>,
    map: &M,
    num_mappers: usize,
    reduce: &mut R,
    num_reducers: usize,
    partition: P,
) -> (r: Result<PartitionStore, MapReduceError>)
    requires
        argc <= argv@.len(),
    ensures
        r is Err <==> (num_mappers < 1 || num_reducers < 1),
        r is Err ==> *final(reduce) == *old(reduce) && (r matches Err(e) && e
            == MapReduceError::Config),
        r matches Ok(store) ==> ({
            let empty = Seq::new(num_reducers as nat, |i: int| Map::<Seq<u8>, Seq<Seq<u8>>>::empty());
            &&& store.wf()
            &&& store@.len() == num_reducers
            &&& forall|i: int, k: Seq<u8>|
                0 <= i < store@.len() && (#[trigger] store@[i].contains_key(k))
                    ==> partition.part_of(k, num_reducers as int) == i
            &&& store@ == store_after_map_phase(empty, partition, *map, argv@, argc as int)
            &&& reduce_phase_fold(*old(reduce), store@, num_reducers as int, *final(reduce))
        }),
{
    if num_mappers < 1 || num_reducers < 1 {
        return Err(MapReduceError::Config);
    }
    let _mapper_pool = match ThreadPool::new(num_mappers) {
        Ok(pool) => pool,
        Err(()) => {
            return Err(MapReduceError::Config);
        },
    };
    let mut em = Emitter::new(num_reducers, partition);
    proof {
        assert(em.store@ =~= Seq::new(
            num_reducers as nat,
            |i: int| Map::<Seq<u8>, Seq<Seq<u8>>>::empty(),
        ));
    }
    run_map_phase(argv, argc, map, &mut em);
    let _reducer_pool = match ThreadPool::new(num_reducers) {
        Ok(pool) => pool,
        Err(()) => {
            return Err(MapReduceError::Config);
        },
    };
    let Emitter { store, partitioner: _ } = em;
    run_reduce_phase(&store, reduce);
    Ok(store)
}

/// Emit one `(key, value)` pair through a map callback's emitter capability:
/// the pair is appended in the partition that the partition function assigns
/// to `key`, and nothing else changes. Only a currently executing map
/// callback holds an emitter, so an emit outside a map callback's execution
/// cannot be expressed.
#[allow(non_snake_case)]
pub fn MR_Emit<P: Partitioner>(em: &mut Emitter<P>, key: &Vec<u8>, value: Vec<u8>)
    requires
        old(em).wf(),
    ensures
        final(em).wf(),
        final(em).partitioner == old(em).partitioner,
        final(em).nparts() == old(em).nparts(),
        final(em).store@ == store_emit(old(em).store@, old(em).partitioner, key@, value@),
{
    em.emit(key, value);
}

/// One record of an in-memory input: the file it belongs to and the pair to
/// emit for it.
pub struct MapRecord {
    /// The file name the record belongs to.
    pub file: Vec<u8>,
    /// The key to emit.
    pub key: Vec<u8>,
    /// The value to emit.
    pub value: Vec<u8>,
}

/// The pairs a record list emits for `file`: the `(key, value)` of each
/// record listed under that file name, in list order.
pub open spec fn emits_of(records: Seq<MapRecord>, file: Seq<u8>) -> Seq<(Seq<u8>, Seq<u8>)>
    decreases records.len(),
{
    if records.len() == 0 {
        Seq::empty()
    } else {
        let rest = emits_of(records.drop_last(), file);
        if records.last().file@ == file {
            rest.push((records.last().key@, records.last().value@))
        } else {
            rest
        }
    }
}

/// A map callback over in-memory records: invoked for a file, it emits every
/// record listed under that file name, in list order.
pub struct PairListMapper {
    /// The records, in the order they are emitted per file.
    pub records: Vec<MapRecord>,
}

impl<P: Partitioner> Mapper<P> for PairListMapper {
    open spec fn emits(&self, file: Seq<u8>) -> Seq<(Seq<u8>, Seq<u8>)> {
        emits_of(self.records@, file)
    }

    fn map(&self, file: &Vec<u8>, em: &mut Emitter<P>) {
        let mut i: usize = 0;
        proof {
            assert(self.records@.take(0) =~= Seq::<MapRecord>::empty());
        }
        while i < self.records.len()
            invariant
                em.wf(),
                em.nparts() == old(em).nparts(),
                em.partitioner == old(em).partitioner,
                i <= self.records@.len(),
                em.store@ == store_after_emits(
                    old(em).store@,
                    old(em).partitioner,
                    emits_of(self.records@.take(i as int), file@),
                ),
            decreases self.records@.len() - i,
        {
            let ghost prefix = emits_of(self.records@.take(i as int), file@);
            let ghost prev_store = em.store@;
            let ghost rec = self.records@[i as int];
            proof {
                assert(self.records@.take(i + 1).drop_last() =~= self.records@.take(i as int));
                assert(self.records@.take(i + 1).last() == rec);
            }
            if bytes_eq(&self.records[i].file, file) {
                let v = copy_bytes(&self.records[i].value);
                em.emit(&self.records[i].key, v);
                proof {
                    assert(emits_of(self.records@.take(i + 1), file@) == prefix.push(
                        (rec.key@, rec.value@),
                    ));
                    lemma_store_after_emits_push(
                        old(em).store@,
                        old(em).partitioner,
                        prefix,
                        rec.key@,
                        rec.value@,
                    );
                    assert(em.store@ == store_emit(
                        prev_store,
                        old(em).partitioner,
                        rec.key@,
                        rec.value@,
                    ));
                }
            } else {
                proof {
                    assert(emits_of(self.records@.take(i + 1), file@) == prefix);
                }
            }
            i = i + 1;
        }
        proof {
            assert(self.records@.take(self.records@.len() as int) =~= self.records@);
        }
    }
}

/// One observed reduce invocation: the key the reducer was called with and
/// the value its getter yielded at each index in `[0, value_count)`.
pub struct ReduceCall {
    /// The key of the invocation.
    pub key: Vec<u8>,
    /// The values the getter yielded, in index order.
    pub values: Vec<Vec<u8>>,
}

/// A reduce callback that records every invocation it receives, in call
/// order.
pub struct RecordingReducer {
    /// The observed invocations, oldest first.
    pub calls: Vec<ReduceCall>,
}

impl Reducer for RecordingReducer {
    open spec fn reduced(pre: Self, key: Seq<u8>, values: Seq<Seq<u8>>, post: Self) -> bool {
        &&& post.calls@.len() == pre.calls@.len() + 1
        &&& forall|i: int| 0 <= i < pre.calls@.len() ==> post.calls@[i] == pre.calls@[i]
        &&& post.calls@.last().key@ == key
        &&& views_of(post.calls@.last().values@) == values
    }

    fn reduce<'a>(&mut self, key: &Vec<u8>, getter: &Getter<'a>, value_count: usize) {
        let mut values: Vec<Vec<u8>> = Vec::new();
        let mut i: usize = 0;
        proof {
            assert(views_of(values@) =~= getter@.take(0));
        }
        while i < value_count
            invariant
                getter.key@ == key@,
                value_count == getter@.len(),
                i <= value_count,
                views_of(values@) == getter@.take(i as int),
            decreases value_count - i,
        {
            match getter.getter(key, i) {
                Some(v) => {
                    let c = copy_bytes(v);
                    let ghost cv = c@;
                    let ghost pre_values = values@;
                    proof {
                        assert(views_of(pre_values).len() == getter@.take(i as int).len());
                        assert(pre_values.len() == i as int);
                    }
                    values.push(c);
                    proof {
                        assert(values@ == pre_values.push(c));
                        assert(values@[i as int]@ == cv);
                        assert forall|j: int| 0 <= j < i + 1 implies views_of(values@)[j]
                            == getter@.take(i + 1)[j] by {
                            if j < i {
                                assert(views_of(pre_values)[j] == getter@.take(i as int)[j]);
                                assert(values@[j] == pre_values[j]);
                            }
                        }
                        assert(views_of(values@) =~= getter@.take(i + 1));
                    }
                },
                None => {
                    proof {
                        assert(false);
                    }
                },
            }
            i = i + 1;
        }
        proof {
            assert(getter@.take(value_count as int) =~= getter@);
        }
        let k = copy_bytes(key);
        self.calls.push(ReduceCall { key: k, values });
    }
}

} // verus!
