use mapreduce::carray::CArray;
use mapreduce::engine::MR_Emit;
use mapreduce::engine::MR_Run;
use mapreduce::engine::MapRecord;
use mapreduce::engine::MapReduceError;
use mapreduce::engine::PairListMapper;
use mapreduce::engine::RecordingReducer;
use mapreduce::engine::run_map_phase;
use mapreduce::engine::run_reduce_phase;
use mapreduce::hash::DefaultPartitioner;
use mapreduce::hash::MR_DefaultHashPartition;
use mapreduce::hash::Partitioner;
use mapreduce::store::Emitter;
use mapreduce::store::Getter;
use mapreduce::store::Partition;
use mapreduce::store::PartitionStore;
use mapreduce::threadpool::ThreadPool;

#[test]
fn it_works() {
    assert_eq!(2 + 2, 4);
}

#[test]
fn hash_partition_in_range() {
    let keys: Vec<Vec<u8>> = vec![
        b"".to_vec(),
        b"a".to_vec(),
        b"apple".to_vec(),
        b"some longer key with spaces".to_vec(),
        vec![0u8, 255u8, 128u8],
    ];
    for n in 1..=17u64 {
        for key in &keys {
            assert!(MR_DefaultHashPartition(key, n) < n);
        }
    }
}

#[test]
fn hash_partition_deterministic() {
    let key = b"determinism".to_vec();
    let first = MR_DefaultHashPartition(&key, 13);
    for _ in 0..10 {
        assert_eq!(MR_DefaultHashPartition(&key, 13), first);
    }
    let same_bytes = b"determinism".to_vec();
    assert_eq!(MR_DefaultHashPartition(&same_bytes, 13), first);
}

#[test]
fn hash_known_values() {
    assert_eq!(MR_DefaultHashPartition(&b"".to_vec(), 1_000_000), 5381);
    assert_eq!(MR_DefaultHashPartition(&b"a".to_vec(), 1_000_000), 177_670);
    assert_eq!(
        MR_DefaultHashPartition(&b"apple".to_vec(), 1_000_000_000_000),
        210_706_734_647
    );
}

#[test]
fn partition_assignment_matches_partition_fn() {
    let keys: Vec<Vec<u8>> = vec![
        b"apple".to_vec(),
        b"banana".to_vec(),
        b"cherry".to_vec(),
        b"damson".to_vec(),
        b"".to_vec(),
    ];
    // Emit the same keys in two different interleavings, several times each.
    let mut forward = Emitter::new(4, DefaultPartitioner {});
    for key in &keys {
        forward.emit(key, b"x".to_vec());
        forward.emit(key, b"y".to_vec());
    }
    let mut backward = Emitter::new(4, DefaultPartitioner {});
    for key in keys.iter().rev() {
        backward.emit(key, b"y".to_vec());
    }
    for key in keys.iter().rev() {
        backward.emit(key, b"x".to_vec());
    }
    for em in [&forward, &backward] {
        for p in 0..em.store.num_partitions() {
            for key in &keys {
                if em.store.part(p).contains_key(key) {
                    assert_eq!(MR_DefaultHashPartition(key, 4), p as u64);
                }
            }
        }
        // Each key lands in exactly one partition.
        for key in &keys {
            let homes = (0..4)
                .filter(|&p| em.store.part(p).contains_key(key))
                .count();
            assert_eq!(homes, 1);
        }
    }
}

#[test]
fn values_visible_exactly_once() {
    let mut em = Emitter::new(1, DefaultPartitioner {});
    let key = b"k".to_vec();
    em.emit(&key, b"v1".to_vec());
    em.emit(&b"other".to_vec(), b"zzz".to_vec());
    em.emit(&key, b"v2".to_vec());
    em.emit(&key, b"v3".to_vec());
    let part = em.store.part(0);
    assert_eq!(part.value_count(&key), 3);
    let values = part.values_ref(&key);
    let getter = Getter { key: &key, values };
    assert_eq!(getter.getter(&key, 0).unwrap(), &b"v1".to_vec());
    assert_eq!(getter.getter(&key, 1).unwrap(), &b"v2".to_vec());
    assert_eq!(getter.getter(&key, 2).unwrap(), &b"v3".to_vec());
    assert!(getter.getter(&key, 3).is_none());
    assert!(getter.getter(&key, 100).is_none());
    assert_eq!(part.value_count(&b"absent".to_vec()), 0);
}

#[test]
fn worker_pool_zero_is_config_error() {
    assert!(ThreadPool::new(0).is_err());
    let pool = ThreadPool::new(3).unwrap();
    assert_eq!(pool.size(), 3);
    assert!(ThreadPool::new(1).is_ok());
}

#[test]
fn sorted_keys_lexicographic() {
    let mut part = Partition::new();
    for key in [
        b"pear".to_vec(),
        b"apple".to_vec(),
        b"app".to_vec(),
        b"banana".to_vec(),
        b"apple".to_vec(),
        b"".to_vec(),
    ] {
        part.append(&key, b"1".to_vec());
    }
    let keys = part.sorted_keys();
    let expected: Vec<Vec<u8>> = vec![
        b"".to_vec(),
        b"app".to_vec(),
        b"apple".to_vec(),
        b"banana".to_vec(),
        b"pear".to_vec(),
    ];
    assert_eq!(keys, expected);
}

#[test]
fn reduce_keys_sorted_within_partition() {
    let mut em = Emitter::new(1, DefaultPartitioner {});
    for key in [
        b"banana".to_vec(),
        b"cherry".to_vec(),
        b"apple".to_vec(),
        b"banana".to_vec(),
    ] {
        em.emit(&key, b"1".to_vec());
    }
    let store = em.store;
    let mut reducer = RecordingReducer { calls: Vec::new() };
    run_reduce_phase(&store, &mut reducer);
    let keys: Vec<Vec<u8>> = reducer.calls.iter().map(|c| c.key.clone()).collect();
    assert_eq!(
        keys,
        vec![b"apple".to_vec(), b"banana".to_vec(), b"cherry".to_vec()]
    );
    for pair in keys.windows(2) {
        assert!(pair[0] < pair[1]);
    }
    assert_eq!(reducer.calls[1].values.len(), 2);
}

#[test]
fn map_phase_skips_program_name() {
    let argv = CArray::new(vec![b"prog".to_vec(), b"in.txt".to_vec()]);
    let mapper = PairListMapper {
        records: vec![
            MapRecord {
                file: b"prog".to_vec(),
                key: b"pkey".to_vec(),
                value: b"1".to_vec(),
            },
            MapRecord {
                file: b"in.txt".to_vec(),
                key: b"ikey".to_vec(),
                value: b"1".to_vec(),
            },
        ],
    };
    let mut em = Emitter::new(1, DefaultPartitioner {});
    run_map_phase(&argv, 2, &mapper, &mut em);
    assert!(em.store.part(0).contains_key(&b"ikey".to_vec()));
    assert!(!em.store.part(0).contains_key(&b"pkey".to_vec()));
}

struct SplitPartitioner {}

// An unverified partitioner: it routes "apple" to partition 0 and every
// other key to partition 1 (when two or more partitions exist). Its routing
// differs from the trait's default `part_of` specification, which describes
// the canonical hash rule; were this impl ever moved under verification, it
// would need to override `part_of` with its own rule.
impl Partitioner for SplitPartitioner {
    fn partition(&self, key: &Vec<u8>, num_partitions: usize) -> usize {
        if key.as_slice() == b"apple" {
            0
        } else {
            1 % num_partitions
        }
    }
}

#[test]
fn run_end_to_end() {
    let argv = CArray::new(vec![b"prog".to_vec(), b"a.txt".to_vec(), b"b.txt".to_vec()]);
    let mapper = PairListMapper {
        records: vec![
            MapRecord {
                file: b"a.txt".to_vec(),
                key: b"apple".to_vec(),
                value: b"1".to_vec(),
            },
            MapRecord {
                file: b"a.txt".to_vec(),
                key: b"banana".to_vec(),
                value: b"1".to_vec(),
            },
            MapRecord {
                file: b"b.txt".to_vec(),
                key: b"apple".to_vec(),
                value: b"1".to_vec(),
            },
        ],
    };
    let mut reducer = RecordingReducer { calls: Vec::new() };
    let result = MR_Run(3, &argv, &mapper, 2, &mut reducer, 2, SplitPartitioner {});
    let store = match result {
        Ok(store) => store,
        Err(_) => panic!("valid configuration was rejected"),
    };
    assert_eq!(store.num_partitions(), 2);
    assert_eq!(reducer.calls.len(), 2);
    assert_eq!(reducer.calls[0].key, b"apple".to_vec());
    assert_eq!(
        reducer.calls[0].values,
        vec![b"1".to_vec(), b"1".to_vec()]
    );
    assert_eq!(reducer.calls[1].key, b"banana".to_vec());
    assert_eq!(reducer.calls[1].values, vec![b"1".to_vec()]);
    assert!(store.part(0).contains_key(&b"apple".to_vec()));
    assert!(!store.part(0).contains_key(&b"banana".to_vec()));
    assert!(store.part(1).contains_key(&b"banana".to_vec()));
}

#[test]
fn run_rejects_bad_counts() {
    let argv = CArray::new(vec![b"prog".to_vec()]);
    let mapper = PairListMapper { records: Vec::new() };
    let mut reducer = RecordingReducer { calls: Vec::new() };
    let no_mappers = MR_Run(1, &argv, &mapper, 0, &mut reducer, 2, DefaultPartitioner {});
    assert!(matches!(no_mappers, Err(MapReduceError::Config)));
    let no_reducers = MR_Run(1, &argv, &mapper, 2, &mut reducer, 0, DefaultPartitioner {});
    assert!(matches!(no_reducers, Err(MapReduceError::Config)));
    assert!(reducer.calls.is_empty());
}

#[test]
fn carray_iter_to() {
    let array = CArray::new(vec![10u32, 20, 30]);
    assert_eq!(array.len(), 3);
    assert_eq!(*array.index(1), 20);
    let mut it = array.iter_to(2);
    assert_eq!(it.next(), Some(&10));
    assert_eq!(it.next(), Some(&20));
    assert_eq!(it.next(), None);
    assert_eq!(it.next(), None);
}

#[test]
fn emit_appends_and_replaces_nothing() {
    let mut em = Emitter::new(2, DefaultPartitioner {});
    let key = b"twice".to_vec();
    MR_Emit(&mut em, &key, b"first".to_vec());
    MR_Emit(&mut em, &key, b"second".to_vec());
    let p = MR_DefaultHashPartition(&key, 2) as usize;
    let part = em.store.part(p);
    assert_eq!(part.value_count(&key), 2);
    let values = part.values_ref(&key);
    let getter = Getter { key: &key, values };
    assert_eq!(getter.getter(&key, 0).unwrap(), &b"first".to_vec());
    assert_eq!(getter.getter(&key, 1).unwrap(), &b"second".to_vec());
    assert!(!em.store.part(1 - p).contains_key(&key));
}

#[test]
fn empty_store_reduces_nothing() {
    let store = PartitionStore::new(3);
    assert_eq!(store.num_partitions(), 3);
    let mut reducer = RecordingReducer { calls: Vec::new() };
    run_reduce_phase(&store, &mut reducer);
    assert!(reducer.calls.is_empty());
}
