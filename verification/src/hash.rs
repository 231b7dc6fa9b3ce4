//! The canonical partition function: a djb2-style string hash reduced modulo
//! the partition count, together with the `Partitioner` capability that the
//! engine routes every emitted key through.

use vstd::prelude::*;

verus! {

/// The djb2-style running hash of a byte string: the hash starts at 5381 and
/// each byte `c` updates it to `h * 33 + c`, truncated to 64 bits.
pub open spec fn djb2(key: Seq<u8>) -> u64
    decreases key.len(),
{
    if key.len() == 0 {
        5381u64
    } else {
        ((djb2(key.drop_last()) * 33 + key.last()) % 0x1_0000_0000_0000_0000) as u64
    }
}

/// The canonical hash partition function: hash the key with [`djb2`] and
/// reduce modulo `num_partitions`. The result always lies in
/// `[0, num_partitions)`, for every key, including the empty key.
#[allow(non_snake_case)]
pub fn MR_DefaultHashPartition(key: &Vec<u8>, num_partitions: u64) -> (r: u64)
    requires
        num_partitions >= 1,
    ensures
        r == djb2(key@) % num_partitions,
        r < num_partitions,
{
    let mut hash: u64 = 5381;
    let mut i: usize = 0;
    while i < key.len()
        invariant
            i <= key@.len(),
            hash == djb2(key@.take(i as int)),
        decreases key@.len() - i,
    {
        let c: u128 = key[i] as u128;
        let wide: u128 = (hash as u128) * 33 + c;
        proof {
            assert(key@.take(i + 1).drop_last() =~= key@.take(i as int));
            assert(key@.take(i + 1).last() == key@[i as int]);
        }
        hash = (wide % 0x1_0000_0000_0000_0000u128) as u64;
        i = i + 1;
    }
    proof {
        assert(key@.take(key@.len() as int) =~= key@);
    }
    hash % num_partitions
}

/// The partition assignment is a pure function of the key bytes and the
/// partition count: two calls of [`MR_DefaultHashPartition`] on equal keys
/// and equal counts return equal partition indices.
pub proof fn lemma_default_hash_partition_deterministic(key1: Seq<u8>, key2: Seq<u8>, n: u64)
    requires
        key1 == key2,
        n >= 1,
    ensures
        djb2(key1) % n == djb2(key2) % n,
{
}

/// A partition function: a deterministic routing rule from a key to a
/// partition index below the partition count. Callers of the engine may
/// implement this to override the canonical hash-based rule.
pub trait Partitioner: Sized {
    /// The routing rule as a mathematical function of the key bytes. The
    /// default is the canonical hash rule of [`MR_DefaultHashPartition`];
    /// a partitioner with a different routing rule overrides this to state
    /// its own.
    open spec fn part_of(&self, key: Seq<u8>, num_partitions: int) -> int {
        (djb2(key) as int) % num_partitions
    }

    /// Compute the partition for `key` among `num_partitions` partitions.
    fn partition(&self, key: &Vec<u8>, num_partitions: usize) -> (p: usize)
        requires
            num_partitions >= 1,
        ensures
            p as int == self.part_of(key@, num_partitions as int),
            p < num_partitions,
    ;
}

/// The canonical partitioner, routing each key by [`MR_DefaultHashPartition`].
pub struct DefaultPartitioner {}

impl Partitioner for DefaultPartitioner {
    fn partition(&self, key: &Vec<u8>, num_partitions: usize) -> (p: usize)
    {
        let h = MR_DefaultHashPartition(key, num_partitions as u64);
        h as usize
    }
}

} // verus!
