//! Partitioning strategies that assign nodes (and edges, by their source node)
//! to shards.

use vstd::prelude::*;

use crate::shard::ShardId;
use crate::types::NodeId;

verus! {

/// Strategy for partitioning nodes across shards.
pub trait PartitionStrategy: Send + Sync {
    /// The shard that owns a node.
    spec fn owner(&self, node_id: NodeId) -> ShardId;

    /// Number of shards in the scheme.
    spec fn shard_count(&self) -> nat;

    /// Determine which shard owns the given node.
    fn shard_for_node(&self, node_id: NodeId) -> (r: ShardId)
        ensures
            r == self.owner(node_id),
            (r.0 as nat) < self.shard_count(),
    ;

    /// Determine which shard owns a given edge (based on source node).
    fn shard_for_edge(&self, source: NodeId) -> (r: ShardId)
        ensures
            r == self.owner(source),
    ;

    /// Number of shards in this partitioning scheme.
    fn num_shards(&self) -> (r: usize)
        ensures
            r as nat == self.shard_count(),
    ;
}

pub const FNV_OFFSET: u64 = 0xcbf29ce484222325;

pub const FNV_PRIME: u64 = 0x100000001b3;

/// FNV-1a over the low `rounds` bytes of `input`, least significant first,
/// starting from `hash`.
pub open spec fn fnv1a_rounds(hash: u64, input: u64, rounds: nat) -> u64
    decreases rounds,
{
    if rounds == 0 {
        hash
    } else {
        fnv1a_rounds((hash ^ (input & 0xff)).wrapping_mul(FNV_PRIME), input >> 8, (rounds - 1) as nat)
    }
}

/// FNV-1a 64-bit hash of the eight little-endian bytes of `input`.
pub open spec fn fnv1a(input: u64) -> u64 {
    fnv1a_rounds(FNV_OFFSET, input, 8)
}

/// Byte `i` (counting from the least significant) of `x`.
pub open spec fn le_byte(x: u64, i: u64) -> u8 {
    ((x >> (8 * i)) & 0xff) as u8
}

/// The eight bytes of `x`, least significant first.
pub open spec fn le_bytes(x: u64) -> Seq<u8> {
    Seq::new(8, |i: int| le_byte(x, i as u64))
}

/// The FNV-1a 64-bit hash of a byte string, from `hash`: for each byte in
/// turn, XOR it into the hash, then multiply by the FNV prime (mod 2^64).
pub open spec fn fnv1a_of_bytes(hash: u64, bytes: Seq<u8>) -> u64
    decreases bytes.len(),
{
    if bytes.len() == 0 {
        hash
    } else {
        fnv1a_of_bytes((hash ^ (bytes[0] as u64)).wrapping_mul(FNV_PRIME), bytes.drop_first())
    }
}

proof fn lemma_fnv1a_rounds_bytes(hash: u64, y: u64, k: nat)
    requires
        k <= 8,
    ensures
        fnv1a_rounds(hash, y, k) == fnv1a_of_bytes(
            hash,
            Seq::new(k, |i: int| le_byte(y, i as u64)),
        ),
    decreases k,
{
    let bytes = Seq::new(k, |i: int| le_byte(y, i as u64));
    if k > 0 {
        let z = y >> 8;
        lemma_fnv1a_rounds_bytes((hash ^ (y & 0xff)).wrapping_mul(FNV_PRIME), z, (k - 1) as nat);
        let rest = Seq::new((k - 1) as nat, |i: int| le_byte(z, i as u64));
        assert forall|i: int| 0 <= i < k - 1 implies #[trigger] bytes.drop_first()[i] == rest[i] by {
            let j = i as u64;
            assert(j < 7);
            assert(((y >> (8 * (j + 1))) & 0xff) as u8 == (((y >> 8) >> (8 * j)) & 0xff) as u8) by (bit_vector)
                requires
                    j < 7,
            ;
        }
        assert(bytes.drop_first() =~= rest);
        assert((hash ^ (((y >> (8 * 0u64)) & 0xff) as u8 as u64)) == (hash ^ (y & 0xff))) by (bit_vector);
    }
}

/// The hash of a node id is the FNV-1a 64-bit hash of its eight
/// little-endian bytes, starting from the FNV offset basis, with the
/// standard 64-bit offset basis and prime.
pub proof fn lemma_fnv1a_little_endian(x: u64)
    ensures
        fnv1a(x) == fnv1a_of_bytes(FNV_OFFSET, le_bytes(x)),
        FNV_OFFSET == 0xcbf29ce484222325u64,
        FNV_PRIME == 0x100000001b3u64,
{
    lemma_fnv1a_rounds_bytes(FNV_OFFSET, x, 8);
    assert(le_bytes(x) =~= Seq::new(8, |i: int| le_byte(x, i as u64)));
}

/// FNV-1a 64-bit hash. Specified by the FNV-1a standard; stable across
/// compiler versions, platforms, and releases.
pub fn fnv1a_u64(input: u64) -> (r: u64)
    ensures
        r == fnv1a(input),
{
    let mut rest = input;
    let mut hash: u64 = FNV_OFFSET;
    let mut i: u32 = 0;
    while i < 8
        invariant
            i <= 8,
            fnv1a_rounds(hash, rest, (8 - i) as nat) == fnv1a(input),
        decreases 8 - i,
    {
        let byte = rest & 0xff;
        hash = hash ^ byte;
        hash = hash.wrapping_mul(FNV_PRIME);
        rest = rest >> 8;
        i = i + 1;
    }
    hash
}

/// Hash-based partitioning: shard = fnv1a(node id) mod number of shards.
pub struct HashPartitioner {
    num_shards: usize,
}

impl View for HashPartitioner {
    type V = usize;

    closed spec fn view(&self) -> usize {
        self.num_shards
    }
}

impl HashPartitioner {
    #[verifier::type_invariant]
    spec fn has_shards(self) -> bool {
        self.num_shards > 0
    }

    pub fn new(num_shards: usize) -> (r: Self)
        requires
            num_shards > 0,
        ensures
            r@ == num_shards,
    {
        Self { num_shards }
    }
}

impl PartitionStrategy for HashPartitioner {
    open spec fn owner(&self, node_id: NodeId) -> ShardId {
        ShardId((fnv1a(node_id.0) as usize) % self@)
    }

    open spec fn shard_count(&self) -> nat {
        self@ as nat
    }

    fn shard_for_node(&self, node_id: NodeId) -> (r: ShardId) {
        proof { use_type_invariant(self); }
        ShardId((fnv1a_u64(node_id.0) as usize) % self.num_shards)
    }

    fn shard_for_edge(&self, source: NodeId) -> (r: ShardId) {
        self.shard_for_node(source)
    }

    fn num_shards(&self) -> (r: usize) {
        self.num_shards
    }
}

/// Hash partitioning sends a node to the FNV-1a hash of its id's eight
/// little-endian bytes, modulo the number of shards.
pub proof fn lemma_hash_owner(p: HashPartitioner, node: NodeId)
    ensures
        p.owner(node).0 == (fnv1a_of_bytes(FNV_OFFSET, le_bytes(node.0)) as usize) % p@,
{
    lemma_fnv1a_little_endian(node.0);
}

/// The shard that range partitioning with `boundaries` assigns to `id`, looking
/// from shard `i` on: the first shard `j >= i` with `id < boundaries[j + 1]`,
/// or the last shard when there is none.
pub open spec fn range_shard(boundaries: Seq<u64>, id: u64, i: int) -> int
    decreases boundaries.len() - i,
{
    if i >= boundaries.len() - 1 {
        boundaries.len() - 2
    } else if id < boundaries[i + 1] {
        i
    } else {
        range_shard(boundaries, id, i + 1)
    }
}

/// Range-based partitioning: shard `i` owns node ids in
/// `[boundaries[i], boundaries[i+1])`; ids past the last boundary go to the
/// last shard.
pub struct RangePartitioner {
    boundaries: Vec<u64>,
}

impl View for RangePartitioner {
    type V = Seq<u64>;

    closed spec fn view(&self) -> Seq<u64> {
        self.boundaries@
    }
}

impl RangePartitioner {
    #[verifier::type_invariant]
    spec fn has_two_boundaries(self) -> bool {
        self.boundaries@.len() >= 2
    }

    /// Create a range partitioner with evenly-spaced boundaries: shard `i`
    /// starts at `i * (max_id / num_shards)` and the last boundary is `max_id`.
    pub fn uniform(num_shards: usize, max_id: u64) -> (r: Self)
        requires
            num_shards > 0,
        ensures
            r@.len() == num_shards + 1,
            forall|i: int| 0 <= i < num_shards ==> r@[i] == i * (max_id / (num_shards as u64)),
            r@[num_shards as int] == max_id,
            r.shard_count() == num_shards,
    {
        let step = max_id / (num_shards as u64);
        let mut boundaries: Vec<u64> = Vec::new();
        let mut i: usize = 0;
        while i < num_shards
            invariant
                i <= num_shards,
                step == max_id / (num_shards as u64),
                boundaries@.len() == i,
                forall|j: int| 0 <= j < i ==> boundaries@[j] == j * step,
            decreases num_shards - i,
        {
            proof {
                vstd::arithmetic::div_mod::lemma_fundamental_div_mod(max_id as int, num_shards as int);
                vstd::arithmetic::mul::lemma_mul_inequality(i as int, num_shards as int, step as int);
                vstd::arithmetic::mul::lemma_mul_is_commutative(i as int, step as int);
                vstd::arithmetic::mul::lemma_mul_is_commutative(num_shards as int, step as int);
            }
            boundaries.push((i as u64) * step);
            i = i + 1;
        }
        boundaries.push(max_id);
        Self { boundaries }
    }

    /// Create from explicit boundary values.
    pub fn from_boundaries(boundaries: Vec<u64>) -> (r: Self)
        requires
            boundaries@.len() >= 2,
        ensures
            r@ == boundaries@,
    {
        Self { boundaries }
    }
}

impl PartitionStrategy for RangePartitioner {
    open spec fn owner(&self, node_id: NodeId) -> ShardId {
        ShardId(range_shard(self@, node_id.0, 0) as usize)
    }

    open spec fn shard_count(&self) -> nat {
        (self@.len() - 1) as nat
    }

    fn shard_for_node(&self, node_id: NodeId) -> (r: ShardId) {
        proof { use_type_invariant(self); }
        let n = self.boundaries.len();
        let mut i: usize = 0;
        while i < n - 1
            invariant
                n == self.boundaries@.len(),
                n >= 2,
                i <= n - 1,
                range_shard(self.boundaries@, node_id.0, i as int) == range_shard(self.boundaries@, node_id.0, 0),
            decreases n - 1 - i,
        {
            if node_id.0 < self.boundaries[i + 1] {
                return ShardId(i);
            }
            i = i + 1;
        }
        ShardId(n - 2)
    }

    fn shard_for_edge(&self, source: NodeId) -> (r: ShardId) {
        self.shard_for_node(source)
    }

    fn num_shards(&self) -> (r: usize) {
        proof { use_type_invariant(self); }
        self.boundaries.len() - 1
    }
}

} // verus!
