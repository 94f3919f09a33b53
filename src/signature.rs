//! Fingerprints of a base, block by block.
use crate::error::SyncError;
use crate::rolling::{adler32, RollingChecksum};
use crate::strong::{strong_hash, xxh3_128_of};
use std::collections::HashMap;
use vstd::prelude::*;

verus! {

broadcast use vstd::std_specs::hash::group_hash_axioms;

/// The block size used when none is given.
pub const DEFAULT_CHUNK_SIZE: usize = 4096;

/// The strong hash of one block of the base, and where the block stands.
#[derive(Debug, Clone, Copy, PartialEq, Eq)]
pub struct ChunkSignature {
    /// The block's number: it starts at byte `index * chunk_size`.
    pub index: usize,
    /// The XXH3-128 hash of the block.
    pub hash: u128,
}

/// Fingerprints of a base: for each weak checksum, the blocks that have it,
/// in the order in which they stand in the base.
#[derive(Debug, Clone)]
pub struct Signature {
    pub chunk_size: usize,
    pub buckets: HashMap<u32, Vec<ChunkSignature>>,
}

impl Signature {
    /// The buckets as a map from weak checksum to a sequence of entries.
    pub open spec fn table(self) -> Map<u32, Seq<ChunkSignature>> {
        Map::new(|w: u32| self.buckets@.contains_key(w), |w: u32| self.buckets@[w]@)
    }
}

/// The number of blocks of size `bs` that a base of `len` bytes is cut
/// into; the last one may be shorter.
pub open spec fn num_blocks(len: nat, bs: nat) -> nat
    decreases len,
{
    if bs == 0 || len == 0 {
        0
    } else if len <= bs {
        1
    } else {
        1 + num_blocks((len - bs) as nat, bs)
    }
}

/// Block `i` of `base`: the bytes from `i * bs` up to `(i + 1) * bs` or to
/// the end of the base, whichever comes first.
pub open spec fn block(base: Seq<u8>, bs: nat, i: nat) -> Seq<u8> {
    let end: int = if (i + 1) * bs <= base.len() {
        ((i + 1) * bs) as int
    } else {
        base.len() as int
    };
    base.subrange((i * bs) as int, end)
}

/// The entry that block `i` of `base` gets.
pub open spec fn block_entry(base: Seq<u8>, bs: nat, i: nat) -> ChunkSignature {
    ChunkSignature { index: i as usize, hash: xxh3_128_of(block(base, bs, i)) }
}

/// The buckets that the first `n` blocks of `base` fill.
pub open spec fn bucket_table(base: Seq<u8>, bs: nat, n: nat) -> Map<u32, Seq<ChunkSignature>>
    decreases n,
{
    if n == 0 {
        Map::empty()
    } else {
        let t = bucket_table(base, bs, (n - 1) as nat);
        let w = adler32(block(base, bs, (n - 1) as nat));
        let bucket = if t.contains_key(w) {
            t[w]
        } else {
            Seq::empty()
        };
        t.insert(w, bucket.push(block_entry(base, bs, (n - 1) as nat)))
    }
}

/// The buckets of every block of `base`.
pub open spec fn signature_of(base: Seq<u8>, bs: nat) -> Map<u32, Seq<ChunkSignature>> {
    bucket_table(base, bs, num_blocks(base.len(), bs))
}

/// Fingerprints `base` in blocks of `DEFAULT_CHUNK_SIZE` bytes.
pub fn signature(base: &[u8]) -> (r: Signature)
    ensures
        r.chunk_size == DEFAULT_CHUNK_SIZE,
        r.table() == signature_of(base@, DEFAULT_CHUNK_SIZE as nat),
{
    build_signature(base, DEFAULT_CHUNK_SIZE)
}

/// Fingerprints `base` in blocks of `chunk_size` bytes: each block's weak
/// checksum keys a bucket that gets the block's strong hash and number.
pub fn signature_with_chunk_size(base: &[u8], chunk_size: usize) -> (r: Result<Signature, SyncError>)
    ensures
        chunk_size == 0 ==> r == Err::<Signature, SyncError>(SyncError::InvalidChunkSize),
        chunk_size > 0 ==> (r matches Ok(sig) && sig.chunk_size == chunk_size && sig.table()
            == signature_of(base@, chunk_size as nat)),
{
    if chunk_size == 0 {
        return Err(SyncError::InvalidChunkSize);
    }
    Ok(build_signature(base, chunk_size))
}

fn build_signature(base: &[u8], chunk_size: usize) -> (sig: Signature)
    requires
        chunk_size > 0,
    ensures
        sig.chunk_size == chunk_size,
        sig.table() == signature_of(base@, chunk_size as nat),
{
    let ghost bs = chunk_size as nat;
    let n = base.len();
    let mut buckets: HashMap<u32, Vec<ChunkSignature>> = HashMap::new();
    let mut pos: usize = 0;
    let mut index: usize = 0;
    proof {
        let sig = Signature { chunk_size, buckets };
        assert(sig.table() =~= bucket_table(base@, bs, 0));
    }
    while pos < n
        invariant
            n == base@.len(),
            bs == chunk_size > 0,
            pos <= n,
            index <= pos,
            pos == n || pos == index * chunk_size,
            index + num_blocks((n - pos) as nat, bs) == num_blocks(n as nat, bs),
            (Signature { chunk_size, buckets }).table() == bucket_table(base@, bs, index as nat),
        decreases n - pos,
    {
        let end: usize = if n - pos > chunk_size { pos + chunk_size } else { n };
        proof {
            assert((index + 1) * chunk_size == index * chunk_size + chunk_size) by (nonlinear_arith);
            assert(num_blocks((n - pos) as nat, bs) == 1 + num_blocks((n - end) as nat, bs));
        }
        let blk = &base[pos..end];
        assert(blk@ == block(base@, bs, index as nat));
        let weak = RollingChecksum::compute(blk);
        let entry = ChunkSignature { index, hash: strong_hash(blk) };
        let ghost old_table = (Signature { chunk_size, buckets }).table();
        let mut bucket = match buckets.remove(&weak) {
            Some(v) => v,
            None => Vec::new(),
        };
        bucket.push(entry);
        buckets.insert(weak, bucket);
        proof {
            assert((Signature { chunk_size, buckets }).table() =~= bucket_table(
                base@,
                bs,
                (index + 1) as nat,
            ));
        }
        pos = end;
        index = index + 1;
    }
    Signature { chunk_size, buckets }
}

/// A block size suited to a base of `file_size` bytes: 512 up to 64 KiB,
/// `DEFAULT_CHUNK_SIZE` up to 1 MiB, 8192 up to 100 MiB, and 16384 above.
pub fn suggest_chunk_size(file_size: usize) -> (r: usize)
    ensures
        file_size <= 65_536 ==> r == 512,
        65_536 < file_size <= 1_048_576 ==> r == DEFAULT_CHUNK_SIZE,
        1_048_576 < file_size <= 104_857_600 ==> r == 8192,
        104_857_600 < file_size ==> r == 16384,
{
    if file_size <= 65_536 {
        512
    } else if file_size <= 1_048_576 {
        DEFAULT_CHUNK_SIZE
    } else if file_size <= 104_857_600 {
        8192
    } else {
        16384
    }
}

} // verus!
