//! Buzhash, a rolling hash over a window of bytes, and a lightweight
//! signature and delta built on its 64-bit hash of whole blocks.
use crate::command::{
    coalesce, edits, lemma_coalesce_well_coalesced, nonempty_edit, well_coalesced, Delta, Edit,
    Emitter,
};
use crate::error::SyncError;
use crate::signature::{block, num_blocks, DEFAULT_CHUNK_SIZE};
use std::collections::HashMap;
use vstd::prelude::*;

verus! {

broadcast use vstd::std_specs::hash::group_hash_axioms;

/// `x` rotated left by `k` bits, for `k < 64`.
pub open spec fn rotl(x: u64, k: u64) -> u64 {
    if k == 0 {
        x
    } else {
        (x << k) | (x >> (64 - k))
    }
}

/// The pseudo-random 64-bit word that stands for `byte` (SplitMix64
/// finalisation).
#[verifier::opaque]
pub open spec fn mix(byte: u8) -> u64 {
    let x0 = (byte as u64) ^ 0x9E37_79B9_7F4A_7C15u64;
    let x1 = (x0 ^ (x0 >> 30u64)).wrapping_mul(0xbf58_476d_1ce4_e5b9u64);
    let x2 = (x1 ^ (x1 >> 27u64)).wrapping_mul(0x94d0_49bb_1331_11ebu64);
    x2 ^ (x2 >> 31u64)
}

/// The Buzhash of `data`: after each byte the hash is rotated left by one
/// bit and the byte's word is xored in.
pub open spec fn hash_of(data: Seq<u8>) -> u64
    decreases data.len(),
{
    if data.len() == 0 {
        0
    } else {
        rotl(hash_of(data.drop_last()), 1) ^ mix(data.last())
    }
}

proof fn lemma_rotl_xor(a: u64, b: u64)
    ensures
        rotl(a ^ b, 1) == rotl(a, 1) ^ rotl(b, 1),
{
    assert(((a ^ b) << 1u64) | ((a ^ b) >> 63u64) == ((a << 1u64) | (a >> 63u64)) ^ ((b << 1u64) | (b
        >> 63u64))) by (bit_vector);
}

proof fn lemma_rotl_step(x: u64, k: u64)
    requires
        k < 64,
    ensures
        rotl(rotl(x, k), 1) == rotl(x, ((k + 1) % 64) as u64),
{
    if k == 0 {
    } else if k == 63 {
        assert((((x << 63u64) | (x >> 1u64)) << 1u64) | (((x << 63u64) | (x >> 1u64)) >> 63u64) == x)
            by (bit_vector);
    } else {
        let j: u64 = (64 - k) as u64;
        let k1: u64 = (k + 1) as u64;
        let j1: u64 = (63 - k) as u64;
        let y = (x << k) | (x >> j);
        assert((y << 1u64) | (y >> 63u64) == (x << k1) | (x >> j1)) by (bit_vector)
            requires
                0u64 < k < 63u64,
                j == 64u64 - k,
                k1 == k + 1u64,
                j1 == 63u64 - k,
                y == (x << k) | (x >> j),
        ;
        assert(rotl(x, k1) == (x << k1) | (x >> j1));
    }
}

proof fn lemma_rotl_zero()
    ensures
        rotl(0, 1) == 0,
{
    assert((0u64 << 1u64) | (0u64 >> 63u64) == 0u64) by (bit_vector);
}

/// The Buzhash of bytes with one more in front: the front byte's word,
/// rotated once for each byte after it, xored in.
pub proof fn lemma_hash_of_front(o: u8, v: Seq<u8>)
    ensures
        hash_of(seq![o] + v) == rotl(mix(o), (v.len() % 64) as u64) ^ hash_of(v),
    decreases v.len(),
{
    let w = seq![o] + v;
    if v.len() == 0 {
        assert(w =~= seq![o]);
        assert(w.drop_last() =~= Seq::<u8>::empty());
        lemma_rotl_zero();
        let m = mix(o);
        assert(0u64 ^ m == m && m ^ 0u64 == m) by (bit_vector);
        assert(hash_of(Seq::<u8>::empty()) == 0);
        assert(w.last() == o);
        assert(hash_of(w) == rotl(hash_of(w.drop_last()), 1) ^ mix(w.last()));
        assert(hash_of(w) == m);
        assert(rotl(m, 0) == m);
    } else {
        let init = v.drop_last();
        let last = v.last();
        assert(w.drop_last() =~= seq![o] + init);
        lemma_hash_of_front(o, init);
        let k = (init.len() % 64) as u64;
        let a = rotl(mix(o), k);
        let h = hash_of(init);
        lemma_rotl_xor(a, h);
        lemma_rotl_step(mix(o), k);
        assert((init.len() % 64 + 1) % 64 == v.len() % 64);
        let ra = rotl(a, 1);
        let rh = rotl(h, 1);
        let ml = mix(last);
        assert((ra ^ rh) ^ ml == ra ^ (rh ^ ml)) by (bit_vector);
        assert(w.last() == last);
        assert(hash_of(w) == rotl(hash_of(w.drop_last()), 1) ^ mix(w.last()));
        assert(hash_of(w.drop_last()) == a ^ h);
        assert(hash_of(v) == rh ^ ml);
        assert(rotl(mix(o), (v.len() % 64) as u64) == ra);
    }
}

fn rotate_left(x: u64, k: u64) -> (r: u64)
    requires
        k < 64,
    ensures
        r == rotl(x, k),
{
    if k == 0 {
        x
    } else {
        (x << k) | (x >> (64 - k))
    }
}

/// The bytes in a ring of bytes whose next write goes at `pos`, oldest
/// first: all of the ring once it has been filled, else those before `pos`.
pub open spec fn ring_window(ring: Seq<u8>, pos: nat, full: bool) -> Seq<u8> {
    if full {
        ring.subrange(pos as int, ring.len() as int) + ring.subrange(0, pos as int)
    } else {
        ring.subrange(0, pos as int)
    }
}

proof fn lemma_ring_write(ring: Seq<u8>, pos: nat, full: bool, b: u8)
    requires
        pos < ring.len(),
    ensures
        ({
            let next = ((pos + 1) % ring.len()) as nat;
            let w = ring_window(ring, pos, full);
            let w2 = ring_window(ring.update(pos as int, b), next, full || next == 0);
            &&& full ==> w.len() == ring.len() && w[0] == ring[pos as int] && w2 == w.drop_first().push(b)
            &&& !full ==> w.len() == pos && w2 == w.push(b)
        }),
{
    let n = ring.len() as int;
    let next = ((pos + 1) % ring.len()) as nat;
    let r2 = ring.update(pos as int, b);
    let w = ring_window(ring, pos, full);
    let w2 = ring_window(r2, next, full || next == 0);
    if pos + 1 < n {
        vstd::arithmetic::div_mod::lemma_small_mod((pos + 1) as nat, ring.len());
        assert(next == pos + 1);
        if full {
            assert(w2 =~= w.drop_first().push(b));
        } else {
            assert(w2 =~= w.push(b));
        }
    } else {
        assert((pos + 1) % ring.len() == 0) by {
            vstd::arithmetic::div_mod::lemma_mod_self_0(n);
        }
        assert(next == 0);
        if full {
            assert(w2 =~= w.drop_first().push(b));
        } else {
            assert(w2 =~= w.push(b));
        }
    }
}

/// A 64-bit Buzhash over a window of the last `window_size` bytes.
#[derive(Debug, Clone)]
pub struct BuzHash {
    hash: u64,
    window_size: usize,
    window: Vec<u8>,
    pos: usize,
    window_full: bool,
}

impl BuzHash {
    /// The window has `window_size` bytes, a positive number, and the next
    /// byte goes inside it.
    pub closed spec fn wf(self) -> bool {
        &&& self.window_size > 0
        &&& self.window@.len() == self.window_size
        &&& self.pos < self.window_size
        &&& self.hash == hash_of(self.window_bytes())
    }

    /// The bytes in the window, oldest first: the last `window_size` bytes
    /// taken in, or all of them while there are fewer.
    pub closed spec fn window_bytes(self) -> Seq<u8> {
        ring_window(self.window@, self.pos as nat, self.window_full)
    }

    /// The current hash.
    pub closed spec fn current(self) -> u64 {
        self.hash
    }

    /// The number of bytes in the window.
    pub closed spec fn size(self) -> nat {
        self.window_size as nat
    }

    /// The window's bytes, kept as a ring.
    pub closed spec fn ring(self) -> Seq<u8> {
        self.window@
    }

    /// Where in the ring the next byte goes.
    pub closed spec fn position(self) -> nat {
        self.pos as nat
    }

    /// Whether the window has been filled once.
    pub closed spec fn is_full(self) -> bool {
        self.window_full
    }

    /// A fresh hash over a window of `window_size` bytes.
    pub fn new(window_size: usize) -> (r: Self)
        requires
            window_size > 0,
        ensures
            r.wf(),
            r.current() == 0,
            r.window_bytes() == Seq::<u8>::empty(),
            r.size() == window_size,
            r.ring() == Seq::new(window_size as nat, |i: int| 0u8),
            r.position() == 0,
            !r.is_full(),
    {
        let window = vec![0u8; window_size];
        assert(window@ =~= Seq::new(window_size as nat, |i: int| 0u8));
        let r = BuzHash { hash: 0, window_size, window, pos: 0, window_full: false };
        assert(r.window_bytes() =~= Seq::<u8>::empty());
        r
    }

    /// The current hash: the Buzhash of the bytes in the window.
    pub fn hash(&self) -> (r: u64)
        requires
            self.wf(),
        ensures
            r == self.current(),
            r == hash_of(self.window_bytes()),
    {
        self.hash
    }

    /// Where in the ring the next byte goes.
    pub fn pos(&self) -> (r: usize)
        ensures
            r == self.position(),
    {
        self.pos
    }

    /// Whether the window has been filled once.
    pub fn window_full(&self) -> (r: bool)
        ensures
            r == self.is_full(),
    {
        self.window_full
    }

    /// Forgets every byte: the hash is zero and the window empty again.
    pub fn reset(&mut self)
        requires
            old(self).wf(),
        ensures
            final(self).wf(),
            final(self).current() == 0,
            final(self).window_bytes() == Seq::<u8>::empty(),
            final(self).size() == old(self).size(),
            final(self).ring() == Seq::new(old(self).size(), |i: int| 0u8),
            final(self).position() == 0,
            !final(self).is_full(),
    {
        let n = self.window.len();
        let mut window = Vec::new();
        let mut i: usize = 0;
        while i < n
            invariant
                i <= n,
                window@ == Seq::new(i as nat, |j: int| 0u8),
            decreases n - i,
        {
            window.push(0u8);
            assert(window@ =~= Seq::new((i + 1) as nat, |j: int| 0u8));
            i = i + 1;
        }
        *self = BuzHash { hash: 0, window_size: self.window_size, window, pos: 0, window_full: false };
        assert(self.window_bytes() =~= Seq::<u8>::empty());
    }

    /// Takes in `byte`: the hash rotates left by one bit and gets the byte's
    /// word; once the window is full, the word of the byte that leaves it,
    /// rotated by the window size, is taken out.
    pub fn update(&mut self, byte: u8)
        requires
            old(self).wf(),
        ensures
            final(self).wf(),
            final(self).current() == rotl(old(self).current(), 1) ^ mix(byte) ^ (if old(self).is_full() {
                rotl(mix(old(self).ring()[old(self).position() as int]), (old(self).size() % 64) as u64)
            } else {
                0u64
            }),
            final(self).window_bytes() == if old(self).is_full() {
                old(self).window_bytes().drop_first().push(byte)
            } else {
                old(self).window_bytes().push(byte)
            },
            final(self).size() == old(self).size(),
            final(self).ring() == old(self).ring().update(old(self).position() as int, byte),
            final(self).position() == (old(self).position() + 1) % old(self).size(),
            final(self).is_full() == (old(self).is_full() || (old(self).position() + 1) % old(
                self,
            ).size() == 0),
    {
        let mut hash = rotate_left(self.hash, 1);
        hash = hash ^ Self::map_byte(byte);
        let leaving: u64 = if self.window_full {
            let old_byte = self.window[self.pos];
            let shift = (self.window_size % 64) as u64;
            rotate_left(Self::map_byte(old_byte), shift)
        } else {
            0
        };
        hash = hash ^ leaving;
        proof {
            let wb = self.window_bytes();
            lemma_ring_write(self.window@, self.pos as nat, self.window_full, byte);
            let mb = mix(byte);
            let r1 = rotl(self.hash, 1);
            if self.window_full {
                let o = wb[0];
                let v = wb.drop_first();
                assert(wb =~= seq![o] + v);
                lemma_hash_of_front(o, v);
                let k = (v.len() % 64) as u64;
                lemma_rotl_xor(rotl(mix(o), k), hash_of(v));
                lemma_rotl_step(mix(o), k);
                assert((v.len() % 64 + 1) % 64 == self.window_size % 64);
                let l = rotl(mix(o), (self.window_size % 64) as u64);
                let rv = rotl(hash_of(v), 1);
                assert(leaving == l);
                assert(r1 == l ^ rv);
                assert(((l ^ rv) ^ mb) ^ l == rv ^ mb) by (bit_vector);
                assert(v.push(byte).drop_last() =~= v);
                assert(hash == hash_of(v.push(byte)));
            } else {
                assert(leaving == 0);
                assert((r1 ^ mb) ^ 0u64 == r1 ^ mb) by (bit_vector);
                assert(wb.push(byte).drop_last() =~= wb);
                assert(hash == hash_of(wb.push(byte)));
            }
        }
        self.window.set(self.pos, byte);
        self.hash = hash;
        self.pos = (self.pos + 1) % self.window_size;
        self.window_full = self.window_full || self.pos == 0;
    }

    fn map_byte(byte: u8) -> (r: u64)
        ensures
            r == mix(byte),
    {
        reveal(mix);
        let mut x = (byte as u64) ^ 0x9E37_79B9_7F4A_7C15u64;
        x = (x ^ (x >> 30u64)).wrapping_mul(0xbf58_476d_1ce4_e5b9u64);
        x = (x ^ (x >> 27u64)).wrapping_mul(0x94d0_49bb_1331_11ebu64);
        x ^ (x >> 31u64)
    }

    /// The Buzhash of `data`, as a window at least as long as `data` would
    /// give it.
    pub fn hash_slice(data: &[u8]) -> (r: u64)
        ensures
            r == hash_of(data@),
    {
        let mut hash: u64 = 0;
        let mut i: usize = 0;
        while i < data.len()
            invariant
                i <= data@.len(),
                hash == hash_of(data@.subrange(0, i as int)),
            decreases data@.len() - i,
        {
            assert(data@.subrange(0, i + 1).drop_last() =~= data@.subrange(0, i as int));
            hash = rotate_left(hash, 1);
            hash = hash ^ Self::map_byte(data[i]);
            i = i + 1;
        }
        assert(data@.subrange(0, i as int) =~= data@);
        hash
    }
}

/// The Buzhash of `data`.
pub fn hash64(data: &[u8]) -> (r: u64)
    ensures
        r == hash_of(data@),
{
    BuzHash::hash_slice(data)
}

/// A 64-bit Buzhash of a block.
#[derive(Debug, Clone, Copy, PartialEq, Eq, Hash, Structural)]
pub struct LightweightHash(pub u64);

impl LightweightHash {
    /// The Buzhash of `data`.
    pub fn new(data: &[u8]) -> (r: Self)
        ensures
            r.0 == hash_of(data@),
    {
        LightweightHash(hash64(data))
    }

    /// The hash as a plain word.
    pub fn as_u64(&self) -> (r: u64)
        ensures
            r == self.0,
    {
        self.0
    }
}

impl From<u64> for LightweightHash {
    fn from(hash: u64) -> (r: Self) {
        LightweightHash(hash)
    }
}

impl vstd::std_specs::convert::FromSpecImpl<u64> for LightweightHash {
    open spec fn obeys_from_spec() -> bool {
        true
    }

    open spec fn from_spec(hash: u64) -> Self {
        LightweightHash(hash)
    }
}

impl From<LightweightHash> for u64 {
    fn from(hash: LightweightHash) -> (r: Self) {
        hash.0
    }
}

impl vstd::std_specs::convert::FromSpecImpl<LightweightHash> for u64 {
    open spec fn obeys_from_spec() -> bool {
        true
    }

    open spec fn from_spec(hash: LightweightHash) -> Self {
        hash.0
    }
}

/// The Buzhash of one block of a base, and the block's number.
#[derive(Debug, Clone, Copy, PartialEq, Eq)]
pub struct LightweightChunkSignature {
    pub index: usize,
    pub hash: LightweightHash,
}

/// Buzhash fingerprints of a base, one per block, in order.
#[derive(Debug, Clone)]
pub struct LightweightSignature {
    pub chunk_size: usize,
    pub chunks: Vec<LightweightChunkSignature>,
}

/// Whether `chunks` holds, in order, the Buzhash of every block of `base`.
pub open spec fn lightweight_signature_of(
    chunks: Seq<LightweightChunkSignature>,
    base: Seq<u8>,
    bs: nat,
) -> bool {
    &&& chunks.len() == num_blocks(base.len(), bs)
    &&& forall|i: int|
        0 <= i < chunks.len() ==> (#[trigger] chunks[i]).index == i && chunks[i].hash.0 == hash_of(
            block(base, bs, i as nat),
        )
}

/// Fingerprints `base` with Buzhash in blocks of `DEFAULT_CHUNK_SIZE` bytes.
pub fn lightweight_signature(base: &[u8]) -> (r: LightweightSignature)
    ensures
        r.chunk_size == DEFAULT_CHUNK_SIZE,
        lightweight_signature_of(r.chunks@, base@, DEFAULT_CHUNK_SIZE as nat),
{
    build_lightweight_signature(base, DEFAULT_CHUNK_SIZE)
}

/// Fingerprints `base` with Buzhash in blocks of `chunk_size` bytes.
pub fn lightweight_signature_with_chunk_size(base: &[u8], chunk_size: usize) -> (r: Result<
    LightweightSignature,
    SyncError,
>)
    ensures
        chunk_size == 0 ==> r == Err::<LightweightSignature, SyncError>(SyncError::InvalidChunkSize),
        chunk_size > 0 ==> (r matches Ok(sig) && sig.chunk_size == chunk_size
            && lightweight_signature_of(sig.chunks@, base@, chunk_size as nat)),
{
    if chunk_size == 0 {
        return Err(SyncError::InvalidChunkSize);
    }
    Ok(build_lightweight_signature(base, chunk_size))
}

fn build_lightweight_signature(base: &[u8], chunk_size: usize) -> (sig: LightweightSignature)
    requires
        chunk_size > 0,
    ensures
        sig.chunk_size == chunk_size,
        lightweight_signature_of(sig.chunks@, base@, chunk_size as nat),
{
    let ghost bs = chunk_size as nat;
    let n = base.len();
    let mut chunks: Vec<LightweightChunkSignature> = Vec::new();
    let mut pos: usize = 0;
    let mut index: usize = 0;
    while pos < n
        invariant
            n == base@.len(),
            bs == chunk_size > 0,
            pos <= n,
            index <= pos,
            pos == n || pos == index * chunk_size,
            index + num_blocks((n - pos) as nat, bs) == num_blocks(n as nat, bs),
            chunks@.len() == index,
            forall|i: int|
                0 <= i < index ==> (#[trigger] chunks@[i]).index == i && chunks@[i].hash.0 == hash_of(
                    block(base@, bs, i as nat),
                ),
        decreases n - pos,
    {
        let end: usize = if n - pos > chunk_size { pos + chunk_size } else { n };
        proof {
            assert((index + 1) * chunk_size == index * chunk_size + chunk_size) by (nonlinear_arith);
            assert(num_blocks((n - pos) as nat, bs) == 1 + num_blocks((n - end) as nat, bs));
        }
        let blk = &base[pos..end];
        assert(blk@ == block(base@, bs, index as nat));
        chunks.push(LightweightChunkSignature { index, hash: LightweightHash::new(blk) });
        pos = end;
        index = index + 1;
    }
    assert(num_blocks(0, bs) == 0);
    LightweightSignature { chunk_size, chunks }
}

/// The block number that each hash of `chunks` looks up; where two entries
/// share a hash, the later one wins.
pub open spec fn lightweight_table(chunks: Seq<LightweightChunkSignature>) -> Map<u64, usize>
    decreases chunks.len(),
{
    if chunks.len() == 0 {
        Map::empty()
    } else {
        lightweight_table(chunks.drop_last()).insert(chunks.last().hash.0, chunks.last().index)
    }
}

/// The pieces that the target `t` is cut into from position `p` on: each
/// block of the target, at offsets that are multiples of the block size,
/// becomes a copy of the base's block with the same Buzhash, or a literal
/// where there is none.
pub open spec fn lightweight_pieces(sig: LightweightSignature, t: Seq<u8>, p: nat) -> Seq<Edit>
    decreases t.len() - p,
{
    let bs = sig.chunk_size as nat;
    if bs == 0 || p >= t.len() {
        Seq::empty()
    } else {
        let end: nat = if t.len() - p >= bs {
            p + bs
        } else {
            t.len()
        };
        let x = t.subrange(p as int, end as int);
        let table = lightweight_table(sig.chunks@);
        let h = hash_of(x);
        let piece = if table.contains_key(h) && table[h] * bs + x.len() <= usize::MAX {
            Edit::Copy { offset: table[h] as nat * bs, length: x.len() }
        } else {
            Edit::Insert(x)
        };
        seq![piece] + lightweight_pieces(sig, t, end)
    }
}

proof fn lemma_lightweight_pieces_nonempty(sig: LightweightSignature, t: Seq<u8>, p: nat)
    ensures
        forall|i: int|
            0 <= i < lightweight_pieces(sig, t, p).len() ==> nonempty_edit(
                #[trigger] lightweight_pieces(sig, t, p)[i],
            ),
    decreases t.len() - p,
{
    let bs = sig.chunk_size as nat;
    if bs > 0 && p < t.len() {
        let end: nat = if t.len() - p >= bs {
            p + bs
        } else {
            t.len()
        };
        let s = lightweight_pieces(sig, t, p);
        lemma_lightweight_pieces_nonempty(sig, t, end);
        assert forall|i: int| 0 <= i < s.len() implies nonempty_edit(#[trigger] s[i]) by {
            if i > 0 {
                assert(s[i] == lightweight_pieces(sig, t, end)[i - 1]);
            }
        }
    }
}

/// The delta of `target` against a Buzhash signature, block by block with no
/// rolling: a block of the target is copied where the base has a block with
/// its hash, and written as literal bytes otherwise.
pub fn lightweight_delta(target: &[u8], sig: &LightweightSignature) -> (r: Result<Delta, SyncError>)
    ensures
        sig.chunk_size == 0 ==> r == Err::<Delta, SyncError>(SyncError::InvalidChunkSize),
        sig.chunk_size > 0 ==> (r matches Ok(d) && edits(d.ops@) == coalesce(
            lightweight_pieces(*sig, target@, 0),
        ) && d.chunk_size == sig.chunk_size && d.final_size == target@.len()),
        r matches Ok(d) ==> well_coalesced(edits(d.ops@)),
{
    let bs = sig.chunk_size;
    if bs == 0 {
        return Err(SyncError::InvalidChunkSize);
    }
    let mut table: HashMap<u64, usize> = HashMap::new();
    let mut k: usize = 0;
    assert(sig.chunks@.subrange(0, 0) =~= Seq::<LightweightChunkSignature>::empty());
    while k < sig.chunks.len()
        invariant
            k <= sig.chunks@.len(),
            table@ == lightweight_table(sig.chunks@.subrange(0, k as int)),
        decreases sig.chunks@.len() - k,
    {
        let entry = sig.chunks[k];
        table.insert(entry.hash.0, entry.index);
        assert(sig.chunks@.subrange(0, k + 1).drop_last() =~= sig.chunks@.subrange(0, k as int));
        k = k + 1;
    }
    assert(sig.chunks@.subrange(0, k as int) =~= sig.chunks@);
    let ghost t = target@;
    let n = target.len();
    let mut out = Emitter::new();
    let mut p: usize = 0;
    let ghost mut done: Seq<Edit> = Seq::empty();
    assert(done + lightweight_pieces(*sig, t, 0) =~= lightweight_pieces(*sig, t, 0));
    while p < n
        invariant
            n == t.len(),
            t == target@,
            bs == sig.chunk_size > 0,
            p <= n,
            table@ == lightweight_table(sig.chunks@),
            lightweight_pieces(*sig, t, 0) == done + lightweight_pieces(*sig, t, p as nat),
            out.wf(),
            out.view() == coalesce(done),
        decreases n - p,
    {
        let end: usize = if n - p >= bs { p + bs } else { n };
        let x = &target[p..end];
        let h = hash64(x);
        let ghost copy = table@.contains_key(h) && table@[h] * bs + x@.len() <= usize::MAX;
        let mut copied = false;
        match table.get(&h) {
            Some(index) => match index.checked_mul(bs) {
                Some(offset) => match offset.checked_add(x.len()) {
                    Some(_) => {
                        out.push_copy(offset, x.len());
                        copied = true;
                    },
                    None => {},
                },
                None => {
                    assert(*index * bs + x@.len() > usize::MAX);
                },
            },
            None => {},
        }
        if !copied {
            out.push_literal(x);
        }
        proof {
            let piece = lightweight_pieces(*sig, t, p as nat)[0];
            assert(copied == copy);
            assert(lightweight_pieces(*sig, t, p as nat) =~= seq![piece] + lightweight_pieces(
                *sig,
                t,
                end as nat,
            ));
            assert(done + lightweight_pieces(*sig, t, p as nat) =~= done.push(piece)
                + lightweight_pieces(*sig, t, end as nat));
            assert(done.push(piece).drop_last() =~= done);
            done = done.push(piece);
        }
        p = end;
    }
    assert(done =~= lightweight_pieces(*sig, t, 0));
    let ops = out.finish();
    proof {
        lemma_lightweight_pieces_nonempty(*sig, t, 0);
        lemma_coalesce_well_coalesced(lightweight_pieces(*sig, t, 0));
    }
    Ok(Delta { chunk_size: bs, ops, final_size: n })
}

} // verus!
