//! What a delta rebuilds: the laws that tie the signature, the delta and
//! the patch together.
use crate::command::{add_edit, coalesce, Edit};
use crate::diff::{delta_edits, find_entry, match_block, scan};
use crate::patch::{all_fit, edit_bytes, expand, fits, lemma_coalesce_expand, lemma_expand_concat};
use crate::rolling::adler32;
use crate::signature::{block, block_entry, bucket_table, num_blocks, signature_of, Signature};
use crate::strong::xxh3_128_of;
use vstd::prelude::*;

verus! {

/// Whether the pair of weak and strong hash singles out each block of
/// `base`: bytes with both hashes of a block are that block.
pub open spec fn hashes_identify_blocks(base: Seq<u8>, bs: nat) -> bool {
    forall|x: Seq<u8>, i: nat|
        #![trigger xxh3_128_of(x), block(base, bs, i)]
        i < num_blocks(base.len(), bs) && adler32(x) == adler32(block(base, bs, i)) && xxh3_128_of(x)
            == xxh3_128_of(block(base, bs, i)) ==> x == block(base, bs, i)
}

proof fn lemma_block_start(len: nat, bs: nat, i: nat)
    requires
        bs > 0,
    ensures
        i < num_blocks(len, bs) <==> i * bs < len,
        num_blocks(len, bs) <= len,
    decreases len,
{
    if len == 0 {
    } else if len <= bs {
        if i > 0 {
            assert(i * bs >= bs) by (nonlinear_arith)
                requires
                    i > 0,
                    bs > 0,
            ;
        }
    } else {
        if i > 0 {
            lemma_block_start((len - bs) as nat, bs, (i - 1) as nat);
            assert((i - 1) * bs + bs == i * bs) by (nonlinear_arith);
        } else {
            lemma_block_start((len - bs) as nat, bs, 0);
        }
    }
}

/// Every entry of the buckets of the first `n` blocks names one of those
/// blocks, under that block's weak checksum and with its strong hash.
proof fn lemma_table_entries(base: Seq<u8>, bs: nat, n: nat, w: u32, k: int)
    requires
        bs > 0,
        n <= num_blocks(base.len(), bs),
        base.len() <= usize::MAX,
        bucket_table(base, bs, n).contains_key(w),
        0 <= k < bucket_table(base, bs, n)[w].len(),
    ensures
        bucket_table(base, bs, n)[w][k].index < n,
        w == adler32(block(base, bs, bucket_table(base, bs, n)[w][k].index as nat)),
        bucket_table(base, bs, n)[w][k].hash == xxh3_128_of(
            block(base, bs, bucket_table(base, bs, n)[w][k].index as nat),
        ),
    decreases n,
{
    lemma_block_start(base.len(), bs, 0);
    let m = (n - 1) as nat;
    let t = bucket_table(base, bs, m);
    let wn = adler32(block(base, bs, m));
    let old_bucket = if t.contains_key(wn) {
        t[wn]
    } else {
        Seq::empty()
    };
    if w == wn && k == old_bucket.len() {
        assert(bucket_table(base, bs, n)[w][k] == block_entry(base, bs, m));
    } else {
        assert(t.contains_key(w));
        if w == wn {
            assert(bucket_table(base, bs, n)[w][k] == t[w][k]);
        }
        lemma_table_entries(base, bs, m, w, k);
    }
}

/// Every one of the first `n` blocks has an entry in the bucket of its weak
/// checksum.
proof fn lemma_table_complete(base: Seq<u8>, bs: nat, n: nat, i: nat)
    requires
        i < n,
    ensures
        bucket_table(base, bs, n).contains_key(adler32(block(base, bs, i))),
        exists|k: int|
            0 <= k < bucket_table(base, bs, n)[adler32(block(base, bs, i))].len() && (
            #[trigger] bucket_table(base, bs, n)[adler32(block(base, bs, i))][k]) == block_entry(
                base,
                bs,
                i,
            ),
    decreases n,
{
    let m = (n - 1) as nat;
    let t = bucket_table(base, bs, m);
    let wn = adler32(block(base, bs, m));
    let wi = adler32(block(base, bs, i));
    let old_bucket = if t.contains_key(wn) {
        t[wn]
    } else {
        Seq::empty()
    };
    if i == m {
        let k = old_bucket.len() as int;
        assert(bucket_table(base, bs, n)[wi][k] == block_entry(base, bs, i));
    } else {
        lemma_table_complete(base, bs, m, i);
        let k = choose|k: int| 0 <= k < t[wi].len() && #[trigger] t[wi][k] == block_entry(base, bs, i);
        assert(bucket_table(base, bs, n)[wi][k] == block_entry(base, bs, i));
    }
}


proof fn lemma_find_entry_sound(bucket: Seq<crate::signature::ChunkSignature>, h: u128, bs: nat, len: nat)
    requires
        find_entry(bucket, h, bs, len) is Some,
    ensures
        exists|k: int|
            0 <= k < bucket.len() && (#[trigger] bucket[k]).index == find_entry(bucket, h, bs, len)->0
                && bucket[k].hash == h,
        find_entry(bucket, h, bs, len)->0 * bs + len <= usize::MAX,
    decreases bucket.len(),
{
    if bucket[0].hash == h && bucket[0].index * bs + len <= usize::MAX {
        assert(bucket[0].index == find_entry(bucket, h, bs, len)->0);
    } else {
        let rest = bucket.drop_first();
        lemma_find_entry_sound(rest, h, bs, len);
        let k = choose|k: int|
            0 <= k < rest.len() && (#[trigger] rest[k]).index == find_entry(rest, h, bs, len)->0
                && rest[k].hash == h;
        assert(bucket[k + 1] == rest[k]);
    }
}

proof fn lemma_find_entry_complete(bucket: Seq<crate::signature::ChunkSignature>, h: u128, bs: nat, len: nat, k: int)
    requires
        0 <= k < bucket.len(),
        bucket[k].hash == h,
        bucket[k].index * bs + len <= usize::MAX,
    ensures
        find_entry(bucket, h, bs, len) is Some,
    decreases bucket.len(),
{
    if !(bucket[0].hash == h && bucket[0].index * bs + len <= usize::MAX) {
        let rest = bucket.drop_first();
        assert(rest[k - 1] == bucket[k]);
        lemma_find_entry_complete(rest, h, bs, len, k - 1);
    }
}

/// Bytes that the signature of `base` matches to block `i` are that block,
/// which lies inside the base.
proof fn lemma_match_is_block(base: Seq<u8>, sig: Signature, x: Seq<u8>)
    requires
        base.len() <= usize::MAX,
        sig.chunk_size > 0,
        sig.table() == signature_of(base, sig.chunk_size as nat),
        hashes_identify_blocks(base, sig.chunk_size as nat),
        match_block(sig, x) is Some,
    ensures
        match_block(sig, x)->0 * sig.chunk_size + x.len() <= base.len(),
        base.subrange(
            match_block(sig, x)->0 * sig.chunk_size,
            match_block(sig, x)->0 * sig.chunk_size + x.len(),
        ) == x,
{
    let bs = sig.chunk_size as nat;
    let nb = num_blocks(base.len(), bs);
    let w = adler32(x);
    let bucket = sig.table()[w];
    let i = match_block(sig, x)->0;
    lemma_find_entry_sound(bucket, xxh3_128_of(x), bs, x.len());
    let k = choose|k: int|
        0 <= k < bucket.len() && (#[trigger] bucket[k]).index == i && bucket[k].hash == xxh3_128_of(x);
    lemma_table_entries(base, bs, nb, w, k);
    let blk = block(base, bs, i);
    assert(x == blk);
    lemma_block_start(base.len(), bs, i);
    let start = i * bs;
    assert((i + 1) * bs == start + bs) by (nonlinear_arith)
        requires
            start == i * bs,
    ;
    assert(start + x.len() <= base.len());
    assert(base.subrange(start as int, (start + x.len()) as int) == blk);
}

proof fn lemma_expand_single(e: Edit, base: Seq<u8>)
    ensures
        expand(seq![e], base) == edit_bytes(e, base),
{
    reveal_with_fuel(expand, 2);
    assert(seq![e].drop_last() =~= Seq::<Edit>::empty());
    assert(Seq::<u8>::empty() + edit_bytes(e, base) =~= edit_bytes(e, base));
}

/// From position `p` on, the scan's pieces read inside the base and write
/// the rest of the target.
proof fn lemma_scan_expand(base: Seq<u8>, sig: Signature, t: Seq<u8>, p: nat)
    requires
        base.len() <= usize::MAX,
        sig.chunk_size > 0,
        sig.table() == signature_of(base, sig.chunk_size as nat),
        hashes_identify_blocks(base, sig.chunk_size as nat),
        p <= t.len(),
    ensures
        all_fit(scan(sig, t, p), base.len()),
        expand(scan(sig, t, p), base) == t.subrange(p as int, t.len() as int),
    decreases t.len() - p,
{
    let bs = sig.chunk_size as nat;
    let s = scan(sig, t, p);
    if p >= t.len() {
        assert(t.subrange(p as int, t.len() as int) =~= Seq::<u8>::empty());
    } else {
        let full = t.len() - p >= bs;
        let end: int = if full {
            (p + bs) as int
        } else {
            t.len() as int
        };
        let x = t.subrange(p as int, end);
        let piece = s[0];
        match match_block(sig, x) {
            Some(i) => {
                lemma_match_is_block(base, sig, x);
                assert(edit_bytes(piece, base) == x);
                assert(fits(piece, base.len()));
            },
            None => {},
        }
        let next: nat = if full && match_block(sig, x) is None {
            p + 1
        } else {
            end as nat
        };
        let rest = scan(sig, t, next);
        assert(s =~= seq![piece] + rest);
        lemma_scan_expand(base, sig, t, next);
        lemma_expand_concat(seq![piece], rest, base);
        lemma_expand_single(piece, base);
        assert(edit_bytes(piece, base) == t.subrange(p as int, next as int));
        assert(t.subrange(p as int, next as int) + t.subrange(next as int, t.len() as int) =~= t.subrange(
            p as int,
            t.len() as int,
        ));
        assert forall|j: int| 0 <= j < s.len() implies fits(#[trigger] s[j], base.len()) by {
            if j > 0 {
                assert(s[j] == rest[j - 1]);
            }
        }
    }
}

/// Round trip: where the hashes single out the blocks of the base, the delta
/// of any target against the signature of the base reads only bytes of the
/// base and rebuilds exactly that target.
pub proof fn lemma_round_trip(base: Seq<u8>, sig: Signature, t: Seq<u8>)
    requires
        base.len() <= usize::MAX,
        sig.chunk_size > 0,
        sig.table() == signature_of(base, sig.chunk_size as nat),
        hashes_identify_blocks(base, sig.chunk_size as nat),
    ensures
        all_fit(delta_edits(sig, t), base.len()),
        expand(delta_edits(sig, t), base) == t,
{
    lemma_scan_expand(base, sig, t, 0);
    lemma_coalesce_expand(scan(sig, t, 0), base);
    assert(t.subrange(0, t.len() as int) =~= t);
}

/// From the start of any block on, the scan of the base itself makes
/// copies only.
proof fn lemma_scan_aligned(base: Seq<u8>, sig: Signature, i: nat)
    requires
        base.len() <= usize::MAX,
        sig.chunk_size > 0,
        sig.table() == signature_of(base, sig.chunk_size as nat),
        i * sig.chunk_size <= base.len(),
    ensures
        forall|j: int|
            0 <= j < scan(sig, base, i * sig.chunk_size as nat).len() ==> #[trigger] scan(
                sig,
                base,
                i * sig.chunk_size as nat,
            )[j] is Copy,
    decreases base.len() - i * sig.chunk_size as nat,
{
    let bs = sig.chunk_size as nat;
    let p = i * bs;
    let nb = num_blocks(base.len(), bs);
    if p < base.len() {
        lemma_block_start(base.len(), bs, i);
        assert((i + 1) * bs == p + bs) by (nonlinear_arith)
            requires
                p == i * bs,
        ;
        let full = base.len() - p >= bs;
        let end: int = if full {
            (p + bs) as int
        } else {
            base.len() as int
        };
        let x = base.subrange(p as int, end);
        assert(x == block(base, bs, i));
        lemma_table_complete(base, bs, nb, i);
        let w = adler32(x);
        let k = choose|k: int|
            0 <= k < bucket_table(base, bs, nb)[w].len() && #[trigger] bucket_table(base, bs, nb)[w][k]
                == block_entry(base, bs, i);
        assert(sig.table()[w][k].index == i);
        lemma_find_entry_complete(sig.table()[w], xxh3_128_of(x), bs, x.len(), k);
        assert(match_block(sig, x) is Some);
        let s = scan(sig, base, p);
        if full {
            lemma_scan_aligned(base, sig, i + 1);
            let rest = scan(sig, base, p + bs);
            assert forall|j: int| 0 <= j < s.len() implies #[trigger] s[j] is Copy by {
                if j > 0 {
                    assert(s[j] == rest[j - 1]);
                }
            }
        }
    }
}

proof fn lemma_coalesce_copies(pieces: Seq<Edit>)
    requires
        forall|j: int| 0 <= j < pieces.len() ==> #[trigger] pieces[j] is Copy,
    ensures
        forall|j: int| 0 <= j < coalesce(pieces).len() ==> #[trigger] coalesce(pieces)[j] is Copy,
    decreases pieces.len(),
{
    if pieces.len() > 0 {
        let init = pieces.drop_last();
        assert forall|j: int| 0 <= j < init.len() implies #[trigger] init[j] is Copy by {
            assert(init[j] == pieces[j]);
        }
        lemma_coalesce_copies(init);
        let es = coalesce(init);
        let r = add_edit(es, pieces.last());
        assert(pieces[pieces.len() - 1] is Copy);
        assert forall|j: int| 0 <= j < r.len() implies #[trigger] r[j] is Copy by {
            if j < es.len() - 1 || (j < es.len() && r.len() > es.len()) {
                assert(r[j] == es[j]);
            }
        }
    }
}

/// Identity: against the signature of a base whose blocks the hashes single
/// out, the delta of the base itself holds no insert and rebuilds the base.
pub proof fn lemma_identity(base: Seq<u8>, sig: Signature)
    requires
        base.len() <= usize::MAX,
        sig.chunk_size > 0,
        sig.table() == signature_of(base, sig.chunk_size as nat),
        hashes_identify_blocks(base, sig.chunk_size as nat),
    ensures
        forall|j: int| 0 <= j < delta_edits(sig, base).len() ==> !(#[trigger] delta_edits(sig, base)[j] is Insert),
        expand(delta_edits(sig, base), base) == base,
{
    lemma_scan_aligned(base, sig, 0);
    assert(0 * sig.chunk_size == 0);
    lemma_coalesce_copies(scan(sig, base, 0));
    lemma_round_trip(base, sig, base);
}

} // verus!
