//! The delta builder: a rolling scan of the target against a signature.
use crate::command::{
    add_edit, coalesce, edits, lemma_add_edit_after, lemma_coalesce_prefix, lemma_coalesce_well_coalesced,
    no_adjacent_copies, no_consecutive_inserts, nonempty_edit, well_coalesced, Delta, DeltaOp, Edit,
    Emitter,
};
use crate::error::SyncError;
use crate::rolling::{adler32, lemma_roll_window, RollingChecksum};
use crate::signature::{ChunkSignature, Signature};
use crate::strong::{strong_hash, xxh3_128_of};
use vstd::prelude::*;

verus! {

broadcast use vstd::std_specs::hash::group_hash_axioms;

/// The number of the first block in `bucket` whose strong hash is `h` and
/// whose copy of `len` bytes from offset `index * bs` has an end that fits
/// in a `usize`.
pub open spec fn find_entry(bucket: Seq<ChunkSignature>, h: u128, bs: nat, len: nat) -> Option<nat>
    decreases bucket.len(),
{
    if bucket.len() == 0 {
        None
    } else if bucket[0].hash == h && bucket[0].index * bs + len <= usize::MAX {
        Some(bucket[0].index as nat)
    } else {
        find_entry(bucket.drop_first(), h, bs, len)
    }
}

/// The block of the signature that the bytes `x` match: one in the bucket
/// of their weak checksum with their strong hash.
pub open spec fn match_block(sig: Signature, x: Seq<u8>) -> Option<nat> {
    let w = adler32(x);
    if sig.table().contains_key(w) {
        find_entry(sig.table()[w], xxh3_128_of(x), sig.chunk_size as nat, x.len())
    } else {
        None
    }
}

/// The pieces that the scan makes of `t` from position `p` on. Where a full
/// window matches a block, the window becomes a copy of it and the scan
/// jumps past it; else one byte becomes a literal and the window slides by
/// one. A remainder shorter than a block becomes a copy if it matches a
/// block, and a literal otherwise.
pub open spec fn scan(sig: Signature, t: Seq<u8>, p: nat) -> Seq<Edit>
    decreases t.len() - p,
{
    let bs = sig.chunk_size as nat;
    if bs == 0 || p >= t.len() {
        Seq::empty()
    } else if t.len() - p >= bs {
        let x = t.subrange(p as int, (p + bs) as int);
        match match_block(sig, x) {
            Some(i) => seq![Edit::Copy { offset: i * bs, length: bs }] + scan(sig, t, p + bs),
            None => seq![Edit::Insert(t.subrange(p as int, (p + 1) as int))] + scan(sig, t, p + 1),
        }
    } else {
        let x = t.subrange(p as int, t.len() as int);
        match match_block(sig, x) {
            Some(i) => seq![Edit::Copy { offset: i * bs, length: x.len() }],
            None => seq![Edit::Insert(x)],
        }
    }
}

/// The commands of the delta of `t` against `sig`.
pub open spec fn delta_edits(sig: Signature, t: Seq<u8>) -> Seq<Edit> {
    coalesce(scan(sig, t, 0))
}

proof fn lemma_scan_nonempty(sig: Signature, t: Seq<u8>, p: nat)
    ensures
        forall|i: int| 0 <= i < scan(sig, t, p).len() ==> nonempty_edit(#[trigger] scan(sig, t, p)[i]),
    decreases t.len() - p,
{
    let bs = sig.chunk_size as nat;
    let s = scan(sig, t, p);
    if bs == 0 || p >= t.len() {
    } else if t.len() - p >= bs {
        let x = t.subrange(p as int, (p + bs) as int);
        let next = match match_block(sig, x) {
            Some(i) => p + bs,
            None => p + 1,
        };
        lemma_scan_nonempty(sig, t, next as nat);
        assert forall|i: int| 0 <= i < s.len() implies nonempty_edit(#[trigger] s[i]) by {
            if i > 0 {
                assert(s[i] == scan(sig, t, next as nat)[i - 1]);
            }
        }
    }
}

/// Looks up the block that `x` matches, given `weak`, its weak checksum,
/// and returns the block's offset in the base.
fn find_match(sig: &Signature, weak: u32, x: &[u8]) -> (r: Option<usize>)
    requires
        weak == adler32(x@),
    ensures
        match match_block(*sig, x@) {
            Some(i) => r == Some((i * sig.chunk_size) as usize) && i * sig.chunk_size + x@.len() <= usize::MAX,
            None => r is None,
        },
{
    let bs = sig.chunk_size;
    match sig.buckets.get(&weak) {
        None => None,
        Some(bucket) => {
            let h = strong_hash(x);
            let ghost full = bucket@;
            assert(sig.buckets@.contains_key(weak));
            assert(sig.table().contains_key(weak));
            assert(sig.table()[weak] == full);
            let mut k: usize = 0;
            assert(full.subrange(0, full.len() as int) =~= full);
            while k < bucket.len()
                invariant
                    full == bucket@,
                    k <= full.len(),
                    weak == adler32(x@),
                    h == xxh3_128_of(x@),
                    bs == sig.chunk_size,
                    sig.table().contains_key(weak),
                    sig.table()[weak] == full,
                    find_entry(full, h, bs as nat, x@.len()) == find_entry(
                        full.subrange(k as int, full.len() as int),
                        h,
                        bs as nat,
                        x@.len(),
                    ),
                decreases full.len() - k,
            {
                let e = bucket[k];
                let ghost rest = full.subrange(k as int, full.len() as int);
                assert(rest[0] == e);
                assert(rest.drop_first() =~= full.subrange(k + 1, full.len() as int));
                if e.hash == h {
                    match e.index.checked_mul(bs) {
                        Some(off) => match off.checked_add(x.len()) {
                            Some(_) => {
                                assert(find_entry(rest, h, bs as nat, x@.len()) == Some(e.index as nat));
                                assert(match_block(*sig, x@) == Some(e.index as nat));
                                return Some(off);
                            },
                            None => {},
                        },
                        None => {
                            assert(e.index * bs > usize::MAX);
                            assert(e.index * bs + x@.len() > usize::MAX);
                        },
                    }
                }
                k = k + 1;
            }
            None
        },
    }
}

/// The piece that the scan makes of the full window of `t` at `p`.
pub open spec fn window_piece(sig: Signature, t: Seq<u8>, p: nat) -> Edit {
    let bs = sig.chunk_size as nat;
    match match_block(sig, t.subrange(p as int, (p + bs) as int)) {
        Some(i) => Edit::Copy { offset: i * bs, length: bs },
        None => Edit::Insert(t.subrange(p as int, (p + 1) as int)),
    }
}

/// Where the scan goes on after the full window of `t` at `p`.
pub open spec fn window_next(sig: Signature, t: Seq<u8>, p: nat) -> nat {
    let bs = sig.chunk_size as nat;
    match match_block(sig, t.subrange(p as int, (p + bs) as int)) {
        Some(i) => p + bs,
        None => p + 1,
    }
}

/// Where a full window lies ahead, the scan depends only on the bytes seen
/// so far, whatever comes after them.
proof fn lemma_scan_window(sig: Signature, seen: Seq<u8>, all: Seq<u8>, p: nat)
    requires
        sig.chunk_size > 0,
        seen.is_prefix_of(all),
        seen.len() - p >= sig.chunk_size,
    ensures
        scan(sig, all, p) == seq![window_piece(sig, seen, p)] + scan(sig, all, window_next(sig, seen, p)),
        window_next(sig, seen, p) > p,
{
    let bs = sig.chunk_size as nat;
    assert(all.subrange(p as int, (p + bs) as int) =~= seen.subrange(p as int, (p + bs) as int));
    assert(all.subrange(p as int, (p + 1) as int) =~= seen.subrange(p as int, (p + 1) as int));
}

proof fn lemma_scan_advance(sig: Signature, seen: Seq<u8>, done: Seq<Edit>, p: nat)
    requires
        sig.chunk_size > 0,
        seen.len() - p >= sig.chunk_size,
        forall|all: Seq<u8>|
            #[trigger] seen.is_prefix_of(all) ==> scan(sig, all, 0) == done + scan(sig, all, p),
    ensures
        forall|all: Seq<u8>|
            #[trigger] seen.is_prefix_of(all) ==> scan(sig, all, 0) == done.push(
                window_piece(sig, seen, p),
            ) + scan(sig, all, window_next(sig, seen, p)),
{
    let piece = window_piece(sig, seen, p);
    let next = window_next(sig, seen, p);
    assert forall|all: Seq<u8>| #[trigger] seen.is_prefix_of(all) implies scan(sig, all, 0) == done.push(
        piece,
    ) + scan(sig, all, next) by {
        lemma_scan_window(sig, seen, all, p);
        assert(done + scan(sig, all, p) =~= done.push(piece) + scan(sig, all, next));
    }
}

proof fn lemma_emitted_advance(
    sent: Seq<Edit>,
    before: Seq<Edit>,
    after: Seq<Edit>,
    done: Seq<Edit>,
    piece: Edit,
)
    requires
        sent + before == coalesce(done),
        after == add_edit(before, piece),
        sent.len() > 0 ==> before.len() > 0,
    ensures
        sent + after == coalesce(done.push(piece)),
        after.len() > 0,
{
    assert(done.push(piece).drop_last() =~= done);
    if sent.len() > 0 {
        lemma_add_edit_after(sent, before, piece);
    } else {
        assert(sent + before =~= before);
        assert(sent + after =~= after);
    }
}

proof fn lemma_window_of_seen(buffer: Seq<u8>, s: int, seen: Seq<u8>, p: int, bs: int)
    requires
        0 <= s <= buffer.len(),
        0 <= p <= seen.len(),
        1 <= bs <= buffer.len() - s,
        buffer.subrange(s, buffer.len() as int) == seen.subrange(p, seen.len() as int),
    ensures
        seen.len() - p >= bs,
        buffer.subrange(s, s + bs) == seen.subrange(p, p + bs),
        buffer.subrange(s, s + 1) == seen.subrange(p, p + 1),
{
    let rest = buffer.subrange(s, buffer.len() as int);
    let seen_rest = seen.subrange(p, seen.len() as int);
    assert(rest.len() == buffer.len() - s);
    assert(seen_rest.len() == seen.len() - p);
    assert(rest.len() == seen_rest.len());
    assert(rest.subrange(0, bs) =~= buffer.subrange(s, s + bs));
    assert(seen_rest.subrange(0, bs) =~= seen.subrange(p, p + bs));
    assert(rest.subrange(0, 1) =~= buffer.subrange(s, s + 1));
    assert(seen_rest.subrange(0, 1) =~= seen.subrange(p, p + 1));
}

proof fn lemma_buffer_advance(buffer: Seq<u8>, s: int, t: int, seen: Seq<u8>, p: int, q: int)
    requires
        0 <= s <= t <= buffer.len(),
        0 <= p <= seen.len(),
        t - s == q - p,
        buffer.subrange(s, buffer.len() as int) == seen.subrange(p, seen.len() as int),
    ensures
        buffer.subrange(t, buffer.len() as int) == seen.subrange(q, seen.len() as int),
{
    let rest = buffer.subrange(s, buffer.len() as int);
    assert(buffer.subrange(t, buffer.len() as int) =~= rest.subrange(t - s, rest.len() as int));
    assert(seen.subrange(q, seen.len() as int) =~= seen.subrange(p, seen.len() as int).subrange(
        t - s,
        rest.len() as int,
    ));
}

/// Builds a delta from a target that arrives in pieces. Bytes that have not
/// been scanned yet wait in a buffer; the commands that later bytes can no
/// longer change are handed out as soon as they are known.
pub struct DeltaBuilder<'a> {
    sig: &'a Signature,
    buffer: Vec<u8>,
    start: usize,
    checksum: RollingChecksum,
    primed: bool,
    out: Emitter,
    seen: Ghost<Seq<u8>>,
    pos: Ghost<nat>,
    done: Ghost<Seq<Edit>>,
    sent: Ghost<Seq<DeltaOp>>,
}

impl<'a> DeltaBuilder<'a> {
    /// The signature that the target is matched against.
    pub closed spec fn signature(self) -> Signature {
        *self.sig
    }

    /// Every byte of the target fed so far.
    pub closed spec fn seen(self) -> Seq<u8> {
        self.seen@
    }

    /// Every command handed out so far.
    pub closed spec fn emitted(self) -> Seq<DeltaOp> {
        self.sent@
    }

    /// The buffer holds the bytes not yet scanned; the checksum, when
    /// primed, is that of the window at the start of the buffer; the pieces
    /// made so far begin the scan of every target that starts with the bytes
    /// seen; and the commands handed out, followed by those still held,
    /// are those pieces coalesced.
    pub closed spec fn wf(self) -> bool {
        let bs = self.sig.chunk_size as nat;
        &&& bs > 0
        &&& self.start <= self.buffer@.len()
        &&& self.pos@ <= self.seen@.len()
        &&& self.buffer@.subrange(self.start as int, self.buffer@.len() as int) == self.seen@.subrange(
            self.pos@ as int,
            self.seen@.len() as int,
        )
        &&& self.primed ==> self.buffer@.len() - self.start >= bs && self.checksum.represents(
            self.buffer@.subrange(self.start as int, self.start + bs),
        )
        &&& forall|all: Seq<u8>|
            #[trigger] self.seen@.is_prefix_of(all) ==> scan(*self.sig, all, 0) == self.done@ + scan(
                *self.sig,
                all,
                self.pos@,
            )
        &&& self.out.wf()
        &&& edits(self.sent@) + self.out.view() == coalesce(self.done@)
        &&& self.sent@.len() > 0 ==> self.out.view().len() > 0
    }

    /// A builder that has seen no byte yet. Fails if the signature's block
    /// size is zero.
    pub fn new(sig: &'a Signature) -> (r: Result<Self, SyncError>)
        ensures
            sig.chunk_size == 0 ==> r is Err && r->Err_0 == SyncError::InvalidChunkSize,
            sig.chunk_size > 0 ==> (r matches Ok(b) && b.wf() && b.signature() == *sig && b.seen()
                == Seq::<u8>::empty() && b.emitted() == Seq::<DeltaOp>::empty()),
    {
        if sig.chunk_size == 0 {
            return Err(SyncError::InvalidChunkSize);
        }
        let b = DeltaBuilder {
            sig,
            buffer: Vec::new(),
            start: 0,
            checksum: RollingChecksum::new(),
            primed: false,
            out: Emitter::new(),
            seen: Ghost(Seq::empty()),
            pos: Ghost(0),
            done: Ghost(Seq::empty()),
            sent: Ghost(Seq::empty()),
        };
        proof {
            assert(b.buffer@.subrange(0, 0) =~= b.seen@.subrange(0, 0));
            assert forall|all: Seq<u8>| #[trigger] b.seen@.is_prefix_of(all) implies scan(*sig, all, 0)
                == b.done@ + scan(*sig, all, 0) by {
                assert(b.done@ + scan(*sig, all, 0) =~= scan(*sig, all, 0));
            }
            assert(edits(b.sent@) + b.out.view() =~= coalesce(b.done@));
        }
        Ok(b)
    }

    /// Scans the full window at the start of the buffer.
    #[verifier::rlimit(50)]
    fn scan_window(&mut self)
        requires
            old(self).wf(),
            old(self).buffer@.len() - old(self).start >= old(self).sig.chunk_size,
        ensures
            final(self).wf(),
            final(self).sig == old(self).sig,
            final(self).seen@ == old(self).seen@,
            final(self).sent@ == old(self).sent@,
            final(self).buffer@.len() - final(self).start < old(self).buffer@.len() - old(self).start,
            final(self).buffer@.len() - final(self).start >= 0,
    {
        let bs = self.sig.chunk_size;
        let ghost sig = *self.sig;
        let ghost seen = self.seen@;
        let ghost p = self.pos@;
        let ghost view_before = self.out.view();
        let ghost piece = window_piece(sig, seen, p);
        let ghost next = window_next(sig, seen, p);
        let len = self.buffer.len();
        assert(len - self.start >= bs);
        if !self.primed {
            self.checksum.reset();
            self.checksum.update(&self.buffer[self.start..self.start + bs]);
            proof {
                crate::rolling::lemma_update_extends(
                    Seq::empty(),
                    self.buffer@.subrange(self.start as int, self.start + bs),
                );
                assert(Seq::<u8>::empty() + self.buffer@.subrange(self.start as int, self.start + bs)
                    =~= self.buffer@.subrange(self.start as int, self.start + bs));
            }
            self.primed = true;
        }
        let s = self.start;
        let ghost window = self.buffer@.subrange(s as int, s + bs);
        proof {
            lemma_window_of_seen(self.buffer@, s as int, seen, p as int, bs as int);
        }
        let weak = self.checksum.value();
        let found = find_match(self.sig, weak, &self.buffer[s..s + bs]);
        match found {
            Some(offset) => {
                self.out.push_copy(offset, bs);
                self.start = s + bs;
                self.primed = false;
            },
            None => {
                self.out.push_literal(&self.buffer[s..s + 1]);
                if self.buffer.len() - s - 1 >= bs {
                    let leaving = self.buffer[s];
                    let entering = self.buffer[s + bs];
                    self.checksum.roll(leaving, entering, bs);
                    proof {
                        lemma_roll_window(window, entering);
                        assert(window.drop_first().push(entering) =~= self.buffer@.subrange(
                            s + 1,
                            s + 1 + bs,
                        ));
                    }
                } else {
                    self.primed = false;
                }
                self.start = s + 1;
            },
        }
        proof {
            let done = self.done@;
            lemma_scan_advance(sig, seen, done, p);
            lemma_emitted_advance(edits(self.sent@), view_before, self.out.view(), done, piece);
            lemma_buffer_advance(self.buffer@, s as int, self.start as int, seen, p as int, next as int);
            self.done@ = done.push(piece);
            self.pos@ = next;
        }
    }

    /// Scans every full window in the buffer.
    fn scan_windows(&mut self)
        requires
            old(self).wf(),
        ensures
            final(self).wf(),
            final(self).sig == old(self).sig,
            final(self).seen@ == old(self).seen@,
            final(self).sent@ == old(self).sent@,
            final(self).buffer@.len() - final(self).start < final(self).sig.chunk_size,
    {
        while self.buffer.len() - self.start >= self.sig.chunk_size
            invariant
                self.wf(),
                self.sig == old(self).sig,
                self.seen@ == old(self).seen@,
                self.sent@ == old(self).sent@,
            decreases self.buffer@.len() - self.start,
        {
            self.scan_window();
        }
    }

    /// Takes in the next bytes of the target and hands out the commands that
    /// later bytes can no longer change.
    pub fn feed(&mut self, data: &[u8]) -> (r: Vec<DeltaOp>)
        requires
            old(self).wf(),
        ensures
            final(self).wf(),
            final(self).signature() == old(self).signature(),
            final(self).seen() == old(self).seen() + data@,
            final(self).emitted() == old(self).emitted() + r@,
            forall|all: Seq<u8>|
                #[trigger] final(self).seen().is_prefix_of(all) ==> edits(
                    final(self).emitted(),
                ).is_prefix_of(delta_edits(final(self).signature(), all)),
    {
        let mut buffer: Vec<u8> = Vec::new();
        buffer.extend_from_slice(&self.buffer[self.start..self.buffer.len()]);
        buffer.extend_from_slice(data);
        let ghost old_buffer = self.buffer@;
        let ghost s = self.start;
        let ghost bs = self.sig.chunk_size;
        let ghost seen = self.seen@;
        self.buffer = buffer;
        self.start = 0;
        proof {
            let tail = old_buffer.subrange(s as int, old_buffer.len() as int);
            assert(self.buffer@ == tail + data@);
            if self.primed {
                assert(self.buffer@.subrange(0, bs as int) =~= old_buffer.subrange(s as int, s + bs));
            }
            let all_seen = seen + data@;
            assert(self.buffer@.subrange(0, self.buffer@.len() as int) =~= all_seen.subrange(
                self.pos@ as int,
                all_seen.len() as int,
            )) by {
                assert(all_seen.subrange(self.pos@ as int, all_seen.len() as int) =~= seen.subrange(
                    self.pos@ as int,
                    seen.len() as int,
                ) + data@);
            }
            assert forall|all: Seq<u8>| #[trigger] all_seen.is_prefix_of(all) implies scan(
                *self.sig,
                all,
                0,
            ) == self.done@ + scan(*self.sig, all, self.pos@) by {
                assert(seen =~= all_seen.subrange(0, seen.len() as int));
                assert(seen.is_prefix_of(all));
            }
            self.seen@ = all_seen;
        }
        self.scan_windows();
        let ghost view_before = self.out.view();
        let ready = self.out.take_ready();
        proof {
            let old_sent = self.sent@;
            self.sent@ = old_sent + ready@;
            assert(edits(old_sent + ready@) =~= edits(old_sent) + edits(ready@));
            assert(edits(self.sent@) + self.out.view() =~= edits(old_sent) + view_before);
            let sig = *self.sig;
            let done = self.done@;
            assert forall|all: Seq<u8>| #[trigger] self.seen@.is_prefix_of(all) implies edits(
                self.sent@,
            ).is_prefix_of(delta_edits(sig, all)) by {
                let rest = scan(sig, all, self.pos@);
                assert(scan(sig, all, 0) == done + rest);
                lemma_coalesce_prefix(done, rest);
                let c = coalesce(done);
                let e = edits(self.sent@);
                if self.sent@.len() > 0 {
                    assert(c.len() > 0);
                    assert(e =~= c.drop_last().subrange(0, e.len() as int));
                    assert(c.drop_last().is_prefix_of(delta_edits(sig, all).drop_last()));
                    assert(e =~= delta_edits(sig, all).subrange(0, e.len() as int));
                } else {
                    assert(e =~= delta_edits(sig, all).subrange(0, 0));
                }
            }
        }
        ready
    }

    /// Ends the target: the bytes left in the buffer, fewer than a block,
    /// become the last piece, and every command not yet handed out is
    /// returned.
    pub fn finish(self) -> (r: Vec<DeltaOp>)
        requires
            self.wf(),
        ensures
            edits(self.emitted() + r@) == delta_edits(self.signature(), self.seen()),
    {
        let mut this = self;
        this.scan_windows();
        let ghost sig = *this.sig;
        let ghost seen = this.seen@;
        let ghost p = this.pos@;
        let ghost view_before = this.out.view();
        proof {
            assert(seen.is_prefix_of(seen));
        }
        if this.start < this.buffer.len() {
            let rest = &this.buffer[this.start..this.buffer.len()];
            assert(rest@ =~= seen.subrange(p as int, seen.len() as int));
            let weak = RollingChecksum::compute(rest);
            let ghost piece: Edit;
            match find_match(this.sig, weak, rest) {
                Some(offset) => {
                    proof {
                        piece = Edit::Copy { offset: offset as nat, length: rest@.len() };
                    }
                    this.out.push_copy(offset, rest.len());
                },
                None => {
                    proof {
                        piece = Edit::Insert(rest@);
                    }
                    this.out.push_literal(rest);
                },
            }
            proof {
                let done = this.done@;
                assert(scan(sig, seen, p) == seq![piece]);
                assert(done.push(piece).drop_last() =~= done);
                assert(done + scan(sig, seen, p) =~= done.push(piece));
                if this.sent@.len() > 0 {
                    lemma_add_edit_after(edits(this.sent@), view_before, piece);
                } else {
                    assert(Seq::<Edit>::empty() + view_before =~= view_before);
                    assert(edits(this.sent@) + this.out.view() =~= this.out.view());
                }
                this.done@ = done.push(piece);
            }
        } else {
            proof {
                assert(scan(sig, seen, p) == Seq::<Edit>::empty());
                assert(this.done@ + Seq::<Edit>::empty() =~= this.done@);
            }
        }
        let sent = this.sent;
        let tail = this.out.finish();
        proof {
            assert(edits(sent@ + tail@) =~= edits(sent@) + edits(tail@));
        }
        tail
    }
}

/// The delta of `target` against `sig`: copies of the blocks of the base
/// that the target holds, and literal bytes for the rest.
pub fn delta(target: &[u8], sig: &Signature) -> (r: Result<Delta, SyncError>)
    ensures
        sig.chunk_size == 0 ==> r == Err::<Delta, SyncError>(SyncError::InvalidChunkSize),
        sig.chunk_size > 0 ==> (r matches Ok(d) && edits(d.ops@) == delta_edits(*sig, target@)
            && d.chunk_size == sig.chunk_size && d.final_size == target@.len()),
        r matches Ok(d) ==> no_consecutive_inserts(edits(d.ops@)),
        r matches Ok(d) ==> no_adjacent_copies(edits(d.ops@)),
        r matches Ok(d) ==> well_coalesced(edits(d.ops@)),
        r matches Ok(d) ==> (target@.len() == 0 ==> d.ops@.len() == 0),
{
    let mut builder = match DeltaBuilder::new(sig) {
        Ok(b) => b,
        Err(e) => {
            return Err(e);
        },
    };
    let mut ops = builder.feed(target);
    proof {
        assert(Seq::<u8>::empty() + target@ =~= target@);
        assert(Seq::<DeltaOp>::empty() + ops@ =~= ops@);
    }
    let mut rest = builder.finish();
    ops.append(&mut rest);
    proof {
        lemma_scan_nonempty(*sig, target@, 0);
        lemma_coalesce_well_coalesced(scan(*sig, target@, 0));
        if target@.len() == 0 {
            assert(scan(*sig, target@, 0).len() == 0);
            assert(edits(ops@).len() == 0);
        }
    }
    Ok(Delta { chunk_size: sig.chunk_size, ops, final_size: target.len() })
}

/// The delta of `target` against `sig`, made only if `chunk_size` is the
/// signature's own block size.
pub fn delta_with_chunk_size(target: &[u8], sig: &Signature, chunk_size: usize) -> (r: Result<Delta, SyncError>)
    ensures
        chunk_size == 0 ==> r == Err::<Delta, SyncError>(SyncError::InvalidChunkSize),
        chunk_size > 0 && chunk_size != sig.chunk_size ==> r == Err::<Delta, SyncError>(
            SyncError::ChunkSizeMismatch { expected: sig.chunk_size, found: chunk_size },
        ),
        chunk_size > 0 && chunk_size == sig.chunk_size ==> (r matches Ok(d) && edits(d.ops@)
            == delta_edits(*sig, target@) && d.chunk_size == chunk_size && d.final_size == target@.len()),
{
    if chunk_size == 0 {
        return Err(SyncError::InvalidChunkSize);
    }
    if chunk_size != sig.chunk_size {
        return Err(SyncError::ChunkSizeMismatch { expected: sig.chunk_size, found: chunk_size });
    }
    delta(target, sig)
}

} // verus!
