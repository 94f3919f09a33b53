//! Rebuilding a target from the base and a delta.
use crate::command::{add_edit, adjacent, coalesce, edits, Delta, DeltaOp, Edit};
use crate::error::SyncError;
use vstd::prelude::*;

verus! {

/// Whether `e` reads only bytes that a base of `base_len` bytes has.
pub open spec fn fits(e: Edit, base_len: nat) -> bool {
    e matches Edit::Copy { offset, length } ==> offset + length <= base_len
}

/// Whether every command of `es` reads only bytes of the base.
pub open spec fn all_fit(es: Seq<Edit>, base_len: nat) -> bool {
    forall|i: int| 0 <= i < es.len() ==> fits(#[trigger] es[i], base_len)
}

/// The bytes that `e` writes.
pub open spec fn edit_bytes(e: Edit, base: Seq<u8>) -> Seq<u8> {
    match e {
        Edit::Copy { offset, length } => base.subrange(offset as int, (offset + length) as int),
        Edit::Insert(data) => data,
    }
}

/// The bytes that `es` writes, in order.
pub open spec fn expand(es: Seq<Edit>, base: Seq<u8>) -> Seq<u8>
    decreases es.len(),
{
    if es.len() == 0 {
        Seq::empty()
    } else {
        expand(es.drop_last(), base) + edit_bytes(es.last(), base)
    }
}

/// What the commands of `es` write is what its two parts write.
pub proof fn lemma_expand_concat(a: Seq<Edit>, b: Seq<Edit>, base: Seq<u8>)
    ensures
        expand(a + b, base) == expand(a, base) + expand(b, base),
    decreases b.len(),
{
    if b.len() == 0 {
        assert(a + b =~= a);
        assert(expand(a, base) + Seq::empty() =~= expand(a, base));
    } else {
        assert((a + b).drop_last() =~= a + b.drop_last());
        lemma_expand_concat(a, b.drop_last(), base);
        assert(expand(a, base) + expand(b.drop_last(), base) + edit_bytes(b.last(), base)
            =~= expand(a, base) + (expand(b.drop_last(), base) + edit_bytes(b.last(), base)));
    }
}

proof fn lemma_add_edit_expand(es: Seq<Edit>, e: Edit, base: Seq<u8>)
    requires
        all_fit(es, base.len()),
        fits(e, base.len()),
    ensures
        all_fit(add_edit(es, e), base.len()),
        expand(add_edit(es, e), base) == expand(es, base) + edit_bytes(e, base),
{
    let r = add_edit(es, e);
    if es.len() > 0 && es.last() is Insert && e is Insert {
        assert(r.drop_last() =~= es.drop_last());
        assert(expand(es.drop_last(), base) + (es.last()->Insert_0 + e->Insert_0) =~= expand(
            es.drop_last(),
            base,
        ) + es.last()->Insert_0 + e->Insert_0);
        assert forall|i: int| 0 <= i < r.len() implies fits(#[trigger] r[i], base.len()) by {
            if i < es.len() - 1 {
                assert(r[i] == es[i]);
            }
        }
    } else if es.len() > 0 && adjacent(es.last(), e) {
        assert(r.drop_last() =~= es.drop_last());
        let o: int = es.last()->Copy_offset as int;
        let l1: int = es.last()->Copy_length as int;
        let l2: int = e->Copy_length as int;
        assert(fits(es.last(), base.len()));
        assert(base.subrange(o, o + l1 + l2) =~= base.subrange(o, o + l1) + base.subrange(
            o + l1,
            o + l1 + l2,
        ));
        assert(expand(es.drop_last(), base) + (base.subrange(o, o + l1) + base.subrange(
            o + l1,
            o + l1 + l2,
        )) =~= expand(es.drop_last(), base) + base.subrange(o, o + l1) + base.subrange(
            o + l1,
            o + l1 + l2,
        ));
        assert forall|i: int| 0 <= i < r.len() implies fits(#[trigger] r[i], base.len()) by {
            if i < es.len() - 1 {
                assert(r[i] == es[i]);
            }
        }
    } else {
        assert(r.drop_last() =~= es);
        assert forall|i: int| 0 <= i < r.len() implies fits(#[trigger] r[i], base.len()) by {
            if i < es.len() {
                assert(r[i] == es[i]);
            }
        }
    }
}

/// Merging neighbours keeps what the commands write.
pub proof fn lemma_coalesce_expand(pieces: Seq<Edit>, base: Seq<u8>)
    requires
        all_fit(pieces, base.len()),
    ensures
        all_fit(coalesce(pieces), base.len()),
        expand(coalesce(pieces), base) == expand(pieces, base),
    decreases pieces.len(),
{
    if pieces.len() > 0 {
        let init = pieces.drop_last();
        assert forall|i: int| 0 <= i < init.len() implies fits(#[trigger] init[i], base.len()) by {
            assert(init[i] == pieces[i]);
        }
        lemma_coalesce_expand(init, base);
        assert(fits(pieces[pieces.len() - 1], base.len()));
        lemma_add_edit_expand(coalesce(init), pieces.last(), base);
    }
}

/// Rebuilds the target from `base` and `delta`. Fails on the first copy that
/// reads past the end of the base.
pub fn apply_to_vec(base: &[u8], delta: &Delta) -> (r: Result<Vec<u8>, SyncError>)
    ensures
        all_fit(edits(delta.ops@), base@.len()) ==> (r matches Ok(v) && v@ == expand(
            edits(delta.ops@),
            base@,
        )),
        !all_fit(edits(delta.ops@), base@.len()) ==> (r matches Err(e) && e matches SyncError::CopyOutOfRange { offset, length, base_len }
            && base_len == base@.len() && exists|i: int|
            0 <= i < delta.ops@.len() && delta.ops@[i] == (DeltaOp::Copy { offset, length })
                && offset + length > base_len && all_fit(edits(delta.ops@).subrange(0, i), base_len as nat)),
{
    let ghost es = edits(delta.ops@);
    let mut out: Vec<u8> = Vec::new();
    let mut i: usize = 0;
    while i < delta.ops.len()
        invariant
            es == edits(delta.ops@),
            i <= delta.ops@.len(),
            all_fit(es.subrange(0, i as int), base@.len()),
            out@ == expand(es.subrange(0, i as int), base@),
        decreases delta.ops@.len() - i,
    {
        let ghost pre = es.subrange(0, i as int);
        assert(es.subrange(0, i + 1).drop_last() =~= pre);
        assert(es[i as int] == delta.ops@[i as int]@);
        match &delta.ops[i] {
            DeltaOp::Copy { offset, length } => {
                if *offset > base.len() || *length > base.len() - *offset {
                    assert(!fits(es[i as int], base@.len()));
                    assert(!all_fit(es, base@.len()));
                    return Err(
                        SyncError::CopyOutOfRange {
                            offset: *offset,
                            length: *length,
                            base_len: base.len(),
                        },
                    );
                }
                out.extend_from_slice(&base[*offset..*offset + *length]);
            },
            DeltaOp::Insert(data) => {
                out.extend_from_slice(data.as_slice());
            },
        }
        proof {
            let next = es.subrange(0, i + 1);
            assert forall|j: int| 0 <= j < next.len() implies fits(#[trigger] next[j], base@.len()) by {
                if j < i {
                    assert(next[j] == pre[j]);
                }
            }
        }
        i = i + 1;
    }
    assert(es.subrange(0, i as int) =~= es);
    Ok(out)
}

} // verus!
