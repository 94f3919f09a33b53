//! Edit commands, their coalescing, and the builder that emits them.
use vstd::prelude::*;

verus! {

/// One command of a delta.
#[derive(Debug, Clone, PartialEq, Eq)]
pub enum DeltaOp {
    /// Copy `length` bytes of the base, starting at byte `offset`.
    Copy { offset: usize, length: usize },
    /// Write these bytes as they are.
    Insert(Vec<u8>),
}

/// An edit command as a mathematical value.
pub enum Edit {
    Copy { offset: nat, length: nat },
    Insert(Seq<u8>),
}

impl View for DeltaOp {
    type V = Edit;

    open spec fn view(&self) -> Edit {
        match self {
            DeltaOp::Copy { offset, length } => Edit::Copy {
                offset: *offset as nat,
                length: *length as nat,
            },
            DeltaOp::Insert(data) => Edit::Insert(data@),
        }
    }
}

/// A sequence of commands as mathematical values.
pub open spec fn edits(ops: Seq<DeltaOp>) -> Seq<Edit> {
    ops.map_values(|op: DeltaOp| op@)
}

/// An edit script for a target, with the target's length.
#[derive(Debug, Clone)]
pub struct Delta {
    pub chunk_size: usize,
    pub ops: Vec<DeltaOp>,
    pub final_size: usize,
}

/// Whether a copy that ends where the next one starts could absorb it.
pub open spec fn adjacent(e: Edit, f: Edit) -> bool {
    &&& e is Copy
    &&& f is Copy
    &&& e->Copy_offset + e->Copy_length == f->Copy_offset
}

/// Appends `e` to `es`, merging it into the last command where possible:
/// literal bytes join a preceding insert, and a copy joins a preceding copy
/// that ends where it starts.
pub open spec fn add_edit(es: Seq<Edit>, e: Edit) -> Seq<Edit> {
    if es.len() > 0 && es.last() is Insert && e is Insert {
        es.drop_last().push(Edit::Insert(es.last()->Insert_0 + e->Insert_0))
    } else if es.len() > 0 && adjacent(es.last(), e) {
        es.drop_last().push(
            Edit::Copy {
                offset: es.last()->Copy_offset,
                length: es.last()->Copy_length + e->Copy_length,
            },
        )
    } else {
        es.push(e)
    }
}

/// The commands that `pieces` become when each is added in turn with
/// `add_edit`.
pub open spec fn coalesce(pieces: Seq<Edit>) -> Seq<Edit>
    decreases pieces.len(),
{
    if pieces.len() == 0 {
        Seq::empty()
    } else {
        add_edit(coalesce(pieces.drop_last()), pieces.last())
    }
}

/// A copy of at least one byte, or an insert of at least one byte.
pub open spec fn nonempty_edit(e: Edit) -> bool {
    match e {
        Edit::Copy { length, .. } => length > 0,
        Edit::Insert(data) => data.len() > 0,
    }
}

/// No two consecutive commands are both inserts.
pub open spec fn no_consecutive_inserts(es: Seq<Edit>) -> bool {
    forall|i: int| 0 <= i < es.len() - 1 ==> !(#[trigger] es[i] is Insert && es[i + 1] is Insert)
}

/// No copy is followed by a copy that starts where it ends.
pub open spec fn no_adjacent_copies(es: Seq<Edit>) -> bool {
    forall|i: int| 0 <= i < es.len() - 1 ==> !adjacent(#[trigger] es[i], es[i + 1])
}

/// Every command is non-empty and no two neighbours could be merged.
pub open spec fn well_coalesced(es: Seq<Edit>) -> bool {
    &&& forall|i: int| 0 <= i < es.len() ==> nonempty_edit(#[trigger] es[i])
    &&& no_consecutive_inserts(es)
    &&& no_adjacent_copies(es)
}

proof fn lemma_add_edit_well_coalesced(es: Seq<Edit>, e: Edit)
    requires
        well_coalesced(es),
        nonempty_edit(e),
    ensures
        well_coalesced(add_edit(es, e)),
{
    let r = add_edit(es, e);
    if es.len() > 0 && es.last() is Insert && e is Insert {
        assert forall|i: int| 0 <= i < r.len() - 1 implies !(#[trigger] r[i] is Insert && r[i + 1] is Insert) by {
            assert(r[i] == es[i]);
            if i + 1 < es.len() - 1 {
                assert(r[i + 1] == es[i + 1]);
            }
        }
        assert forall|i: int| 0 <= i < r.len() - 1 implies !adjacent(#[trigger] r[i], r[i + 1]) by {
            assert(r[i] == es[i]);
            if i + 1 < es.len() - 1 {
                assert(r[i + 1] == es[i + 1]);
            }
        }
    } else if es.len() > 0 && adjacent(es.last(), e) {
        assert forall|i: int| 0 <= i < r.len() - 1 implies !(#[trigger] r[i] is Insert && r[i + 1] is Insert) by {
            assert(r[i] == es[i]);
            if i + 1 < es.len() - 1 {
                assert(r[i + 1] == es[i + 1]);
            }
        }
        assert forall|i: int| 0 <= i < r.len() - 1 implies !adjacent(#[trigger] r[i], r[i + 1]) by {
            assert(r[i] == es[i]);
            if i + 1 < es.len() - 1 {
                assert(r[i + 1] == es[i + 1]);
            } else {
                assert(i + 1 == es.len() - 1);
                assert(!adjacent(es[i], es[i + 1]));
            }
        }
    } else {
        assert forall|i: int| 0 <= i < r.len() - 1 implies !(#[trigger] r[i] is Insert && r[i + 1] is Insert) by {
            assert(r[i] == es[i]);
            if i + 1 < es.len() {
                assert(r[i + 1] == es[i + 1]);
            }
        }
        assert forall|i: int| 0 <= i < r.len() - 1 implies !adjacent(#[trigger] r[i], r[i + 1]) by {
            assert(r[i] == es[i]);
            if i + 1 < es.len() {
                assert(r[i + 1] == es[i + 1]);
            }
        }
    }
    assert forall|i: int| 0 <= i < r.len() implies nonempty_edit(#[trigger] r[i]) by {
        if i < es.len() - 1 || (i < es.len() && r.len() > es.len()) {
            assert(r[i] == es[i]);
        }
    }
}

/// Coalescing non-empty pieces gives commands of which no two neighbours are
/// both inserts, and no copy is followed by one that continues it.
pub proof fn lemma_coalesce_well_coalesced(pieces: Seq<Edit>)
    requires
        forall|i: int| 0 <= i < pieces.len() ==> nonempty_edit(#[trigger] pieces[i]),
    ensures
        well_coalesced(coalesce(pieces)),
        no_consecutive_inserts(coalesce(pieces)),
        no_adjacent_copies(coalesce(pieces)),
    decreases pieces.len(),
{
    if pieces.len() > 0 {
        let init = pieces.drop_last();
        assert forall|i: int| 0 <= i < init.len() implies nonempty_edit(#[trigger] init[i]) by {
            assert(init[i] == pieces[i]);
        }
        lemma_coalesce_well_coalesced(init);
        lemma_add_edit_well_coalesced(coalesce(init), pieces.last());
    }
}

/// Adding a piece changes only the last command, if any.
pub proof fn lemma_add_edit_after(p: Seq<Edit>, a: Seq<Edit>, e: Edit)
    requires
        a.len() > 0,
    ensures
        add_edit(p + a, e) == p + add_edit(a, e),
{
    let pa = p + a;
    assert(pa.last() == a.last());
    assert(pa.drop_last() =~= p + a.drop_last());
    if pa.last() is Insert && e is Insert {
        assert(add_edit(pa, e) =~= p + add_edit(a, e));
    } else if adjacent(pa.last(), e) {
        assert(add_edit(pa, e) =~= p + add_edit(a, e));
    } else {
        assert(add_edit(pa, e) =~= p + add_edit(a, e));
    }
}

/// Later pieces change at most the last command of those already
/// coalesced: all but the last stay as they are.
pub proof fn lemma_coalesce_prefix(a: Seq<Edit>, b: Seq<Edit>)
    ensures
        b.len() > 0 ==> coalesce(a + b).len() > 0,
        coalesce(a).len() > 0 ==> coalesce(a).drop_last().is_prefix_of(coalesce(a + b).drop_last()),
    decreases b.len(),
{
    if b.len() == 0 {
        assert(a + b =~= a);
        if coalesce(a).len() > 0 {
            assert(coalesce(a).drop_last() =~= coalesce(a + b).drop_last().subrange(
                0,
                coalesce(a).drop_last().len() as int,
            ));
        }
    } else {
        let init = b.drop_last();
        assert((a + b).drop_last() =~= a + init);
        lemma_coalesce_prefix(a, init);
        let x = coalesce(a + init);
        let y = add_edit(x, b.last());
        if x.len() > 0 && x.last() is Insert && b.last() is Insert {
            assert(y.drop_last() =~= x.drop_last());
        } else if x.len() > 0 && adjacent(x.last(), b.last()) {
            assert(y.drop_last() =~= x.drop_last());
        } else {
            assert(y.drop_last() =~= x);
            if x.len() > 0 {
                assert(x.drop_last() =~= x.subrange(0, x.drop_last().len() as int));
            }
        }
    }
}

/// Emits commands one piece at a time. Pending literal bytes and the last
/// copy are held back, so that the next piece can still be merged into them.
pub(crate) struct Emitter {
    ops: Vec<DeltaOp>,
    pending: Vec<u8>,
    last_copy: Option<(usize, usize)>,
}

impl Emitter {
    /// The command held back, if any.
    pub closed spec fn held(self) -> Seq<Edit> {
        if self.pending@.len() > 0 {
            seq![Edit::Insert(self.pending@)]
        } else {
            match self.last_copy {
                Some((offset, length)) => seq![
                    Edit::Copy { offset: offset as nat, length: length as nat },
                ],
                None => Seq::empty(),
            }
        }
    }

    /// Everything emitted so far, held-back command included.
    pub closed spec fn view(self) -> Seq<Edit> {
        edits(self.ops@) + self.held()
    }

    /// At most one command is held back; while none is, nothing has been
    /// emitted; a held copy ends within `usize`.
    pub closed spec fn wf(self) -> bool {
        &&& !(self.pending@.len() > 0 && self.last_copy is Some)
        &&& (self.pending@.len() == 0 && self.last_copy is None) ==> self.ops@.len() == 0
        &&& self.last_copy matches Some((offset, length)) ==> offset + length <= usize::MAX && length > 0
    }

    pub fn new() -> (r: Self)
        ensures
            r.wf(),
            r.view() == Seq::<Edit>::empty(),
    {
        let r = Emitter { ops: Vec::new(), pending: Vec::new(), last_copy: None };
        assert(r.view() =~= Seq::<Edit>::empty());
        r
    }

    fn flush_pending(&mut self)
        requires
            old(self).wf(),
            old(self).pending@.len() > 0,
        ensures
            final(self).ops@ == old(self).ops@.push(DeltaOp::Insert(old(self).pending)),
            final(self).pending@.len() == 0,
            final(self).last_copy == old(self).last_copy,
    {
        let mut lit: Vec<u8> = Vec::new();
        std::mem::swap(&mut lit, &mut self.pending);
        self.ops.push(DeltaOp::Insert(lit));
    }

    fn flush_copy(&mut self)
        requires
            old(self).wf(),
            old(self).last_copy is Some,
        ensures
            old(self).last_copy matches Some((offset, length)) ==> final(self).ops@ == old(
                self,
            ).ops@.push(DeltaOp::Copy { offset, length }),
            final(self).pending == old(self).pending,
            final(self).last_copy is None,
    {
        if let Some((offset, length)) = self.last_copy {
            self.ops.push(DeltaOp::Copy { offset, length });
        }
        self.last_copy = None;
    }

    /// Adds literal bytes.
    pub fn push_literal(&mut self, data: &[u8])
        requires
            old(self).wf(),
            data@.len() > 0,
        ensures
            final(self).wf(),
            final(self).view() == add_edit(old(self).view(), Edit::Insert(data@)),
    {
        let ghost before = self.view();
        let ghost e = Edit::Insert(data@);
        if self.last_copy.is_some() {
            self.flush_copy();
            proof {
                assert(edits(self.ops@) =~= before);
            }
        }
        let ghost had = self.pending@;
        self.pending.extend_from_slice(data);
        proof {
            assert(self.pending@ == had + data@);
            if had.len() > 0 {
                assert(before.last() == Edit::Insert(had));
                assert(before.drop_last() =~= edits(self.ops@));
                assert(self.view() =~= add_edit(before, e));
            } else {
                assert(before =~= edits(self.ops@));
                assert(had + data@ =~= data@);
                if before.len() > 0 {
                    assert(before.last() is Copy);
                }
                assert(self.view() =~= add_edit(before, e));
            }
        }
    }

    /// Adds a copy of `length` bytes from `offset` in the base.
    pub fn push_copy(&mut self, offset: usize, length: usize)
        requires
            old(self).wf(),
            length > 0,
            offset + length <= usize::MAX,
        ensures
            final(self).wf(),
            final(self).view() == add_edit(
                old(self).view(),
                Edit::Copy { offset: offset as nat, length: length as nat },
            ),
    {
        let ghost before = self.view();
        let ghost e = Edit::Copy { offset: offset as nat, length: length as nat };
        if self.pending.len() > 0 {
            self.flush_pending();
            self.last_copy = Some((offset, length));
            proof {
                assert(before.drop_last() =~= edits(self.ops@).drop_last());
                assert(self.view() =~= add_edit(before, e));
            }
        } else {
            match self.last_copy {
                Some((o, l)) => {
                    if o + l == offset {
                        self.last_copy = Some((o, l + length));
                        proof {
                            assert(before.drop_last() =~= edits(self.ops@));
                            assert(self.view() =~= add_edit(before, e));
                        }
                    } else {
                        self.flush_copy();
                        self.last_copy = Some((offset, length));
                        proof {
                            assert(self.view() =~= add_edit(before, e));
                        }
                    }
                },
                None => {
                    self.last_copy = Some((offset, length));
                    proof {
                        assert(self.view() =~= add_edit(before, e));
                    }
                },
            }
        }
    }

    /// Hands out the commands that can no longer change, keeping the one
    /// held back.
    pub fn take_ready(&mut self) -> (r: Vec<DeltaOp>)
        requires
            old(self).wf(),
        ensures
            final(self).wf(),
            edits(r@) + final(self).view() == old(self).view(),
            old(self).view().len() > 0 ==> final(self).view().len() > 0,
    {
        let mut ready: Vec<DeltaOp> = Vec::new();
        std::mem::swap(&mut ready, &mut self.ops);
        assert(edits(self.ops@) =~= Seq::<Edit>::empty());
        assert(self.view() =~= self.held());
        assert(old(self).view() =~= edits(ready@) + self.held());
        ready
    }

    /// Emits what is held back and returns every command.
    pub fn finish(self) -> (r: Vec<DeltaOp>)
        requires
            self.wf(),
        ensures
            edits(r@) == self.view(),
    {
        let mut this = self;
        if this.pending.len() > 0 {
            this.flush_pending();
        } else if this.last_copy.is_some() {
            this.flush_copy();
        }
        assert(edits(this.ops@) =~= self.view());
        this.ops
    }
}

} // verus!
