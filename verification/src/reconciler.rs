//! Compaction of the persisted patch log: folding every pending patch into
//! the base snapshot, in stored order, leaving an empty pending list.
//!
//! The persisted ledger is the pair `(base snapshot, pending patches)`.
//! Appending a patch only ever adds to the second element; compaction is
//! the explicit step that replays the pending patches through the merge
//! engine.  The surrounding program is responsible for writing the result
//! to a temporary location and renaming it over the original, so that a
//! reader never sees a half-written ledger.

use vstd::prelude::*;

use crate::card::col_wf;
use crate::card::lemma_merge_pile_wf;
use crate::card::merge_pile;
use crate::card::Card;
use crate::card::CardV;
use crate::card::Collection;
use crate::card::OwnedCard;
use crate::card::OwnedCardV;
use crate::card::Pile;

verus! {

/// The persisted ledger: a base snapshot of owned cards, and the ordered
/// list of pending patches not yet folded into it.
pub struct Aggregate(pub Vec<(u32, OwnedCard)>, pub Vec<Vec<Card>>);

impl View for Aggregate {
    type V = (Seq<(u32, OwnedCardV)>, Seq<Seq<CardV>>);

    open spec fn view(&self) -> (Seq<(u32, OwnedCardV)>, Seq<Seq<CardV>>) {
        (self.0.deep_view(), self.1.deep_view())
    }
}

/// The ledger that results from folding every pending patch, in stored
/// order, into the base snapshot.
pub open spec fn compact_spec(
    base: Seq<(u32, OwnedCardV)>,
    pending: Seq<Seq<CardV>>,
) -> Seq<(u32, OwnedCardV)>
    decreases pending.len(),
{
    if pending.len() == 0 {
        base
    } else {
        compact_spec(merge_pile(base, pending[0]), pending.drop_first())
    }
}

/// Compacting folds the patches in order and keeps the ledger well-formed.
pub proof fn lemma_compact_spec_wf(base: Seq<(u32, OwnedCardV)>, pending: Seq<Seq<CardV>>)
    requires
        col_wf(base),
    ensures
        col_wf(compact_spec(base, pending)),
    decreases pending.len(),
{
    if pending.len() > 0 {
        lemma_merge_pile_wf(base, pending[0]);
        lemma_compact_spec_wf(merge_pile(base, pending[0]), pending.drop_first());
    }
}

/// Compacting a ledger with no pending patches changes nothing: the base
/// snapshot comes back as it was.
pub proof fn lemma_compact_empty_pending(base: Seq<(u32, OwnedCardV)>)
    ensures
        compact_spec(base, Seq::<Seq<CardV>>::empty()) == base,
{
}

/// Deferring a patch through the log loses nothing: appending it to the
/// pending list and compacting gives the same ledger as compacting first
/// and merging the patch directly.
pub proof fn lemma_append_then_compact(
    base: Seq<(u32, OwnedCardV)>,
    pending: Seq<Seq<CardV>>,
    patch: Seq<CardV>,
)
    ensures
        compact_spec(base, pending.push(patch)) == merge_pile(compact_spec(base, pending), patch),
    decreases pending.len(),
{
    if pending.len() == 0 {
        assert(pending.push(patch)[0] == patch);
        assert(pending.push(patch).drop_first() =~= Seq::<Seq<CardV>>::empty());
        assert(compact_spec(merge_pile(base, patch), Seq::<Seq<CardV>>::empty()) == merge_pile(
            base,
            patch,
        ));
    } else {
        assert(pending.push(patch)[0] == pending[0]);
        assert(pending.push(patch).drop_first() =~= pending.drop_first().push(patch));
        lemma_append_then_compact(merge_pile(base, pending[0]), pending.drop_first(), patch);
    }
}

impl Aggregate {
    /// A compactable ledger: its base snapshot is a well-formed collection.
    pub open spec fn wf(&self) -> bool {
        col_wf(self@.0)
    }

    /// Folds every pending patch into the base snapshot, strictly in
    /// stored order, and returns the compacted ledger with an empty
    /// pending list.
    pub fn compact(self) -> (r: Aggregate)
        requires
            self.wf(),
        ensures
            r@.0 == compact_spec(self@.0, self@.1),
            r@.1 == Seq::<Seq<CardV>>::empty(),
            r.wf(),
    {
        let ghost base0 = self@.0;
        let ghost pending0 = self@.1;
        let Aggregate(base, mut pending) = self;
        let mut c = Collection { cards: base };
        while pending.len() > 0
            invariant
                c.wf(),
                compact_spec(base0, pending0) == compact_spec(c@, pending.deep_view()),
            decreases pending.len(),
        {
            let ghost pd = pending.deep_view();
            let ghost oldp = pending@;
            let cards = pending.remove(0);
            proof {
                assert(cards.deep_view() == pd[0]) by {
                    assert(pd[0] == oldp[0].deep_view());
                }
                assert forall|x: int| 0 <= x < pending.deep_view().len() implies pending
                    .deep_view()[x] == pd.drop_first()[x] by {
                    assert(pending.deep_view()[x] == pending@[x].deep_view());
                    assert(pending@[x] == oldp[x + 1]);
                    assert(pd[x + 1] == oldp[x + 1].deep_view());
                }
                assert(pending.deep_view() =~= pd.drop_first());
            }
            let pile = Pile { cards };
            c.merge(&pile);
        }
        proof {
            assert(pending.deep_view() =~= Seq::<Seq<CardV>>::empty());
        }
        Aggregate(c.cards, pending)
    }
}

} // verus!
