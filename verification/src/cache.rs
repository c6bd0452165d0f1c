//! The recent changes of the state, kept so that a reorganised chain can be followed.
use crate::amm::{amm_views, AmmView, AMM};
use vstd::prelude::*;

verus! {

/// The pools that changed in a block, as they were before it.
#[derive(Debug)]
pub struct StateChange {
    pub state_change: Vec<AMM>,
    pub block_number: u64,
}

/// What a [`StateChange`] stands for.
pub struct StateChangeView {
    pub state_change: Seq<AmmView>,
    pub block_number: u64,
}

impl View for StateChange {
    type V = StateChangeView;

    open spec fn view(&self) -> StateChangeView {
        StateChangeView {
            state_change: amm_views(self.state_change@),
            block_number: self.block_number,
        }
    }
}

impl StateChange {
    /// The change of `block_number`.
    pub fn new(state_change: Vec<AMM>, block_number: u64) -> (change: StateChange)
        ensures
            change.state_change == state_change,
            change.block_number == block_number,
    {
        StateChange { state_change, block_number }
    }
}

/// `changes` with `change` as the newest; the oldest goes where there are more than `capacity`.
pub open spec fn cached(
    changes: Seq<StateChangeView>,
    change: StateChangeView,
    capacity: nat,
) -> Seq<StateChangeView> {
    let all = changes.push(change);
    if all.len() > capacity {
        all.drop_first()
    } else {
        all
    }
}

/// The changes that stay when everything from `block_number` on is undone, newest first.
pub open spec fn kept(changes: Seq<StateChangeView>, block_number: u64) -> Seq<StateChangeView>
    decreases changes.len(),
{
    if changes.len() > 0 && changes.last().block_number >= block_number {
        kept(changes.drop_last(), block_number)
    } else {
        changes
    }
}

/// The former pools to put back, in this order, when everything from `block_number` on is
/// undone: those of the newest change first, so that the oldest has the last word.
pub open spec fn undone(changes: Seq<StateChangeView>, block_number: u64) -> Seq<AmmView>
    decreases changes.len(),
{
    if changes.len() > 0 && changes.last().block_number >= block_number {
        changes.last().state_change + undone(changes.drop_last(), block_number)
    } else {
        Seq::empty()
    }
}

/// The last changes of the state, at most `CAP` of them, the oldest first.
#[derive(Debug)]
pub struct StateChangeCache<const CAP: usize> {
    changes: Vec<StateChange>,
}

impl<const CAP: usize> View for StateChangeCache<CAP> {
    type V = Seq<StateChangeView>;

    closed spec fn view(&self) -> Seq<StateChangeView> {
        self.changes@.map_values(|change: StateChange| change@)
    }
}

impl<const CAP: usize> StateChangeCache<CAP> {
    /// There are no more changes than the cache has room for.
    pub open spec fn wf(&self) -> bool {
        self@.len() <= CAP
    }

    /// A cache without changes.
    pub fn new() -> (cache: Self)
        ensures
            cache.wf(),
            cache@ == Seq::<StateChangeView>::empty(),
    {
        let cache = StateChangeCache { changes: Vec::new() };
        assert(cache@ =~= Seq::empty());
        cache
    }

    /// Adds the newest change. Where the cache is full the oldest one makes room.
    pub fn push(&mut self, change: StateChange)
        requires
            old(self).wf(),
        ensures
            final(self).wf(),
            final(self)@ == cached(old(self)@, change@, CAP as nat),
    {
        let ghost all = old(self)@.push(change@);
        let full = self.changes.len() == CAP;
        self.changes.push(change);
        assert(self@ =~= all);
        if full {
            let _ = self.changes.remove(0);
            assert(self@ =~= all.drop_first());
        }
    }

    /// Forgets the changes of `block_number` and later, from the newest down, and hands back the
    /// pools as they were before them.
    pub fn unwind_state_changes(&mut self, block_number: u64) -> (former: Vec<AMM>)
        requires
            old(self).wf(),
        ensures
            final(self).wf(),
            final(self)@ == kept(old(self)@, block_number),
            amm_views(former@) == undone(old(self)@, block_number),
    {
        let mut former: Vec<AMM> = Vec::new();
        assert(amm_views(former@) =~= Seq::empty());
        loop
            invariant
                self.wf(),
                kept(old(self)@, block_number) == kept(self@, block_number),
                undone(old(self)@, block_number) == amm_views(former@) + undone(
                    self@,
                    block_number,
                ),
            ensures
                self.wf(),
                self@ == kept(old(self)@, block_number),
                amm_views(former@) == undone(old(self)@, block_number),
            decreases self@.len(),
        {
            let len = self.changes.len();
            if len == 0 || self.changes[len - 1].block_number < block_number {
                assert(amm_views(former@) + undone(self@, block_number) =~= amm_views(former@));
                break;
            }
            let ghost before = self@;
            let ghost had = amm_views(former@);
            match self.changes.pop() {
                Some(change) => {
                    let mut amms = change.state_change;
                    let ghost these = amm_views(amms@);
                    former.append(&mut amms);
                    proof {
                        assert(self@ =~= before.drop_last());
                        assert(before.last().state_change == these);
                        assert(amm_views(former@) =~= had + these);
                        assert((had + these) + undone(self@, block_number) =~= had + (these
                            + undone(self@, block_number)));
                    }
                },
                None => {
                    assert(false);
                    break;
                },
            }
        }
        former
    }
}

} // verus!
