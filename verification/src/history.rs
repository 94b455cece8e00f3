//! The mathematical model of a machine: a starting state, the changes laid out
//! along the timeline, and how far along them the machine currently stands.

use crate::order::{le, lemma_le_total, lemma_le_transitive, total_order};
use crate::sequences::{
    front_closed, lemma_filter_at_split, lemma_filter_keeps_all, lemma_front_closed_joins,
    lemma_front_closed_split,
};
use crate::state::{lemma_replay_concat, replay, TimeMachineState};
use vstd::prelude::*;

verus! {

/// Holds of the changes that take effect at `at` or earlier.
pub open spec fn not_after<T: PartialOrd, F>(at: T) -> spec_fn((T, F)) -> bool {
    |change: (T, F)| le(change.0, at)
}

/// Holds of the changes that take effect later than `at`.
pub open spec fn after<T: PartialOrd, F>(at: T) -> spec_fn((T, F)) -> bool {
    |change: (T, F)| !le(change.0, at)
}

/// Holds of the changes that take effect earlier than `at`.
pub open spec fn before<T: PartialOrd, F>(at: T) -> spec_fn((T, F)) -> bool {
    |change: (T, F)| !le(at, change.0)
}

/// Holds of the changes that take effect at `at` or later.
pub open spec fn not_before<T: PartialOrd, F>(at: T) -> spec_fn((T, F)) -> bool {
    |change: (T, F)| le(at, change.0)
}

/// What a machine stands for.
pub struct History<S, F, T> {
    /// The state before the first retained change.
    pub origin: S,
    /// The retained changes with their timestamps, in the order in which they
    /// take effect.
    pub changes: Seq<(T, F)>,
    /// How many of the changes, counted from the front, the current state
    /// reflects.
    pub position: nat,
    /// The earliest timestamp that can still be answered, once history has
    /// been forgotten.
    pub boundary: Option<T>,
}

impl<S, F, T: PartialOrd> History<S, F, T> {
    /// A history with no change in it.
    pub open spec fn start(initial: S) -> Self {
        History { origin: initial, changes: Seq::empty(), position: 0, boundary: None }
    }

    /// The timestamps never decrease along the changes.
    pub open spec fn chronological(self) -> bool {
        forall|i: int, j: int|
            0 <= i <= j < self.changes.len() ==> le(
                (#[trigger] self.changes[i]).0,
                (#[trigger] self.changes[j]).0,
            )
    }

    /// No retained change is earlier than the retention boundary.
    pub open spec fn retained(self) -> bool {
        self.boundary matches Some(oldest) ==> forall|i: int|
            0 <= i < self.changes.len() ==> le(oldest, (#[trigger] self.changes[i]).0)
    }

    /// The timestamps are totally ordered, the changes stand in timeline
    /// order, none of them lies before the boundary, and the position lies
    /// among them.
    pub open spec fn wf(self) -> bool {
        &&& total_order::<T>()
        &&& self.position <= self.changes.len()
        &&& self.chronological()
        &&& self.retained()
    }

    /// The changes that the current state reflects, oldest first.
    pub open spec fn applied(self) -> Seq<(T, F)> {
        self.changes.take(self.position as int)
    }

    /// The changes that the current state does not reflect yet, nearest first.
    pub open spec fn pending(self) -> Seq<(T, F)> {
        self.changes.skip(self.position as int)
    }

    /// `at` lies before the retention boundary.
    pub open spec fn evicted(self, at: T) -> bool {
        self.boundary matches Some(oldest) && !le(oldest, at)
    }

    /// The changes that have taken effect by `at`.
    pub open spec fn upto(self, at: T) -> Seq<(T, F)> {
        self.changes.filter(not_after(at))
    }

    /// The same history, standing at `at`: what has taken effect by `at` is
    /// applied, the rest is pending.
    pub open spec fn seek(self, at: T) -> Self {
        History { position: self.upto(at).len(), ..self }
    }

    /// The same history after its pending changes up to `at` were applied.
    pub open spec fn advance(self, at: T) -> Self {
        History {
            position: if self.position < self.upto(at).len() {
                self.upto(at).len()
            } else {
                self.position
            },
            ..self
        }
    }

    /// The same history after its applied changes later than `at` were undone.
    pub open spec fn retreat(self, at: T) -> Self {
        History {
            position: if self.upto(at).len() < self.position {
                self.upto(at).len()
            } else {
                self.position
            },
            ..self
        }
    }

    /// The history with one more change, `delta` at `at`, standing at `at` with
    /// the new change as the nearest pending one. It takes effect after every
    /// change that was there with a timestamp up to `at`, and before the later
    /// ones.
    pub open spec fn insert(self, delta: F, at: T) -> Self {
        History {
            changes: self.upto(at) + seq![(at, delta)] + self.changes.filter(after(at)),
            position: self.upto(at).len(),
            ..self
        }
    }

    /// The boundary after history before `until` was forgotten: `until`,
    /// unless the boundary was later than that already.
    pub open spec fn raised(self, until: T) -> T {
        match self.boundary {
            Some(oldest) if !le(oldest, until) => oldest,
            _ => until,
        }
    }

    /// The state that the machine is in.
    pub open spec fn current<R>(self) -> S where S: TimeMachineState<F, R> {
        replay(self.origin, self.applied())
    }

    /// The state as of `at`: the origin with every change up to `at` applied,
    /// in timeline order, and none of the later ones.
    pub open spec fn state_at<R>(self, at: T) -> S where S: TimeMachineState<F, R> {
        replay(self.origin, self.upto(at))
    }

    /// The history after everything before `until` was forgotten: pending
    /// changes up to `until` are applied first, then the changes earlier than
    /// `until` are folded into the origin, and the boundary is raised. A change
    /// at `until` itself stays.
    pub open spec fn forget<R>(self, until: T) -> Self where S: TimeMachineState<F, R> {
        let dropped = self.changes.filter(before(until));
        History {
            origin: replay(self.origin, dropped),
            changes: self.changes.filter(not_before(until)),
            position: (self.advance(until).position - dropped.len()) as nat,
            boundary: Some(self.raised(until)),
        }
    }

    /// Along a chronological history, a change up to `at` has only such
    /// changes in front of it.
    proof fn lemma_not_after_is_front_closed(self, at: T)
        requires
            total_order::<T>(),
            self.chronological(),
        ensures
            front_closed(self.changes, not_after(at)),
    {
        let keep = not_after::<T, F>(at);
        assert forall|i: int, j: int|
            0 <= i <= j < self.changes.len() && keep(#[trigger] self.changes[j]) implies keep(
            #[trigger] self.changes[i],
        ) by {
            lemma_le_transitive(self.changes[i].0, self.changes[j].0, at);
        }
    }

    /// Along a chronological history, a change earlier than `until` has only
    /// such changes in front of it.
    proof fn lemma_before_is_front_closed(self, until: T)
        requires
            total_order::<T>(),
            self.chronological(),
        ensures
            front_closed(self.changes, before(until)),
    {
        let keep = before::<T, F>(until);
        assert forall|i: int, j: int|
            0 <= i <= j < self.changes.len() && keep(#[trigger] self.changes[j]) implies keep(
            #[trigger] self.changes[i],
        ) by {
            if le(until, self.changes[i].0) {
                lemma_le_transitive(until, self.changes[i].0, self.changes[j].0);
            }
        }
    }

    /// In a chronological history the changes up to `at` are the first ones,
    /// as many as `upto(at)` holds, and the later ones are the rest.
    pub proof fn lemma_upto_is_a_prefix(self, at: T)
        requires
            total_order::<T>(),
            self.chronological(),
        ensures
            self.upto(at).len() <= self.changes.len(),
            forall|i: int| 0 <= i < self.upto(at).len() ==> le((#[trigger] self.changes[i]).0, at),
            forall|i: int|
                self.upto(at).len() <= i < self.changes.len() ==> !le(
                    (#[trigger] self.changes[i]).0,
                    at,
                ),
            self.upto(at) == self.changes.take(self.upto(at).len() as int),
            self.changes.filter(after(at)) == self.changes.skip(self.upto(at).len() as int),
    {
        let keep = not_after::<T, F>(at);
        let rank = self.upto(at).len() as int;
        self.lemma_not_after_is_front_closed(at);
        lemma_front_closed_split(self.changes, keep);
        assert forall|i: int| 0 <= i < rank implies le((#[trigger] self.changes[i]).0, at) by {
            assert(keep(self.changes[i]));
        }
        assert forall|i: int| rank <= i < self.changes.len() implies !le(
            (#[trigger] self.changes[i]).0,
            at,
        ) by {
            assert(!keep(self.changes[i]));
        }
        lemma_filter_at_split(self.changes, keep, after::<T, F>(at), rank);
    }

    /// In a chronological history the changes earlier than `until` are the
    /// first ones, as many as there are, and the others are the rest.
    pub proof fn lemma_before_is_a_prefix(self, until: T)
        requires
            total_order::<T>(),
            self.chronological(),
        ensures
            self.changes.filter(before(until)).len() <= self.upto(until).len() <= self.changes.len(),
            forall|i: int|
                0 <= i < self.changes.filter(before(until)).len() ==> !le(
                    until,
                    (#[trigger] self.changes[i]).0,
                ),
            forall|i: int|
                self.changes.filter(before(until)).len() <= i < self.changes.len() ==> le(
                    until,
                    (#[trigger] self.changes[i]).0,
                ),
            self.changes.filter(before(until)) == self.changes.take(
                self.changes.filter(before(until)).len() as int,
            ),
            self.changes.filter(not_before(until)) == self.changes.skip(
                self.changes.filter(before(until)).len() as int,
            ),
    {
        let keep = before::<T, F>(until);
        let cut = self.changes.filter(keep).len() as int;
        self.lemma_before_is_front_closed(until);
        lemma_front_closed_split(self.changes, keep);
        assert forall|i: int| 0 <= i < cut implies !le(until, (#[trigger] self.changes[i]).0) by {
            assert(keep(self.changes[i]));
        }
        assert forall|i: int| cut <= i < self.changes.len() implies le(
            until,
            (#[trigger] self.changes[i]).0,
        ) by {
            assert(!keep(self.changes[i]));
        }
        lemma_filter_at_split(self.changes, keep, not_before::<T, F>(until), cut);
        self.lemma_upto_is_a_prefix(until);
        if self.upto(until).len() < cut {
            lemma_le_total(until, self.changes[self.upto(until).len() as int].0);
        }
    }

    /// A forward move that stops at `reached` has applied what `advance` says:
    /// the changes it crossed were up to `at`, and what it left pending is
    /// later than `at`.
    pub proof fn lemma_advance_stops(self, at: T, reached: int)
        requires
            total_order::<T>(),
            self.chronological(),
            self.position <= reached <= self.changes.len(),
            forall|i: int| self.position <= i < reached ==> le((#[trigger] self.changes[i]).0, at),
            forall|i: int|
                reached <= i < self.changes.len() ==> !le((#[trigger] self.changes[i]).0, at),
        ensures
            self.advance(at).position == reached,
    {
        self.lemma_upto_is_a_prefix(at);
        let rank = self.upto(at).len() as int;
        if reached > self.position {
            assert(le(self.changes[reached - 1].0, at));
        }
        if reached < rank {
            assert(le(self.changes[reached].0, at));
        }
    }

    /// A backward move that stops at `reached` has undone what `retreat`
    /// says: the changes it crossed were later than `at`, and what it left
    /// applied is up to `at`.
    pub proof fn lemma_retreat_stops(self, at: T, reached: int)
        requires
            total_order::<T>(),
            self.chronological(),
            0 <= reached <= self.position <= self.changes.len(),
            forall|i: int| reached <= i < self.position ==> !le((#[trigger] self.changes[i]).0, at),
            forall|i: int| 0 <= i < reached ==> le((#[trigger] self.changes[i]).0, at),
        ensures
            self.retreat(at).position == reached,
    {
        self.lemma_upto_is_a_prefix(at);
        let rank = self.upto(at).len() as int;
        if reached < self.position {
            assert(!le(self.changes[reached].0, at));
        }
        if reached > rank {
            assert(le(self.changes[reached - 1].0, at));
        }
    }

    /// Moving forward and then backward to `at` is seeking to `at`, and what
    /// is pending after the forward move is not earlier than `at`.
    pub proof fn lemma_advance_then_retreat(self, at: T)
        requires
            self.wf(),
        ensures
            self.advance(at).wf(),
            self.advance(at).retreat(at) == self.seek(at),
            self.seek(at).wf(),
            forall|i: int|
                self.advance(at).position <= i < self.changes.len() ==> le(
                    at,
                    (#[trigger] self.changes[i]).0,
                ),
    {
        self.lemma_upto_is_a_prefix(at);
        assert forall|i: int| self.advance(at).position <= i < self.changes.len() implies le(
            at,
            (#[trigger] self.changes[i]).0,
        ) by {
            lemma_le_total(at, self.changes[i].0);
        }
    }

    /// A change recorded on a history that stands at `at` goes between the
    /// applied changes and the pending ones.
    pub proof fn lemma_insert_at_position(self, delta: F, at: T)
        requires
            self.wf(),
            self.position == self.upto(at).len(),
        ensures
            self.insert(delta, at).changes == self.applied() + seq![(at, delta)] + self.pending(),
            self.insert(delta, at).applied() == self.applied(),
    {
        self.lemma_upto_is_a_prefix(at);
        assert(self.insert(delta, at).applied() =~= self.applied());
    }

    /// Where the changes earlier than `until` are the first `dropped` ones,
    /// forgetting folds exactly those into the origin and keeps the rest.
    pub proof fn lemma_forget_drops<R>(self, until: T, dropped: int) where S: TimeMachineState<F, R>
        requires
            self.wf(),
            0 <= dropped <= self.changes.len(),
            forall|i: int| 0 <= i < dropped ==> !le(until, (#[trigger] self.changes[i]).0),
            forall|i: int|
                dropped <= i < self.changes.len() ==> le(until, (#[trigger] self.changes[i]).0),
        ensures
            self.forget(until).origin == replay(self.origin, self.changes.take(dropped)),
            self.forget(until).changes == self.changes.skip(dropped),
            self.forget(until).position == self.advance(until).position - dropped,
            self.forget(until).wf(),
    {
        lemma_filter_at_split(self.changes, before::<T, F>(until), not_before::<T, F>(until), dropped);
        self.lemma_forget_wf(until);
        self.lemma_before_is_a_prefix(until);
    }

    /// A change recorded at a timestamp that is not evicted keeps the history
    /// well-formed: the new change stands in timeline order among the others.
    pub proof fn lemma_insert_wf(self, delta: F, at: T)
        requires
            self.wf(),
            !self.evicted(at),
        ensures
            self.insert(delta, at).wf(),
    {
        self.lemma_upto_is_a_prefix(at);
        lemma_le_total(at, at);
        let rank = self.upto(at).len() as int;
        let grown = self.insert(delta, at);
        assert forall|i: int| 0 <= i < grown.changes.len() implies (#[trigger] grown.changes[i]) == (
        if i < rank {
            self.changes[i]
        } else if i == rank {
            (at, delta)
        } else {
            self.changes[i - 1]
        }) by {}
        assert forall|i: int, j: int| 0 <= i <= j < grown.changes.len() implies le(
            (#[trigger] grown.changes[i]).0,
            (#[trigger] grown.changes[j]).0,
        ) by {
            if i < rank && j > rank {
                assert(le(self.changes[i].0, self.changes[j - 1].0));
            } else if i < rank && j < rank {
                assert(le(self.changes[i].0, self.changes[j].0));
            } else if i > rank {
                assert(le(self.changes[i - 1].0, self.changes[j - 1].0));
            } else if i == rank && j > rank {
                lemma_le_total(self.changes[j - 1].0, at);
            }
        }
        if let Some(oldest) = self.boundary {
            lemma_le_total(oldest, at);
            assert forall|i: int| 0 <= i < grown.changes.len() implies le(
                oldest,
                (#[trigger] grown.changes[i]).0,
            ) by {
                if i < rank {
                    assert(le(oldest, self.changes[i].0));
                } else if i > rank {
                    assert(le(oldest, self.changes[i - 1].0));
                }
            }
        }
    }

    /// Forgetting keeps the history well-formed.
    pub proof fn lemma_forget_wf<R>(self, until: T) where S: TimeMachineState<F, R>
        requires
            self.wf(),
        ensures
            self.forget(until).wf(),
    {
        self.lemma_before_is_a_prefix(until);
        self.lemma_upto_is_a_prefix(until);
        let kept = self.changes.filter(not_before(until));
        let cut = self.changes.filter(before(until)).len() as int;
        let raised = self.raised(until);
        assert forall|i: int, j: int| 0 <= i <= j < kept.len() implies le(
            (#[trigger] kept[i]).0,
            (#[trigger] kept[j]).0,
        ) by {
            assert(le(self.changes[cut + i].0, self.changes[cut + j].0));
        }
        assert forall|i: int| 0 <= i < kept.len() implies le(raised, (#[trigger] kept[i]).0) by {
            assert(le(until, self.changes[cut + i].0));
            if let Some(oldest) = self.boundary {
                assert(le(oldest, self.changes[cut + i].0));
            }
        }
    }

    /// Folding the changes earlier than `until` into the origin does not
    /// change the state as of `query`, where `query` is not earlier than
    /// `until`.
    pub proof fn lemma_forget_keeps_state<R>(self, until: T, query: T) where
        S: TimeMachineState<F, R>,

        requires
            total_order::<T>(),
            self.chronological(),
            le(until, query),
        ensures
            self.forget(until).state_at(query) == self.state_at(query),
    {
        let dropped = self.changes.filter(before(until));
        let kept = self.changes.filter(not_before(until));
        let asked = not_after::<T, F>(query);
        self.lemma_before_is_front_closed(until);
        lemma_front_closed_joins(self.changes, before(until), not_before(until));
        Seq::filter_distributes_over_add(dropped, kept, asked);
        assert forall|i: int| 0 <= i < dropped.len() implies asked(#[trigger] dropped[i]) by {
            self.changes.lemma_filter_pred(before(until), i);
            lemma_le_total(until, dropped[i].0);
            lemma_le_transitive(dropped[i].0, until, query);
        }
        lemma_filter_keeps_all(dropped, asked);
        lemma_replay_concat(self.origin, dropped, kept.filter(asked));
    }
}

} // verus!
