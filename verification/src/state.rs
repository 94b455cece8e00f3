//! The capability a state type brings: apply a change, and undo it again.

use vstd::prelude::*;

verus! {

/// A state that moves along a timeline one change at a time.
///
/// `F` describes a change in the direction of increasing time. `R` undoes one
/// particular applied `F`. Both operations are functions of the state and the
/// delta alone, since a machine may run them any number of times while it
/// seeks back and forth.
pub trait TimeMachineState<F, R>: Sized {
    /// The state that `apply_forward` leaves behind.
    spec fn forward(self, delta: F) -> Self;

    /// The reverse delta that `apply_forward` hands out when called in state
    /// `self`.
    spec fn reversal(self, delta: F) -> R;

    /// The state that `apply_reverse` leaves behind.
    spec fn backward(self, delta: R) -> Self;

    /// Undoing a change with the reverse delta it produced restores the state
    /// the change was applied to.
    proof fn round_trip(self, delta: F)
        ensures
            self.forward(delta).backward(self.reversal(delta)) == self,
    ;

    /// Applies `delta` in place and returns what undoes it.
    fn apply_forward(&mut self, delta: &F) -> (reverse: R)
        ensures
            *final(self) == old(self).forward(*delta),
            reverse == old(self).reversal(*delta),
    ;

    /// Takes back the change that produced `delta`.
    fn apply_reverse(&mut self, delta: &R)
        ensures
            *final(self) == old(self).backward(*delta),
    ;
}

/// The state reached from `start` by applying `changes` front to back.
pub open spec fn replay<S, F, R, T>(start: S, changes: Seq<(T, F)>) -> S where
    S: TimeMachineState<F, R>,

    decreases changes.len(),
{
    if changes.len() == 0 {
        start
    } else {
        replay(start, changes.drop_last()).forward(changes.last().1)
    }
}

/// Replaying one more change applies it to what the others gave.
pub proof fn lemma_replay_push<S, F, R, T>(start: S, changes: Seq<(T, F)>, next: (T, F)) where
    S: TimeMachineState<F, R>,

    ensures
        replay(start, changes.push(next)) == replay(start, changes).forward(next.1),
{
    assert(changes.push(next).drop_last() =~= changes);
}

/// Replaying two runs of changes in a row is replaying them joined.
pub proof fn lemma_replay_concat<S, F, R, T>(start: S, first: Seq<(T, F)>, second: Seq<(T, F)>) where
    S: TimeMachineState<F, R>,

    ensures
        replay(start, first + second) == replay(replay(start, first), second),
    decreases second.len(),
{
    if second.len() == 0 {
        assert(first + second =~= first);
    } else {
        lemma_replay_concat(start, first, second.drop_last());
        assert((first + second).drop_last() =~= first + second.drop_last());
    }
}

/// Replaying from a first change on is replaying the rest from the state
/// that the first one gives.
pub proof fn lemma_replay_first<S, F, R, T>(start: S, first: (T, F), rest: Seq<(T, F)>) where
    S: TimeMachineState<F, R>,

    ensures
        replay(start, seq![first] + rest) == replay(start.forward(first.1), rest),
{
    let single = seq![first];
    assert(Seq::<(T, F)>::empty().push(first) =~= single);
    lemma_replay_push(start, Seq::empty(), first);
    lemma_replay_concat(start, single, rest);
}

} // verus!
