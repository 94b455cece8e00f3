//! What holds of every history, whatever the state type and the timestamps.

use crate::history::{after, not_after, not_before, History};
use crate::order::{le, lemma_le_total, lemma_le_transitive};
use crate::sequences::{lemma_filter_keeps_all, lemma_filter_keeps_none, lemma_filter_narrower};
use crate::state::{lemma_replay_concat, lemma_replay_push, replay, TimeMachineState};
use vstd::prelude::*;

verus! {

/// A change can be taken back. Applying a forward delta to any state and then
/// applying the reverse delta it gave leads back to that state. Every state
/// type owes this; the machine relies on it whenever it moves backward.
pub proof fn lemma_reverse_undoes_forward<S, F, R>(state: S, delta: F) where
    S: TimeMachineState<F, R>,

    ensures
        state.forward(delta).backward(state.reversal(delta)) == state,
{
    state.round_trip(delta);
}

/// Reading is repeatable. Moving the machine to any timestamp `visited` keeps
/// the history well-formed and changes no answer: the state as of `at`, and
/// whether `at` can be answered at all, are what they were. In particular two
/// reads of `at` in a row agree.
pub proof fn lemma_reading_changes_no_answer<S, F, R, T: PartialOrd>(
    history: History<S, F, T>,
    visited: T,
    at: T,
) where S: TimeMachineState<F, R>
    requires
        history.wf(),
    ensures
        history.seek(visited).wf(),
        history.seek(visited).evicted(at) == history.evicted(at),
        history.seek(visited).state_at(at) == history.state_at(at),
        history.seek(at).seek(at) == history.seek(at),
{
    history.lemma_upto_is_a_prefix(visited);
}

/// A machine that was moved to `at` has applied exactly the changes up to
/// `at`, and holds exactly the later ones as still to come.
pub proof fn lemma_seek_splits_at<S, F, T: PartialOrd>(history: History<S, F, T>, at: T)
    requires
        history.wf(),
    ensures
        history.seek(at).applied() == history.upto(at),
        history.seek(at).pending() == history.changes.filter(after(at)),
        forall|i: int|
            0 <= i < history.seek(at).applied().len() ==> le(
                (#[trigger] history.seek(at).applied()[i]).0,
                at,
            ),
        forall|i: int|
            0 <= i < history.seek(at).pending().len() ==> !le(
                (#[trigger] history.seek(at).pending()[i]).0,
                at,
            ),
{
    history.lemma_upto_is_a_prefix(at);
}

/// Where the machine has been does not matter. After a visit to `first`, a
/// detour to `second` and back to `first` leaves the machine as the visit to
/// `first` alone does, and its state is the state as of `first`.
pub proof fn lemma_seek_forgets_the_way<S, F, R, T: PartialOrd>(
    history: History<S, F, T>,
    first: T,
    second: T,
) where S: TimeMachineState<F, R>
    requires
        history.wf(),
    ensures
        history.seek(first).seek(second).seek(first) == history.seek(first),
        history.seek(first).current() == history.state_at(first),
        history.seek(first).seek(second).seek(first).current() == history.state_at(first),
{
    history.lemma_upto_is_a_prefix(first);
}

/// A recorded change takes its place in timeline order, wherever the machine
/// stood. Asked for a timestamp at or after the change, the machine answers
/// with the state as of the change's timestamp, then the change, then the
/// changes that were there between that timestamp and the one asked for.
/// Asked for an earlier timestamp, it answers as before.
pub proof fn lemma_change_merges_in_order<S, F, R, T: PartialOrd>(
    history: History<S, F, T>,
    delta: F,
    at: T,
    query: T,
) where S: TimeMachineState<F, R>
    requires
        history.wf(),
        !history.evicted(at),
    ensures
        history.insert(delta, at).wf(),
        history.insert(delta, at).evicted(query) == history.evicted(query),
        le(at, query) ==> history.insert(delta, at).state_at(query) == replay(
            history.state_at(at).forward(delta),
            history.changes.filter(after(at)).filter(not_after(query)),
        ),
        !le(at, query) ==> history.insert(delta, at).state_at(query) == history.state_at(query),
{
    history.lemma_insert_wf(delta, at);
    lemma_le_total(at, query);
    let early = history.upto(at);
    let new = seq![(at, delta)];
    let late = history.changes.filter(after(at));
    let asked = not_after::<T, F>(query);
    Seq::filter_distributes_over_add(early + new, late, asked);
    Seq::filter_distributes_over_add(early, new, asked);
    if le(at, query) {
        assert forall|i: int| 0 <= i < early.len() implies asked(#[trigger] early[i]) by {
            history.changes.lemma_filter_pred(not_after(at), i);
            lemma_le_transitive(early[i].0, at, query);
        }
        lemma_filter_keeps_all(early, asked);
        lemma_filter_keeps_all(new, asked);
        lemma_replay_push(history.origin, early, (at, delta));
        assert(early + new =~= early.push((at, delta)));
        lemma_replay_concat(history.origin, early + new, late.filter(asked));
    } else {
        lemma_filter_keeps_none(new, asked);
        assert forall|i: int| 0 <= i < late.len() implies !asked(#[trigger] late[i]) by {
            history.changes.lemma_filter_pred(after(at), i);
            if le(late[i].0, query) {
                lemma_le_transitive(late[i].0, query, at);
            }
        }
        lemma_filter_keeps_none(late, asked);
        assert forall|change: (T, F)| #[trigger] asked(change) implies not_after::<T, F>(at)(
            change,
        ) by {
            lemma_le_transitive(change.0, query, at);
        }
        lemma_filter_narrower(history.changes, not_after(at), asked);
        assert(early.filter(asked) + Seq::<(T, F)>::empty() + Seq::<(T, F)>::empty()
            =~= early.filter(asked));
    }
}

/// Forgetting is final, and loses nothing that can still be asked for. After
/// history before `until` was forgotten, the boundary is `until` or, where it
/// was later than that before, what it was; a timestamp is refused if and only
/// if it lies before that boundary; and every timestamp that is still
/// answered was answered before, with the same state.
pub proof fn lemma_forget_keeps_later_answers<S, F, R, T: PartialOrd>(
    history: History<S, F, T>,
    until: T,
    query: T,
) where S: TimeMachineState<F, R>
    requires
        history.wf(),
    ensures
        history.forget(until).wf(),
        le(until, history.raised(until)),
        history.boundary matches Some(oldest) ==> le(oldest, history.raised(until)),
        history.forget(until).evicted(query) <==> !le(history.raised(until), query),
        !history.forget(until).evicted(query) ==> !history.evicted(query) && history.forget(
            until,
        ).state_at(query) == history.state_at(query),
{
    history.lemma_forget_wf(until);
    let raised = history.raised(until);
    lemma_le_total(until, until);
    if let Some(oldest) = history.boundary {
        lemma_le_total(oldest, until);
        lemma_le_total(oldest, oldest);
    }
    if le(raised, query) {
        lemma_le_transitive(until, raised, query);
        if let Some(oldest) = history.boundary {
            lemma_le_transitive(oldest, raised, query);
        }
        history.lemma_forget_keeps_state(until, query);
    }
}

/// After history before `until` was forgotten on a machine whose boundary was
/// not later than `until`, a timestamp before `until` is refused, with `until`
/// named as the boundary, and a timestamp at or after `until` is answered as
/// it was before.
pub proof fn lemma_forget_draws_the_line<S, F, R, T: PartialOrd>(
    history: History<S, F, T>,
    until: T,
    query: T,
) where S: TimeMachineState<F, R>
    requires
        history.wf(),
        !history.evicted(until),
    ensures
        history.forget(until).boundary == Some(until),
        !le(until, query) ==> history.forget(until).evicted(query),
        le(until, query) ==> !history.forget(until).evicted(query) && !history.evicted(query)
            && history.forget(until).state_at(query) == history.state_at(query),
{
    lemma_forget_keeps_later_answers(history, until, query);
}

/// Forgetting does not change what a later change does. A change recorded
/// after history before `until` was forgotten, at a timestamp that is still
/// accepted, leads to the same answers from the boundary on as the same
/// change recorded with nothing forgotten.
pub proof fn lemma_forget_keeps_later_changes<S, F, R, T: PartialOrd>(
    history: History<S, F, T>,
    until: T,
    delta: F,
    at: T,
    query: T,
) where S: TimeMachineState<F, R>
    requires
        history.wf(),
        !history.forget(until).evicted(at),
        !history.forget(until).evicted(query),
    ensures
        !history.evicted(at),
        history.forget(until).insert(delta, at).state_at(query) == history.insert(
            delta,
            at,
        ).state_at(query),
{
    let later = history.forget(until);
    lemma_forget_keeps_later_answers(history, until, at);
    lemma_forget_keeps_later_answers(history, until, query);
    lemma_change_merges_in_order(later, delta, at, query);
    lemma_change_merges_in_order(history, delta, at, query);
    if le(at, query) {
        lemma_le_transitive(until, history.raised(until), at);
        assert forall|change: (T, F)| #[trigger] after::<T, F>(at)(change) implies not_before::<
            T,
            F,
        >(until)(change) by {
            lemma_le_total(until, change.0);
            if le(change.0, until) {
                lemma_le_transitive(change.0, until, at);
            }
        }
        lemma_filter_narrower(history.changes, not_before(until), after(at));
    }
}

} // verus!
