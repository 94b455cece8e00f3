//! The machine itself: a current state and two logs of changes, one holding
//! what has been applied and can be undone, one holding what is still to come.

use crate::history::History;
use crate::order::{le, lemma_le_transitive, lemma_operators, total_order};
use crate::state::{lemma_replay_first, lemma_replay_push, replay, TimeMachineState};
use std::collections::VecDeque;
use vstd::prelude::*;

verus! {

#[derive(Debug, PartialEq)]
pub enum Error<T> {
    /// The first timestamp was asked for, and lies before the second, the
    /// retention boundary.
    TimeEvicted(T, T),
}

/// What an operation on a machine with timestamps `T` hands back.
pub type Result<D, T> = core::result::Result<D, Error<T>>;

struct Timestamped<T, D>(T, D);

/// A state that can be changed at any point of a timeline and read as of any
/// point of it.
pub struct TimeMachine<S, F, R, T> {
    current: S,
    /// The applied changes, each with what undoes it; the oldest in front.
    reverse: VecDeque<Timestamped<T, (F, R)>>,
    /// The changes still to come; the nearest one last.
    forward: Vec<Timestamped<T, F>>,
    oldest: Option<T>,
    /// The state before the oldest change that is still held.
    origin: Ghost<S>,
}

/// The applied changes in timeline order, without what undoes them.
spec fn carried_out<F, R, T>(done: Seq<Timestamped<T, (F, R)>>) -> Seq<(T, F)> {
    Seq::new(done.len(), |i: int| (done[i].0, done[i].1.0))
}

/// The changes to come in timeline order, nearest first.
spec fn upcoming<F, T>(todo: Seq<Timestamped<T, F>>) -> Seq<(T, F)> {
    Seq::new(todo.len(), |i: int| (todo[todo.len() - 1 - i].0, todo[todo.len() - 1 - i].1))
}

/// The changes of both logs in timeline order.
spec fn timeline<F, R, T>(
    done: Seq<Timestamped<T, (F, R)>>,
    todo: Seq<Timestamped<T, F>>,
) -> Seq<(T, F)> {
    carried_out(done) + upcoming(todo)
}

/// The applied change `i` is stored with the reverse delta that it gave when
/// it was applied to the state that the changes before it lead to.
spec fn recorded<S, F, R, T>(origin: S, done: Seq<Timestamped<T, (F, R)>>, i: int) -> bool where
    S: TimeMachineState<F, R>,
{
    done[i].1.1 == replay(origin, carried_out(done).take(i)).reversal(done[i].1.0)
}

/// The state `current` is `origin` with the applied changes replayed, and each
/// applied change is stored with the reverse delta that it gave.
spec fn coherent_logs<S, F, R, T>(
    origin: S,
    current: S,
    done: Seq<Timestamped<T, (F, R)>>,
) -> bool where S: TimeMachineState<F, R> {
    &&& current == replay(origin, carried_out(done))
    &&& forall|i: int| 0 <= i < done.len() ==> #[trigger] recorded(origin, done, i)
}

/// The applied changes are the front part of the timeline.
proof fn lemma_timeline_parts<F, R, T>(
    done: Seq<Timestamped<T, (F, R)>>,
    todo: Seq<Timestamped<T, F>>,
)
    ensures
        timeline(done, todo).len() == done.len() + todo.len(),
        timeline(done, todo).take(done.len() as int) == carried_out(done),
        timeline(done, todo).skip(done.len() as int) == upcoming(todo),
{
    assert(timeline(done, todo).take(done.len() as int) =~= carried_out(done));
    assert(timeline(done, todo).skip(done.len() as int) =~= upcoming(todo));
}

/// Applying the nearest change to come, and storing it with the reverse delta
/// it gave, leaves the timeline as it was and the logs coherent.
proof fn lemma_apply_nearest<S, F, R, T>(
    origin: S,
    current: S,
    done: Seq<Timestamped<T, (F, R)>>,
    todo: Seq<Timestamped<T, F>>,
) where S: TimeMachineState<F, R>
    requires
        todo.len() > 0,
        coherent_logs(origin, current, done),
    ensures
        ({
            let next = todo.last();
            let grown = done.push(Timestamped(next.0, (next.1, current.reversal(next.1))));
            &&& timeline(done, todo)[done.len() as int] == (next.0, next.1)
            &&& timeline(grown, todo.drop_last()) == timeline(done, todo)
            &&& coherent_logs(origin, current.forward(next.1), grown)
        }),
{
    let next = todo.last();
    let grown = done.push(Timestamped(next.0, (next.1, current.reversal(next.1))));
    assert(timeline(grown, todo.drop_last()) =~= timeline(done, todo));
    assert(carried_out(grown) =~= carried_out(done).push((next.0, next.1)));
    lemma_replay_push(origin, carried_out(done), (next.0, next.1));
    assert forall|i: int| 0 <= i < grown.len() implies #[trigger] recorded(origin, grown, i) by {
        if i < done.len() {
            assert(recorded(origin, done, i));
            assert(carried_out(grown).take(i) =~= carried_out(done).take(i));
        } else {
            assert(carried_out(grown).take(i) =~= carried_out(done));
        }
    }
}

/// Undoing the latest applied change with its stored reverse delta, and
/// queueing it as the nearest one to come, leaves the timeline as it was and
/// the logs coherent.
proof fn lemma_undo_latest<S, F, R, T>(
    origin: S,
    current: S,
    done: Seq<Timestamped<T, (F, R)>>,
    todo: Seq<Timestamped<T, F>>,
) where S: TimeMachineState<F, R>
    requires
        done.len() > 0,
        coherent_logs(origin, current, done),
    ensures
        ({
            let latest = done.last();
            let queued = todo.push(Timestamped(latest.0, latest.1.0));
            &&& timeline(done, todo)[done.len() - 1] == (latest.0, latest.1.0)
            &&& timeline(done.drop_last(), queued) == timeline(done, todo)
            &&& coherent_logs(origin, current.backward(latest.1.1), done.drop_last())
        }),
{
    let latest = done.last();
    let queued = todo.push(Timestamped(latest.0, latest.1.0));
    let shorter = done.drop_last();
    assert(timeline(shorter, queued) =~= timeline(done, todo));
    assert(carried_out(shorter).push((latest.0, latest.1.0)) =~= carried_out(done));
    assert(carried_out(done).take(done.len() - 1) =~= carried_out(shorter));
    lemma_replay_push(origin, carried_out(shorter), (latest.0, latest.1.0));
    assert(recorded(origin, done, done.len() - 1));
    replay(origin, carried_out(shorter)).round_trip(latest.1.0);
    assert forall|i: int| 0 <= i < shorter.len() implies #[trigger] recorded(origin, shorter, i) by {
        assert(recorded(origin, done, i));
        assert(carried_out(shorter).take(i) =~= carried_out(done).take(i));
    }
}

/// Dropping the oldest applied change, and taking the state it gave as the
/// new origin, leaves the logs coherent and shortens the timeline by its
/// first change.
proof fn lemma_drop_oldest<S, F, R, T>(
    origin: S,
    current: S,
    done: Seq<Timestamped<T, (F, R)>>,
    todo: Seq<Timestamped<T, F>>,
) where S: TimeMachineState<F, R>
    requires
        done.len() > 0,
        coherent_logs(origin, current, done),
    ensures
        timeline(done, todo)[0] == (done[0].0, done[0].1.0),
        timeline(done.subrange(1, done.len() as int), todo) == timeline(done, todo).skip(1),
        coherent_logs(origin.forward(done[0].1.0), current, done.subrange(1, done.len() as int)),
{
    let rest = done.subrange(1, done.len() as int);
    let first = (done[0].0, done[0].1.0);
    assert(timeline(rest, todo) =~= timeline(done, todo).skip(1));
    assert(seq![first] + carried_out(rest) =~= carried_out(done));
    lemma_replay_first(origin, first, carried_out(rest));
    assert forall|i: int| 0 <= i < rest.len() implies #[trigger] recorded(
        origin.forward(first.1),
        rest,
        i,
    ) by {
        assert(recorded(origin, done, i + 1));
        assert(seq![first] + carried_out(rest).take(i) =~= carried_out(done).take(i + 1));
        lemma_replay_first(origin, first, carried_out(rest).take(i));
    }
}

/// Queueing a change as the nearest one to come puts it into the timeline
/// right behind the applied changes.
proof fn lemma_queue_nearest<F, R, T>(
    done: Seq<Timestamped<T, (F, R)>>,
    todo: Seq<Timestamped<T, F>>,
    next: Timestamped<T, F>,
)
    ensures
        timeline(done, todo.push(next)) == timeline(done, todo).take(done.len() as int) + seq![
            (next.0, next.1),
        ] + timeline(done, todo).skip(done.len() as int),
{
    lemma_timeline_parts(done, todo);
    assert(upcoming(todo.push(next)) =~= seq![(next.0, next.1)] + upcoming(todo));
    assert(timeline(done, todo.push(next)) =~= carried_out(done) + seq![(next.0, next.1)]
        + upcoming(todo));
}

impl<S, F, R, T> View for TimeMachine<S, F, R, T> {
    type V = History<S, F, T>;

    closed spec fn view(&self) -> History<S, F, T> {
        History {
            origin: self.origin@,
            changes: timeline(self.reverse@, self.forward@),
            position: self.reverse@.len(),
            boundary: self.oldest,
        }
    }
}

impl<S, F, R, T> TimeMachine<S, F, R, T> where S: TimeMachineState<F, R>, T: PartialOrd + Copy {
    /// The current state is the origin with the applied changes replayed, and
    /// each applied change is stored with the reverse delta that it gave when
    /// it was applied.
    pub closed spec fn coherent(&self) -> bool {
        coherent_logs(self.origin@, self.current, self.reverse@)
    }

    /// The machine stands for a well-formed history, and its logs are
    /// coherent.
    pub open spec fn wf(&self) -> bool {
        &&& self@.wf()
        &&& self.coherent()
    }

    /// The state of a coherent machine is the current state of its history.
    proof fn lemma_current(&self)
        requires
            self.coherent(),
        ensures
            self.current == self@.current(),
    {
        lemma_timeline_parts(self.reverse@, self.forward@);
    }

    /// A machine in state `initial`, with no change recorded and no retention
    /// boundary.
    pub fn new(initial: S) -> (machine: Self)
        requires
            total_order::<T>(),
        ensures
            machine.wf(),
            machine@ == History::<S, F, T>::start(initial),
    {
        let machine = TimeMachine {
            origin: Ghost(initial),
            current: initial,
            reverse: VecDeque::new(),
            forward: Vec::new(),
            oldest: None,
        };
        proof {
            assert(machine@.changes =~= Seq::empty());
            assert(carried_out(machine.reverse@) =~= Seq::empty());
        }
        machine
    }

    /// Records `delta` as taking effect at `at`.
    ///
    /// The machine moves to `at` and holds the change as the nearest one to
    /// come: it is applied when the machine is next asked for `at` or later.
    /// Among changes with equal timestamps the one recorded last takes effect
    /// last. A timestamp before the retention boundary is refused, and the
    /// machine is left as it was.
    pub fn change(&mut self, delta: F, at: T) -> (outcome: Result<(), T>)
        requires
            old(self).wf(),
        ensures
            final(self).wf(),
            match outcome {
                Ok(_) => {
                    &&& !old(self)@.evicted(at)
                    &&& final(self)@ == old(self)@.insert(delta, at)
                },
                Err(error) => {
                    &&& old(self)@.evicted(at)
                    &&& error == Error::TimeEvicted(at, old(self)@.boundary.unwrap())
                    &&& *final(self) == *old(self)
                },
            },
    {
        self.check_oldest(at)?;
        let ghost start = self@;
        self.move_to(at);
        proof {
            start.lemma_insert_wf(delta, at);
            start.seek(at).lemma_insert_at_position(delta, at);
            lemma_queue_nearest(self.reverse@, self.forward@, Timestamped(at, delta));
        }
        self.forward.push(Timestamped(at, delta));
        Ok(())
    }

    /// The state as of `at`.
    ///
    /// The machine moves to `at`: it applies the changes to come up to `at` and
    /// undoes the applied ones later than `at`. A timestamp before the
    /// retention boundary is refused, and the machine is left as it was.
    pub fn value_at(&mut self, at: T) -> (outcome: Result<&S, T>)
        requires
            old(self).wf(),
        ensures
            final(self).wf(),
            match outcome {
                Ok(state) => {
                    &&& !old(self)@.evicted(at)
                    &&& *state == old(self)@.state_at(at)
                    &&& *state == final(self)@.current()
                    &&& final(self)@ == old(self)@.seek(at)
                },
                Err(error) => {
                    &&& old(self)@.evicted(at)
                    &&& error == Error::TimeEvicted(at, old(self)@.boundary.unwrap())
                    &&& *final(self) == *old(self)
                },
            },
    {
        self.check_oldest(at)?;
        let ghost start = self@;
        self.move_to(at);
        proof {
            self.lemma_current();
            start.lemma_upto_is_a_prefix(at);
        }
        Ok(&self.current)
    }

    /// Gives up the history before `until`.
    ///
    /// The changes to come up to `until` are applied, then every applied
    /// change earlier than `until` is dropped for good; one at `until` itself
    /// is kept. The retention boundary becomes `until`, unless it was later
    /// already: it is never lowered.
    pub fn forget_ancient_history(&mut self, until: T)
        requires
            old(self).wf(),
        ensures
            final(self).wf(),
            final(self)@ == old(self)@.forget(until),
    {
        let ghost start = self@;
        self.move_forward_to(until);
        let ghost moved = self@;
        let ghost mut dropped: int = 0;
        proof {
            start.lemma_advance_then_retreat(until);
            assert(moved.changes.take(0) =~= Seq::empty());
            assert(moved.changes.skip(0) =~= moved.changes);
        }
        loop
            invariant
                moved.wf(),
                self.coherent(),
                0 <= dropped <= moved.position,
                self.origin@ == replay(moved.origin, moved.changes.take(dropped)),
                timeline(self.reverse@, self.forward@) == moved.changes.skip(dropped),
                self.reverse@.len() == moved.position - dropped,
                self.oldest == moved.boundary,
                forall|i: int| 0 <= i < dropped ==> !le(until, (#[trigger] moved.changes[i]).0),
                forall|i: int|
                    moved.position <= i < moved.changes.len() ==> le(
                        until,
                        (#[trigger] moved.changes[i]).0,
                    ),
            ensures
                forall|i: int|
                    dropped <= i < moved.changes.len() ==> le(
                        until,
                        (#[trigger] moved.changes[i]).0,
                    ),
            decreases self.reverse@.len(),
        {
            let ghost done = self.reverse@;
            match self.reverse.pop_front() {
                Some(Timestamped(time, delta)) => {
                    proof {
                        lemma_operators(time, until);
                        lemma_drop_oldest(self.origin@, self.current, done, self.forward@);
                        assert(moved.changes[dropped] == (time, delta.0));
                    }
                    if time >= until {
                        self.reverse.push_front(Timestamped(time, delta));
                        proof {
                            assert(self.reverse@ =~= done);
                            assert forall|i: int| dropped <= i < moved.changes.len() implies le(
                                until,
                                (#[trigger] moved.changes[i]).0,
                            ) by {
                                lemma_le_transitive(until, time, moved.changes[i].0);
                            }
                        }
                        break ;
                    } else {
                        proof {
                            lemma_replay_push(
                                moved.origin,
                                moved.changes.take(dropped),
                                (time, delta.0),
                            );
                            assert(moved.changes.take(dropped).push((time, delta.0))
                                =~= moved.changes.take(dropped + 1));
                            assert(moved.changes.skip(dropped).skip(1) =~= moved.changes.skip(
                                dropped + 1,
                            ));
                            dropped = dropped + 1;
                        }
                        self.origin = Ghost(self.origin@.forward(delta.0));
                    }
                },
                None => {
                    break ;
                },
            }
        }
        let later = match self.oldest {
            Some(oldest) => {
                proof {
                    lemma_operators(oldest, until);
                }
                oldest > until
            },
            None => false,
        };
        if !later {
            self.oldest = Some(until);
        }
        proof {
            start.lemma_forget_drops(until, dropped);
        }
    }

    fn check_oldest(&self, at: T) -> (outcome: Result<(), T>)
        requires
            total_order::<T>(),
        ensures
            match outcome {
                Ok(_) => !self@.evicted(at),
                Err(error) => self@.evicted(at) && error == Error::TimeEvicted(
                    at,
                    self@.boundary.unwrap(),
                ),
            },
    {
        match self.oldest {
            Some(i) => {
                proof {
                    lemma_operators(i, at);
                }
                if i > at {
                    Err(Error::TimeEvicted(at, i))
                } else {
                    Ok(())
                }
            },
            None => Ok(()),
        }
    }

    fn move_to(&mut self, at: T)
        requires
            old(self).wf(),
        ensures
            final(self).wf(),
            final(self)@ == old(self)@.seek(at),
    {
        proof {
            self@.lemma_advance_then_retreat(at);
        }
        self.move_forward_to(at);
        self.move_backward_to(at);
    }

    fn move_backward_to(&mut self, at: T)
        requires
            old(self).wf(),
        ensures
            final(self).wf(),
            final(self)@ == old(self)@.retreat(at),
    {
        let ghost start = self@;
        loop
            invariant
                start.wf(),
                self.coherent(),
                self.origin@ == start.origin,
                self.oldest == start.boundary,
                timeline(self.reverse@, self.forward@) == start.changes,
                self.reverse@.len() <= start.position,
                forall|i: int|
                    self.reverse@.len() <= i < start.position ==> !le(
                        (#[trigger] start.changes[i]).0,
                        at,
                    ),
            ensures
                forall|i: int|
                    0 <= i < self.reverse@.len() ==> le((#[trigger] start.changes[i]).0, at),
            decreases self.reverse@.len(),
        {
            let ghost done = self.reverse@;
            let ghost todo = self.forward@;
            match self.reverse.pop_back() {
                Some(Timestamped(time, (delta_f, delta_r))) => {
                    proof {
                        lemma_operators(time, at);
                        lemma_undo_latest(self.origin@, self.current, done, todo);
                    }
                    if time <= at {
                        self.reverse.push_back(Timestamped(time, (delta_f, delta_r)));
                        proof {
                            assert(self.reverse@ =~= done);
                            assert forall|i: int| 0 <= i < done.len() implies le(
                                (#[trigger] start.changes[i]).0,
                                at,
                            ) by {
                                lemma_le_transitive(start.changes[i].0, time, at);
                            }
                        }
                        break ;
                    } else {
                        self.current.apply_reverse(&delta_r);
                        self.forward.push(Timestamped(time, delta_f));
                    }
                },
                None => {
                    break ;
                },
            }
        }
        proof {
            start.lemma_retreat_stops(at, self.reverse@.len() as int);
        }
    }

    fn move_forward_to(&mut self, at: T)
        requires
            old(self).wf(),
        ensures
            final(self).wf(),
            final(self)@ == old(self)@.advance(at),
    {
        let ghost start = self@;
        proof {
            lemma_timeline_parts(self.reverse@, self.forward@);
        }
        loop
            invariant
                start.wf(),
                self.coherent(),
                self.origin@ == start.origin,
                self.oldest == start.boundary,
                timeline(self.reverse@, self.forward@) == start.changes,
                start.position <= self.reverse@.len() <= start.changes.len(),
                forall|i: int|
                    start.position <= i < self.reverse@.len() ==> le(
                        (#[trigger] start.changes[i]).0,
                        at,
                    ),
            ensures
                forall|i: int|
                    self.reverse@.len() <= i < start.changes.len() ==> !le(
                        (#[trigger] start.changes[i]).0,
                        at,
                    ),
            decreases self.forward@.len(),
        {
            let ghost done = self.reverse@;
            let ghost todo = self.forward@;
            match self.forward.pop() {
                Some(Timestamped(time, delta)) => {
                    proof {
                        lemma_operators(time, at);
                        lemma_apply_nearest(self.origin@, self.current, done, todo);
                        lemma_timeline_parts(done, todo);
                    }
                    if time > at {
                        self.forward.push(Timestamped(time, delta));
                        proof {
                            assert(self.forward@ =~= todo);
                            assert forall|i: int| done.len() <= i < start.changes.len() implies !le(
                                (#[trigger] start.changes[i]).0,
                                at,
                            ) by {
                                if le(start.changes[i].0, at) {
                                    lemma_le_transitive(time, start.changes[i].0, at);
                                }
                            }
                        }
                        break ;
                    } else {
                        let new_delta = self.current.apply_forward(&delta);
                        self.reverse.push_back(Timestamped(time, (delta, new_delta)));
                    }
                },
                None => {
                    proof {
                        lemma_timeline_parts(done, todo);
                    }
                    break ;
                },
            }
        }
        proof {
            start.lemma_advance_stops(at, self.reverse@.len() as int);
        }
    }
}

} // verus!
