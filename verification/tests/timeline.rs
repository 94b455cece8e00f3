use std::cell::Cell;
use std::fmt::Debug;
use std::rc::Rc;
use time_machine::{Error, TimeMachine, TimeMachineState};

/// A state that lists the changes applied to it, in the order of application.
#[derive(Debug, Clone, PartialEq)]
struct Journal(Vec<u32>);

struct Append(u32);

struct Retract;

impl TimeMachineState<Append, Retract> for Journal {
    fn forward(mut self, delta: Append) -> Self {
        self.0.push(delta.0);
        self
    }

    fn reversal(self, _delta: Append) -> Retract {
        Retract
    }

    fn backward(mut self, _delta: Retract) -> Self {
        self.0.pop();
        self
    }

    fn round_trip(self, _delta: Append) {}

    fn apply_forward(&mut self, delta: &Append) -> Retract {
        self.0.push(delta.0);
        Retract
    }

    fn apply_reverse(&mut self, _delta: &Retract) {
        self.0.pop();
    }
}

type JournalMachine<T> = TimeMachine<Journal, Append, Retract, T>;

fn read<T: PartialOrd + Copy + Debug>(machine: &mut JournalMachine<T>, at: T) -> Vec<u32> {
    machine.value_at(at).unwrap().0.clone()
}

/// A number that counts how often it was changed in either direction.
struct Tally {
    value: i64,
    forwards: Rc<Cell<u32>>,
    reverses: Rc<Cell<u32>>,
}

impl TimeMachineState<i64, i64> for Tally {
    fn forward(mut self, delta: i64) -> Self {
        self.value += delta;
        self
    }

    fn reversal(self, delta: i64) -> i64 {
        -delta
    }

    fn backward(mut self, delta: i64) -> Self {
        self.value += delta;
        self
    }

    fn round_trip(self, _delta: i64) {}

    fn apply_forward(&mut self, delta: &i64) -> i64 {
        self.value += *delta;
        self.forwards.set(self.forwards.get() + 1);
        -*delta
    }

    fn apply_reverse(&mut self, delta: &i64) {
        self.value += *delta;
        self.reverses.set(self.reverses.get() + 1);
    }
}

fn tally(value: i64) -> (TimeMachine<Tally, i64, i64, u32>, Rc<Cell<u32>>, Rc<Cell<u32>>) {
    let forwards = Rc::new(Cell::new(0));
    let reverses = Rc::new(Cell::new(0));
    let state = Tally { value, forwards: forwards.clone(), reverses: reverses.clone() };
    (TimeMachine::new(state), forwards, reverses)
}

fn busy_machine() -> JournalMachine<u32> {
    let mut m = JournalMachine::new(Journal(vec![]));
    m.change(Append(10), 10).unwrap();
    m.change(Append(30), 30).unwrap();
    m.change(Append(20), 20).unwrap();
    m.change(Append(40), 40).unwrap();
    m
}

#[test]
fn new_machine_answers_with_the_initial_state() {
    let mut m = JournalMachine::new(Journal(vec![7]));
    assert_eq!(read(&mut m, 0), vec![7]);
    assert_eq!(read(&mut m, u32::MAX), vec![7]);
    assert_eq!(read(&mut m, 5), vec![7]);
}

#[test]
fn a_change_can_be_read_and_rewound() {
    let (mut m, _, _) = tally(5);
    m.change(3, 1).unwrap();
    assert_eq!(m.value_at(1).unwrap().value, 8);
    assert_eq!(m.value_at(0).unwrap().value, 5);
    assert_eq!(m.value_at(1).unwrap().value, 8);
}

#[test]
fn reading_twice_gives_the_same_answer() {
    let mut m = busy_machine();
    for at in [0, 10, 15, 20, 35, 40, 99] {
        let first = read(&mut m, at);
        let second = read(&mut m, at);
        assert_eq!(first, second);
    }
}

#[test]
fn reading_elsewhere_in_between_changes_no_answer() {
    let mut m = busy_machine();
    let before = read(&mut m, 20);
    read(&mut m, 99);
    read(&mut m, 0);
    read(&mut m, 30);
    assert_eq!(read(&mut m, 20), before);
    assert_eq!(before, vec![10, 20]);
}

#[test]
fn a_detour_leads_back_to_the_same_state() {
    for (t1, t2) in [(20, 40), (20, 0), (0, 99), (35, 10), (10, 10)] {
        let mut wandering = busy_machine();
        read(&mut wandering, t1);
        read(&mut wandering, t2);
        let back = read(&mut wandering, t1);
        let mut fresh = busy_machine();
        assert_eq!(back, read(&mut fresh, t1));
    }
}

#[test]
fn undoing_a_change_restores_the_state() {
    let mut state = Journal(vec![1, 2]);
    let reverse = state.apply_forward(&Append(3));
    assert_eq!(state, Journal(vec![1, 2, 3]));
    state.apply_reverse(&reverse);
    assert_eq!(state, Journal(vec![1, 2]));
}

#[test]
fn changes_are_answered_in_timestamp_order() {
    let mut m = busy_machine();
    assert_eq!(read(&mut m, 9), Vec::<u32>::new());
    assert_eq!(read(&mut m, 10), vec![10]);
    assert_eq!(read(&mut m, 29), vec![10, 20]);
    assert_eq!(read(&mut m, 30), vec![10, 20, 30]);
    assert_eq!(read(&mut m, 40), vec![10, 20, 30, 40]);
}

#[test]
fn a_change_in_the_past_is_merged_in_order() {
    let mut m = busy_machine();
    assert_eq!(read(&mut m, 99), vec![10, 20, 30, 40]);
    m.change(Append(25), 25).unwrap();
    assert_eq!(read(&mut m, 99), vec![10, 20, 25, 30, 40]);
    assert_eq!(read(&mut m, 25), vec![10, 20, 25]);
    assert_eq!(read(&mut m, 24), vec![10, 20]);
    m.change(Append(5), 5).unwrap();
    assert_eq!(read(&mut m, 99), vec![5, 10, 20, 25, 30, 40]);
    assert_eq!(read(&mut m, 7), vec![5]);
}

#[test]
fn changes_at_one_timestamp_take_effect_in_the_order_recorded() {
    let mut m = JournalMachine::new(Journal(vec![]));
    m.change(Append(1), 5).unwrap();
    m.change(Append(2), 5).unwrap();
    m.change(Append(3), 5).unwrap();
    assert_eq!(read(&mut m, 5), vec![1, 2, 3]);
    assert_eq!(read(&mut m, 4), Vec::<u32>::new());
    assert_eq!(read(&mut m, 5), vec![1, 2, 3]);
    m.change(Append(4), 5).unwrap();
    m.change(Append(0), 4).unwrap();
    assert_eq!(read(&mut m, 6), vec![0, 1, 2, 3, 4]);
}

#[test]
fn a_change_is_applied_only_when_it_is_asked_for() {
    let (mut m, forwards, reverses) = tally(5);
    m.change(3, 1).unwrap();
    m.change(4, 2).unwrap();
    assert_eq!((forwards.get(), reverses.get()), (1, 0));
    assert_eq!(m.value_at(2).unwrap().value, 12);
    assert_eq!((forwards.get(), reverses.get()), (2, 0));
}

#[test]
fn a_move_touches_only_the_changes_it_crosses() {
    let (mut m, forwards, reverses) = tally(0);
    for at in 1..=10 {
        m.change(1, at).unwrap();
    }
    assert_eq!(m.value_at(10).unwrap().value, 10);
    assert_eq!((forwards.get(), reverses.get()), (10, 0));
    assert_eq!(m.value_at(10).unwrap().value, 10);
    assert_eq!((forwards.get(), reverses.get()), (10, 0));
    assert_eq!(m.value_at(7).unwrap().value, 7);
    assert_eq!((forwards.get(), reverses.get()), (10, 3));
    assert_eq!(m.value_at(9).unwrap().value, 9);
    assert_eq!((forwards.get(), reverses.get()), (12, 3));
    assert_eq!(m.value_at(1_000_000).unwrap().value, 10);
    assert_eq!((forwards.get(), reverses.get()), (13, 3));
}

#[test]
fn redo_applies_the_recorded_change() {
    let (mut m, _, _) = tally(100);
    m.change(-30, 1).unwrap();
    m.change(7, 2).unwrap();
    assert_eq!(m.value_at(2).unwrap().value, 77);
    assert_eq!(m.value_at(0).unwrap().value, 100);
    assert_eq!(m.value_at(1).unwrap().value, 70);
    assert_eq!(m.value_at(2).unwrap().value, 77);
}

#[test]
fn forgetting_refuses_what_lies_before_the_boundary() {
    let mut m = busy_machine();
    m.forget_ancient_history(20);
    assert_eq!(m.value_at(19).err(), Some(Error::TimeEvicted(19, 20)));
    assert_eq!(m.value_at(0).err(), Some(Error::TimeEvicted(0, 20)));
    assert_eq!(m.change(Append(1), 19).err(), Some(Error::TimeEvicted(19, 20)));
    assert_eq!(m.change(Append(1), 0).err(), Some(Error::TimeEvicted(0, 20)));
}

#[test]
fn forgetting_keeps_the_answers_from_the_boundary_on() {
    let mut m = busy_machine();
    let mut before = Vec::new();
    for at in [20, 21, 30, 39, 40, 99] {
        before.push(read(&mut m, at));
    }
    m.forget_ancient_history(20);
    let mut after = Vec::new();
    for at in [20, 21, 30, 39, 40, 99] {
        after.push(read(&mut m, at));
    }
    assert_eq!(before, after);
    assert_eq!(after[0], vec![10, 20]);
    assert_eq!(after[5], vec![10, 20, 30, 40]);
}

#[test]
fn a_change_at_the_boundary_is_kept_and_can_be_undone() {
    let (mut m, forwards, reverses) = tally(0);
    m.change(1, 1).unwrap();
    m.change(10, 2).unwrap();
    m.change(100, 3).unwrap();
    assert_eq!(m.value_at(3).unwrap().value, 111);
    m.forget_ancient_history(2);
    assert_eq!((forwards.get(), reverses.get()), (3, 0));
    assert_eq!(m.value_at(2).unwrap().value, 11);
    assert_eq!((forwards.get(), reverses.get()), (3, 1));
    m.change(1000, 2).unwrap();
    assert_eq!(m.value_at(2).unwrap().value, 1011);
    assert_eq!(m.value_at(3).unwrap().value, 1111);
}

#[test]
fn forgetting_applies_what_was_still_to_come() {
    let (mut m, forwards, reverses) = tally(0);
    m.change(1, 1).unwrap();
    m.change(10, 2).unwrap();
    m.change(100, 3).unwrap();
    assert_eq!(m.value_at(0).unwrap().value, 0);
    assert_eq!((forwards.get(), reverses.get()), (2, 2));
    m.forget_ancient_history(2);
    assert_eq!((forwards.get(), reverses.get()), (4, 2));
    assert_eq!(m.value_at(2).unwrap().value, 11);
    assert_eq!((forwards.get(), reverses.get()), (4, 2));
    assert_eq!(m.value_at(3).unwrap().value, 111);
}

#[test]
fn forgetting_does_not_undo_what_lies_ahead_of_it() {
    let (mut m, forwards, reverses) = tally(0);
    m.change(1, 1).unwrap();
    m.change(10, 2).unwrap();
    m.change(100, 3).unwrap();
    assert_eq!(m.value_at(3).unwrap().value, 111);
    m.forget_ancient_history(2);
    assert_eq!((forwards.get(), reverses.get()), (3, 0));
    assert_eq!(m.value_at(3).unwrap().value, 111);
    assert_eq!((forwards.get(), reverses.get()), (3, 0));
}

#[test]
fn the_boundary_is_never_lowered() {
    let mut m = busy_machine();
    m.forget_ancient_history(30);
    m.forget_ancient_history(10);
    assert_eq!(m.value_at(20).err(), Some(Error::TimeEvicted(20, 30)));
    assert_eq!(m.value_at(5).err(), Some(Error::TimeEvicted(5, 30)));
    assert_eq!(read(&mut m, 30), vec![10, 20, 30]);
    m.forget_ancient_history(30);
    assert_eq!(m.value_at(29).err(), Some(Error::TimeEvicted(29, 30)));
    assert_eq!(read(&mut m, 30), vec![10, 20, 30]);
}

#[test]
fn the_boundary_can_be_raised_again() {
    let mut m = busy_machine();
    m.forget_ancient_history(15);
    assert_eq!(read(&mut m, 15), vec![10]);
    m.forget_ancient_history(35);
    assert_eq!(m.value_at(15).err(), Some(Error::TimeEvicted(15, 35)));
    assert_eq!(m.value_at(34).err(), Some(Error::TimeEvicted(34, 35)));
    assert_eq!(read(&mut m, 35), vec![10, 20, 30]);
    assert_eq!(read(&mut m, 40), vec![10, 20, 30, 40]);
}

#[test]
fn forgetting_past_the_last_change_keeps_the_final_state() {
    let mut m = busy_machine();
    m.forget_ancient_history(1000);
    assert_eq!(read(&mut m, 1000), vec![10, 20, 30, 40]);
    assert_eq!(m.value_at(999).err(), Some(Error::TimeEvicted(999, 1000)));
    m.change(Append(50), 1000).unwrap();
    assert_eq!(read(&mut m, 1000), vec![10, 20, 30, 40, 50]);
}

#[test]
fn forgetting_on_an_empty_machine_sets_the_boundary() {
    let mut m = JournalMachine::new(Journal(vec![1]));
    m.forget_ancient_history(3);
    assert_eq!(m.value_at(2).err(), Some(Error::TimeEvicted(2, 3)));
    assert_eq!(read(&mut m, 3), vec![1]);
}

#[test]
fn a_refused_call_leaves_the_machine_as_it_was() {
    let (mut m, forwards, reverses) = tally(0);
    m.change(1, 1).unwrap();
    m.change(10, 5).unwrap();
    m.change(100, 9).unwrap();
    m.forget_ancient_history(5);
    assert_eq!(m.value_at(9).unwrap().value, 111);
    let counts = (forwards.get(), reverses.get());
    assert_eq!(m.value_at(4).err(), Some(Error::TimeEvicted(4, 5)));
    assert_eq!(m.change(1000, 4).err(), Some(Error::TimeEvicted(4, 5)));
    assert_eq!((forwards.get(), reverses.get()), counts);
    assert_eq!(m.value_at(9).unwrap().value, 111);
    assert_eq!((forwards.get(), reverses.get()), counts);
    assert_eq!(m.value_at(5).unwrap().value, 11);
}

#[test]
fn a_change_after_forgetting_is_merged_as_before() {
    let mut forgetful = busy_machine();
    forgetful.forget_ancient_history(20);
    forgetful.change(Append(25), 25).unwrap();
    forgetful.change(Append(21), 20).unwrap();
    let mut whole = busy_machine();
    whole.change(Append(25), 25).unwrap();
    whole.change(Append(21), 20).unwrap();
    for at in [20, 24, 25, 30, 40] {
        assert_eq!(read(&mut forgetful, at), read(&mut whole, at));
    }
    assert_eq!(read(&mut forgetful, 40), vec![10, 20, 21, 25, 30, 40]);
}

#[test]
fn timestamps_need_only_be_ordered() {
    let mut by_pair: JournalMachine<(i8, char)> = TimeMachine::new(Journal(vec![]));
    by_pair.change(Append(2), (0, 'b')).unwrap();
    by_pair.change(Append(3), (1, 'a')).unwrap();
    by_pair.change(Append(1), (-1, 'z')).unwrap();
    assert_eq!(read(&mut by_pair, (0, 'a')), vec![1]);
    assert_eq!(read(&mut by_pair, (0, 'b')), vec![1, 2]);
    assert_eq!(read(&mut by_pair, (1, 'a')), vec![1, 2, 3]);
    by_pair.forget_ancient_history((0, 'b'));
    assert_eq!(
        by_pair.value_at((0, 'a')).err(),
        Some(Error::TimeEvicted((0, 'a'), (0, 'b')))
    );

    let mut by_name: JournalMachine<&str> = TimeMachine::new(Journal(vec![]));
    by_name.change(Append(2), "march").unwrap();
    by_name.change(Append(1), "april").unwrap();
    assert_eq!(read(&mut by_name, "june"), vec![1]);
    assert_eq!(read(&mut by_name, "may"), vec![1, 2]);
}
