//! A counter that moves between two bounds, one step at a time.

use puzzle::{advance, check, solve, Puzzle};

#[derive(Clone, Copy, Debug, PartialEq, Eq, Hash)]
enum Turn {
    Inc,
    Dec,
}

/// A counter in `0..=5`; a move past a bound leaves it where it is.
#[derive(Clone, Debug, PartialEq, Eq, Hash)]
struct Counter {
    value: u8,
    target: u8,
}

impl Counter {
    fn at(value: u8) -> Counter {
        Counter { value, target: 5 }
    }
}

impl Puzzle for Counter {
    type Move = Turn;

    fn is_goal(&self) -> bool {
        self.value == self.target
    }

    fn next(&self) -> Vec<(Turn, Counter)> {
        let up = if self.value < 5 { self.value + 1 } else { self.value };
        let down = if self.value > 0 { self.value - 1 } else { self.value };
        vec![
            (Turn::Inc, Counter { value: up, target: self.target }),
            (Turn::Dec, Counter { value: down, target: self.target }),
        ]
    }
}

#[test]
fn counter_is_solved_by_five_increments() {
    let (ms, end) = solve(Counter::at(0)).expect("a solution exists");
    assert_eq!(ms, vec![Turn::Inc, Turn::Inc, Turn::Inc, Turn::Inc, Turn::Inc]);
    assert_eq!(end, Counter::at(5));
}

#[test]
fn counter_check_accepts_five_increments() {
    let ms = vec![Turn::Inc, Turn::Inc, Turn::Inc, Turn::Inc, Turn::Inc];
    assert_eq!(check(Counter::at(0), &ms), Some(Counter::at(5)));
}

#[test]
fn counter_check_rejects_single_decrement() {
    assert_eq!(check(Counter::at(0), &[Turn::Dec]), None);
}

#[test]
fn counter_with_target_out_of_bounds_has_no_solution() {
    assert_eq!(solve(Counter { value: 0, target: 99 }), None);
}

#[test]
fn solved_start_needs_no_moves() {
    let (ms, end) = solve(Counter::at(5)).expect("the start is solved");
    assert!(ms.is_empty());
    assert_eq!(end, Counter::at(5));
}

#[test]
fn check_of_no_moves_tests_the_start() {
    assert_eq!(check(Counter::at(5), &[]), Some(Counter::at(5)));
    assert_eq!(check(Counter::at(4), &[]), None);
}

#[test]
fn check_rejects_legal_moves_short_of_the_goal() {
    assert_eq!(check(Counter::at(0), &[Turn::Inc, Turn::Inc]), None);
}

#[test]
fn solution_passes_check() {
    for start in 0..=5u8 {
        let (ms, end) = solve(Counter::at(start)).expect("a solution exists");
        assert_eq!(ms.len(), usize::from(5 - start));
        assert_eq!(check(Counter::at(start), &ms), Some(end));
    }
}

#[test]
fn advance_takes_one_step() {
    assert_eq!(advance(&Counter::at(2), &Turn::Inc), Some(Counter::at(3)));
    assert_eq!(advance(&Counter::at(2), &Turn::Dec), Some(Counter::at(1)));
    assert_eq!(advance(&Counter::at(0), &Turn::Dec), Some(Counter::at(0)));
}

fn sequences(len: usize) -> Vec<Vec<Turn>> {
    let mut all: Vec<Vec<Turn>> = vec![Vec::new()];
    for _ in 0..len {
        let mut longer = Vec::new();
        for ms in &all {
            for turn in [Turn::Inc, Turn::Dec] {
                let mut next = ms.clone();
                next.push(turn);
                longer.push(next);
            }
        }
        all = longer;
    }
    all
}

#[test]
fn nothing_shorter_than_the_solution_is_accepted() {
    let (ms, _) = solve(Counter::at(0)).expect("a solution exists");
    for len in 0..ms.len() {
        for shorter in sequences(len) {
            assert_eq!(check(Counter::at(0), &shorter), None);
        }
    }
}

#[test]
fn exactly_one_sequence_of_minimal_length_is_accepted() {
    let accepted: Vec<Vec<Turn>> = sequences(5)
        .into_iter()
        .filter(|ms| check(Counter::at(0), ms).is_some())
        .collect();
    assert_eq!(accepted, vec![vec![Turn::Inc; 5]]);
}

#[test]
fn longer_detours_are_accepted_by_check() {
    let ms = [Turn::Dec, Turn::Inc, Turn::Inc, Turn::Dec, Turn::Inc, Turn::Inc, Turn::Inc, Turn::Inc];
    assert_eq!(check(Counter::at(0), &ms), Some(Counter::at(5)));
}

/// A counter in `0..=5` that offers no move past a bound.
#[derive(Clone, Debug, PartialEq, Eq, Hash)]
struct Fenced(u8);

impl Puzzle for Fenced {
    type Move = Turn;

    fn is_goal(&self) -> bool {
        self.0 == 5
    }

    fn next(&self) -> Vec<(Turn, Fenced)> {
        let mut out = Vec::new();
        if self.0 < 5 {
            out.push((Turn::Inc, Fenced(self.0 + 1)));
        }
        if self.0 > 0 {
            out.push((Turn::Dec, Fenced(self.0 - 1)));
        }
        out
    }
}

#[test]
fn fenced_counter_is_solved_by_five_increments() {
    assert_eq!(solve(Fenced(0)), Some((vec![Turn::Inc; 5], Fenced(5))));
    assert_eq!(solve(Fenced(3)), Some((vec![Turn::Inc; 2], Fenced(5))));
}

#[test]
fn a_move_that_is_not_offered_is_rejected_whatever_follows() {
    assert_eq!(advance(&Fenced(0), &Turn::Dec), None);
    assert_eq!(check(Fenced(0), &[Turn::Dec]), None);
    let mut ms = vec![Turn::Dec];
    ms.extend(vec![Turn::Inc; 5]);
    assert_eq!(check(Fenced(0), &ms), None);
    assert_eq!(check(Fenced(0), &ms[1..]), Some(Fenced(5)));
    let mut past = vec![Turn::Inc; 6];
    assert_eq!(check(Fenced(0), &past), None);
    past.push(Turn::Dec);
    assert_eq!(check(Fenced(0), &past), None);
}
