//! Searches over small graphs written out as edge lists.

use puzzle::{advance, check, solve, Puzzle};

/// A node of a graph given by its edges `(from, label, to)`, in the order in
/// which a node enumerates them.
#[derive(Clone, Debug, PartialEq, Eq, Hash)]
struct Node {
    id: u32,
    edges: &'static [(u32, char, u32)],
    goals: &'static [u32],
}

impl Puzzle for Node {
    type Move = char;

    fn is_goal(&self) -> bool {
        self.goals.contains(&self.id)
    }

    fn next(&self) -> Vec<(char, Node)> {
        self.edges
            .iter()
            .filter(|(from, _, _)| *from == self.id)
            .map(|(_, label, to)| (*label, Node { id: *to, edges: self.edges, goals: self.goals }))
            .collect()
    }
}

fn node(id: u32, edges: &'static [(u32, char, u32)], goals: &'static [u32]) -> Node {
    Node { id, edges, goals }
}

const DIAMOND: &[(u32, char, u32)] = &[(0, 'a', 1), (0, 'b', 2), (1, 'c', 3), (2, 'd', 3)];

const DIAMOND_SWAPPED: &[(u32, char, u32)] = &[(0, 'b', 2), (0, 'a', 1), (1, 'c', 3), (2, 'd', 3)];

#[test]
fn ties_go_to_the_transition_enumerated_first() {
    let (ms, end) = solve(node(0, DIAMOND, &[3])).expect("a solution exists");
    assert_eq!(ms, vec!['a', 'c']);
    assert_eq!(end.id, 3);
    let (ms, end) = solve(node(0, DIAMOND_SWAPPED, &[3])).expect("a solution exists");
    assert_eq!(ms, vec!['b', 'd']);
    assert_eq!(end.id, 3);
}

#[test]
fn of_two_goals_at_one_depth_the_first_met_is_returned() {
    let (ms, end) = solve(node(0, DIAMOND, &[1, 2])).expect("a solution exists");
    assert_eq!(ms, vec!['a']);
    assert_eq!(end.id, 1);
    let (ms, end) = solve(node(0, DIAMOND_SWAPPED, &[1, 2])).expect("a solution exists");
    assert_eq!(ms, vec!['b']);
    assert_eq!(end.id, 2);
}

#[test]
fn a_later_branch_wins_when_it_is_shorter() {
    const EDGES: &[(u32, char, u32)] =
        &[(0, 'a', 1), (0, 'b', 2), (1, 'c', 3), (3, 'e', 9), (2, 'd', 9)];
    let (ms, end) = solve(node(0, EDGES, &[9])).expect("a solution exists");
    assert_eq!(ms, vec!['b', 'd']);
    assert_eq!(end.id, 9);
}

#[test]
fn a_state_met_twice_keeps_its_first_entry() {
    const EDGES: &[(u32, char, u32)] = &[(0, 'x', 1), (0, 'y', 1), (1, 'z', 2)];
    let (ms, end) = solve(node(0, EDGES, &[2])).expect("a solution exists");
    assert_eq!(ms, vec!['x', 'z']);
    assert_eq!(end.id, 2);
}

#[test]
fn cycles_and_dead_ends_without_goal_give_none() {
    const EDGES: &[(u32, char, u32)] = &[(0, 'a', 0), (0, 'b', 1), (1, 'c', 2), (2, 'd', 0)];
    assert_eq!(solve(node(0, EDGES, &[7])), None);
    assert_eq!(solve(node(0, &[], &[7])), None);
}

#[test]
fn a_goal_behind_a_cycle_is_found() {
    const EDGES: &[(u32, char, u32)] =
        &[(0, 'a', 1), (1, 'b', 0), (1, 'c', 2), (2, 'd', 1), (2, 'e', 3)];
    let (ms, end) = solve(node(0, EDGES, &[3])).expect("a solution exists");
    assert_eq!(ms, vec!['a', 'c', 'e']);
    assert_eq!(end.id, 3);
    assert_eq!(check(node(0, EDGES, &[3]), &ms), Some(end));
}

#[test]
fn check_stops_at_the_first_move_that_cannot_be_played() {
    assert_eq!(check(node(0, DIAMOND, &[3]), &['c']), None);
    assert_eq!(check(node(0, DIAMOND, &[3]), &['c', 'a', 'c']), None);
    assert_eq!(check(node(0, DIAMOND, &[3]), &['a', 'd']), None);
    assert_eq!(check(node(0, DIAMOND, &[3]), &['a', 'c', 'a']), None);
    assert_eq!(check(node(0, DIAMOND, &[3]), &['b', 'd']).map(|n| n.id), Some(3));
}

#[test]
fn check_plays_a_move_by_the_first_transition_that_carries_it() {
    const EDGES: &[(u32, char, u32)] = &[(0, 'a', 1), (0, 'a', 2)];
    assert_eq!(advance(&node(0, EDGES, &[2]), &'a').map(|n| n.id), Some(1));
    assert_eq!(advance(&node(0, EDGES, &[2]), &'b'), None);
    let (ms, end) = solve(node(0, EDGES, &[2])).expect("a solution exists");
    assert_eq!(ms, vec!['a']);
    assert_eq!(end.id, 2);
    assert_eq!(check(node(0, EDGES, &[2]), &ms), None);
    assert_eq!(check(node(0, EDGES, &[1]), &ms).map(|n| n.id), Some(1));
}

/// A position on an endless line; the goal lies at 7.
#[derive(Clone, Debug, PartialEq, Eq, Hash)]
struct Position(i64);

impl Puzzle for Position {
    type Move = i8;

    fn is_goal(&self) -> bool {
        self.0 == 7
    }

    fn next(&self) -> Vec<(i8, Position)> {
        vec![(-1, Position(self.0 - 1)), (1, Position(self.0 + 1))]
    }
}

#[test]
fn a_goal_in_an_endless_space_is_found() {
    let (ms, end) = solve(Position(0)).expect("a solution exists");
    assert_eq!(ms, vec![1i8; 7]);
    assert_eq!(end, Position(7));
    let (ms, end) = solve(Position(10)).expect("a solution exists");
    assert_eq!(ms, vec![-1i8; 3]);
    assert_eq!(end, Position(7));
}
