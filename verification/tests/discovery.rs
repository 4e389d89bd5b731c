//! Walking discovery maps written out by hand.

use puzzle::{backtrack, Puzzle};
use std::collections::HashMap;

/// A state that is only ever looked up, never expanded.
#[derive(Clone, Debug, PartialEq, Eq, Hash)]
struct Tag(u8);

impl Puzzle for Tag {
    type Move = char;

    fn is_goal(&self) -> bool {
        false
    }

    fn next(&self) -> Vec<(char, Tag)> {
        Vec::new()
    }
}

fn entries(list: &[(u8, Option<(u8, char)>)]) -> HashMap<Tag, Option<(Tag, char)>> {
    let mut map = HashMap::new();
    for (state, entry) in list {
        map.insert(Tag(*state), entry.map(|(from, by)| (Tag(from), by)));
    }
    map
}

#[test]
fn backtrack_lists_moves_from_the_start_to_the_end() {
    let map = entries(&[(0, None), (1, Some((0, 'a'))), (2, Some((1, 'b'))), (3, Some((2, 'c')))]);
    assert_eq!(backtrack(map, Tag(3)), Some(vec!['a', 'b', 'c']));
}

#[test]
fn backtrack_from_the_start_has_no_moves() {
    let map = entries(&[(0, None), (1, Some((0, 'a')))]);
    assert_eq!(backtrack(map, Tag(0)), Some(Vec::new()));
}

#[test]
fn backtrack_ignores_entries_off_the_chain() {
    let map = entries(&[(0, None), (1, Some((0, 'a'))), (2, Some((0, 'b'))), (3, Some((2, 'c')))]);
    assert_eq!(backtrack(map, Tag(3)), Some(vec!['b', 'c']));
}

#[test]
fn backtrack_stops_at_the_first_entry_without_predecessor() {
    let map = entries(&[(0, Some((9, 'z'))), (1, None), (2, Some((1, 'b')))]);
    assert_eq!(backtrack(map, Tag(2)), Some(vec!['b']));
}

#[test]
fn backtrack_fails_on_a_state_without_entry() {
    let map = entries(&[(0, None), (2, Some((1, 'b')))]);
    assert_eq!(backtrack(map.clone(), Tag(2)), None);
    assert_eq!(backtrack(map, Tag(5)), None);
    assert_eq!(backtrack(HashMap::new(), Tag(0)), None);
}

#[test]
fn backtrack_fails_on_a_chain_that_returns_to_itself() {
    let map = entries(&[(1, Some((2, 'x'))), (2, Some((1, 'y')))]);
    assert_eq!(backtrack(map, Tag(1)), None);
}
