use bfrs::common::BFCommand;
use bfrs::matching::{MatchResult, MatchSM};
use bfrs::pattern::{parse_pattern, Pattern, PatternScope};
use bimap::BiMap;
use std::collections::HashMap;

fn decode(text: &str) -> Vec<BFCommand> {
    text.bytes().filter_map(BFCommand::from_u8).collect()
}

fn template(text: &str) -> PatternScope {
    parse_pattern(text).unwrap()
}

fn table(rows: &[(usize, &[(usize, isize)])]) -> HashMap<usize, HashMap<usize, isize>> {
    rows.iter()
        .map(|(k, row)| (*k, row.iter().cloned().collect()))
        .collect()
}

fn start_of(found: &MatchResult, instructions: &[BFCommand]) -> usize {
    found.commands.as_ptr() as usize - instructions.as_ptr() as usize
}

fn assert_symmetric(offsets: &HashMap<usize, HashMap<usize, isize>>) {
    for (a, row) in offsets {
        assert_eq!(row[a], 0);
        assert_eq!(row.len(), offsets.len());
        for b in offsets.keys() {
            assert_eq!(row[b], -offsets[b][a]);
        }
    }
}

#[test]
fn two_bindings_with_consistent_offsets_match() {
    let instructions = decode("+>>-<<");
    let found = MatchSM::find_all(&instructions, &template("a+b-a"));
    assert_eq!(found.len(), 1);
    assert_eq!(found[0].commands, &instructions[..]);
    assert_eq!(found[0].commands.len(), 6);
    assert_eq!(
        found[0].relative_offsets,
        table(&[(0, &[(0, 0), (1, -2)]), (1, &[(0, 2), (1, 0)])])
    );
}

#[test]
fn inconsistent_offset_gives_no_match() {
    let instructions = decode("+>>-<");
    let scope = template("a+b-a");
    assert!(MatchSM::find_all(&instructions, &scope).is_empty());
    assert!(MatchSM::match_single(&instructions, &scope).is_none());
}

#[test]
fn strict_binding_needs_a_movement() {
    let instructions = decode("+");
    let scope = template("a!");
    assert!(MatchSM::match_single(&instructions, &scope).is_none());
    assert!(MatchSM::find_all(&instructions, &scope).is_empty());
}

#[test]
fn strict_binding_matches_on_a_movement() {
    let instructions = decode("<<<+");
    let found = MatchSM::match_single(&instructions, &template("a!")).unwrap();
    assert_eq!(found.commands, &instructions[..3]);
    assert_eq!(found.relative_offsets, table(&[(0, &[(0, 0)])]));
}

#[test]
fn lone_binding_matches_in_place() {
    let instructions = decode("+");
    let found = MatchSM::match_single(&instructions, &template("a")).unwrap();
    assert_eq!(found.commands.len(), 0);
    assert_eq!(found.relative_offsets, table(&[(0, &[(0, 0)])]));
}

#[test]
fn empty_input_gives_no_match() {
    let instructions: Vec<BFCommand> = Vec::new();
    assert!(MatchSM::find_all(&instructions, &template("a+b-a")).is_empty());
    assert!(MatchSM::find_all(&instructions, &template("a")).is_empty());
    assert!(MatchSM::find_all(&instructions, &template("+")).is_empty());
}

#[test]
fn empty_template_matches_nothing_long() {
    let instructions = decode("+-");
    let scope = PatternScope { bindings: BiMap::new(), patterns: Vec::new() };
    let found = MatchSM::match_single(&instructions, &scope).unwrap();
    assert!(found.commands.is_empty());
    assert!(found.relative_offsets.is_empty());
}

#[test]
fn third_binding_is_placed_relative_to_all_known_ones() {
    let instructions = decode("+>>+>>>");
    let found = MatchSM::find_all(&instructions, &template("a+b+c"));
    assert_eq!(found.len(), 1);
    assert_eq!(found[0].commands.len(), 7);
    assert_eq!(
        found[0].relative_offsets,
        table(&[
            (0, &[(0, 0), (1, -2), (2, -5)]),
            (1, &[(0, 2), (1, 0), (2, -3)]),
            (2, &[(0, 5), (1, 3), (2, 0)]),
        ])
    );
}

#[test]
fn binding_to_the_left_has_a_negative_offset() {
    let instructions = decode("+<<<-");
    let found = MatchSM::match_single(&instructions, &template("a+b-")).unwrap();
    assert_eq!(found.commands.len(), 5);
    assert_eq!(
        found.relative_offsets,
        table(&[(0, &[(0, 0), (1, 3)]), (1, &[(0, -3), (1, 0)])])
    );
}

#[test]
fn run_stops_where_the_direction_changes() {
    let instructions = decode(">><");
    let found = MatchSM::match_single(&instructions, &template("a")).unwrap();
    assert_eq!(found.commands, &instructions[..2]);
}

#[test]
fn first_run_of_an_attempt_is_related_to_nothing() {
    let instructions = decode(">>><");
    let found = MatchSM::match_single(&instructions, &template("a b")).unwrap();
    assert_eq!(found.commands.len(), 4);
    assert_eq!(
        found.relative_offsets,
        table(&[(0, &[(0, 0), (1, 1)]), (1, &[(0, -1), (1, 0)])])
    );
}

#[test]
fn known_binding_must_repeat_its_offset() {
    let scope = template("a b a");
    let instructions = decode(">><<");
    assert!(MatchSM::match_single(&instructions, &scope).is_none());
    let found = MatchSM::find_all(&instructions, &scope);
    assert_eq!(found.len(), 1);
    assert_eq!(start_of(&found[0], &instructions), 2);
    assert_eq!(found[0].commands, &instructions[2..]);
    assert_eq!(
        found[0].relative_offsets,
        table(&[(0, &[(0, 0), (1, 0)]), (1, &[(0, 0), (1, 0)])])
    );
}

#[test]
fn literal_fails_at_the_end_of_the_input() {
    let instructions = decode("+");
    assert!(MatchSM::match_single(&instructions, &template("+-")).is_none());
    assert!(MatchSM::find_all(&instructions, &template("+-")).is_empty());
}

#[test]
fn match_single_looks_at_the_start_only() {
    let instructions = decode("-+");
    let scope = template("+");
    assert!(MatchSM::match_single(&instructions, &scope).is_none());
    let found = MatchSM::find_all(&instructions, &scope);
    assert_eq!(found.len(), 1);
    assert_eq!(start_of(&found[0], &instructions), 1);
    assert_eq!(found[0].commands, &[BFCommand::Increment][..]);
}

#[test]
fn loop_delimiters_are_ordinary_literals() {
    let instructions = decode("][");
    let found = MatchSM::find_all(&instructions, &template("]["));
    assert_eq!(found.len(), 1);
    assert_eq!(found[0].commands.len(), 2);
}

#[test]
fn scan_is_greedy_and_does_not_overlap() {
    let instructions = decode("+++");
    let ones = MatchSM::find_all(&instructions, &template("+"));
    assert_eq!(ones.len(), 3);
    for (i, found) in ones.iter().enumerate() {
        assert_eq!(start_of(found, &instructions), i);
        assert_eq!(found.commands.len(), 1);
    }
    let twos = MatchSM::find_all(&instructions, &template("++"));
    assert_eq!(twos.len(), 1);
    assert_eq!(start_of(&twos[0], &instructions), 0);
    assert_eq!(twos[0].commands.len(), 2);
}

#[test]
fn consecutive_matches_start_behind_each_other() {
    let instructions = decode("+>-<+>>-<<");
    let found = MatchSM::find_all(&instructions, &template("a+b-a"));
    assert_eq!(found.len(), 2);
    assert_eq!(start_of(&found[0], &instructions), 0);
    assert_eq!(found[0].commands.len(), 4);
    assert_eq!(start_of(&found[1], &instructions), 4);
    assert_eq!(found[1].commands.len(), 6);
    for pair in found.windows(2) {
        let end_of_first = start_of(&pair[0], &instructions) + pair[0].commands.len();
        assert!(start_of(&pair[1], &instructions) >= end_of_first);
    }
    assert_eq!(
        found[0].relative_offsets,
        table(&[(0, &[(0, 0), (1, -1)]), (1, &[(0, 1), (1, 0)])])
    );
    assert_eq!(
        found[1].relative_offsets,
        table(&[(0, &[(0, 0), (1, -2)]), (1, &[(0, 2), (1, 0)])])
    );
}

#[test]
fn scan_retries_one_instruction_on_after_a_failure() {
    let instructions = decode("+>-<<+>>-<+>-<");
    let found = MatchSM::find_all(&instructions, &template("a+b-a"));
    assert_eq!(found.len(), 1);
    assert_eq!(start_of(&found[0], &instructions), 9);
    assert_eq!(found[0].commands.len(), 5);
    assert_eq!(
        found[0].relative_offsets,
        table(&[(0, &[(0, 0), (1, -1)]), (1, &[(0, 1), (1, 0)])])
    );
}

#[test]
fn scan_moves_on_after_a_match_that_consumed_nothing() {
    let instructions = decode("+>");
    let found = MatchSM::find_all(&instructions, &template("a"));
    assert_eq!(found.len(), 2);
    assert!(found[0].commands.is_empty());
    assert_eq!(found[1].commands, &instructions[1..]);
    assert_eq!(start_of(&found[1], &instructions), 1);
}

#[test]
fn consumed_length_is_one_per_literal_plus_the_runs() {
    let instructions = decode(">>>+<->.");
    let found = MatchSM::match_single(&instructions, &template("a+b-a")).unwrap();
    assert_eq!(found.commands.len(), 3 + 1 + 1 + 1 + 1);
    assert!(MatchSM::match_single(&decode(">>>+<-<<<."), &template("a+b-a")).is_none());
    let instructions = decode("+-");
    let found = MatchSM::match_single(&instructions, &template("a+b-a")).unwrap();
    assert_eq!(found.commands.len(), 2);
}

#[test]
fn offsets_of_every_match_are_symmetric() {
    let instructions = decode("+>>+>>>-<<<<<+>+<--+>>>+<<<<-");
    let found = MatchSM::find_all(&instructions, &template("a+b+c-a"));
    assert!(!found.is_empty());
    for result in &found {
        assert_symmetric(&result.relative_offsets);
    }
    let found = MatchSM::find_all(&instructions, &template("a+b"));
    assert!(found.len() > 1);
    for result in &found {
        assert_symmetric(&result.relative_offsets);
    }
}

#[test]
fn scanning_twice_gives_the_same_matches() {
    let instructions = decode("+>-<+>>-<<");
    let scope = template("a+b-a");
    let first = MatchSM::find_all(&instructions, &scope);
    assert_eq!(first.len(), 2);
    let second = MatchSM::find_all(&instructions, &scope);
    assert_eq!(first.len(), second.len());
    for (x, y) in first.iter().zip(second.iter()) {
        assert_eq!(start_of(x, &instructions), start_of(y, &instructions));
        assert_eq!(x.commands, y.commands);
        assert_eq!(x.relative_offsets, y.relative_offsets);
    }
}

#[test]
fn strict_binding_fails_whatever_is_registered() {
    let instructions = decode(">+");
    let scope = PatternScope {
        bindings: BiMap::new(),
        patterns: vec![
            Pattern::Binding { index: 0, strict: false },
            Pattern::Binding { index: 0, strict: true },
        ],
    };
    assert!(MatchSM::match_single(&instructions, &scope).is_none());
    let scope = PatternScope {
        bindings: BiMap::new(),
        patterns: vec![
            Pattern::Binding { index: 0, strict: false },
            Pattern::Binding { index: 1, strict: true },
        ],
    };
    assert!(MatchSM::match_single(&instructions, &scope).is_none());
}

#[test]
fn first_sighting_always_matches() {
    let instructions = decode(">>+<<<->");
    let found = MatchSM::match_single(&instructions, &template("a+b-c")).unwrap();
    assert_eq!(found.commands.len(), 8);
    assert_eq!(found.relative_offsets[&1][&0], -3);
    assert_eq!(found.relative_offsets[&2][&1], 1);
    assert_eq!(found.relative_offsets[&2][&0], -2);
    assert_eq!(found.relative_offsets[&2][&2], 0);
}
