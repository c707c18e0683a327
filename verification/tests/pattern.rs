use bfrs::common::{BFCommand, Position};
use bfrs::pattern::{classify, literal, parse_glyphs, parse_pattern, Glyph, ParseError, Pattern};

fn binding(index: usize) -> Pattern {
    Pattern::Binding { index, strict: false }
}

fn strict(index: usize) -> Pattern {
    Pattern::Binding { index, strict: true }
}

fn at(line: usize, column: usize) -> Position {
    Position { column, line }
}

fn refusal(text: &str) -> (char, Position) {
    let error = parse_pattern(text).err().unwrap();
    let ParseError::UnknownChar { bad_char } = error.kind;
    (bad_char, error.position)
}

#[test]
fn template_with_two_bindings() {
    let scope = parse_pattern("a+b-a").unwrap();
    assert_eq!(
        scope.patterns,
        vec![
            binding(0),
            Pattern::Instruction(BFCommand::Increment),
            binding(1),
            Pattern::Instruction(BFCommand::Decrement),
            binding(0),
        ]
    );
    assert_eq!(scope.bindings.len(), 2);
    assert_eq!(scope.bindings.get_by_left(&0), Some(&String::from("a")));
    assert_eq!(scope.bindings.get_by_left(&1), Some(&String::from("b")));
    assert_eq!(scope.bindings.get_by_right("b"), Some(&1));
}

#[test]
fn every_instruction_stands_for_itself() {
    let scope = parse_pattern("[].,+-><").unwrap();
    assert_eq!(
        scope.patterns,
        vec![
            Pattern::Instruction(BFCommand::BeginLoop),
            Pattern::Instruction(BFCommand::EndLoop),
            Pattern::Instruction(BFCommand::Print),
            Pattern::Instruction(BFCommand::Read),
            Pattern::Instruction(BFCommand::Increment),
            Pattern::Instruction(BFCommand::Decrement),
            Pattern::Instruction(BFCommand::Right),
            Pattern::Instruction(BFCommand::Left),
        ]
    );
    assert!(scope.bindings.is_empty());
}

#[test]
fn names_are_interned_in_the_order_of_first_occurrence() {
    let scope = parse_pattern("second first second third first").unwrap();
    assert_eq!(
        scope.patterns,
        vec![binding(0), binding(1), binding(0), binding(2), binding(1)]
    );
    assert_eq!(scope.bindings.len(), 3);
    assert_eq!(scope.bindings.get_by_left(&0), Some(&String::from("second")));
    assert_eq!(scope.bindings.get_by_left(&1), Some(&String::from("first")));
    assert_eq!(scope.bindings.get_by_left(&2), Some(&String::from("third")));
}

#[test]
fn name_followed_by_a_bang_is_strict() {
    let scope = parse_pattern("a!").unwrap();
    assert_eq!(scope.patterns, vec![strict(0)]);
    let scope = parse_pattern("ab1!ab1 c!+").unwrap();
    assert_eq!(
        scope.patterns,
        vec![strict(0), binding(0), strict(1), Pattern::Instruction(BFCommand::Increment)]
    );
    assert_eq!(scope.bindings.get_by_left(&0), Some(&String::from("ab1")));
    assert_eq!(scope.bindings.get_by_left(&1), Some(&String::from("c")));
}

#[test]
fn names_may_hold_digits_and_letters_of_any_script() {
    let scope = parse_pattern("x1y2 \u{e9}t\u{e9} x1").unwrap();
    assert_eq!(scope.patterns, vec![binding(0), binding(1), binding(2)]);
    assert_eq!(scope.bindings.get_by_left(&0), Some(&String::from("x1y2")));
    assert_eq!(scope.bindings.get_by_left(&1), Some(&String::from("\u{e9}t\u{e9}")));
    assert_eq!(scope.bindings.get_by_left(&2), Some(&String::from("x1")));
}

#[test]
fn spaces_separate_and_stand_for_nothing() {
    let scope = parse_pattern("  \n\t+ \n").unwrap();
    assert_eq!(scope.patterns, vec![Pattern::Instruction(BFCommand::Increment)]);
    assert!(parse_pattern("").unwrap().patterns.is_empty());
    assert!(parse_pattern(" \n ").unwrap().patterns.is_empty());
}

#[test]
fn unknown_character_is_refused_with_its_position() {
    assert_eq!(refusal("+ ?"), ('?', at(1, 3)));
    assert_eq!(refusal("?"), ('?', at(1, 1)));
    assert_eq!(refusal("ab#"), ('#', at(1, 3)));
    assert_eq!(refusal("a!!"), ('!', at(1, 3)));
}

#[test]
fn position_of_a_refusal_counts_lines() {
    assert_eq!(refusal("+\n?"), ('?', at(2, 0)));
    assert_eq!(refusal("a\n\n b ="), ('=', at(3, 3)));
}

#[test]
fn bang_and_digit_cannot_start_an_item() {
    assert_eq!(refusal("!"), ('!', at(1, 1)));
    assert_eq!(refusal("a !"), ('!', at(1, 3)));
    assert_eq!(refusal("1a"), ('1', at(1, 1)));
    assert_eq!(refusal("+ 9"), ('9', at(1, 3)));
}

#[test]
fn classify_asks_the_standard_library() {
    assert_eq!(
        classify('a'),
        Glyph { ch: 'a', alphabetic: true, alphanumeric: true, whitespace: false }
    );
    assert_eq!(
        classify('7'),
        Glyph { ch: '7', alphabetic: false, alphanumeric: true, whitespace: false }
    );
    assert_eq!(
        classify(' '),
        Glyph { ch: ' ', alphabetic: false, alphanumeric: false, whitespace: true }
    );
    assert_eq!(
        classify('\u{2003}'),
        Glyph { ch: '\u{2003}', alphabetic: false, alphanumeric: false, whitespace: true }
    );
    assert_eq!(
        classify('+'),
        Glyph { ch: '+', alphabetic: false, alphanumeric: false, whitespace: false }
    );
}

#[test]
fn literal_knows_the_eight_instructions() {
    assert_eq!(literal('+'), Some(BFCommand::Increment));
    assert_eq!(literal('<'), Some(BFCommand::Left));
    assert_eq!(literal(']'), Some(BFCommand::EndLoop));
    assert_eq!(literal('a'), None);
    assert_eq!(literal(' '), None);
    assert_eq!(literal('\u{e9}'), None);
    assert_eq!(literal('\u{12b}'), None);
}

#[test]
fn glyphs_are_read_as_they_are_classified() {
    let letter = |ch| Glyph { ch, alphabetic: true, alphanumeric: true, whitespace: false };
    let digit = |ch| Glyph { ch, alphabetic: false, alphanumeric: true, whitespace: false };
    let space = |ch| Glyph { ch, alphabetic: false, alphanumeric: false, whitespace: true };
    let other = |ch| Glyph { ch, alphabetic: false, alphanumeric: false, whitespace: false };
    let scope = parse_glyphs(&[letter('#'), digit('$'), space('x'), other('+'), letter('#')])
        .ok()
        .unwrap();
    assert_eq!(
        scope.patterns,
        vec![binding(0), Pattern::Instruction(BFCommand::Increment), binding(1)]
    );
    assert_eq!(scope.bindings.get_by_left(&0), Some(&String::from("#$")));
    assert_eq!(scope.bindings.get_by_left(&1), Some(&String::from("#")));
    let error = parse_glyphs(&[space('a'), other('b')]).err().unwrap();
    assert_eq!(error.kind, ParseError::UnknownChar { bad_char: 'b' });
    assert_eq!(error.position, at(1, 2));
    let scope = parse_glyphs(&[letter('a'), other('!'), digit('!')]).ok();
    assert!(scope.is_none());
}
