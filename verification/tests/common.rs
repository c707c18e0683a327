use bfrs::common::{BFCommand, Position};

#[test]
fn every_instruction_has_its_byte() {
    let all = [
        (b'[', BFCommand::BeginLoop),
        (b']', BFCommand::EndLoop),
        (b'.', BFCommand::Print),
        (b',', BFCommand::Read),
        (b'+', BFCommand::Increment),
        (b'-', BFCommand::Decrement),
        (b'>', BFCommand::Right),
        (b'<', BFCommand::Left),
    ];
    for (byte, command) in all {
        assert_eq!(BFCommand::from_u8(byte), Some(command));
        assert_eq!(command.to_u8(), byte);
    }
}

#[test]
fn only_eight_bytes_are_instructions() {
    let known = (0..=255u8).filter(|b| BFCommand::from_u8(*b).is_some()).count();
    assert_eq!(known, 8);
    assert_eq!(BFCommand::from_u8(b'a'), None);
    assert_eq!(BFCommand::from_u8(0), None);
    assert_eq!(BFCommand::from_u8(255), None);
}

#[test]
fn text_starts_at_line_one_column_one() {
    assert_eq!(Position::default(), Position { column: 1, line: 1 });
}

#[test]
fn characters_move_the_position() {
    let mut position = Position::default();
    position.advance_char('a');
    assert_eq!(position, Position { column: 2, line: 1 });
    position.advance_char('\n');
    assert_eq!(position, Position { column: 0, line: 2 });
    position.advance_char('\r');
    assert_eq!(position, Position { column: 1, line: 2 });
    position.advance_col();
    assert_eq!(position, Position { column: 2, line: 2 });
}

#[test]
fn counts_wrap_at_the_largest_value() {
    let mut position = Position { column: usize::MAX, line: usize::MAX };
    position.advance_col();
    assert_eq!(position, Position { column: 0, line: usize::MAX });
    let mut position = Position { column: usize::MAX, line: usize::MAX };
    position.advance_char('x');
    assert_eq!(position, Position { column: 0, line: usize::MAX });
    position.advance_char('\n');
    assert_eq!(position, Position { column: 0, line: 0 });
}
