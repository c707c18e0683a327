//! The instruction alphabet and source positions.

use vstd::prelude::*;

verus! {

/// One of the eight instructions of the machine.
#[derive(Debug, Clone, Copy, PartialEq, Eq, Structural)]
pub enum BFCommand {
    BeginLoop,
    EndLoop,
    Print,
    Read,
    Increment,
    Decrement,
    Right,
    Left,
}

/// The instruction that a byte encodes, if it encodes one.
pub open spec fn command_of_byte(byte: u8) -> Option<BFCommand> {
    if byte == 0x5b {
        Some(BFCommand::BeginLoop)
    } else if byte == 0x5d {
        Some(BFCommand::EndLoop)
    } else if byte == 0x2e {
        Some(BFCommand::Print)
    } else if byte == 0x2c {
        Some(BFCommand::Read)
    } else if byte == 0x2b {
        Some(BFCommand::Increment)
    } else if byte == 0x2d {
        Some(BFCommand::Decrement)
    } else if byte == 0x3e {
        Some(BFCommand::Right)
    } else if byte == 0x3c {
        Some(BFCommand::Left)
    } else {
        None
    }
}

impl BFCommand {
    /// The canonical byte of an instruction: its ASCII character.
    pub open spec fn byte_of(self) -> u8 {
        match self {
            BFCommand::BeginLoop => 0x5b,
            BFCommand::EndLoop => 0x5d,
            BFCommand::Print => 0x2e,
            BFCommand::Read => 0x2c,
            BFCommand::Increment => 0x2b,
            BFCommand::Decrement => 0x2d,
            BFCommand::Right => 0x3e,
            BFCommand::Left => 0x3c,
        }
    }

    /// Whether the instruction moves the tape pointer.
    pub open spec fn is_move(self) -> bool {
        self == BFCommand::Left || self == BFCommand::Right
    }

    /// Decodes one byte; every byte outside the alphabet gives `None`.
    pub fn from_u8(byte: u8) -> (r: Option<BFCommand>)
        ensures
            r == command_of_byte(byte),
            r matches Some(c) ==> c.byte_of() == byte,
    {
        match byte {
            0x5b => Some(BFCommand::BeginLoop),
            0x5d => Some(BFCommand::EndLoop),
            0x2e => Some(BFCommand::Print),
            0x2c => Some(BFCommand::Read),
            0x2b => Some(BFCommand::Increment),
            0x2d => Some(BFCommand::Decrement),
            0x3e => Some(BFCommand::Right),
            0x3c => Some(BFCommand::Left),
            _ => None,
        }
    }

    /// The byte that encodes the instruction.
    pub fn to_u8(self) -> (b: u8)
        ensures
            b == self.byte_of(),
            command_of_byte(b) == Some(self),
    {
        match self {
            BFCommand::BeginLoop => 0x5b,
            BFCommand::EndLoop => 0x5d,
            BFCommand::Print => 0x2e,
            BFCommand::Read => 0x2c,
            BFCommand::Increment => 0x2b,
            BFCommand::Decrement => 0x2d,
            BFCommand::Right => 0x3e,
            BFCommand::Left => 0x3c,
        }
    }
}

/// A place in a source text: both counts are kept as the text is read.
#[derive(Debug, Clone, Copy, PartialEq, Eq, Structural)]
pub struct Position {
    pub column: usize,
    pub line: usize,
}

impl Default for Position {
    /// The start of a text: line 1, column 1.
    fn default() -> (p: Position)
        ensures
            p == (Position { column: 1, line: 1 }),
    {
        Position { column: 1, line: 1 }
    }
}

impl Position {
    /// The position after reading `ch` at `self`: a line feed opens the next
    /// line at column 0, any other character moves one column on. The counts
    /// wrap at the machine's limit.
    pub open spec fn after_char(self, ch: char) -> Position {
        if ch == '\n' {
            Position { column: 0, line: wrapping_next(self.line) }
        } else {
            Position { column: wrapping_next(self.column), line: self.line }
        }
    }

    /// The position one column further.
    pub open spec fn after_col(self) -> Position {
        Position { column: wrapping_next(self.column), line: self.line }
    }

    /// Moves past the character `ch`.
    pub fn advance_char(&mut self, ch: char)
        ensures
            *final(self) == old(self).after_char(ch),
    {
        if ch == '\n' {
            self.line = self.line.wrapping_add(1);
            self.column = 0;
        } else {
            self.column = self.column.wrapping_add(1);
        }
    }

    /// Moves one column on, whatever was read.
    pub fn advance_col(&mut self)
        ensures
            *final(self) == old(self).after_col(),
    {
        self.column = self.column.wrapping_add(1);
    }
}

/// The successor of a count, wrapping to 0 past the largest `usize`.
pub open spec fn wrapping_next(n: usize) -> usize {
    if n == usize::MAX {
        0
    } else {
        (n + 1) as usize
    }
}

} // verus!
