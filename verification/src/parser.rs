//! The decoder: bytes to instructions, with the loops checked for balance
//! and every error placed in the source.

use crate::common::{command_of_byte, BFCommand, Position};
use crate::program::{balanced, lemma_unmatched_is_final, open_loops};
use vstd::prelude::*;

verus! {

/// The error type of the standard library's input and output, carried
/// through untouched.
#[verifier::external_type_specification]
#[verifier::external_body]
pub struct ExIoError(std::io::Error);

/// What is wrong with the loops of a source.
#[derive(Debug, Clone, Copy, PartialEq, Eq, Structural)]
pub enum ParseErrorKind {
    /// A loop is closed that was never opened.
    MissingLB,
    /// The source ends inside a loop; the position is that of the last
    /// opening that was not closed.
    MissingRB(Position),
}

/// An error of the decoder and the position at which it was found.
#[derive(Debug, Clone, Copy, PartialEq, Eq, Structural)]
pub struct ParseError {
    pub kind: ParseErrorKind,
    pub position: Position,
}

/// What may go wrong while a source is read and decoded.
#[derive(Debug)]
pub enum IOParserErr {
    /// The source could not be read.
    IO(std::io::Error),
    /// The source is malformed.
    Parser(ParseError),
}

/// The state of the decoder between two bytes.
pub struct DecoderState {
    /// The position of the next byte.
    pub position: Position,
    /// The positions of the loops that are open, the innermost last.
    pub open_loops: Seq<Position>,
}

/// The position behind `byte`: an ASCII byte counts as its character, any
/// other byte as one column.
pub open spec fn position_after(position: Position, byte: u8) -> Position {
    if byte < 128 {
        position.after_char(byte as char)
    } else {
        position.after_col()
    }
}

/// Reads one byte. A byte outside the alphabet is passed over. A loop
/// opening is noted with its position, a closing takes the innermost
/// opening away, and a closing with no loop open is an error at the
/// closing's position, which leaves the state as it was.
pub open spec fn decode_byte(st: DecoderState, byte: u8) -> Result<
    (DecoderState, Option<BFCommand>),
    ParseError,
> {
    let instr = command_of_byte(byte);
    if instr == Some(BFCommand::EndLoop) && st.open_loops.len() == 0 {
        Err(ParseError { kind: ParseErrorKind::MissingLB, position: st.position })
    } else {
        let open_loops = if instr == Some(BFCommand::BeginLoop) {
            st.open_loops.push(st.position)
        } else if instr == Some(BFCommand::EndLoop) {
            st.open_loops.drop_last()
        } else {
            st.open_loops
        };
        Ok((DecoderState { position: position_after(st.position, byte), open_loops }, instr))
    }
}

/// Ends the source. A loop that is still open is an error at the end
/// position that names the innermost opening, and takes it from the state.
pub open spec fn decode_end(st: DecoderState) -> (Result<(), ParseError>, DecoderState) {
    if st.open_loops.len() > 0 {
        (
            Err(
                ParseError {
                    kind: ParseErrorKind::MissingRB(st.open_loops.last()),
                    position: st.position,
                },
            ),
            DecoderState { open_loops: st.open_loops.drop_last(), ..st },
        )
    } else {
        (Ok(()), st)
    }
}

/// The state after an event of the source: a byte, a failure to read, or
/// `None` for its end. A failure to read and a misplaced closing leave the
/// state as it was.
pub open spec fn state_after(
    st: DecoderState,
    event: Option<Result<u8, std::io::Error>>,
) -> DecoderState {
    match event {
        None => decode_end(st).1,
        Some(Err(_)) => st,
        Some(Ok(byte)) => match decode_byte(st, byte) {
            Err(_) => st,
            Ok((next, _)) => next,
        },
    }
}

/// The decoder's state: it is fed what was read, one event at a time.
pub struct BFParser {
    current_position: Position,
    loop_backlog: Vec<Position>,
}

impl View for BFParser {
    type V = DecoderState;

    closed spec fn view(&self) -> DecoderState {
        DecoderState { position: self.current_position, open_loops: self.loop_backlog@ }
    }
}

impl BFParser {
    /// A decoder for a source whose first byte stands at `start_pos`.
    pub fn starting_at(start_pos: Position) -> (p: Self)
        ensures
            p@ == (DecoderState { position: start_pos, open_loops: Seq::empty() }),
    {
        BFParser { current_position: start_pos, loop_backlog: Vec::new() }
    }

    /// A decoder for a source that is read from its start.
    pub fn new() -> (p: Self)
        ensures
            p@ == (DecoderState {
                position: Position { column: 1, line: 1 },
                open_loops: Seq::empty(),
            }),
    {
        Self::starting_at(Position::default())
    }

    /// Takes the next event of the source: a byte, a failure to read, or
    /// `None` for its end. The answer is `None` where the byte was passed
    /// over and the decoder wants the next event; else it is the next
    /// instruction, `Ok(None)` at a clean end, or the error.
    pub fn next_instruction(&mut self, event: Option<Result<u8, std::io::Error>>) -> (r: Option<
        Result<Option<BFCommand>, IOParserErr>,
    >)
        ensures
            final(self)@ == state_after(old(self)@, event),
            match event {
                None => match decode_end(old(self)@).0 {
                    Ok(_) => r matches Some(Ok(None)),
                    Err(e) => r matches Some(Err(IOParserErr::Parser(got))) && got == e,
                },
                Some(Err(e)) => r matches Some(Err(IOParserErr::IO(got))) && got == e,
                Some(Ok(byte)) => match decode_byte(old(self)@, byte) {
                    Err(e) => r matches Some(Err(IOParserErr::Parser(got))) && got == e,
                    Ok((_, Some(instr))) => r matches Some(Ok(Some(got))) && got == instr,
                    Ok((_, None)) => r is None,
                },
            },
    {
        match event {
            None => {
                match self.loop_backlog.pop() {
                    Some(lb_pos) => Some(Err(self.error(ParseErrorKind::MissingRB(lb_pos)))),
                    None => Some(Ok(None)),
                }
            },
            Some(Err(e)) => Some(Err(IOParserErr::IO(e))),
            Some(Ok(byte)) => {
                let instruction = BFCommand::from_u8(byte);
                match instruction {
                    Some(BFCommand::BeginLoop) => {
                        self.loop_backlog.push(self.current_position);
                    },
                    Some(BFCommand::EndLoop) => {
                        if self.loop_backlog.pop().is_none() {
                            return Some(Err(self.error(ParseErrorKind::MissingLB)));
                        }
                    },
                    _ => {},
                }
                if byte < 128 {
                    self.current_position.advance_char(byte as char);
                } else {
                    self.current_position.advance_col();
                }
                match instruction {
                    Some(instr) => Some(Ok(Some(instr))),
                    None => None,
                }
            },
        }
    }

    /// An error of kind `kind` at the decoder's position.
    pub fn error(&self, kind: ParseErrorKind) -> (e: IOParserErr)
        ensures
            e == IOParserErr::Parser(ParseError { kind, position: self@.position }),
    {
        IOParserErr::Parser(ParseError { kind, position: self.current_position })
    }
}

/// The state of a decoding run over a source that is held in memory.
pub struct Decoding {
    /// The decoder's state.
    pub decoder: DecoderState,
    /// The bytes of the source.
    pub input: Seq<u8>,
    /// How many of them were read.
    pub read: nat,
    /// Whether the run has ended, cleanly or with an error.
    pub finished: bool,
}

/// What a decoding run hands out next, and the state that it is in then:
/// the next instruction, the error that ends the run, or `None` once the
/// run has ended.
pub open spec fn next_item(run: Decoding) -> (Option<Result<BFCommand, ParseError>>, Decoding)
    decreases run.input.len() - run.read,
{
    if run.finished {
        (None, run)
    } else if run.read >= run.input.len() {
        let (end, decoder) = decode_end(run.decoder);
        let ended = Decoding { decoder, finished: true, ..run };
        match end {
            Ok(_) => (None, ended),
            Err(e) => (Some(Err(e)), ended),
        }
    } else {
        match decode_byte(run.decoder, run.input[run.read as int]) {
            Err(e) => (Some(Err(e)), Decoding { read: run.read + 1, finished: true, ..run }),
            Ok((decoder, Some(instr))) => (
                Some(Ok(instr)),
                Decoding { decoder, read: run.read + 1, ..run },
            ),
            Ok((decoder, None)) => next_item(Decoding { decoder, read: run.read + 1, ..run }),
        }
    }
}

/// The instructions that the bytes from `from` on decode to, or the first
/// error among them or at their end.
pub open spec fn decode_rest(decoder: DecoderState, input: Seq<u8>, from: nat) -> Result<
    Seq<BFCommand>,
    ParseError,
>
    decreases input.len() - from,
{
    if from >= input.len() {
        match decode_end(decoder).0 {
            Ok(_) => Ok(Seq::empty()),
            Err(e) => Err(e),
        }
    } else {
        match decode_byte(decoder, input[from as int]) {
            Err(e) => Err(e),
            Ok((next, instr)) => match decode_rest(next, input, from + 1) {
                Err(e) => Err(e),
                Ok(more) => Ok(
                    match instr {
                        Some(c) => seq![c] + more,
                        None => more,
                    },
                ),
            },
        }
    }
}

/// All that a decoding run hands out from its state on: the instructions
/// in order, or the error that ends it. A run that has ended hands out
/// nothing.
pub open spec fn all_items(run: Decoding) -> Result<Seq<BFCommand>, ParseError> {
    if run.finished {
        Ok(Seq::empty())
    } else {
        decode_rest(run.decoder, run.input, run.read)
    }
}

/// What a source decodes to when it is read from its start.
pub open spec fn decode(input: Seq<u8>) -> Result<Seq<BFCommand>, ParseError> {
    decode_rest(
        DecoderState { position: Position { column: 1, line: 1 }, open_loops: Seq::empty() },
        input,
        0,
    )
}

/// All the items of a run are its next item and then all the items of the
/// run that is left.
pub proof fn lemma_all_items_unfold(run: Decoding)
    requires
        run.read <= run.input.len(),
    ensures
        match next_item(run) {
            (None, _) => all_items(run) == Ok::<Seq<BFCommand>, ParseError>(Seq::empty()),
            (Some(Err(e)), _) => all_items(run) == Err::<Seq<BFCommand>, ParseError>(e),
            (Some(Ok(instr)), rest) => match all_items(rest) {
                Ok(more) => all_items(run) == Ok::<Seq<BFCommand>, ParseError>(seq![instr] + more),
                Err(e) => all_items(run) == Err::<Seq<BFCommand>, ParseError>(e),
            },
        },
    decreases run.input.len() - run.read,
{
    if !run.finished && run.read < run.input.len() {
        if let Ok((decoder, None)) = decode_byte(run.decoder, run.input[run.read as int]) {
            lemma_all_items_unfold(Decoding { decoder, read: run.read + 1, ..run });
        }
    }
}

/// What a decoding run does to its state: it reads on, or it ends.
pub proof fn lemma_next_item_progress(run: Decoding)
    requires
        run.read <= run.input.len(),
    ensures
        next_item(run).1.input == run.input,
        next_item(run).1.read <= run.input.len(),
        run.read <= next_item(run).1.read,
        next_item(run).0 matches Some(Ok(_)) ==> run.read < next_item(run).1.read && !next_item(
            run,
        ).1.finished,
        !(next_item(run).0 matches Some(Ok(_))) ==> next_item(run).1.finished,
    decreases run.input.len() - run.read,
{
    if !run.finished && run.read < run.input.len() {
        if let Ok((decoder, None)) = decode_byte(run.decoder, run.input[run.read as int]) {
            lemma_next_item_progress(Decoding { decoder, read: run.read + 1, ..run });
        }
    }
}

/// A decoding run over a source in memory, which hands out its
/// instructions one by one.
pub struct BFParserIter<'a> {
    parser: BFParser,
    input: &'a [u8],
    read: usize,
    finished: bool,
}

impl<'a> View for BFParserIter<'a> {
    type V = Decoding;

    closed spec fn view(&self) -> Decoding {
        Decoding {
            decoder: self.parser@,
            input: self.input@,
            read: self.read as nat,
            finished: self.finished,
        }
    }
}

impl<'a> BFParserIter<'a> {
    /// No more bytes are read than the source has.
    pub closed spec fn wf(&self) -> bool {
        self.read <= self.input@.len()
    }

    /// The next instruction of the source, the error that ends the run, or
    /// `None` once the run has ended. Bytes outside the alphabet are passed
    /// over.
    pub fn next(&mut self) -> (r: Option<Result<BFCommand, IOParserErr>>)
        requires
            old(self).wf(),
        ensures
            final(self).wf(),
            final(self)@ == next_item(old(self)@).1,
            match next_item(old(self)@).0 {
                None => r is None,
                Some(Ok(instr)) => r matches Some(Ok(got)) && got == instr,
                Some(Err(e)) => r matches Some(Err(IOParserErr::Parser(got))) && got == e,
            },
    {
        if self.finished {
            return None;
        }
        loop
            invariant
                !self.finished,
                self.read <= self.input@.len(),
                self.input@ == old(self).input@,
                next_item(self@) == next_item(old(self)@),
            decreases self.input@.len() - self.read,
        {
            if self.read >= self.input.len() {
                self.finished = true;
                match self.parser.next_instruction(None) {
                    Some(Err(e)) => {
                        return Some(Err(e));
                    },
                    _ => {
                        return None;
                    },
                }
            }
            let byte = self.input[self.read];
            self.read += 1;
            match self.parser.next_instruction(Some(Ok(byte))) {
                None => {},
                Some(Ok(Some(instr))) => {
                    return Some(Ok(instr));
                },
                Some(Ok(None)) => {
                    self.finished = true;
                    return None;
                },
                Some(Err(e)) => {
                    self.finished = true;
                    return Some(Err(e));
                },
            }
        }
    }

    /// Runs the decoding to its end: all the instructions that are left,
    /// or the error that ends the run.
    pub fn collect(self) -> (r: Result<Vec<BFCommand>, IOParserErr>)
        requires
            self.wf(),
        ensures
            match all_items(self@) {
                Ok(instrs) => r matches Ok(got) && got@ == instrs,
                Err(e) => r matches Err(IOParserErr::Parser(got)) && got == e,
            },
    {
        let mut run = self;
        let mut instructions: Vec<BFCommand> = Vec::new();
        loop
            invariant
                run.wf(),
                match all_items(run@) {
                    Ok(more) => all_items(self@) == Ok::<Seq<BFCommand>, ParseError>(
                        instructions@ + more,
                    ),
                    Err(e) => all_items(self@) == Err::<Seq<BFCommand>, ParseError>(e),
                },
            decreases
                if run@.finished {
                    0
                } else {
                    run@.input.len() - run@.read + 1
                },
        {
            let ghost before = run@;
            proof {
                lemma_next_item_progress(before);
                lemma_all_items_unfold(before);
            }
            match run.next() {
                None => {
                    assert(instructions@ + Seq::<BFCommand>::empty() =~= instructions@);
                    return Ok(instructions);
                },
                Some(Err(e)) => {
                    return Err(e);
                },
                Some(Ok(instr)) => {
                    proof {
                        let rest = all_items(run@);
                        if let Ok(more) = rest {
                            assert(instructions@ + (seq![instr] + more) =~= instructions@.push(
                                instr,
                            ) + more);
                        }
                    }
                    instructions.push(instr);
                },
            }
        }
    }
}

/// A decoding run over `input`, read from its start.
pub fn parse(input: &[u8]) -> (run: BFParserIter<'_>)
    ensures
        run.wf(),
        run@ == (Decoding {
            decoder: DecoderState {
                position: Position { column: 1, line: 1 },
                open_loops: Seq::empty(),
            },
            input: input@,
            read: 0,
            finished: false,
        }),
{
    BFParserIter { parser: BFParser::new(), input, read: 0, finished: false }
}

/// A decoding run over `input`, whose first byte stands at `start_pos`.
pub fn parse_starting_at(input: &[u8], start_pos: Position) -> (run: BFParserIter<'_>)
    ensures
        run.wf(),
        run@ == (Decoding {
            decoder: DecoderState { position: start_pos, open_loops: Seq::empty() },
            input: input@,
            read: 0,
            finished: false,
        }),
{
    BFParserIter { parser: BFParser::starting_at(start_pos), input, read: 0, finished: false }
}

/// The instructions among the bytes from `from` on, in order.
pub open spec fn instructions_from(input: Seq<u8>, from: nat) -> Seq<BFCommand>
    decreases input.len() - from,
{
    if from >= input.len() {
        Seq::empty()
    } else {
        match command_of_byte(input[from as int]) {
            Some(c) => seq![c] + instructions_from(input, from + 1),
            None => instructions_from(input, from + 1),
        }
    }
}

/// What is decoded is the instructions among the bytes, and nothing else.
pub proof fn law_decoded_instructions(decoder: DecoderState, input: Seq<u8>, from: nat)
    ensures
        decode_rest(decoder, input, from) matches Ok(instrs) ==> instrs == instructions_from(
            input,
            from,
        ),
    decreases input.len() - from,
{
    if from < input.len() {
        if let Ok((next, _)) = decode_byte(decoder, input[from as int]) {
            law_decoded_instructions(next, input, from + 1);
        }
    }
}

/// The loops that are open after `n` instructions do not depend on what
/// comes behind them.
pub proof fn lemma_open_loops_prefix(p: Seq<BFCommand>, q: Seq<BFCommand>, n: nat)
    requires
        n <= p.len(),
    ensures
        open_loops(p + q, n) == open_loops(p, n),
    decreases n,
{
    if n > 0 {
        lemma_open_loops_prefix(p, q, (n - 1) as nat);
        assert((p + q)[n - 1] == p[n - 1]);
    }
}

/// The rest of a source is accepted exactly where it closes the loops that
/// are open and opens none that it does not close: `seen` stands for any
/// instructions that have as many loops open as the decoder does.
pub proof fn lemma_decode_balance(
    decoder: DecoderState,
    input: Seq<u8>,
    from: nat,
    seen: Seq<BFCommand>,
)
    requires
        from <= input.len(),
        open_loops(seen, seen.len()) matches Some(open) && open.len()
            == decoder.open_loops.len(),
    ensures
        decode_rest(decoder, input, from) is Ok <==> balanced(
            seen + instructions_from(input, from),
        ),
    decreases input.len() - from,
{
    let open = open_loops(seen, seen.len())->0;
    let all = seen + instructions_from(input, from);
    if from >= input.len() {
        assert(all =~= seen);
        if open.len() == 0 {
            assert(open =~= Seq::<usize>::empty());
        }
    } else {
        let byte = input[from as int];
        match command_of_byte(byte) {
            None => {
                let next = decode_byte(decoder, byte)->Ok_0.0;
                lemma_decode_balance(next, input, from + 1, seen);
            },
            Some(c) => {
                let more = seen.push(c);
                let rest = instructions_from(input, from + 1);
                assert(all =~= more + rest);
                lemma_open_loops_prefix(seen, seq![c], seen.len());
                assert(seen + seq![c] =~= more);
                if c == BFCommand::EndLoop && open.len() == 0 {
                    assert(open_loops(more, more.len()) is None);
                    lemma_open_loops_prefix(more, rest, more.len());
                    lemma_unmatched_is_final(all, more.len(), all.len());
                } else {
                    let next = decode_byte(decoder, byte)->Ok_0.0;
                    lemma_decode_balance(next, input, from + 1, more);
                }
            },
        }
    }
}

/// A source is accepted exactly where the loops of its instructions are
/// balanced, and then it decodes to its instructions.
pub proof fn law_decode_balanced(input: Seq<u8>)
    ensures
        decode(input) is Ok <==> balanced(instructions_from(input, 0)),
        decode(input) matches Ok(instrs) ==> instrs == instructions_from(input, 0) && balanced(
            instrs,
        ),
{
    let start = DecoderState {
        position: Position { column: 1, line: 1 },
        open_loops: Seq::empty(),
    };
    lemma_decode_balance(start, input, 0, Seq::empty());
    law_decoded_instructions(start, input, 0);
    assert(Seq::<BFCommand>::empty() + instructions_from(input, 0) =~= instructions_from(
        input,
        0,
    ));
}

} // verus!
