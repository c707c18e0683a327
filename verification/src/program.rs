//! Programs with their loops resolved, and the tape machine that runs
//! them one instruction at a time.

use crate::common::BFCommand;
use std::collections::HashMap;
use vstd::prelude::*;
use vstd::std_specs::hash::*;

verus! {

broadcast use vstd::std_specs::hash::group_hash_axioms;

/// The openings that are not closed after the first `n` instructions, the
/// innermost last; `None` where one of the closings had no opening.
pub open spec fn open_loops(instrs: Seq<BFCommand>, n: nat) -> Option<Seq<usize>>
    decreases n,
{
    if n == 0 {
        Some(Seq::empty())
    } else {
        match open_loops(instrs, (n - 1) as nat) {
            None => None,
            Some(open) => if instrs[n - 1] == BFCommand::BeginLoop {
                Some(open.push((n - 1) as usize))
            } else if instrs[n - 1] == BFCommand::EndLoop {
                if open.len() == 0 {
                    None
                } else {
                    Some(open.drop_last())
                }
            } else {
                Some(open)
            },
        }
    }
}

/// The jump table of the first `n` instructions: every closing among
/// them is paired, both ways, with the innermost opening that was open
/// when it came.
pub open spec fn jumps_after(instrs: Seq<BFCommand>, n: nat) -> Map<usize, usize>
    decreases n,
{
    if n == 0 {
        Map::empty()
    } else {
        let before = jumps_after(instrs, (n - 1) as nat);
        match open_loops(instrs, (n - 1) as nat) {
            Some(open) => if instrs[n - 1] == BFCommand::EndLoop && open.len() > 0 {
                before.insert(open.last(), (n - 1) as usize).insert((n - 1) as usize, open.last())
            } else {
                before
            },
            None => before,
        }
    }
}

/// What holds of the jump table and the open loops after `n` instructions.
pub open spec fn loops_resolved(
    instrs: Seq<BFCommand>,
    n: nat,
    jumps: Map<usize, usize>,
    open: Seq<usize>,
) -> bool {
    &&& forall|k: int|
        0 <= k < open.len() ==> (#[trigger] open[k]) < n && instrs[open[k] as int]
            == BFCommand::BeginLoop && !jumps.contains_key(open[k])
    &&& forall|k: int, l: int| 0 <= k < l < open.len() ==> open[k] < open[l]
    &&& forall|i: usize| #[trigger]
        jumps.contains_key(i) ==> {
            &&& i < n
            &&& jumps[i] < n
            &&& jumps.contains_key(jumps[i])
            &&& jumps[jumps[i]] == i
            &&& if i < jumps[i] {
                instrs[i as int] == BFCommand::BeginLoop && instrs[jumps[i] as int]
                    == BFCommand::EndLoop
            } else {
                instrs[i as int] == BFCommand::EndLoop && instrs[jumps[i] as int]
                    == BFCommand::BeginLoop
            }
        }
    &&& forall|i: usize|
        i < n && (instrs[i as int] == BFCommand::BeginLoop || instrs[i as int]
            == BFCommand::EndLoop) ==> #[trigger] jumps.contains_key(i) || open.contains(i)
}

/// Whether every loop of `instrs` is both opened and closed.
pub open spec fn balanced(instrs: Seq<BFCommand>) -> bool {
    open_loops(instrs, instrs.len()) == Some(Seq::<usize>::empty())
}

/// Reading one more instruction keeps the jump table and the open loops
/// in order.
pub proof fn lemma_loops_resolved_step(instrs: Seq<BFCommand>, n: nat)
    requires
        n < instrs.len(),
        n < usize::MAX,
        open_loops(instrs, n + 1) is Some,
        loops_resolved(instrs, n, jumps_after(instrs, n), open_loops(instrs, n)->0),
    ensures
        open_loops(instrs, n) is Some,
        loops_resolved(
            instrs,
            n + 1,
            jumps_after(instrs, n + 1),
            open_loops(instrs, n + 1)->0,
        ),
{
    let before = jumps_after(instrs, n);
    let open = open_loops(instrs, n)->0;
    let jumps = jumps_after(instrs, n + 1);
    let now = open_loops(instrs, n + 1)->0;
    let here = n as usize;
    if instrs[n as int] == BFCommand::BeginLoop {
        assert(now == open.push(here));
        assert forall|i: usize|
            i < n + 1 && (instrs[i as int] == BFCommand::BeginLoop || instrs[i as int]
                == BFCommand::EndLoop) implies #[trigger] jumps.contains_key(i) || now.contains(
            i,
        ) by {
            if i < n {
                if !before.contains_key(i) {
                    let k = choose|k: int| 0 <= k < open.len() && open[k] == i;
                    assert(now[k] == i);
                }
            } else {
                assert(now[open.len() as int] == i);
            }
        }
    } else if instrs[n as int] == BFCommand::EndLoop {
        let partner = open.last();
        assert(now == open.drop_last());
        assert(open[open.len() - 1] == partner);
        assert forall|i: usize|
            i < n + 1 && (instrs[i as int] == BFCommand::BeginLoop || instrs[i as int]
                == BFCommand::EndLoop) implies #[trigger] jumps.contains_key(i) || now.contains(
            i,
        ) by {
            if i < n && i != partner {
                if !before.contains_key(i) {
                    let k = choose|k: int| 0 <= k < open.len() && open[k] == i;
                    assert(now[k] == i);
                }
            }
        }
        assert forall|i: usize| #[trigger] jumps.contains_key(i) implies {
            &&& i < n + 1
            &&& jumps[i] < n + 1
            &&& jumps.contains_key(jumps[i])
            &&& jumps[jumps[i]] == i
            &&& if i < jumps[i] {
                instrs[i as int] == BFCommand::BeginLoop && instrs[jumps[i] as int]
                    == BFCommand::EndLoop
            } else {
                instrs[i as int] == BFCommand::EndLoop && instrs[jumps[i] as int]
                    == BFCommand::BeginLoop
            }
        } by {
            if i != here && i != partner {
                assert(before.contains_key(i));
                assert(before.contains_key(before[i]));
            }
        }
    } else {
        assert forall|i: usize|
            i < n + 1 && (instrs[i as int] == BFCommand::BeginLoop || instrs[i as int]
                == BFCommand::EndLoop) implies #[trigger] jumps.contains_key(i) || now.contains(
            i,
        ) by {}
    }
}

/// The jump table and the open loops are in order after any number of
/// instructions, as long as no closing lacked an opening.
pub proof fn lemma_loops_resolved(instrs: Seq<BFCommand>, n: nat)
    requires
        n <= instrs.len(),
        n <= usize::MAX,
        open_loops(instrs, n) is Some,
    ensures
        loops_resolved(instrs, n, jumps_after(instrs, n), open_loops(instrs, n)->0),
    decreases n,
{
    if n > 0 {
        lemma_loops_resolved(instrs, (n - 1) as nat);
        lemma_loops_resolved_step(instrs, (n - 1) as nat);
    }
}

/// How many loops of `instructions` are left open at their end, or `None`
/// where a closing has no opening.
pub fn check_loops(instructions: &[BFCommand]) -> (r: Option<usize>)
    ensures
        match open_loops(instructions@, instructions@.len()) {
            Some(open) => r == Some(open.len() as usize),
            None => r is None,
        },
        r == Some(0usize) <==> balanced(instructions@),
{
    let len = instructions.len();
    let mut depth: usize = 0;
    for i in 0..len
        invariant
            len == instructions@.len(),
            depth <= i,
            open_loops(instructions@, i as nat) matches Some(open) && open.len() == depth,
    {
        match instructions[i] {
            BFCommand::BeginLoop => {
                depth += 1;
            },
            BFCommand::EndLoop => {
                if depth == 0 {
                    proof {
                        lemma_unmatched_is_final(instructions@, (i + 1) as nat, len as nat);
                    }
                    return None;
                }
                depth -= 1;
            },
            _ => {},
        }
    }
    proof {
        let open = open_loops(instructions@, len as nat)->0;
        if open.len() == 0 {
            assert(open =~= Seq::<usize>::empty());
        }
    }
    Some(depth)
}

/// Instructions together with the table that pairs the ends of each loop.
pub struct Program {
    instructions: Vec<BFCommand>,
    tape_size: usize,
    jumps: HashMap<usize, usize>,
}

impl Program {
    /// The instructions of the program.
    pub closed spec fn code(&self) -> Seq<BFCommand> {
        self.instructions@
    }

    /// The number of cells of the tape that the program runs on.
    pub closed spec fn cells(&self) -> usize {
        self.tape_size
    }

    /// The jump table: for each end of a loop the index of its other end.
    pub closed spec fn jump_table(&self) -> Map<usize, usize> {
        self.jumps@
    }

    /// The jump table is that of the instructions.
    pub open spec fn wf(&self) -> bool {
        &&& open_loops(self.code(), self.code().len()) is Some
        &&& self.jump_table() == jumps_after(self.code(), self.code().len())
    }

    /// Resolves the loops of `instructions`: each closing is paired with
    /// the innermost opening that is still open. An opening that is never
    /// closed gets no entry.
    pub fn from_instructions(instructions: Vec<BFCommand>, tape_size: usize) -> (p: Self)
        requires
            open_loops(instructions@, instructions@.len()) is Some,
        ensures
            p.wf(),
            p.code() == instructions@,
            p.cells() == tape_size,
    {
        let mut jumps: HashMap<usize, usize> = HashMap::new();
        let mut jumps_backlog: Vec<usize> = Vec::new();
        let len = instructions.len();
        assert(jumps@ =~= jumps_after(instructions@, 0));
        for i in 0..len
            invariant
                len == instructions@.len(),
                open_loops(instructions@, len as nat) is Some,
                open_loops(instructions@, i as nat) == Some(jumps_backlog@),
                jumps@ == jumps_after(instructions@, i as nat),
        {
            proof {
                if open_loops(instructions@, (i + 1) as nat) is None {
                    lemma_unmatched_is_final(instructions@, (i + 1) as nat, len as nat);
                }
            }
            match instructions[i] {
                BFCommand::BeginLoop => {
                    jumps_backlog.push(i);
                },
                BFCommand::EndLoop => {
                    let other_i = jumps_backlog.pop().unwrap();
                    jumps.insert(other_i, i);
                    jumps.insert(i, other_i);
                },
                _ => {},
            }
        }
        Program { instructions, tape_size, jumps }
    }
}

/// Once a closing lacked an opening, it still does however far one reads.
pub proof fn lemma_unmatched_is_final(instrs: Seq<BFCommand>, n: nat, m: nat)
    requires
        n <= m,
        open_loops(instrs, n) is None,
    ensures
        open_loops(instrs, m) is None,
    decreases m,
{
    if n < m {
        lemma_unmatched_is_final(instrs, n, (m - 1) as nat);
    }
}

/// The state of the tape machine.
pub struct TapeState {
    /// The cells of the tape.
    pub tape: Seq<u8>,
    /// The cell under the head.
    pub pivot: nat,
    /// The index of the instruction that runs next.
    pub pc: nat,
}

/// What the machine asks of its surroundings after a step.
#[derive(Debug, Clone, Copy, PartialEq, Eq, Structural)]
pub enum Effect {
    /// Nothing: the instruction was run.
    Continue,
    /// The instruction was run, and this byte is to be written out.
    Output(u8),
    /// The instruction reads a byte: the machine waits for it.
    Input,
    /// The program has ended.
    Halt,
}

/// The cell one above `cell`, wrapping from 255 to 0.
pub open spec fn cell_up(cell: u8) -> u8 {
    if cell == 255 {
        0
    } else {
        (cell + 1) as u8
    }
}

/// The cell one below `cell`, wrapping from 0 to 255.
pub open spec fn cell_down(cell: u8) -> u8 {
    if cell == 0 {
        255
    } else {
        (cell - 1) as u8
    }
}

/// One step of the machine. The head wraps round the ends of the tape and
/// the cells wrap round their range. An opening jumps behind its closing
/// on a zero cell, a closing behind its opening on any other. An
/// instruction that reads leaves the state as it is until the byte comes;
/// past the last instruction the machine halts.
pub open spec fn execute(code: Seq<BFCommand>, jumps: Map<usize, usize>, st: TapeState) -> (
    TapeState,
    Effect,
) {
    if st.pc >= code.len() {
        (st, Effect::Halt)
    } else {
        let cell = st.tape[st.pivot as int];
        let next = st.pc + 1;
        match code[st.pc as int] {
            BFCommand::BeginLoop => (
                TapeState {
                    pc: if cell == 0 {
                        jumps[st.pc as usize] as nat + 1
                    } else {
                        next
                    },
                    ..st
                },
                Effect::Continue,
            ),
            BFCommand::EndLoop => (
                TapeState {
                    pc: if cell != 0 {
                        jumps[st.pc as usize] as nat + 1
                    } else {
                        next
                    },
                    ..st
                },
                Effect::Continue,
            ),
            BFCommand::Increment => (
                TapeState { tape: st.tape.update(st.pivot as int, cell_up(cell)), pc: next, ..st },
                Effect::Continue,
            ),
            BFCommand::Decrement => (
                TapeState {
                    tape: st.tape.update(st.pivot as int, cell_down(cell)),
                    pc: next,
                    ..st
                },
                Effect::Continue,
            ),
            BFCommand::Left => (
                TapeState {
                    pivot: if st.pivot == 0 {
                        (st.tape.len() - 1) as nat
                    } else {
                        (st.pivot - 1) as nat
                    },
                    pc: next,
                    ..st
                },
                Effect::Continue,
            ),
            BFCommand::Right => (
                TapeState {
                    pivot: if st.pivot == st.tape.len() - 1 {
                        0
                    } else {
                        st.pivot + 1
                    },
                    pc: next,
                    ..st
                },
                Effect::Continue,
            ),
            BFCommand::Print => (TapeState { pc: next, ..st }, Effect::Output(cell)),
            BFCommand::Read => (st, Effect::Input),
        }
    }
}

/// The state once the byte that an instruction waited for has come: the
/// cell under the head holds it, or 255 at the end of the input.
pub open spec fn supplied(st: TapeState, byte: Option<u8>) -> TapeState {
    let cell: u8 = match byte {
        Some(b) => b,
        None => 255,
    };
    TapeState { tape: st.tape.update(st.pivot as int, cell), pc: st.pc + 1, ..st }
}

impl Program {
    /// The program can be run: every loop is both opened and closed, so
    /// that each of its ends finds the other in the jump table.
    pub open spec fn runnable(&self) -> bool {
        &&& self.wf()
        &&& balanced(self.code())
        &&& self.cells() > 0
    }

    /// The number of cells of the tape.
    pub fn tape_size(&self) -> (n: usize)
        ensures
            n == self.cells(),
    {
        self.tape_size
    }

    /// The other end of the loop of which the instruction at `index` is
    /// one end.
    pub fn jump(&self, index: usize) -> (r: Option<usize>)
        ensures
            r == if self.jump_table().contains_key(index) {
                Some(self.jump_table()[index])
            } else {
                None
            },
    {
        match self.jumps.get(&index) {
            Some(other) => Some(*other),
            None => None,
        }
    }

    /// The instructions of the program.
    pub fn instructions(&self) -> (code: &Vec<BFCommand>)
        ensures
            code@ == self.code(),
    {
        &self.instructions
    }
}

/// A tape machine in the middle of a run.
pub struct Machine {
    tape: Vec<u8>,
    pivot: usize,
    instruction_i: usize,
}

impl View for Machine {
    type V = TapeState;

    closed spec fn view(&self) -> TapeState {
        TapeState {
            tape: self.tape@,
            pivot: self.pivot as nat,
            pc: self.instruction_i as nat,
        }
    }
}

impl Machine {
    /// The machine is one that runs `program`: the tape has its size, the
    /// head is on it and the next instruction is in the program or just
    /// behind it.
    pub open spec fn fits(&self, program: &Program) -> bool {
        &&& self@.tape.len() == program.cells()
        &&& self@.pivot < self@.tape.len()
        &&& self@.pc <= program.code().len()
    }

    /// A machine at the start of `program`, on a tape of zeros.
    pub fn new(program: &Program) -> (m: Self)
        requires
            program.runnable(),
        ensures
            m.fits(program),
            m@ == (TapeState {
                tape: Seq::new(program.cells() as nat, |i: int| 0u8),
                pivot: 0,
                pc: 0,
            }),
    {
        let tape = vec![0u8; program.tape_size];
        assert(tape@ =~= Seq::new(program.cells() as nat, |i: int| 0u8));
        Machine { tape, pivot: 0, instruction_i: 0 }
    }

    /// Runs the instruction under the program counter, unless it reads:
    /// then the machine waits for [`Machine::supply`].
    pub fn step(&mut self, program: &Program) -> (effect: Effect)
        requires
            program.runnable(),
            old(self).fits(program),
        ensures
            final(self).fits(program),
            final(self)@ == execute(program.code(), program.jump_table(), old(self)@).0,
            effect == execute(program.code(), program.jump_table(), old(self)@).1,
    {
        let pc = self.instruction_i;
        if pc >= program.instructions.len() {
            return Effect::Halt;
        }
        proof {
            lemma_loops_resolved(program.code(), program.code().len());
            let open = open_loops(program.code(), program.code().len())->0;
            assert(!open.contains(pc));
        }
        let cell = self.tape[self.pivot];
        match program.instructions[pc] {
            BFCommand::BeginLoop => {
                if cell == 0 {
                    self.instruction_i = *program.jumps.get(&pc).unwrap();
                }
                self.instruction_i += 1;
                Effect::Continue
            },
            BFCommand::EndLoop => {
                if cell != 0 {
                    self.instruction_i = *program.jumps.get(&pc).unwrap();
                }
                self.instruction_i += 1;
                Effect::Continue
            },
            BFCommand::Decrement => {
                self.tape.set(self.pivot, cell.wrapping_sub(1));
                self.instruction_i += 1;
                Effect::Continue
            },
            BFCommand::Left => {
                self.pivot = if self.pivot == 0 {
                    program.tape_size - 1
                } else {
                    self.pivot - 1
                };
                self.instruction_i += 1;
                Effect::Continue
            },
            BFCommand::Right => {
                self.pivot = if self.pivot == program.tape_size - 1 {
                    0
                } else {
                    self.pivot + 1
                };
                self.instruction_i += 1;
                Effect::Continue
            },
            BFCommand::Increment => {
                self.tape.set(self.pivot, cell.wrapping_add(1));
                self.instruction_i += 1;
                Effect::Continue
            },
            BFCommand::Print => {
                self.instruction_i += 1;
                Effect::Output(cell)
            },
            BFCommand::Read => Effect::Input,
        }
    }

    /// Hands the machine the byte that the instruction under the program
    /// counter reads, or `None` at the end of the input.
    pub fn supply(&mut self, program: &Program, byte: Option<u8>)
        requires
            program.runnable(),
            old(self).fits(program),
            old(self)@.pc < program.code().len(),
            program.code()[old(self)@.pc as int] == BFCommand::Read,
        ensures
            final(self).fits(program),
            final(self)@ == supplied(old(self)@, byte),
    {
        let cell: u8 = match byte {
            Some(b) => b,
            None => 255,
        };
        let len = program.instructions.len();
        assert(self.instruction_i < len);
        self.tape.set(self.pivot, cell);
        self.instruction_i += 1;
    }

    /// The tape as the machine has left it.
    pub fn into_tape(self) -> (tape: Vec<u8>)
        ensures
            tape@ == self@.tape,
    {
        self.tape
    }
}

} // verus!
