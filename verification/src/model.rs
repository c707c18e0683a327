//! The mathematical model of matching: movement runs, the registry of
//! relative offsets, one step per template item, a whole attempt, and the
//! greedy scan.

use crate::common::BFCommand;
use crate::pattern::Pattern;
use vstd::prelude::*;

verus! {

/// For each binding, its offset relative to every binding seen so far.
pub type Offsets = Map<usize, Map<usize, int>>;

/// The state of one match attempt.
pub struct MachineState {
    /// `registry[a][b]` is the position of `a` minus the position of `b`.
    pub registry: Offsets,
    /// How many instructions the attempt has consumed.
    pub cursor: nat,
    /// The binding that was resolved last.
    pub last: Option<usize>,
}

/// The state in which every attempt starts.
pub open spec fn initial_state() -> MachineState {
    MachineState { registry: Map::empty(), cursor: 0, last: None }
}

/// How many instructions equal to `dir` stand in a row from `at` on.
pub open spec fn run_length(instrs: Seq<BFCommand>, at: int, dir: BFCommand) -> nat
    decreases instrs.len() - at,
{
    if 0 <= at < instrs.len() && instrs[at] == dir {
        1 + run_length(instrs, at + 1, dir)
    } else {
        0
    }
}

/// The length of the movement run at `at`: the pointer moves from `at` on
/// that go the way of the first one; 0 where `at` holds no pointer move.
pub open spec fn movement_length(instrs: Seq<BFCommand>, at: int) -> nat {
    if 0 <= at < instrs.len() && instrs[at].is_move() {
        run_length(instrs, at, instrs[at])
    } else {
        0
    }
}

/// The signed length of the movement run at `at`: negative to the left.
pub open spec fn movement_offset(instrs: Seq<BFCommand>, at: int) -> int {
    if 0 <= at < instrs.len() && instrs[at] == BFCommand::Left {
        -(movement_length(instrs, at) as int)
    } else {
        movement_length(instrs, at) as int
    }
}

/// The row of a binding that is registered at `off` from `last`: its offset
/// to every known binding `k` is that of `last` to `k` plus `off`, and 0 to
/// itself.
pub open spec fn new_row(reg: Offsets, last: usize, binding: usize, off: int) -> Map<usize, int> {
    Map::new(
        |k: usize| reg.contains_key(k) || k == binding,
        |k: usize|
            if k == binding {
                0int
            } else {
                reg[last][k] + off
            },
    )
}

/// The registry after `binding` is registered at `off` from `last`. With no
/// `last` the binding gets its self-entry alone.
pub open spec fn register(reg: Offsets, last: Option<usize>, binding: usize, off: int) -> Offsets {
    match last {
        None => reg.insert(binding, Map::empty().insert(binding, 0int)),
        Some(l) => {
            let row = new_row(reg, l, binding, off);
            Map::new(
                |k: usize| reg.contains_key(k) || k == binding,
                |k: usize|
                    if k == binding {
                        row
                    } else {
                        reg[k].insert(binding, -row[k])
                    },
            )
        },
    }
}

/// Whether `binding` is seen for the first time: nothing was resolved yet,
/// or the registry does not know it.
pub open spec fn first_sighting(st: MachineState, binding: usize) -> bool {
    st.last is None || !st.registry.contains_key(binding)
}

/// A literal matches where the instruction under the cursor equals it.
pub open spec fn step_literal(st: MachineState, instrs: Seq<BFCommand>, lit: BFCommand) -> Option<
    MachineState,
> {
    if st.cursor < instrs.len() && instrs[st.cursor as int] == lit {
        Some(MachineState { cursor: st.cursor + 1, ..st })
    } else {
        None
    }
}

/// A binding consumes the movement run under the cursor. A strict binding
/// fails on an empty run; a known binding fails unless its recorded offset
/// to the last one equals the run's; a new binding is registered.
pub open spec fn step_binding(
    st: MachineState,
    instrs: Seq<BFCommand>,
    binding: usize,
    strict: bool,
) -> Option<MachineState> {
    let off = movement_offset(instrs, st.cursor as int);
    let cursor = st.cursor + movement_length(instrs, st.cursor as int);
    if strict && off == 0 {
        None
    } else if first_sighting(st, binding) {
        Some(
            MachineState {
                registry: register(st.registry, st.last, binding, off),
                cursor,
                last: Some(binding),
            },
        )
    } else if st.registry[binding][st.last->0] == off {
        Some(MachineState { registry: st.registry, cursor, last: Some(binding) })
    } else {
        None
    }
}

/// The state after one template item, or `None` where the item fails.
pub open spec fn step(st: MachineState, instrs: Seq<BFCommand>, item: Pattern) -> Option<
    MachineState,
> {
    match item {
        Pattern::Instruction(lit) => step_literal(st, instrs, lit),
        Pattern::Binding { index, strict } => step_binding(st, instrs, index, strict),
    }
}

/// The state after the first `n` items of the template, or `None` where one
/// of them fails.
pub open spec fn run_items(instrs: Seq<BFCommand>, items: Seq<Pattern>, n: nat) -> Option<
    MachineState,
>
    decreases n,
{
    if n == 0 {
        Some(initial_state())
    } else {
        match run_items(instrs, items, (n - 1) as nat) {
            None => None,
            Some(st) => step(st, instrs, items[n - 1]),
        }
    }
}

/// One match attempt at the start of `instrs`: the final state where every
/// item matches in order.
pub open spec fn attempt(instrs: Seq<BFCommand>, items: Seq<Pattern>) -> Option<MachineState> {
    run_items(instrs, items, items.len())
}

/// A match that the scan reports.
pub struct Found {
    /// Where in the scanned instructions the match starts.
    pub start: nat,
    /// The state in which its attempt ended.
    pub end: MachineState,
}

impl Found {
    /// How many instructions the match consumed.
    pub open spec fn consumed(self) -> nat {
        self.end.cursor
    }
}

/// How far the scan moves on after a match that consumed `consumed`: past
/// it, and by one instruction where it consumed none.
pub open spec fn advance_after(consumed: nat) -> nat {
    if consumed == 0 {
        1
    } else {
        consumed
    }
}

/// The matches that the greedy scan finds from `pos` on, left to right.
pub open spec fn scan_from(instrs: Seq<BFCommand>, items: Seq<Pattern>, pos: nat) -> Seq<Found>
    decreases
        if pos < instrs.len() {
            instrs.len() - pos
        } else {
            0
        },
{
    if pos >= instrs.len() {
        Seq::empty()
    } else {
        match attempt(instrs.skip(pos as int), items) {
            Some(end) => seq![Found { start: pos, end }] + scan_from(
                instrs,
                items,
                pos + advance_after(end.cursor),
            ),
            None => scan_from(instrs, items, pos + 1),
        }
    }
}

/// Every match of the template in `instrs`, as the scan reports them.
pub open spec fn scan(instrs: Seq<BFCommand>, items: Seq<Pattern>) -> Seq<Found> {
    scan_from(instrs, items, 0)
}

/// A match that a caller was handed, as it compares to the scan's: where it
/// starts, what it consumed and the offsets it carries.
pub open spec fn reported_as(
    commands: Seq<BFCommand>,
    offsets: Offsets,
    instrs: Seq<BFCommand>,
    found: Found,
) -> bool {
    &&& found.start + found.end.cursor <= instrs.len()
    &&& commands == instrs.subrange(found.start as int, (found.start + found.end.cursor) as int)
    &&& offsets == found.end.registry
}

/// What holds of the state of an attempt on `instrs` at every moment: the
/// registry is closed, antisymmetric and bounded by the cursor, and the
/// last binding is known.
pub open spec fn state_wf(st: MachineState, instrs: Seq<BFCommand>) -> bool {
    &&& st.cursor <= instrs.len()
    &&& st.last matches Some(l) ==> st.registry.contains_key(l)
    &&& offsets_closed(st.registry)
    &&& offsets_symmetric(st.registry)
    &&& offsets_bounded(st.registry, st.cursor as int)
}

/// What holds in addition between two template items: as long as no binding
/// was resolved, none is registered.
pub open spec fn between_items(st: MachineState) -> bool {
    st.last is None ==> forall|k: usize| !st.registry.contains_key(k)
}

/// Every row knows exactly the bindings that have a row.
pub open spec fn offsets_closed(reg: Offsets) -> bool {
    forall|a: usize, b: usize|
        reg.contains_key(a) ==> (#[trigger] reg[a].contains_key(b) <==> reg.contains_key(b))
}

/// The offset of `a` to `b` is the negation of that of `b` to `a`, and so
/// every binding is at 0 from itself.
pub open spec fn offsets_symmetric(reg: Offsets) -> bool {
    forall|a: usize, b: usize|
        reg.contains_key(a) && reg.contains_key(b) ==> #[trigger] reg[a][b] == -reg[b][a]
}

/// The offsets add up: from `a` to `c` it is as far as from `a` to `b` and
/// on from `b` to `c`, so that they are the differences of positions on
/// one line.
pub open spec fn offsets_additive(reg: Offsets) -> bool {
    forall|a: usize, b: usize, c: usize|
        reg.contains_key(a) && reg.contains_key(b) && reg.contains_key(c) ==> #[trigger] reg[a][b]
            + #[trigger] reg[b][c] == reg[a][c]
}

/// No offset is farther than `bound` either way.
pub open spec fn offsets_bounded(reg: Offsets, bound: int) -> bool {
    forall|a: usize, b: usize|
        reg.contains_key(a) && reg.contains_key(b) ==> -bound <= #[trigger] reg[a][b] <= bound
}

/// Registering a binding whose offsets stay within the cursor keeps the
/// state well formed.
pub proof fn lemma_register_keeps_wf(
    st: MachineState,
    instrs: Seq<BFCommand>,
    binding: usize,
    off: int,
)
    requires
        state_wf(st, instrs),
        match st.last {
            Some(l) => forall|k: usize| #[trigger]
                st.registry.contains_key(k) ==> -st.cursor <= st.registry[l][k] + off <= st.cursor,
            None => forall|k: usize| !st.registry.contains_key(k),
        },
    ensures
        state_wf(
            MachineState { registry: register(st.registry, st.last, binding, off), ..st },
            instrs,
        ),
{
    let old_reg = st.registry;
    let reg = register(old_reg, st.last, binding, off);
    let bound = st.cursor as int;
    match st.last {
        None => {
            assert forall|a: usize| #[trigger] reg.contains_key(a) implies a == binding by {
                assert(!old_reg.contains_key(a));
            }
        },
        Some(l) => {
            let row = new_row(old_reg, l, binding, off);
            assert(old_reg[l].contains_key(l));
            assert forall|a: usize, b: usize|
                reg.contains_key(a) implies (#[trigger] reg[a].contains_key(b)
                <==> reg.contains_key(b)) by {
                if a != binding {
                    assert(old_reg[a].contains_key(b) <==> old_reg.contains_key(b));
                }
            }
            assert forall|a: usize, b: usize| reg.contains_key(a) && reg.contains_key(b) implies (
            #[trigger] reg[a][b]) == -reg[b][a] && -bound <= reg[a][b] <= bound by {
                if a != binding && b != binding {
                    assert(old_reg[a][b] == -old_reg[b][a]);
                    assert(-bound <= old_reg[a][b] <= bound);
                } else if a != binding {
                    assert(old_reg.contains_key(a));
                } else if b != binding {
                    assert(old_reg.contains_key(b));
                }
            }
        },
    }
}

/// Once an item has failed, the attempt has failed.
pub proof fn lemma_failure_is_final(instrs: Seq<BFCommand>, items: Seq<Pattern>, n: nat, m: nat)
    requires
        n <= m,
        run_items(instrs, items, n) is None,
    ensures
        run_items(instrs, items, m) is None,
    decreases m,
{
    if n < m {
        lemma_failure_is_final(instrs, items, n, (m - 1) as nat);
    }
}

} // verus!
