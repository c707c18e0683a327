//! The match attempt and the scanner.

use crate::action::{applicable, applicable_first, apply, apply_first, MatchSMAction};
use crate::common::BFCommand;
use crate::model::{
    advance_after, attempt, between_items, first_sighting, initial_state,
    lemma_failure_is_final, lemma_register_keeps_wf, movement_length, movement_offset, new_row,
    offsets_bounded, offsets_closed, offsets_symmetric, register, reported_as, run_items,
    run_length, scan, scan_from, state_wf, step, step_binding, Found, MachineState, Offsets,
};
use crate::pattern::{Pattern, PatternScope};
use std::collections::HashMap;
use vstd::prelude::*;
use vstd::slice::slice_subrange;
use vstd::std_specs::hash::*;
use vstd::std_specs::iter::IteratorSpec;

verus! {

broadcast use vstd::std_specs::hash::group_hash_axioms;

/// The offsets that one row of a table holds.
pub open spec fn row_view(row: HashMap<usize, isize>) -> Map<usize, int> {
    Map::new(|b: usize| row@.contains_key(b), |b: usize| row@[b] as int)
}

/// The offsets that a two-level table holds, as mathematical maps.
pub open spec fn offsets_view(table: HashMap<usize, HashMap<usize, isize>>) -> Offsets {
    Map::new(|a: usize| table@.contains_key(a), |a: usize| row_view(table@[a]))
}

/// The keys of a table, each once, in the order in which the table hands
/// them out.
fn collect_keys(table: &HashMap<usize, HashMap<usize, isize>>) -> (keys: Vec<usize>)
    ensures
        keys@.no_duplicates(),
        forall|k: usize| keys@.contains(k) <==> table@.contains_key(k),
{
    let mut keys: Vec<usize> = Vec::new();
    let ghost handed = spec_keys_iter(table).remaining();
    for k in it: table.keys()
        invariant
            it.seq() == handed,
            keys@.len() == it.index(),
            forall|i: int| 0 <= i < keys@.len() ==> keys@[i] == *handed[i],
    {
        keys.push(*k);
    }
    proof {
        assert(keys@ =~= handed.unref());
        assert(handed.unref().to_set() == table@.dom());
        assert forall|k: usize| keys@.contains(k) <==> table@.contains_key(k) by {
            assert(handed.unref().to_set().contains(k) <==> handed.unref().contains(k));
        }
        assert forall|i: int, j: int| 0 <= i < j < keys@.len() implies keys@[i] != keys@[j] by {
            assert(handed[i] != handed[j]);
        }
    }
    keys
}

/// The row of a binding that is registered at `off` from `last`.
fn build_row(
    table: &HashMap<usize, HashMap<usize, isize>>,
    keys: &Vec<usize>,
    last: usize,
    binding: usize,
    off: isize,
) -> (row: HashMap<usize, isize>)
    requires
        forall|k: usize| keys@.contains(k) <==> table@.contains_key(k),
        table@.contains_key(last),
        forall|k: usize| table@.contains_key(k) ==> table@[last]@.contains_key(k),
        forall|k: usize|
            table@.contains_key(k) ==> isize::MIN < #[trigger] table@[last]@[k] + off
                <= isize::MAX,
    ensures
        row_view(row) == new_row(offsets_view(*table), last, binding, off as int),
{
    let mut row: HashMap<usize, isize> = HashMap::new();
    let from_last = table.get(&last).unwrap();
    for i in 0..keys.len()
        invariant
            table@.contains_key(last),
            from_last == table@[last],
            forall|k: usize| keys@.contains(k) <==> table@.contains_key(k),
            forall|k: usize| table@.contains_key(k) ==> from_last@.contains_key(k),
            forall|k: usize|
                table@.contains_key(k) ==> isize::MIN < #[trigger] from_last@[k] + off
                    <= isize::MAX,
            forall|j: int|
                0 <= j < i ==> row@.contains_key(#[trigger] keys@[j]) && row@[keys@[j]]
                    == from_last@[keys@[j]] + off,
            forall|k: usize|
                row@.contains_key(k) ==> exists|j: int| 0 <= j < i && #[trigger] keys@[j] == k,
    {
        let k = keys[i];
        assert(keys@.contains(k));
        let base = *from_last.get(&k).unwrap();
        row.insert(k, base + off);
    }
    let ghost filled = row@;
    row.insert(binding, 0);
    proof {
        let want = new_row(offsets_view(*table), last, binding, off as int);
        assert forall|k: usize| want.contains_key(k) implies #[trigger] row_view(row).contains_key(
            k,
        ) && row_view(row)[k] == want[k] by {
            if k != binding {
                assert(keys@.contains(k));
                let j = choose|j: int| 0 <= j < keys@.len() && keys@[j] == k;
                assert(filled.contains_key(keys@[j]));
            }
        }
        assert forall|k: usize| #[trigger] row_view(row).contains_key(k) implies want.contains_key(
            k,
        ) by {
            if k != binding {
                let j = choose|j: int| 0 <= j < keys@.len() && keys@[j] == k;
                assert(keys@.contains(keys@[j]));
            }
        }
        assert(row_view(row) =~= want);
    }
    row
}

/// Records in the row of every key the negated offset that `row` has to it.
fn add_reverse_edges(
    table: &mut HashMap<usize, HashMap<usize, isize>>,
    keys: &Vec<usize>,
    binding: usize,
    row: &HashMap<usize, isize>,
)
    requires
        keys@.no_duplicates(),
        forall|k: usize| keys@.contains(k) <==> old(table)@.contains_key(k),
        forall|k: usize|
            old(table)@.contains_key(k) ==> row@.contains_key(k) && row@[k] > isize::MIN,
    ensures
        final(table)@.dom() == old(table)@.dom(),
        forall|k: usize|
            old(table)@.contains_key(k) ==> (#[trigger] final(table)@[k])@ == old(table)@[k]@.insert(
                binding,
                (-row@[k]) as isize,
            ),
{
    let ghost before = table@;
    for i in 0..keys.len()
        invariant
            keys@.no_duplicates(),
            forall|k: usize| keys@.contains(k) <==> before.contains_key(k),
            forall|k: usize|
                before.contains_key(k) ==> row@.contains_key(k) && row@[k] > isize::MIN,
            table@.dom() == before.dom(),
            forall|j: int|
                0 <= j < i ==> (#[trigger] table@[keys@[j]])@ == before[keys@[j]]@.insert(
                    binding,
                    (-row@[keys@[j]]) as isize,
                ),
            forall|j: int| i <= j < keys@.len() ==> #[trigger] table@[keys@[j]] == before[keys@[j]],
    {
        let k = keys[i];
        assert(keys@.contains(k));
        let back = -*row.get(&k).unwrap();
        match table.remove(&k) {
            Some(mut inner) => {
                inner.insert(binding, back);
                table.insert(k, inner);
            },
            None => {},
        }
        assert(table@.dom() =~= before.dom());
    }
    proof {
        assert forall|k: usize| before.contains_key(k) implies (#[trigger] table@[k])@
            == before[k]@.insert(binding, (-row@[k]) as isize) by {
            assert(keys@.contains(k));
            let j = choose|j: int| 0 <= j < keys@.len() && keys@[j] == k;
            assert(table@[keys@[j]]@ == before[keys@[j]]@.insert(
                binding,
                (-row@[keys@[j]]) as isize,
            ));
        }
    }
}

/// Where the first `n` actions may be applied in order, so may every
/// shorter prefix.
proof fn lemma_applicable_prefixes(
    st: MachineState,
    limit: nat,
    actions: Seq<MatchSMAction>,
    n: nat,
)
    requires
        n <= actions.len(),
        applicable_first(st, limit, actions, n),
    ensures
        forall|m: nat| m <= n ==> applicable_first(st, limit, actions, m),
    decreases n,
{
    if n > 0 {
        lemma_applicable_prefixes(st, limit, actions, (n - 1) as nat);
    }
}

/// The single actions that a binding asks for, in order: consume the run
/// where there is one, register the binding where it is new, and make it
/// the last one.
pub open spec fn binding_actions(st: MachineState, instrs: Seq<BFCommand>, binding: usize) -> Seq<
    MatchSMAction,
> {
    let run = movement_length(instrs, st.cursor as int);
    let off = movement_offset(instrs, st.cursor as int);
    let advance = if run > 0 {
        seq![MatchSMAction::AdvanceInput { amount: run as usize }]
    } else {
        Seq::empty()
    };
    let record = if first_sighting(st, binding) {
        seq![MatchSMAction::NewBinding { offset_from_last: off as isize, binding }]
    } else {
        Seq::empty()
    };
    advance + record + seq![MatchSMAction::SetLastBinding { binding }]
}

/// The single actions that a template item asks for where it matches.
pub open spec fn item_actions(st: MachineState, instrs: Seq<BFCommand>, item: Pattern) -> Seq<
    MatchSMAction,
> {
    match item {
        Pattern::Instruction(_) => seq![MatchSMAction::AdvanceInput { amount: 1 }],
        Pattern::Binding { index, strict } => binding_actions(st, instrs, index),
    }
}

/// A match: the instructions that the template consumed, and the offset of
/// every binding to every other one.
pub struct MatchResult<'a> {
    pub commands: &'a [BFCommand],
    pub relative_offsets: HashMap<usize, HashMap<usize, isize>>,
}

/// The state of one match attempt on a slice of instructions.
pub struct MatchSM<'a> {
    instructions: &'a [BFCommand],
    registry: HashMap<usize, HashMap<usize, isize>>,
    offset: usize,
    last_binding: Option<usize>,
}

impl<'a> View for MatchSM<'a> {
    type V = MachineState;

    closed spec fn view(&self) -> MachineState {
        MachineState {
            registry: offsets_view(self.registry),
            cursor: self.offset as nat,
            last: self.last_binding,
        }
    }
}

impl<'a> MatchResult<'a> {
    /// The offsets of the match, as mathematical maps.
    pub open spec fn offsets(&self) -> Offsets {
        offsets_view(self.relative_offsets)
    }
}

/// Whether `results` are the matches `found`, one for one.
pub open spec fn reports(
    results: Seq<MatchResult>,
    instrs: Seq<BFCommand>,
    found: Seq<Found>,
) -> bool {
    &&& results.len() == found.len()
    &&& forall|i: int|
        0 <= i < results.len() ==> reported_as(
            (#[trigger] results[i]).commands@,
            results[i].offsets(),
            instrs,
            found[i],
        )
}

impl<'a> MatchSM<'a> {
    /// Every match of the template of `scope` in `instructions`, found by
    /// attempts at rising positions: after a match the scan goes on behind
    /// what the match consumed (one instruction on where it consumed
    /// none), after a failure one instruction on.
    pub fn find_all(instructions: &'a [BFCommand], scope: &PatternScope) -> (r: Vec<
        MatchResult<'a>,
    >)
        requires
            instructions@.len() <= isize::MAX,
        ensures
            reports(r@, instructions@, scan(instructions@, scope.patterns@)),
            forall|i: int|
                0 <= i < r.len() ==> offsets_closed((#[trigger] r[i]).offsets())
                    && offsets_symmetric(r[i].offsets()),
    {
        let len = instructions.len();
        let mut offset: usize = 0;
        let mut result: Vec<MatchResult<'a>> = Vec::new();
        let ghost items = scope.patterns@;
        let ghost mut found: Seq<Found> = Seq::empty();
        while offset < len
            invariant
                len == instructions@.len(),
                len <= isize::MAX,
                offset <= len,
                items == scope.patterns@,
                reports(result@, instructions@, found),
                scan(instructions@, items) == found + scan_from(
                    instructions@,
                    items,
                    offset as nat,
                ),
                forall|i: int|
                    0 <= i < result.len() ==> offsets_closed((#[trigger] result[i]).offsets())
                        && offsets_symmetric(result[i].offsets()),
            decreases len - offset,
        {
            let rest = slice_subrange(instructions, offset, len);
            assert(rest@ =~= instructions@.skip(offset as int));
            match Self::match_single(rest, scope) {
                Some(res) => {
                    let consumed = res.commands.len();
                    proof {
                        let end = attempt(rest@, items)->0;
                        let hit = Found { start: offset as nat, end };
                        assert(res.commands@ =~= instructions@.subrange(
                            offset as int,
                            offset + end.cursor,
                        ));
                        assert(found + (seq![hit] + scan_from(
                            instructions@,
                            items,
                            offset as nat + advance_after(end.cursor),
                        )) =~= found.push(hit) + scan_from(
                            instructions@,
                            items,
                            offset as nat + advance_after(end.cursor),
                        ));
                        found = found.push(hit);
                    }
                    result.push(res);
                    if consumed == 0 {
                        offset += 1;
                    } else {
                        offset += consumed;
                    }
                },
                None => {
                    offset += 1;
                },
            }
        }
        proof {
            assert(found + scan_from(instructions@, items, offset as nat) =~= found);
        }
        result
    }

    /// One attempt to match the template of `scope` at the start of
    /// `instructions`. A match carries the instructions that it consumed
    /// and the offsets between its bindings.
    pub fn match_single(instructions: &'a [BFCommand], scope: &PatternScope) -> (r: Option<
        MatchResult<'a>,
    >)
        requires
            instructions@.len() <= isize::MAX,
        ensures
            match attempt(instructions@, scope.patterns@) {
                None => r is None,
                Some(end) => r matches Some(m) && end.cursor <= instructions@.len() && m.commands@
                    == instructions@.take(end.cursor as int) && m.offsets() == end.registry,
            },
            r matches Some(m) ==> offsets_closed(m.offsets()) && offsets_symmetric(m.offsets()),
    {
        let mut machine = Self::new(instructions);
        let ghost items = scope.patterns@;
        for i in 0..scope.patterns.len()
            invariant
                items == scope.patterns@,
                machine.wf(),
                between_items(machine@),
                machine.instructions == instructions,
                run_items(instructions@, items, i as nat) == Some(machine@),
        {
            match machine.match_target(&scope.patterns[i]) {
                Some(Some(action)) => {
                    machine.run_action(action);
                },
                Some(None) => {},
                None => {
                    proof {
                        lemma_failure_is_final(instructions@, items, (i + 1) as nat, items.len());
                    }
                    return None;
                },
            }
        }
        let commands = slice_subrange(instructions, 0, machine.offset);
        Some(MatchResult { commands, relative_offsets: machine.registry })
    }

    /// The instructions that the attempt reads.
    pub closed spec fn input(&self) -> Seq<BFCommand> {
        self.instructions@
    }

    /// The state is one that an attempt can reach, and every offset that
    /// may arise fits the machine's signed word.
    pub closed spec fn wf(&self) -> bool {
        &&& state_wf(self@, self.instructions@)
        &&& self.instructions@.len() <= isize::MAX
    }

    /// A machine at the start of `instructions`, with nothing bound.
    pub fn new(instructions: &'a [BFCommand]) -> (m: Self)
        requires
            instructions@.len() <= isize::MAX,
        ensures
            m.wf(),
            m@ == initial_state(),
            m.input() == instructions@,
    {
        let m = MatchSM {
            instructions,
            registry: HashMap::new(),
            offset: 0,
            last_binding: None,
        };
        assert(m@.registry =~~= initial_state().registry);
        m
    }

    /// How many instructions the attempt has consumed.
    pub fn consumed(&self) -> (n: usize)
        ensures
            n == self@.cursor,
    {
        self.offset
    }

    /// The binding that was resolved last.
    pub fn last_binding(&self) -> (last: Option<usize>)
        ensures
            last == self@.last,
    {
        self.last_binding
    }

    /// The offset of binding `a` to binding `b`, where both are known.
    pub fn offset_between(&self, a: usize, b: usize) -> (r: Option<isize>)
        ensures
            match r {
                Some(off) => self@.registry.contains_key(a) && self@.registry[a].contains_key(b)
                    && self@.registry[a][b] == off,
                None => !(self@.registry.contains_key(a) && self@.registry[a].contains_key(b)),
            },
    {
        match self.registry.get(&a) {
            Some(row) => match row.get(&b) {
                Some(off) => Some(*off),
                None => None,
            },
            None => None,
        }
    }

    /// Registers `binding` at `offset_from_last` from the last binding.
    fn register_binding(&mut self, binding: usize, offset_from_last: isize)
        requires
            old(self).wf(),
            applicable(
                old(self)@,
                old(self).input().len(),
                MatchSMAction::NewBinding { offset_from_last, binding },
            ),
        ensures
            final(self).wf(),
            final(self)@ == apply(
                old(self)@,
                MatchSMAction::NewBinding { offset_from_last, binding },
            ),
            final(self).input() == old(self).input(),
    {
        let ghost before = self@;
        match self.last_binding {
            None => {
                let mut row: HashMap<usize, isize> = HashMap::new();
                row.insert(binding, 0);
                self.registry.insert(binding, row);
                assert(self@.registry =~~= register(
                    before.registry,
                    None,
                    binding,
                    offset_from_last as int,
                ));
            },
            Some(last) => {
                let keys = collect_keys(&self.registry);
                assert forall|k: usize| self.registry@.contains_key(k) implies isize::MIN
                    < #[trigger] self.registry@[last]@[k] + offset_from_last <= isize::MAX by {
                    assert(before.registry.contains_key(k));
                    assert(before.registry[last].contains_key(k));
                    assert(before.registry[last][k] == self.registry@[last]@[k]);
                }
                assert forall|k: usize|
                    self.registry@.contains_key(k) implies self.registry@[last]@.contains_key(k) by {
                    assert(before.registry[last].contains_key(k));
                }
                let row = build_row(&self.registry, &keys, last, binding, offset_from_last);
                assert forall|k: usize| self.registry@.contains_key(k) implies row@.contains_key(k)
                    && row@[k] > isize::MIN by {
                    assert(row_view(row).contains_key(k));
                    assert(row_view(row)[k] == row@[k]);
                    assert(before.registry.contains_key(k));
                }
                add_reverse_edges(&mut self.registry, &keys, binding, &row);
                self.registry.insert(binding, row);
                proof {
                    let off = offset_from_last as int;
                    let want = register(before.registry, Some(last), binding, off);
                    assert forall|a: usize| #[trigger]
                        want.contains_key(a) implies self@.registry[a] =~= want[a] by {
                        if a != binding {
                            assert(before.registry.contains_key(a));
                            assert(row_view(row).contains_key(a));
                        }
                    }
                    assert(self@.registry =~~= want);
                }
            },
        }
        proof {
            lemma_register_keeps_wf(before, self.instructions@, binding, offset_from_last as int);
        }
    }

    /// Applies `action` to the machine.
    pub fn run_action(&mut self, action: MatchSMAction)
        requires
            old(self).wf(),
            applicable(old(self)@, old(self).input().len(), action),
        ensures
            final(self).wf(),
            final(self)@ == apply(old(self)@, action),
            final(self).input() == old(self).input(),
        decreases action,
    {
        match action {
            MatchSMAction::AdvanceInput { amount } => {
                self.offset += amount;
            },
            MatchSMAction::SetLastBinding { binding } => {
                self.last_binding = Some(binding);
            },
            MatchSMAction::NewBinding { offset_from_last, binding } => {
                self.register_binding(binding, offset_from_last);
            },
            MatchSMAction::Chain(chain) => {
                let ghost before = self@;
                let ghost parts = chain@;
                let ghost limit = self.instructions@.len();
                proof {
                    lemma_applicable_prefixes(before, limit, parts, parts.len());
                }
                for part in it: chain
                    invariant
                        it.seq() == parts,
                        self.wf(),
                        self.instructions@ == old(self).instructions@,
                        limit == self.instructions@.len(),
                        self@ == apply_first(before, parts, it.index() as nat),
                        forall|m: nat|
                            m <= parts.len() ==> applicable_first(before, limit, parts, m),
                        decreases_to!(action => parts),
                {
                    assert(applicable_first(before, limit, parts, (it.index() + 1) as nat));
                    self.run_action(part);
                }
            },
        }
    }

    /// A literal matches where the instruction under the cursor equals it;
    /// the action then moves the cursor one instruction on.
    pub fn match_instruction(&self, instruction: BFCommand) -> (r: Option<MatchSMAction>)
        requires
            self.wf(),
        ensures
            r == if self@.cursor < self.input().len() && self.input()[self@.cursor as int]
                == instruction {
                Some(MatchSMAction::AdvanceInput { amount: 1 })
            } else {
                None
            },
    {
        if self.offset < self.instructions.len() && self.instructions[self.offset] == instruction {
            Some(MatchSMAction::AdvanceInput { amount: 1 })
        } else {
            None
        }
    }

    /// The signed length of the movement run under the cursor, and the
    /// action that consumes the run where there is one.
    pub fn calculate_offset(&self) -> (r: (isize, Option<MatchSMAction>))
        requires
            self.wf(),
        ensures
            r.0 == movement_offset(self.input(), self@.cursor as int),
            r.1 == if movement_length(self.input(), self@.cursor as int) == 0 {
                None
            } else {
                Some(
                    MatchSMAction::AdvanceInput {
                        amount: movement_length(self.input(), self@.cursor as int) as usize,
                    },
                )
            },
            self@.cursor + movement_length(self.input(), self@.cursor as int)
                <= self.input().len(),
    {
        let len = self.instructions.len();
        if self.offset >= len {
            return (0, None);
        }
        let direction = self.instructions[self.offset];
        if !(direction == BFCommand::Left || direction == BFCommand::Right) {
            return (0, None);
        }
        let mut local_offset: usize = 1;
        while self.offset + local_offset < len && self.instructions[self.offset + local_offset]
            == direction
            invariant
                len == self.instructions@.len(),
                len <= isize::MAX,
                1 <= local_offset,
                self.offset + local_offset <= len,
                run_length(self.instructions@, self.offset as int, direction) == local_offset
                    + run_length(
                    self.instructions@,
                    self.offset + local_offset,
                    direction,
                ),
            decreases len - local_offset,
        {
            local_offset += 1;
        }
        let run = local_offset as isize;
        let signed = if direction == BFCommand::Left {
            -run
        } else {
            run
        };
        (signed, Some(MatchSMAction::AdvanceInput { amount: local_offset }))
    }

    /// Decides whether `target` matches under the cursor, and with which
    /// action. Nothing is changed: the action is for the caller to apply.
    pub fn match_target(&self, target: &Pattern) -> (r: Option<Option<MatchSMAction>>)
        requires
            self.wf(),
            between_items(self@),
        ensures
            match step(self@, self.input(), *target) {
                None => r is None,
                Some(next) => {
                    &&& r matches Some(Some(action))
                    &&& action.parts() == item_actions(self@, self.input(), *target)
                    &&& action is Chain <==> action.parts().len() > 1
                    &&& applicable(self@, self.input().len(), action)
                    &&& apply(self@, action) == next
                    &&& between_items(next)
                },
            },
    {
        match target {
            Pattern::Instruction(instr) => {
                match self.match_instruction(*instr) {
                    Some(action) => Some(Some(action)),
                    None => None,
                }
            },
            Pattern::Binding { index, strict } => {
                let binding = *index;
                let (offt, a) = self.calculate_offset();
                if *strict && offt == 0 {
                    return None;
                }
                match self.match_binding(binding, offt) {
                    None => None,
                    Some(b) => {
                        let set_last = MatchSMAction::SetLastBinding { binding };
                        let action = match MatchSMAction::chain_optionals(a, b) {
                            Some(c) => c.chain_with(set_last),
                            None => set_last,
                        };
                        proof {
                            assert(action.parts() =~= binding_actions(
                                self@,
                                self.input(),
                                binding,
                            ));
                            self.lemma_binding_action(binding, *strict, action);
                        }
                        Some(Some(action))
                    },
                }
            },
        }
    }

    /// The action that a binding asks for leads to the state that the step
    /// of the model gives.
    proof fn lemma_binding_action(&self, binding: usize, strict: bool, action: MatchSMAction)
        requires
            self.wf(),
            between_items(self@),
            step_binding(self@, self.input(), binding, strict) is Some,
            action.parts() == binding_actions(self@, self.input(), binding),
            action is Chain <==> action.parts().len() > 1,
            self@.cursor + movement_length(self.input(), self@.cursor as int)
                <= self.input().len(),
        ensures
            applicable(self@, self.input().len(), action),
            apply(self@, action) == step_binding(self@, self.input(), binding, strict)->0,
            between_items(apply(self@, action)),
    {
        let st = self@;
        let instrs = self.input();
        let limit = instrs.len();
        let run = movement_length(instrs, st.cursor as int);
        let off = movement_offset(instrs, st.cursor as int);
        let parts = action.parts();
        let next = step_binding(st, instrs, binding, strict)->0;
        let moved = MachineState { cursor: st.cursor + run, ..st };
        let reg = st.registry;
        let bound = moved.cursor as int;
        assert(offsets_bounded(reg, bound)) by {
            assert forall|a: usize, b: usize|
                reg.contains_key(a) && reg.contains_key(b) implies -bound <= #[trigger] reg[a][b]
                <= bound by {
                assert(-st.cursor <= reg[a][b] <= st.cursor);
            }
        }
        let record = MatchSMAction::NewBinding { offset_from_last: off as isize, binding };
        if first_sighting(st, binding) {
            assert(applicable(moved, limit, record)) by {
                if let Some(l) = st.last {
                    assert forall|k: usize| #[trigger] reg.contains_key(k) implies -bound
                        <= reg[l][k] + off <= bound by {
                        assert(-st.cursor <= reg[l][k] <= st.cursor);
                    }
                }
            }
            lemma_register_keeps_wf(moved, instrs, binding, off);
        }
        let advance = MatchSMAction::AdvanceInput { amount: run as usize };
        let set_last = MatchSMAction::SetLastBinding { binding };
        if run > 0 && first_sighting(st, binding) {
            assert(parts =~= seq![advance, record, set_last]);
            assert(apply(st, advance) == moved);
        } else if run > 0 {
            assert(parts =~= seq![advance, set_last]);
            assert(apply(st, advance) == moved);
        } else if first_sighting(st, binding) {
            assert(parts =~= seq![record, set_last]);
            assert(moved == st);
        } else {
            assert(parts =~= seq![set_last]);
        }
        let s0 = apply_first(st, parts, 0);
        assert(s0 == st && applicable_first(st, limit, parts, 0));
        if let MatchSMAction::Chain(chain) = action {
            let s1 = apply_first(st, parts, 1);
            assert(s1 == apply(s0, parts[0]));
            assert(applicable(s0, limit, parts[0]));
            assert(applicable_first(st, limit, parts, 1));
            let s2 = apply_first(st, parts, 2);
            assert(s2 == apply(s1, parts[1]));
            assert(applicable(s1, limit, parts[1]));
            assert(applicable_first(st, limit, parts, 2));
            if parts.len() == 3 {
                let s3 = apply_first(st, parts, 3);
                assert(s3 == apply(s2, parts[2]));
                assert(s2.registry.contains_key(binding));
                assert(applicable(s2, limit, parts[2]));
                assert(applicable_first(st, limit, parts, 3));
                assert(s3 =~= next);
            } else {
                assert(s2 =~= next);
            }
        } else {
            assert(action == parts[0]);
            assert(apply(st, action) =~= next);
        }
    }

    /// Checks a binding that stands at `offset_from_last` from the last
    /// one. A first sighting asks for the binding to be registered; a known
    /// binding passes, with nothing to record, only where its recorded
    /// offset to the last one is `offset_from_last`.
    pub fn match_binding(&self, binding: usize, offset_from_last: isize) -> (r: Option<
        Option<MatchSMAction>,
    >)
        requires
            self.wf(),
        ensures
            r == if first_sighting(self@, binding) {
                Some(Some(MatchSMAction::NewBinding { offset_from_last, binding }))
            } else if self@.registry[binding][self@.last->0] == offset_from_last {
                Some(None)
            } else {
                None
            },
    {
        match self.last_binding {
            Some(last) => {
                match self.registry.get(&binding) {
                    None => Some(Some(MatchSMAction::NewBinding { offset_from_last, binding })),
                    Some(row) => {
                        assert(self@.registry[binding].contains_key(last));
                        match row.get(&last) {
                            Some(known) => {
                                if *known == offset_from_last {
                                    Some(None)
                                } else {
                                    None
                                }
                            },
                            None => None,
                        }
                    },
                }
            },
            None => Some(Some(MatchSMAction::NewBinding { offset_from_last, binding })),
        }
    }
}

} // verus!
