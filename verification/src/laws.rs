//! What holds of every attempt and of every scan.

use crate::common::BFCommand;
use crate::matching::{reports, MatchResult};
use crate::model::{
    advance_after, attempt, between_items, first_sighting, lemma_failure_is_final,
    lemma_register_keeps_wf, movement_length, movement_offset, offsets_additive, offsets_closed,
    offsets_symmetric, register, run_items, run_length, scan, scan_from, state_wf, step,
    step_binding, Found, MachineState,
};
use crate::pattern::Pattern;
use vstd::prelude::*;

verus! {

/// A run never reaches past the end of the instructions.
pub proof fn lemma_run_length_bound(instrs: Seq<BFCommand>, at: int, dir: BFCommand)
    requires
        0 <= at <= instrs.len(),
    ensures
        at + run_length(instrs, at, dir) <= instrs.len(),
    decreases instrs.len() - at,
{
    if at < instrs.len() && instrs[at] == dir {
        lemma_run_length_bound(instrs, at + 1, dir);
    }
}

/// The signed length of a movement run is its length, negated to the left,
/// and the run ends within the instructions.
pub proof fn lemma_movement_bound(instrs: Seq<BFCommand>, at: int)
    requires
        0 <= at <= instrs.len(),
    ensures
        at + movement_length(instrs, at) <= instrs.len(),
        movement_offset(instrs, at) == movement_length(instrs, at) || movement_offset(instrs, at)
            == -movement_length(instrs, at),
        movement_offset(instrs, at) == 0 <==> movement_length(instrs, at) == 0,
{
    if at < instrs.len() {
        lemma_run_length_bound(instrs, at, instrs[at]);
    }
}

/// A template item that matches leaves a state that an attempt can be in.
pub proof fn lemma_step_keeps_wf(st: MachineState, instrs: Seq<BFCommand>, item: Pattern)
    requires
        state_wf(st, instrs),
        between_items(st),
        step(st, instrs, item) is Some,
    ensures
        state_wf(step(st, instrs, item)->0, instrs),
        between_items(step(st, instrs, item)->0),
{
    let next = step(st, instrs, item)->0;
    match item {
        Pattern::Instruction(_) => {
            assert forall|a: usize, b: usize|
                next.registry.contains_key(a) && next.registry.contains_key(b) implies -next.cursor
                <= #[trigger] next.registry[a][b] <= next.cursor by {
                assert(-st.cursor <= st.registry[a][b] <= st.cursor);
            }
        },
        Pattern::Binding { index, strict } => {
            lemma_movement_bound(instrs, st.cursor as int);
            let off = movement_offset(instrs, st.cursor as int);
            let moved = MachineState {
                cursor: st.cursor + movement_length(instrs, st.cursor as int),
                ..st
            };
            let reg = st.registry;
            let bound = moved.cursor as int;
            assert forall|a: usize, b: usize|
                reg.contains_key(a) && reg.contains_key(b) implies -bound <= #[trigger] reg[a][b]
                <= bound by {
                assert(-st.cursor <= reg[a][b] <= st.cursor);
            }
            if first_sighting(st, index) {
                if let Some(l) = st.last {
                    assert forall|k: usize| #[trigger] reg.contains_key(k) implies -bound
                        <= reg[l][k] + off <= bound by {
                        assert(-st.cursor <= reg[l][k] <= st.cursor);
                    }
                }
                lemma_register_keeps_wf(moved, instrs, index, off);
            }
        },
    }
}

/// The state after any number of matching items is one that an attempt can
/// be in.
pub proof fn lemma_run_keeps_wf(instrs: Seq<BFCommand>, items: Seq<Pattern>, n: nat)
    requires
        run_items(instrs, items, n) is Some,
    ensures
        state_wf(run_items(instrs, items, n)->0, instrs),
        between_items(run_items(instrs, items, n)->0),
    decreases n,
{
    if n > 0 {
        lemma_run_keeps_wf(instrs, items, (n - 1) as nat);
        lemma_step_keeps_wf(run_items(instrs, items, (n - 1) as nat)->0, instrs, items[n - 1]);
    }
}

/// Symmetry: in the offsets of a match, every binding is at 0 from itself,
/// the offset of `a` to `b` is the negation of that of `b` to `a`, and each
/// binding has an offset to each other one.
pub proof fn law_match_offsets_symmetric(instrs: Seq<BFCommand>, items: Seq<Pattern>)
    requires
        attempt(instrs, items) is Some,
    ensures
        ({
            let offsets = attempt(instrs, items)->0.registry;
            &&& offsets_closed(offsets)
            &&& offsets_symmetric(offsets)
            &&& forall|a: usize| offsets.contains_key(a) ==> #[trigger] offsets[a][a] == 0
            &&& forall|a: usize, b: usize|
                offsets.contains_key(a) && offsets.contains_key(b) ==> offsets[a].contains_key(b)
                    && #[trigger] offsets[a][b] == -offsets[b][a]
        }),
{
    lemma_run_keeps_wf(instrs, items, items.len());
    let offsets = attempt(instrs, items)->0.registry;
    assert forall|a: usize| offsets.contains_key(a) implies #[trigger] offsets[a][a] == 0 by {
        assert(offsets[a][a] == -offsets[a][a]);
    }
    assert forall|a: usize, b: usize|
        offsets.contains_key(a) && offsets.contains_key(b) implies offsets[a].contains_key(b)
        && #[trigger] offsets[a][b] == -offsets[b][a] by {
        assert(offsets[a].contains_key(b) <==> offsets.contains_key(b));
    }
}

/// Symmetry holds of every match that a scan reports.
pub proof fn law_scan_offsets_symmetric(instrs: Seq<BFCommand>, items: Seq<Pattern>, pos: nat)
    ensures
        forall|i: int|
            0 <= i < scan_from(instrs, items, pos).len() ==> {
                let offsets = (#[trigger] scan_from(instrs, items, pos)[i]).end.registry;
                offsets_closed(offsets) && offsets_symmetric(offsets)
            },
    decreases
        if pos < instrs.len() {
            instrs.len() - pos
        } else {
            0
        },
{
    if pos < instrs.len() {
        match attempt(instrs.skip(pos as int), items) {
            Some(end) => {
                law_match_offsets_symmetric(instrs.skip(pos as int), items);
                law_scan_offsets_symmetric(instrs, items, pos + advance_after(end.cursor));
            },
            None => {
                law_scan_offsets_symmetric(instrs, items, pos + 1);
            },
        }
    }
}

/// A template item that matches keeps the offsets additive.
pub proof fn lemma_step_keeps_additive(st: MachineState, instrs: Seq<BFCommand>, item: Pattern)
    requires
        state_wf(st, instrs),
        between_items(st),
        offsets_additive(st.registry),
        step(st, instrs, item) is Some,
    ensures
        offsets_additive(step(st, instrs, item)->0.registry),
{
    let next = step(st, instrs, item)->0;
    if let Pattern::Binding { index, strict } = item {
        if first_sighting(st, index) {
            let reg = st.registry;
            let new = next.registry;
            let off = movement_offset(instrs, st.cursor as int);
            match st.last {
                None => {
                    assert forall|a: usize, b: usize, c: usize|
                        new.contains_key(a) && new.contains_key(b) && new.contains_key(
                            c,
                        ) implies #[trigger] new[a][b] + #[trigger] new[b][c] == new[a][c] by {
                        assert(!reg.contains_key(a));
                    }
                },
                Some(l) => {
                    assert(reg[l].contains_key(l));
                    assert(reg[l][l] == -reg[l][l]);
                    assert forall|a: usize, b: usize, c: usize|
                        new.contains_key(a) && new.contains_key(b) && new.contains_key(
                            c,
                        ) implies #[trigger] new[a][b] + #[trigger] new[b][c] == new[a][c] by {
                        if a != index {
                            assert(reg[l][a] + reg[a][l] == reg[l][l]);
                        }
                        if b != index {
                            assert(reg[l][b] + reg[b][l] == reg[l][l]);
                        }
                        if c != index {
                            assert(reg[l][c] + reg[c][l] == reg[l][l]);
                        }
                        if a != index && b != index {
                            assert(reg[l][a] + reg[a][b] == reg[l][b]);
                        }
                        if b != index && c != index {
                            assert(reg[l][b] + reg[b][c] == reg[l][c]);
                        }
                        if a != index && c != index {
                            assert(reg[l][a] + reg[a][c] == reg[l][c]);
                        }
                        if a != index && b != index && c != index {
                            assert(reg[a][b] + reg[b][c] == reg[a][c]);
                        }
                    }
                },
            }
        }
    }
}

/// The offsets after any number of matching items are additive.
pub proof fn lemma_run_keeps_additive(instrs: Seq<BFCommand>, items: Seq<Pattern>, n: nat)
    requires
        run_items(instrs, items, n) is Some,
    ensures
        offsets_additive(run_items(instrs, items, n)->0.registry),
    decreases n,
{
    if n > 0 {
        lemma_run_keeps_additive(instrs, items, (n - 1) as nat);
        lemma_run_keeps_wf(instrs, items, (n - 1) as nat);
        lemma_step_keeps_additive(
            run_items(instrs, items, (n - 1) as nat)->0,
            instrs,
            items[n - 1],
        );
    }
}

/// Geometry: the offsets of a match are those of points on one line. From
/// `a` to `c` it is as far as from `a` to `b` and on from `b` to `c`.
pub proof fn law_match_offsets_additive(
    instrs: Seq<BFCommand>,
    items: Seq<Pattern>,
    a: usize,
    b: usize,
    c: usize,
)
    requires
        attempt(instrs, items) matches Some(end) && end.registry.contains_key(a)
            && end.registry.contains_key(b) && end.registry.contains_key(c),
    ensures
        attempt(instrs, items)->0.registry[a][b] + attempt(instrs, items)->0.registry[b][c]
            == attempt(instrs, items)->0.registry[a][c],
{
    lemma_run_keeps_additive(instrs, items, items.len());
}

/// Determinism: two result lists that both report the scan of the same
/// instructions with the same template agree match for match, in order.
pub proof fn law_scan_deterministic(
    instrs: Seq<BFCommand>,
    items: Seq<Pattern>,
    first: Seq<MatchResult>,
    second: Seq<MatchResult>,
)
    requires
        reports(first, instrs, scan(instrs, items)),
        reports(second, instrs, scan(instrs, items)),
    ensures
        first.len() == second.len(),
        forall|i: int|
            0 <= i < first.len() ==> (#[trigger] first[i]).commands@ == second[i].commands@
                && first[i].offsets() == second[i].offsets(),
{
}

/// What one template item consumes under `cursor`: a literal one
/// instruction, a binding the movement run that stands there.
pub open spec fn item_length(instrs: Seq<BFCommand>, item: Pattern, cursor: nat) -> nat {
    match item {
        Pattern::Instruction(_) => 1,
        Pattern::Binding { .. } => movement_length(instrs, cursor as int),
    }
}

/// What the first `n` items consume together, each from where the one
/// before it ended.
pub open spec fn consumed_by(instrs: Seq<BFCommand>, items: Seq<Pattern>, n: nat) -> nat
    decreases n,
{
    if n == 0 {
        0
    } else {
        let before = consumed_by(instrs, items, (n - 1) as nat);
        before + item_length(instrs, items[n - 1], before)
    }
}

/// Consumed length: where the first `n` items match, the cursor has moved
/// by 1 for each literal and by the length of its movement run for each
/// binding.
pub proof fn law_consumed_length(instrs: Seq<BFCommand>, items: Seq<Pattern>, n: nat)
    requires
        run_items(instrs, items, n) is Some,
    ensures
        run_items(instrs, items, n)->0.cursor == consumed_by(instrs, items, n),
        consumed_by(instrs, items, n) <= instrs.len(),
    decreases n,
{
    lemma_run_keeps_wf(instrs, items, n);
    if n > 0 {
        law_consumed_length(instrs, items, (n - 1) as nat);
    }
}

/// Strict bindings: a strict binding fails wherever the movement run under
/// the cursor is empty, whatever the registry holds.
pub proof fn law_strict_binding(st: MachineState, instrs: Seq<BFCommand>, binding: usize)
    requires
        movement_offset(instrs, st.cursor as int) == 0,
    ensures
        step(st, instrs, Pattern::Binding { index: binding, strict: true }) is None,
{
}

/// Strict bindings in a match: each of them consumed at least one pointer
/// move.
pub proof fn law_strict_binding_moves(instrs: Seq<BFCommand>, items: Seq<Pattern>, i: int)
    requires
        attempt(instrs, items) is Some,
        0 <= i < items.len(),
        items[i] matches Pattern::Binding { strict, .. } && strict,
    ensures
        run_items(instrs, items, i as nat) matches Some(st) && movement_length(
            instrs,
            st.cursor as int,
        ) > 0,
{
    if run_items(instrs, items, (i + 1) as nat) is None {
        lemma_failure_is_final(instrs, items, (i + 1) as nat, items.len());
    }
    let st = run_items(instrs, items, i as nat)->0;
    lemma_run_keeps_wf(instrs, items, i as nat);
    lemma_movement_bound(instrs, st.cursor as int);
}

/// First sighting: a binding that the registry does not know matches
/// (unless it is strict on an empty run), whatever was bound before. It is
/// registered at 0 from itself and at the run's offset from the last
/// binding, and that is all that the earlier bindings have to say.
pub proof fn law_first_sighting(
    st: MachineState,
    instrs: Seq<BFCommand>,
    binding: usize,
    strict: bool,
)
    requires
        state_wf(st, instrs),
        !st.registry.contains_key(binding),
        !(strict && movement_offset(instrs, st.cursor as int) == 0),
    ensures
        step_binding(st, instrs, binding, strict) matches Some(next) && {
            let off = movement_offset(instrs, st.cursor as int);
            &&& next.registry == register(st.registry, st.last, binding, off)
            &&& next.last == Some(binding)
            &&& next.registry.contains_key(binding)
            &&& next.registry[binding][binding] == 0
            &&& st.last matches Some(l) ==> next.registry[binding][l] == off
                && next.registry[l][binding] == -off
        },
{
    if let Some(l) = st.last {
        assert(st.registry[l].contains_key(l));
        assert(st.registry[l][l] == -st.registry[l][l]);
    }
}

/// Every match that the scan reports from `pos` on starts at `pos` or
/// later and ends within the instructions, and each starts where the one
/// before it ended or later.
pub proof fn lemma_scan_from_ordered(instrs: Seq<BFCommand>, items: Seq<Pattern>, pos: nat)
    ensures
        forall|i: int|
            0 <= i < scan_from(instrs, items, pos).len() ==> pos <= (#[trigger] scan_from(
                instrs,
                items,
                pos,
            )[i]).start && scan_from(instrs, items, pos)[i].start + scan_from(
                instrs,
                items,
                pos,
            )[i].consumed() <= instrs.len(),
        forall|i: int|
            0 <= i && i + 1 < scan_from(instrs, items, pos).len() ==> (#[trigger] scan_from(
                instrs,
                items,
                pos,
            )[i]).start + scan_from(instrs, items, pos)[i].consumed() <= scan_from(
                instrs,
                items,
                pos,
            )[i + 1].start,
    decreases
        if pos < instrs.len() {
            instrs.len() - pos
        } else {
            0
        },
{
    if pos < instrs.len() {
        let rest = instrs.skip(pos as int);
        match attempt(rest, items) {
            Some(end) => {
                lemma_run_keeps_wf(rest, items, items.len());
                let next = pos + advance_after(end.cursor);
                lemma_scan_from_ordered(instrs, items, next);
                let tail = scan_from(instrs, items, next);
                let all = scan_from(instrs, items, pos);
                assert(all == seq![Found { start: pos, end }] + tail);
                assert forall|i: int| 0 <= i < all.len() implies pos <= (#[trigger] all[i]).start
                    && all[i].start + all[i].consumed() <= instrs.len() by {
                    if i > 0 {
                        assert(all[i] == tail[i - 1]);
                    }
                }
                assert forall|i: int| 0 <= i && i + 1 < all.len() implies (#[trigger] all[i]).start
                    + all[i].consumed() <= all[i + 1].start by {
                    assert(all[i + 1] == tail[i]);
                    if i > 0 {
                        assert(all[i] == tail[i - 1]);
                    }
                }
            },
            None => {
                lemma_scan_from_ordered(instrs, items, pos + 1);
            },
        }
    }
}

/// Non-overlap: of two consecutive matches of one scan, the second starts
/// at or behind the end of what the first consumed.
pub proof fn law_scan_non_overlapping(instrs: Seq<BFCommand>, items: Seq<Pattern>, i: int)
    requires
        0 <= i,
        i + 1 < scan(instrs, items).len(),
    ensures
        scan(instrs, items)[i].start + scan(instrs, items)[i].consumed() <= scan(
            instrs,
            items,
        )[i + 1].start,
        scan(instrs, items)[i + 1].start + scan(instrs, items)[i + 1].consumed() <= instrs.len(),
{
    lemma_scan_from_ordered(instrs, items, 0);
}

} // verus!
