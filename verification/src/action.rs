//! Pending actions: changes to the state of a match attempt that are
//! described first and applied only once the step that asked for them has
//! passed its check.

use crate::model::{register, MachineState};
use vstd::prelude::*;

verus! {

/// A change to the state of an attempt, not yet applied.
#[derive(Debug, PartialEq, Eq)]
pub enum MatchSMAction {
    /// Register a binding at `offset_from_last` from the last one.
    NewBinding { offset_from_last: isize, binding: usize },
    /// Move the cursor `amount` instructions on.
    AdvanceInput { amount: usize },
    /// Make `binding` the last resolved one.
    SetLastBinding { binding: usize },
    /// Apply the actions one after the other.
    Chain(Vec<MatchSMAction>),
}

/// The parts of the chain that `a.chain_with(b)` builds: two chains are
/// joined, a single action is put at the end of the chain it meets, and two
/// single actions stand in their order.
pub open spec fn chain_parts(a: MatchSMAction, b: MatchSMAction) -> Seq<MatchSMAction> {
    match (a, b) {
        (MatchSMAction::Chain(x), MatchSMAction::Chain(y)) => x@ + y@,
        (MatchSMAction::Chain(x), other) => x@.push(other),
        (other, MatchSMAction::Chain(y)) => y@.push(other),
        (first, second) => seq![first, second],
    }
}

/// The state after `action`.
pub open spec fn apply(st: MachineState, action: MatchSMAction) -> MachineState
    decreases action, 0nat,
{
    match action {
        MatchSMAction::NewBinding { offset_from_last, binding } => MachineState {
            registry: register(st.registry, st.last, binding, offset_from_last as int),
            ..st
        },
        MatchSMAction::AdvanceInput { amount } => MachineState {
            cursor: st.cursor + amount as nat,
            ..st
        },
        MatchSMAction::SetLastBinding { binding } => MachineState { last: Some(binding), ..st },
        MatchSMAction::Chain(chain) => apply_first(st, chain@, chain@.len()),
    }
}

/// The state after the first `n` of `actions`, applied in order.
pub open spec fn apply_first(st: MachineState, actions: Seq<MatchSMAction>, n: nat) -> MachineState
    decreases actions, n,
{
    if n == 0 || n > actions.len() {
        st
    } else {
        apply(apply_first(st, actions, (n - 1) as nat), actions[n - 1])
    }
}

/// Whether `action` may be applied in `st` during an attempt on `limit`
/// instructions: the cursor stays within them, a binding that becomes the
/// last one is known, the offsets of a new binding stay within the cursor
/// either way, and a binding with no last one to refer to is the first.
pub open spec fn applicable(st: MachineState, limit: nat, action: MatchSMAction) -> bool
    decreases action, 0nat,
{
    match action {
        MatchSMAction::NewBinding { offset_from_last, binding } => match st.last {
            Some(l) => forall|k: usize| #[trigger]
                st.registry.contains_key(k) ==> -st.cursor <= st.registry[l][k] + offset_from_last
                    <= st.cursor,
            None => forall|k: usize| !st.registry.contains_key(k),
        },
        MatchSMAction::AdvanceInput { amount } => st.cursor + amount <= limit,
        MatchSMAction::SetLastBinding { binding } => st.registry.contains_key(binding),
        MatchSMAction::Chain(chain) => applicable_first(st, limit, chain@, chain@.len()),
    }
}

/// Whether the first `n` of `actions` may be applied in order from `st`.
pub open spec fn applicable_first(
    st: MachineState,
    limit: nat,
    actions: Seq<MatchSMAction>,
    n: nat,
) -> bool
    decreases actions, n,
{
    if n == 0 || n > actions.len() {
        true
    } else {
        &&& applicable_first(st, limit, actions, (n - 1) as nat)
        &&& applicable(apply_first(st, actions, (n - 1) as nat), limit, actions[n - 1])
    }
}

impl MatchSMAction {
    /// The single actions that `self` applies in order: those of a chain,
    /// or `self` alone.
    pub open spec fn parts(self) -> Seq<MatchSMAction> {
        match self {
            MatchSMAction::Chain(chain) => chain@,
            single => seq![single],
        }
    }

    /// Chains `other` to `self`. The result is always a chain; see
    /// [`chain_parts`] for the order of its parts.
    pub fn chain_with(self, other: Self) -> (r: Self)
        ensures
            r matches MatchSMAction::Chain(parts) && parts@ == chain_parts(self, other),
    {
        match (self, other) {
            (MatchSMAction::Chain(mut a_chain), MatchSMAction::Chain(mut b_chain)) => {
                a_chain.append(&mut b_chain);
                MatchSMAction::Chain(a_chain)
            },
            (MatchSMAction::Chain(mut chain), other) => {
                chain.push(other);
                MatchSMAction::Chain(chain)
            },
            (other, MatchSMAction::Chain(mut chain)) => {
                chain.push(other);
                MatchSMAction::Chain(chain)
            },
            (a, b) => {
                let mut chain: Vec<MatchSMAction> = Vec::new();
                chain.push(a);
                chain.push(b);
                MatchSMAction::Chain(chain)
            },
        }
    }

    /// Chains `other` to `self` where there is one, else gives `self` back.
    pub fn optional_chain(self, other: Option<Self>) -> (r: Self)
        ensures
            match other {
                Some(o) => r matches MatchSMAction::Chain(parts) && parts@ == chain_parts(self, o),
                None => r == self,
            },
    {
        match other {
            Some(other) => self.chain_with(other),
            None => self,
        }
    }

    /// Chains two actions of which either may be missing: with both, `a`
    /// chained with `b`; with one, that one; with none, `None`.
    pub fn chain_optionals(a: Option<Self>, b: Option<Self>) -> (r: Option<Self>)
        ensures
            match (a, b) {
                (Some(x), Some(y)) => r matches Some(MatchSMAction::Chain(parts)) && parts@
                    == chain_parts(x, y),
                (Some(x), None) => r == Some(x),
                (None, Some(y)) => r == Some(y),
                (None, None) => r is None,
            },
    {
        match (a, b) {
            (Some(a), b) => Some(a.optional_chain(b)),
            (None, Some(b)) => Some(b),
            (None, None) => None,
        }
    }
}

} // verus!
