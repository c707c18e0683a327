//! Templates as trees: an item may be a group of items.

use crate::common::BFCommand;
use vstd::prelude::*;

verus! {

/// An item of a template that may hold groups.
#[derive(Debug)]
pub enum Pattern {
    /// A single instruction.
    Instruction(BFCommand),
    /// A single binding, by its index.
    Binding(usize),
    /// A group of items within the same scope.
    Group(Vec<Pattern>),
}

/// The items of the group that `a.extend(b)` builds: two groups are
/// joined, and of anything else the two stand side by side.
pub open spec fn extended(a: Pattern, b: Pattern) -> Seq<Pattern> {
    match (a, b) {
        (Pattern::Group(x), Pattern::Group(y)) => x@ + y@,
        (first, second) => seq![first, second],
    }
}

impl Pattern {
    /// Puts `other` behind `self` in one group.
    pub fn extend(self, other: Self) -> (r: Self)
        ensures
            r matches Pattern::Group(items) && items@ == extended(self, other),
    {
        match (self, other) {
            (Pattern::Group(mut a), Pattern::Group(mut b)) => {
                a.append(&mut b);
                Pattern::Group(a)
            },
            (a, b) => {
                let mut items: Vec<Pattern> = Vec::new();
                items.push(a);
                items.push(b);
                Pattern::Group(items)
            },
        }
    }

    /// Puts `b` behind `a` where there is an `a`, else gives `b` back.
    pub fn extend_optionally(a: Option<Self>, b: Self) -> (r: Self)
        ensures
            match a {
                None => r == b,
                Some(first) => r matches Pattern::Group(items) && items@ == extended(first, b),
            },
    {
        match a {
            None => b,
            Some(a) => a.extend(b),
        }
    }
}

} // verus!
