use vstd::prelude::*;

use crate::semirings::Semiring;
use crate::{Label, StateId};

verus! {

/// A transition: input label, output label, weight and destination state.
#[derive(Debug, PartialEq, Eq)]
pub struct Tr<W> {
    pub ilabel: Label,
    pub olabel: Label,
    pub weight: W,
    pub nextstate: StateId,
}

impl<W: Semiring> Tr<W> {
    /// Creates a transition from its four components.
    pub fn new(ilabel: Label, olabel: Label, weight: W, nextstate: StateId) -> (r: Self)
        ensures
            r == (Tr { ilabel, olabel, weight, nextstate }),
    {
        Tr { ilabel, olabel, weight, nextstate }
    }

    /// A copy of this transition, equal to it.
    pub fn duplicate(&self) -> (r: Self)
        ensures
            r == *self,
    {
        Tr {
            ilabel: self.ilabel,
            olabel: self.olabel,
            weight: self.weight.duplicate(),
            nextstate: self.nextstate,
        }
    }
}

} // verus!
