use vstd::prelude::*;

use crate::semirings::Semiring;
use crate::tr::Tr;
use crate::{StateId, EPS_LABEL};

verus! {

/// The mathematical model of an FST: an optional start state, for each state
/// `0..num_states` an optional final weight and its ordered sequence of transitions, and
/// the optional input and output symbol tables (metadata, by label).
pub struct FstModel<W> {
    pub start: Option<StateId>,
    pub finals: Seq<Option<W>>,
    pub trs: Seq<Seq<Tr<W>>>,
    pub isymt: Option<Seq<Seq<char>>>,
    pub osymt: Option<Seq<Seq<char>>>,
}

impl<W> FstModel<W> {
    pub open spec fn empty() -> Self {
        FstModel { start: None, finals: Seq::empty(), trs: Seq::empty(), isymt: None, osymt: None }
    }

    pub open spec fn num_states(self) -> nat {
        self.finals.len()
    }

    pub open spec fn is_state(self, s: int) -> bool {
        0 <= s < self.num_states()
    }

    /// Every transition leads to an existing state, and the start state exists.
    pub open spec fn wf(self) -> bool {
        &&& self.trs.len() == self.finals.len()
        &&& (self.start matches Some(s) ==> s < self.num_states())
        &&& forall|s: int, i: int|
            0 <= s < self.trs.len() && 0 <= i < self.trs[s].len() ==> (
            #[trigger] self.trs[s][i]).nextstate < self.num_states()
    }
}

/// A final weight makes its state final when it is present and not zero.
pub open spec fn is_final_weight<W: Semiring>(w: Option<W>) -> bool {
    w matches Some(x) && x != W::zero_spec()
}

/// The number of transitions of `trs` whose input label is epsilon.
pub open spec fn count_input_epsilons<W>(trs: Seq<Tr<W>>) -> nat
    decreases trs.len(),
{
    if trs.len() == 0 {
        0
    } else {
        count_input_epsilons(trs.drop_last()) + if trs.last().ilabel == EPS_LABEL {
            1nat
        } else {
            0nat
        }
    }
}

pub proof fn lemma_count_epsilons_bound<W>(trs: Seq<Tr<W>>)
    ensures
        count_input_epsilons(trs) <= trs.len(),
        count_output_epsilons(trs) <= trs.len(),
    decreases trs.len(),
{
    if trs.len() > 0 {
        lemma_count_epsilons_bound(trs.drop_last());
    }
}

/// The number of transitions of `trs` whose output label is epsilon.
pub open spec fn count_output_epsilons<W>(trs: Seq<Tr<W>>) -> nat
    decreases trs.len(),
{
    if trs.len() == 0 {
        0
    } else {
        count_output_epsilons(trs.drop_last()) + if trs.last().olabel == EPS_LABEL {
            1nat
        } else {
            0nat
        }
    }
}

} // verus!

verus! {

/// What iterating over an FST yields for one state: its id, its final weight, its
/// transitions and their number.
pub struct FstIterData<W, I> {
    pub state_id: StateId,
    pub final_weight: Option<W>,
    pub trs: I,
    pub num_trs: usize,
}

/// `r` lists the states of `f` in increasing order, each with its final weight and its
/// transitions in stored order.
pub open spec fn iterates_as<W>(r: Seq<FstIterData<W, Vec<Tr<W>>>>, f: FstModel<W>) -> bool {
    &&& r.len() == f.num_states()
    &&& forall|s: int|
        0 <= s < r.len() ==> {
            &&& (#[trigger] r[s]).state_id == s
            &&& r[s].final_weight == f.finals[s]
            &&& r[s].trs@ == f.trs[s]
            &&& r[s].num_trs == f.trs[s].len()
        }
}

/// Two iterations of the same FST model yield the same states, final weights and
/// transitions, whatever representation they came from.
pub proof fn lemma_same_model_same_iteration<W>(
    a: Seq<FstIterData<W, Vec<Tr<W>>>>,
    b: Seq<FstIterData<W, Vec<Tr<W>>>>,
    fa: FstModel<W>,
    fb: FstModel<W>,
)
    requires
        iterates_as(a, fa),
        iterates_as(b, fb),
        fa == fb,
    ensures
        a.len() == b.len(),
        forall|s: int|
            0 <= s < a.len() ==> (#[trigger] a[s]).state_id == b[s].state_id && a[s].final_weight
                == b[s].final_weight && a[s].trs@ == b[s].trs@ && a[s].num_trs == b[s].num_trs,
{
}

} // verus!
