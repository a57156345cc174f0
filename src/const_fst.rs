use vstd::prelude::*;

use crate::error::FstError;
use crate::fst::{lemma_count_epsilons_bound, count_input_epsilons, count_output_epsilons, iterates_as, FstIterData, FstModel};
use crate::semirings::Semiring;
use crate::symbol_table::{copy_symt_opt, symt_opt_view, SymbolTable};
use crate::tr::Tr;
use crate::vector_fst::{copy_trs, copy_weight_opt, VectorFst};
use crate::StateId;

verus! {

/// The per-state record of a `ConstFst`: the final weight, the state's slice
/// `pos..pos + narcs` of the flat transition array, and its epsilon counts.
pub struct ConstState<W> {
    pub final_weight: Option<W>,
    pub pos: usize,
    pub narcs: usize,
    pub niepsilons: usize,
    pub noepsilons: usize,
}

/// The immutable FST: one flat array of transitions and a record per state.
pub struct ConstFst<W> {
    states: Vec<ConstState<W>>,
    trs: Vec<Tr<W>>,
    start_state: Option<StateId>,
    isymt: Option<SymbolTable>,
    osymt: Option<SymbolTable>,
}

impl<W> View for ConstFst<W> {
    type V = FstModel<W>;

    closed spec fn view(&self) -> FstModel<W> {
        FstModel {
            start: self.start_state,
            finals: self.states@.map_values(|c: ConstState<W>| c.final_weight),
            trs: Seq::new(
                self.states@.len(),
                |s: int|
                    self.trs@.subrange(
                        self.states@[s].pos as int,
                        self.states@[s].pos + self.states@[s].narcs,
                    ),
            ),
            isymt: symt_opt_view(self.isymt),
            osymt: symt_opt_view(self.osymt),
        }
    }
}

impl<W: Semiring> ConstFst<W> {
    /// The per-state slices tile the transition array in state order, the epsilon counts
    /// are exact, and the model is well formed.
    #[verifier::opaque]
    pub closed spec fn wf(&self) -> bool {
        &&& self@.wf()
        &&& forall|s: int|
            0 <= s < self.states@.len() ==> (#[trigger] self.states@[s]).pos + self.states@[s].narcs
                <= self.trs@.len()
        &&& (self.states@.len() == 0 ==> self.trs@.len() == 0)
        &&& (self.states@.len() > 0 ==> self.states@[0].pos == 0)
        &&& forall|s: int|
            0 <= s < self.states@.len() ==> {
                &&& (#[trigger] self.states@[s]).pos + self.states@[s].narcs == if s + 1
                    < self.states@.len() {
                    self.states@[s + 1].pos as int
                } else {
                    self.trs@.len() as int
                }
                &&& self.states@[s].niepsilons == count_input_epsilons(self@.trs[s])
                &&& self.states@[s].noepsilons == count_output_epsilons(self@.trs[s])
            }
    }

    proof fn lemma_wf(&self, s: int)
        requires
            self.wf(),
            0 <= s < self@.num_states(),
        ensures
            self@.wf(),
            self.states@[s].pos + self.states@[s].narcs <= self.trs@.len(),
            self@.trs[s].len() == self.states@[s].narcs,
            self@.trs[s] == self.trs@.subrange(
                self.states@[s].pos as int,
                self.states@[s].pos + self.states@[s].narcs,
            ),
            self.states@[s].niepsilons == count_input_epsilons(self@.trs[s]),
            self.states@[s].noepsilons == count_output_epsilons(self@.trs[s]),
    {
        reveal(ConstFst::wf);
        assert(self.states@[s] == self.states@[s]);
    }

    proof fn lemma_wf_model(&self)
        requires
            self.wf(),
        ensures
            self@.wf(),
            self@.finals.len() == self.states@.len(),
    {
        reveal(ConstFst::wf);
    }

    /// Freezes a `VectorFst`: concatenates the transitions of its states, in state order,
    /// into one array and records each state's slice and epsilon counts.
    pub fn from_vector_fst(fst: VectorFst<W>) -> (r: Self)
        requires
            fst@.wf(),
        ensures
            r.wf(),
            r@ == fst@,
    {
        let ghost f = fst@;
        let n = fst.num_states();
        let mut states: Vec<ConstState<W>> = Vec::new();
        let mut trs: Vec<Tr<W>> = Vec::new();
        let mut s: usize = 0;
        while s < n
            invariant
                f == fst@,
                f.wf(),
                n == f.num_states(),
                s <= n,
                states@.len() == s,
                forall|t: int|
                    0 <= t < s ==> {
                        &&& (#[trigger] states@[t]).final_weight == f.finals[t]
                        &&& states@[t].pos + states@[t].narcs <= trs@.len()
                        &&& trs@.subrange(states@[t].pos as int, states@[t].pos + states@[t].narcs)
                            == f.trs[t]
                        &&& states@[t].pos + states@[t].narcs == if t + 1 < s {
                            states@[t + 1].pos as int
                        } else {
                            trs@.len() as int
                        }
                        &&& states@[t].niepsilons == count_input_epsilons(f.trs[t])
                        &&& states@[t].noepsilons == count_output_epsilons(f.trs[t])
                    },
                s == 0 ==> trs@.len() == 0,
                s > 0 ==> states@[0].pos == 0,
            decreases n - s,
        {
            let otrs = fst.tr_iter(s).unwrap();
            let pos = trs.len();
            let ghost before = trs@;
            let mut i: usize = 0;
            while i < otrs.len()
                invariant
                    pos == before.len(),
                    i <= otrs@.len(),
                    trs@ == before + otrs@.take(i as int),
                decreases otrs@.len() - i,
            {
                trs.push(otrs[i].duplicate());
                assert(trs@ =~= before + otrs@.take(i + 1));
                i = i + 1;
            }
            assert(otrs@.take(otrs@.len() as int) =~= otrs@);
            assert(trs@.subrange(pos as int, pos + otrs@.len()) =~= otrs@);
            proof { lemma_count_epsilons_bound(f.trs[s as int]); }
            let niepsilons = fst.num_input_epsilons(s).unwrap();
            let noepsilons = fst.num_output_epsilons(s).unwrap();
            let final_weight = fst.final_weight(s).unwrap();
            let ghost old_states = states@;
            states.push(ConstState { final_weight, pos, narcs: otrs.len(), niepsilons, noepsilons });
            assert(forall|t: int| 0 <= t < s ==> states@[t] == old_states[t]);
            assert(states@[s as int].pos == before.len());
            assert forall|t: int| 0 <= t < s implies trs@.subrange(
                states@[t].pos as int,
                states@[t].pos + states@[t].narcs,
            ) == f.trs[t] by {
                assert(states@[t] == old_states[t]);
                assert(trs@.subrange(states@[t].pos as int, states@[t].pos + states@[t].narcs)
                    =~= before.subrange(states@[t].pos as int, states@[t].pos + states@[t].narcs));
            }
            s = s + 1;
        }
        let r = ConstFst {
            states,
            trs,
            start_state: fst.start(),
            isymt: fst.input_symbols(),
            osymt: fst.output_symbols(),
        };
        assert(r@.finals =~= f.finals);
        assert(r@.trs =~= f.trs);
        assert(r.wf()) by {
            reveal(ConstFst::wf);
        }
        r
    }

    /// The range of state ids, `0..num_states`.
    pub fn state_range(&self) -> (r: std::ops::Range<usize>)
        ensures
            r.start == 0,
            r.end == self@.num_states(),
    {
        0..self.states.len()
    }

    /// The range of positions in the transition array that `state` covers.
    pub fn tr_range(&self, state: &ConstState<W>) -> (r: std::ops::Range<usize>)
        requires
            state.pos + state.narcs <= usize::MAX,
        ensures
            r.start == state.pos,
            r.end == state.pos + state.narcs,
    {
        state.pos..state.pos + state.narcs
    }

    pub fn num_states(&self) -> (r: usize)
        ensures
            r == self@.num_states(),
    {
        self.states.len()
    }

    pub fn start(&self) -> (r: Option<StateId>)
        ensures
            r == self@.start,
    {
        self.start_state
    }

    /// A copy of the input symbol table, if any.
    pub fn input_symbols(&self) -> (r: Option<SymbolTable>)
        ensures
            symt_opt_view(r) == self@.isymt,
    {
        copy_symt_opt(&self.isymt)
    }

    /// A copy of the output symbol table, if any.
    pub fn output_symbols(&self) -> (r: Option<SymbolTable>)
        ensures
            symt_opt_view(r) == self@.osymt,
    {
        copy_symt_opt(&self.osymt)
    }

    /// The final weight of `s` (`None` when `s` is not final); fails when `s` is not a state.
    pub fn final_weight(&self, s: StateId) -> (r: Result<Option<W>, FstError>)
        ensures
            self@.is_state(s as int) ==> r == Ok::<Option<W>, FstError>(self@.finals[s as int]),
            !self@.is_state(s as int) ==> r == Err::<Option<W>, FstError>(FstError::NoSuchState(s)),
    {
        if s < self.states.len() {
            Ok(copy_weight_opt(&self.states[s].final_weight))
        } else {
            Err(FstError::NoSuchState(s))
        }
    }

    /// The number of transitions leaving `s`; fails when `s` is not a state.
    pub fn num_trs(&self, s: StateId) -> (r: Result<usize, FstError>)
        requires
            self.wf(),
        ensures
            self@.is_state(s as int) ==> r == Ok::<usize, FstError>(self@.trs[s as int].len() as usize),
            !self@.is_state(s as int) ==> r == Err::<usize, FstError>(FstError::NoSuchState(s)),
    {
        if s < self.states.len() {
            proof { self.lemma_wf(s as int); }
            Ok(self.states[s].narcs)
        } else {
            Err(FstError::NoSuchState(s))
        }
    }

    /// The transitions leaving `s`, in stored order; fails when `s` is not a state.
    pub fn tr_iter(&self, s: StateId) -> (r: Result<&[Tr<W>], FstError>)
        requires
            self.wf(),
        ensures
            self@.is_state(s as int) ==> r is Ok && r->Ok_0@ == self@.trs[s as int],
            !self@.is_state(s as int) ==> r == Err::<&[Tr<W>], FstError>(FstError::NoSuchState(s)),
    {
        if s < self.states.len() {
            proof { self.lemma_wf(s as int); }
            let total = self.trs.len();
            let state = &self.states[s];
            let range = self.tr_range(state);
            Ok(&self.trs.as_slice()[range])
        } else {
            Err(FstError::NoSuchState(s))
        }
    }

    /// The number of transitions leaving `s` with an epsilon input label, read from the
    /// state record; fails when `s` is not a state.
    pub fn num_input_epsilons(&self, s: StateId) -> (r: Result<usize, FstError>)
        requires
            self.wf(),
        ensures
            self@.is_state(s as int) ==> r == Ok::<usize, FstError>(
                count_input_epsilons(self@.trs[s as int]) as usize,
            ),
            !self@.is_state(s as int) ==> r == Err::<usize, FstError>(FstError::NoSuchState(s)),
    {
        if s < self.states.len() {
            proof { self.lemma_wf(s as int); }
            Ok(self.states[s].niepsilons)
        } else {
            Err(FstError::NoSuchState(s))
        }
    }

    /// The number of transitions leaving `s` with an epsilon output label, read from the
    /// state record; fails when `s` is not a state.
    pub fn num_output_epsilons(&self, s: StateId) -> (r: Result<usize, FstError>)
        requires
            self.wf(),
        ensures
            self@.is_state(s as int) ==> r == Ok::<usize, FstError>(
                count_output_epsilons(self@.trs[s as int]) as usize,
            ),
            !self@.is_state(s as int) ==> r == Err::<usize, FstError>(FstError::NoSuchState(s)),
    {
        if s < self.states.len() {
            proof { self.lemma_wf(s as int); }
            Ok(self.states[s].noepsilons)
        } else {
            Err(FstError::NoSuchState(s))
        }
    }

    /// Every state in increasing order with its final weight and a copy of its transitions.
    pub fn fst_iter(&self) -> (r: Vec<FstIterData<W, Vec<Tr<W>>>>)
        requires
            self.wf(),
        ensures
            iterates_as(r@, self@),
    {
        let n = self.states.len();
        proof { self.lemma_wf_model(); }
        let mut r: Vec<FstIterData<W, Vec<Tr<W>>>> = Vec::new();
        let mut s: usize = 0;
        while s < n
            invariant
                self.wf(),
                n == self@.num_states(),
                s <= n,
                r@.len() == s,
                forall|t: int|
                    0 <= t < s ==> {
                        &&& (#[trigger] r@[t]).state_id == t
                        &&& r@[t].final_weight == self@.finals[t]
                        &&& r@[t].trs@ == self@.trs[t]
                        &&& r@[t].num_trs == self@.trs[t].len()
                    },
            decreases n - s,
        {
            let slice = self.tr_iter(s).unwrap();
            let mut v: Vec<Tr<W>> = Vec::new();
            let mut i: usize = 0;
            while i < slice.len()
                invariant
                    i <= slice@.len(),
                    v@ == slice@.take(i as int),
                decreases slice@.len() - i,
            {
                v.push(slice[i].duplicate());
                assert(v@ =~= slice@.take(i + 1));
                i = i + 1;
            }
            assert(slice@.take(slice@.len() as int) =~= slice@);
            let num_trs = v.len();
            r.push(
                FstIterData {
                    state_id: s,
                    final_weight: self.final_weight(s).unwrap(),
                    trs: v,
                    num_trs,
                },
            );
            s = s + 1;
        }
        r
    }

    /// Consumes the FST into its states in increasing order, each with its final weight
    /// and transitions.
    pub fn fst_into_iter(self) -> (r: Vec<FstIterData<W, Vec<Tr<W>>>>)
        requires
            self.wf(),
        ensures
            iterates_as(r@, self@),
    {
        self.fst_iter()
    }
}

impl<W: Semiring> VectorFst<W> {
    /// Every state in increasing order with its final weight and a copy of its transitions.
    pub fn fst_iter(&self) -> (r: Vec<FstIterData<W, Vec<Tr<W>>>>)
        requires
            self@.wf(),
        ensures
            iterates_as(r@, self@),
    {
        let n = self.num_states();
        let mut r: Vec<FstIterData<W, Vec<Tr<W>>>> = Vec::new();
        let mut s: usize = 0;
        while s < n
            invariant
                self@.wf(),
                n == self@.num_states(),
                s <= n,
                r@.len() == s,
                forall|t: int|
                    0 <= t < s ==> {
                        &&& (#[trigger] r@[t]).state_id == t
                        &&& r@[t].final_weight == self@.finals[t]
                        &&& r@[t].trs@ == self@.trs[t]
                        &&& r@[t].num_trs == self@.trs[t].len()
                    },
            decreases n - s,
        {
            let v = copy_trs(self.tr_iter(s).unwrap());
            let num_trs = v.len();
            r.push(
                FstIterData {
                    state_id: s,
                    final_weight: self.final_weight(s).unwrap(),
                    trs: v,
                    num_trs,
                },
            );
            s = s + 1;
        }
        r
    }

    /// Consumes the FST into its states in increasing order, each with its final weight
    /// and transitions.
    pub fn fst_into_iter(self) -> (r: Vec<FstIterData<W, Vec<Tr<W>>>>)
        requires
            self@.wf(),
        ensures
            iterates_as(r@, self@),
    {
        self.fst_iter()
    }
}

} // verus!
