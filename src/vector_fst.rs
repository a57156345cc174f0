use vstd::prelude::*;

use crate::error::FstError;
use crate::connect::{is_restriction, restrict};
use crate::fst::{count_input_epsilons, count_output_epsilons, is_final_weight, FstModel};
use crate::semirings::Semiring;
use crate::symbol_table::{copy_symt_opt, symt_opt_view, SymbolTable};
use crate::tr::Tr;
use crate::{StateId, EPS_LABEL};

verus! {

/// The mutable FST: per state, an optional final weight and a vector of transitions
/// kept in insertion order.
pub struct VectorFst<W> {
    finals: Vec<Option<W>>,
    trs: Vec<Vec<Tr<W>>>,
    start_state: Option<StateId>,
    isymt: Option<SymbolTable>,
    osymt: Option<SymbolTable>,
}

impl<W> View for VectorFst<W> {
    type V = FstModel<W>;

    closed spec fn view(&self) -> FstModel<W> {
        FstModel {
            start: self.start_state,
            finals: self.finals@,
            trs: self.trs@.map_values(|v: Vec<Tr<W>>| v@),
            isymt: symt_opt_view(self.isymt),
            osymt: symt_opt_view(self.osymt),
        }
    }
}

/// The transitions of `trs` whose index is not in `del`, in order.
pub open spec fn trs_without<W>(trs: Seq<Tr<W>>, del: Seq<usize>) -> Seq<Tr<W>>
    decreases trs.len(),
{
    if trs.len() == 0 {
        Seq::empty()
    } else {
        trs_without(trs.drop_last(), del) + if del.contains((trs.len() - 1) as usize) {
            Seq::<Tr<W>>::empty()
        } else {
            seq![trs.last()]
        }
    }
}

/// `del` is strictly increasing and its entries are below `n`.
pub open spec fn sorted_indices(del: Seq<usize>, n: nat) -> bool {
    &&& forall|k: int| 0 <= k < del.len() ==> #[trigger] del[k] < n
    &&& forall|a: int, b: int| 0 <= a < b < del.len() ==> #[trigger] del[a] < #[trigger] del[b]
}

/// Copies a vector of transitions.
pub fn copy_trs<W: Semiring>(trs: &Vec<Tr<W>>) -> (r: Vec<Tr<W>>)
    ensures
        r@ == trs@,
{
    let mut r: Vec<Tr<W>> = Vec::with_capacity(trs.len());
    let mut i: usize = 0;
    while i < trs.len()
        invariant
            i <= trs@.len(),
            r@ == trs@.subrange(0, i as int),
        decreases trs@.len() - i,
    {
        r.push(trs[i].duplicate());
        i = i + 1;
    }
    assert(r@ =~= trs@);
    r
}

/// Copies an optional weight.
pub fn copy_weight_opt<W: Semiring>(w: &Option<W>) -> (r: Option<W>)
    ensures
        r == *w,
{
    match w {
        Some(w) => Some(w.duplicate()),
        None => None,
    }
}

/// The transitions of `trs` with every destination moved up by `offset`.
pub open spec fn shifted_trs<W>(trs: Seq<Tr<W>>, offset: int) -> Seq<Tr<W>> {
    Seq::new(
        trs.len(),
        |i: int| Tr { nextstate: (trs[i].nextstate + offset) as usize, ..trs[i] },
    )
}

impl<W: Semiring> VectorFst<W> {
    /// Builds an FST from its start state, final weights, per-state transitions and
    /// symbol tables.
    pub fn from_parts(
        start: Option<StateId>,
        finals: Vec<Option<W>>,
        trs: Vec<Vec<Tr<W>>>,
        isymt: Option<SymbolTable>,
        osymt: Option<SymbolTable>,
    ) -> (r: Self)
        requires
            (FstModel {
                start: start,
                finals: finals@,
                trs: trs@.map_values(|v: Vec<Tr<W>>| v@),
                isymt: symt_opt_view(isymt),
                osymt: symt_opt_view(osymt),
            }).wf(),
        ensures
            r@ == (FstModel {
                start: start,
                finals: finals@,
                trs: trs@.map_values(|v: Vec<Tr<W>>| v@),
                isymt: symt_opt_view(isymt),
                osymt: symt_opt_view(osymt),
            }),
    {
        VectorFst { finals, trs, start_state: start, isymt, osymt }
    }

    /// A copy of the input symbol table, if any.
    pub fn input_symbols(&self) -> (r: Option<SymbolTable>)
        ensures
            symt_opt_view(r) == self@.isymt,
    {
        copy_symt_opt(&self.isymt)
    }

    /// A copy of the output symbol table, if any.
    pub fn output_symbols(&self) -> (r: Option<SymbolTable>)
        ensures
            symt_opt_view(r) == self@.osymt,
    {
        copy_symt_opt(&self.osymt)
    }

    /// Attaches an input symbol table.
    pub fn set_input_symbols(&mut self, symt: SymbolTable)
        ensures
            final(self)@ == (FstModel { isymt: Some(symt@), ..old(self)@ }),
    {
        self.isymt = Some(symt);
    }

    /// Attaches an output symbol table.
    pub fn set_output_symbols(&mut self, symt: SymbolTable)
        ensures
            final(self)@ == (FstModel { osymt: Some(symt@), ..old(self)@ }),
    {
        self.osymt = Some(symt);
    }

    /// Copies the symbol tables of `other` onto this FST.
    pub fn set_symts_from_fst(&mut self, other: &VectorFst<W>)
        ensures
            final(self)@ == (FstModel { isymt: other@.isymt, osymt: other@.osymt, ..old(self)@ }),
    {
        self.isymt = copy_symt_opt(&other.isymt);
        self.osymt = copy_symt_opt(&other.osymt);
    }

    /// Creates an FST with no state.
    pub fn new() -> (r: Self)
        ensures
            r@ == FstModel::<W>::empty(),
            r@.wf(),
    {
        let r = VectorFst { finals: Vec::new(), trs: Vec::new(), start_state: None, isymt: None, osymt: None };
        assert(r@.trs =~= Seq::<Seq<Tr<W>>>::empty());
        r
    }

    /// The number of states.
    pub fn num_states(&self) -> (r: usize)
        requires
            self@.wf(),
        ensures
            r == self@.num_states(),
    {
        self.finals.len()
    }

    /// The start state, if any.
    pub fn start(&self) -> (r: Option<StateId>)
        ensures
            r == self@.start,
    {
        self.start_state
    }

    /// Whether `s` is the start state.
    pub fn is_start(&self, s: StateId) -> (r: bool)
        ensures
            r == (self@.start == Some(s)),
    {
        match self.start_state {
            Some(st) => st == s,
            None => false,
        }
    }

    /// Adds a state with no final weight and no transition; returns its id, which is the
    /// previous number of states.
    pub fn add_state(&mut self) -> (r: StateId)
        requires
            old(self)@.wf(),
            old(self)@.num_states() < usize::MAX,
        ensures
            r == old(self)@.num_states(),
            final(self)@ == (FstModel {
                finals: old(self)@.finals.push(None),
                trs: old(self)@.trs.push(Seq::empty()),
                ..old(self)@
            }),
            final(self)@.wf(),
    {
        let r = self.finals.len();
        self.finals.push(None);
        self.trs.push(Vec::new());
        assert(self@.trs =~= old(self)@.trs.push(Seq::empty()));
        r
    }

    /// Adds `n` states with no final weight and no transition.
    pub fn add_states(&mut self, n: usize)
        requires
            old(self)@.wf(),
            old(self)@.num_states() + n <= usize::MAX,
        ensures
            final(self)@.start == old(self)@.start,
            final(self)@.isymt == old(self)@.isymt,
            final(self)@.osymt == old(self)@.osymt,
            final(self)@.num_states() == old(self)@.num_states() + n,
            final(self)@.finals == old(self)@.finals + Seq::new(n as nat, |i: int| None::<W>),
            final(self)@.trs == old(self)@.trs + Seq::new(n as nat, |i: int| Seq::<Tr<W>>::empty()),
            final(self)@.wf(),
    {
        let mut k: usize = 0;
        while k < n
            invariant
                k <= n,
                self@.wf(),
                self@.start == old(self)@.start,
                self@.isymt == old(self)@.isymt,
                self@.osymt == old(self)@.osymt,
                old(self)@.num_states() + n <= usize::MAX,
                self@.finals == old(self)@.finals + Seq::new(k as nat, |i: int| None::<W>),
                self@.trs == old(self)@.trs + Seq::new(k as nat, |i: int| Seq::<Tr<W>>::empty()),
            decreases n - k,
        {
            self.add_state();
            k = k + 1;
            assert(self@.finals =~= old(self)@.finals + Seq::new(k as nat, |i: int| None::<W>));
            assert(self@.trs =~= old(self)@.trs + Seq::new(k as nat, |i: int| Seq::<Tr<W>>::empty()));
        }
    }

    /// Makes `s` the start state; fails when `s` is not a state.
    pub fn set_start(&mut self, s: StateId) -> (r: Result<(), FstError>)
        requires
            old(self)@.wf(),
        ensures
            r is Ok <==> old(self)@.is_state(s as int),
            r == Err::<(), FstError>(FstError::NoSuchState(s)) <==> !old(self)@.is_state(s as int),
            r is Ok ==> final(self)@ == (FstModel { start: Some(s), ..old(self)@ }),
            r is Err ==> final(self)@ == old(self)@,
            final(self)@.wf(),
    {
        if s < self.finals.len() {
            self.start_state = Some(s);
            Ok(())
        } else {
            Err(FstError::NoSuchState(s))
        }
    }

    /// Sets the final weight of `s`; fails when `s` is not a state.
    pub fn set_final(&mut self, s: StateId, w: W) -> (r: Result<(), FstError>)
        requires
            old(self)@.wf(),
        ensures
            r is Ok <==> old(self)@.is_state(s as int),
            r == Err::<(), FstError>(FstError::NoSuchState(s)) <==> !old(self)@.is_state(s as int),
            r is Ok ==> final(self)@ == (FstModel {
                finals: old(self)@.finals.update(s as int, Some(w)),
                ..old(self)@
            }),
            r is Err ==> final(self)@ == old(self)@,
            final(self)@.wf(),
    {
        if s < self.finals.len() {
            self.finals.set(s, Some(w));
            Ok(())
        } else {
            Err(FstError::NoSuchState(s))
        }
    }

    /// Removes the final weight of `s`, making it non-final; fails when `s` is not a state.
    pub fn delete_final_weight(&mut self, s: StateId) -> (r: Result<(), FstError>)
        requires
            old(self)@.wf(),
        ensures
            r is Ok <==> old(self)@.is_state(s as int),
            r == Err::<(), FstError>(FstError::NoSuchState(s)) <==> !old(self)@.is_state(s as int),
            r is Ok ==> final(self)@ == (FstModel {
                finals: old(self)@.finals.update(s as int, None),
                ..old(self)@
            }),
            r is Err ==> final(self)@ == old(self)@,
            final(self)@.wf(),
    {
        if s < self.finals.len() {
            self.finals.set(s, None);
            Ok(())
        } else {
            Err(FstError::NoSuchState(s))
        }
    }

    /// The final weight of `s` (`None` when `s` is not final); fails when `s` is not a state.
    pub fn final_weight(&self, s: StateId) -> (r: Result<Option<W>, FstError>)
        requires
            self@.wf(),
        ensures
            self@.is_state(s as int) ==> r == Ok::<Option<W>, FstError>(self@.finals[s as int]),
            !self@.is_state(s as int) ==> r == Err::<Option<W>, FstError>(FstError::NoSuchState(s)),
    {
        if s < self.finals.len() {
            Ok(copy_weight_opt(&self.finals[s]))
        } else {
            Err(FstError::NoSuchState(s))
        }
    }

    /// Whether `s` is final: it has a final weight that is not zero. Fails when `s` is
    /// not a state.
    pub fn is_final(&self, s: StateId) -> (r: Result<bool, FstError>)
        requires
            self@.wf(),
        ensures
            self@.is_state(s as int) ==> r == Ok::<bool, FstError>(is_final_weight(self@.finals[s as int])),
            !self@.is_state(s as int) ==> r == Err::<bool, FstError>(FstError::NoSuchState(s)),
    {
        if s < self.finals.len() {
            match &self.finals[s] {
                Some(w) => Ok(!w.is_zero()),
                None => Ok(false),
            }
        } else {
            Err(FstError::NoSuchState(s))
        }
    }

    /// The number of transitions leaving `s`; fails when `s` is not a state.
    pub fn num_trs(&self, s: StateId) -> (r: Result<usize, FstError>)
        requires
            self@.wf(),
        ensures
            self@.is_state(s as int) ==> r == Ok::<usize, FstError>(self@.trs[s as int].len() as usize),
            !self@.is_state(s as int) ==> r == Err::<usize, FstError>(FstError::NoSuchState(s)),
    {
        if s < self.finals.len() {
            Ok(self.trs[s].len())
        } else {
            Err(FstError::NoSuchState(s))
        }
    }

    /// The transitions leaving `s`, in stored order; fails when `s` is not a state.
    pub fn tr_iter(&self, s: StateId) -> (r: Result<&Vec<Tr<W>>, FstError>)
        requires
            self@.wf(),
        ensures
            self@.is_state(s as int) ==> r is Ok && r->Ok_0@ == self@.trs[s as int],
            !self@.is_state(s as int) ==> r == Err::<&Vec<Tr<W>>, FstError>(FstError::NoSuchState(s)),
    {
        if s < self.finals.len() {
            Ok(&self.trs[s])
        } else {
            Err(FstError::NoSuchState(s))
        }
    }

    /// Appends `tr` to the transitions of `s`; fails when `s` or the transition's
    /// destination is not a state.
    pub fn add_tr(&mut self, s: StateId, tr: Tr<W>) -> (r: Result<(), FstError>)
        requires
            old(self)@.wf(),
        ensures
            !old(self)@.is_state(s as int) ==> r == Err::<(), FstError>(FstError::NoSuchState(s)),
            old(self)@.is_state(s as int) && !old(self)@.is_state(tr.nextstate as int) ==> r
                == Err::<(), FstError>(FstError::NoSuchState(tr.nextstate)),
            r is Ok <==> old(self)@.is_state(s as int) && old(self)@.is_state(tr.nextstate as int),
            r is Ok ==> final(self)@ == (FstModel {
                trs: old(self)@.trs.update(s as int, old(self)@.trs[s as int].push(tr)),
                ..old(self)@
            }),
            r is Err ==> final(self)@ == old(self)@,
            final(self)@.wf(),
    {
        if s >= self.finals.len() {
            return Err(FstError::NoSuchState(s));
        }
        if tr.nextstate >= self.finals.len() {
            return Err(FstError::NoSuchState(tr.nextstate));
        }
        let ghost t = tr;
        self.trs[s].push(tr);
        assert(self@.trs =~= old(self)@.trs.update(s as int, old(self)@.trs[s as int].push(t)));
        Ok(())
    }

    /// Replaces the transitions of `s` by `trs`; fails when `s` or a destination is not a state.
    pub fn set_trs(&mut self, s: StateId, trs: Vec<Tr<W>>) -> (r: Result<(), FstError>)
        requires
            old(self)@.wf(),
        ensures
            r is Ok <==> old(self)@.is_state(s as int) && forall|i: int|
                0 <= i < trs@.len() ==> old(self)@.is_state(#[trigger] trs@[i].nextstate as int),
            r is Ok ==> final(self)@ == (FstModel {
                trs: old(self)@.trs.update(s as int, trs@),
                ..old(self)@
            }),
            !old(self)@.is_state(s as int) ==> r == Err::<(), FstError>(FstError::NoSuchState(s)),
            r is Err ==> final(self)@ == old(self)@,
            final(self)@.wf(),
    {
        if s >= self.finals.len() {
            return Err(FstError::NoSuchState(s));
        }
        let mut i: usize = 0;
        while i < trs.len()
            invariant
                i <= trs@.len(),
                self@ == old(self)@,
                self@.wf(),
                old(self)@.is_state(s as int),
                forall|j: int| 0 <= j < i ==> self@.is_state(#[trigger] trs@[j].nextstate as int),
            decreases trs@.len() - i,
        {
            if trs[i].nextstate >= self.finals.len() {
                return Err(FstError::NoSuchState(trs[i].nextstate));
            }
            i = i + 1;
        }
        let ghost v = trs@;
        self.trs.set(s, trs);
        assert(self@.trs =~= old(self)@.trs.update(s as int, v));
        Ok(())
    }

    /// Appends the states of `other` with their transitions (but not their final weights):
    /// state `s` of `other` becomes state `offset + s`, where `offset` is the previous number
    /// of states. Returns the new id of each state of `other`.
    pub fn add_fst(&mut self, other: &VectorFst<W>) -> (r: Result<Vec<StateId>, FstError>)
        requires
            old(self)@.wf(),
            other@.wf(),
            old(self)@.num_states() + other@.num_states() <= usize::MAX,
        ensures
            final(self)@.wf(),
            r matches Ok(m) && m@ == Seq::new(
                other@.num_states(),
                |s: int| (old(self)@.num_states() + s) as usize,
            ),
            final(self)@.start == old(self)@.start,
            final(self)@.isymt == old(self)@.isymt,
            final(self)@.osymt == old(self)@.osymt,
            final(self)@.finals == old(self)@.finals + Seq::new(other@.num_states(), |i: int| None::<W>),
            final(self)@.trs == old(self)@.trs + Seq::new(
                other@.num_states(),
                |s: int| shifted_trs(other@.trs[s], old(self)@.num_states() as int),
            ),
    {
        let offset = self.num_states();
        let m = other.num_states();
        let ghost o = other@;
        let ghost target = old(self)@.trs + Seq::new(
            m as nat,
            |s: int| shifted_trs(o.trs[s], offset as int),
        );
        self.add_states(m);
        let mut mapping: Vec<StateId> = Vec::new();
        let mut s: usize = 0;
        while s < m
            invariant
                self@.wf(),
                o == other@,
                o.wf(),
                m == o.num_states(),
                offset == old(self)@.num_states(),
                old(self)@.wf(),
                target.len() == offset + m,
                offset + m <= usize::MAX,
                s <= m,
                self@.num_states() == offset + m,
                self@.start == old(self)@.start,
                self@.isymt == old(self)@.isymt,
                self@.osymt == old(self)@.osymt,
                self@.finals == old(self)@.finals + Seq::new(m as nat, |i: int| None::<W>),
                target == old(self)@.trs + Seq::new(
                    m as nat,
                    |s: int| shifted_trs(o.trs[s], offset as int),
                ),
                self@.trs.len() == offset + m,
                forall|t: int| 0 <= t < offset + s ==> #[trigger] self@.trs[t] == target[t],
                forall|t: int| offset + s <= t < offset + m ==> #[trigger] self@.trs[t] == Seq::<Tr<W>>::empty(),
                mapping@ == Seq::new(s as nat, |t: int| (offset + t) as usize),
            decreases m - s,
        {
            let trs = other.tr_iter(s).unwrap();
            let ns = offset + s;
            let mut i: usize = 0;
            while i < trs.len()
                invariant
                    self@.wf(),
                    o == other@,
                    o.wf(),
                    m == o.num_states(),
                    offset + m <= usize::MAX,
                    s < m,
                    ns == offset + s,
                    offset == old(self)@.num_states(),
                    old(self)@.wf(),
                    target.len() == offset + m,
                    target == old(self)@.trs + Seq::new(
                        m as nat,
                        |s: int| shifted_trs(o.trs[s], offset as int),
                    ),
                    trs@ == o.trs[s as int],
                    i <= trs@.len(),
                    self@.num_states() == offset + m,
                    self@.start == old(self)@.start,
                    self@.isymt == old(self)@.isymt,
                    self@.osymt == old(self)@.osymt,
                    self@.finals == old(self)@.finals + Seq::new(m as nat, |i: int| None::<W>),
                    self@.trs.len() == offset + m,
                    forall|t: int| 0 <= t < offset + s ==> #[trigger] self@.trs[t] == target[t],
                    forall|t: int| offset + s < t < offset + m ==> #[trigger] self@.trs[t] == Seq::<Tr<W>>::empty(),
                    self@.trs[ns as int] == shifted_trs(trs@.take(i as int), offset as int),
                decreases trs@.len() - i,
            {
                let tr = &trs[i];
                assert(tr == o.trs[s as int][i as int]);
                let ntr = Tr::new(tr.ilabel, tr.olabel, tr.weight.duplicate(), tr.nextstate + offset);
                let res = self.add_tr(ns, ntr);
                assert(res is Ok);
                assert(self@.trs[ns as int] =~= shifted_trs(trs@.take(i + 1), offset as int));
                i = i + 1;
            }
            assert(trs@.take(trs@.len() as int) =~= trs@);
            assert(target[ns as int] == shifted_trs(o.trs[s as int], offset as int));
            mapping.push(ns);
            assert(mapping@ =~= Seq::new((s + 1) as nat, |t: int| (offset + t) as usize));
            s = s + 1;
        }
        assert(self@.trs =~= target);
        Ok(mapping)
    }

    /// Removes the states of `states` and every transition entering them; the remaining
    /// states are renumbered densely in their old order. Fails, changing nothing, when one
    /// of them is not a state.
    pub fn del_states(&mut self, states: &Vec<StateId>) -> (r: Result<(), FstError>)
        requires
            old(self)@.wf(),
        ensures
            r is Ok <==> forall|i: int| 0 <= i < states@.len() ==> old(self)@.is_state(#[trigger] states@[i] as int),
            r is Ok ==> is_restriction(final(self)@, old(self)@, Seq::new(
                old(self)@.num_states(),
                |s: int| forall|j: int| 0 <= j < states@.len() ==> #[trigger] states@[j] != s,
            )),
            r is Err ==> final(self)@ == old(self)@,
            final(self)@.wf(),
    {
        let n = self.num_states();
        let mut keep: Vec<bool> = Vec::new();
        let mut s: usize = 0;
        while s < n
            invariant
                s <= n,
                keep@.len() == s,
                forall|t: int| 0 <= t < s ==> #[trigger] keep@[t],
            decreases n - s,
        {
            keep.push(true);
            s = s + 1;
        }
        let mut i: usize = 0;
        while i < states.len()
            invariant
                self@ == old(self)@,
                self@.wf(),
                n == self@.num_states(),
                i <= states@.len(),
                keep@.len() == n,
                forall|j: int| 0 <= j < i ==> self@.is_state(#[trigger] states@[j] as int),
                forall|t: int| 0 <= t < n ==> #[trigger] keep@[t] == forall|j: int| 0 <= j < i ==> #[trigger] states@[j] != t,
            decreases states@.len() - i,
        {
            let d = states[i];
            if d >= n {
                return Err(FstError::NoSuchState(d));
            }
            keep.set(d, false);
            assert forall|t: int| 0 <= t < n implies #[trigger] keep@[t] == forall|j: int| 0 <= j < i + 1 ==> #[trigger] states@[j] != t by {
                if t == d {
                    assert(states@[i as int] == t);
                }
            }
            i = i + 1;
        }
        assert(keep@ =~= Seq::new(n as nat, |s: int| forall|j: int| 0 <= j < states@.len() ==> #[trigger] states@[j] != s));
        let r = restrict(self, &keep);
        *self = r;
        Ok(())
    }

    /// Removes state `s` and every transition entering it; the states after it move down
    /// by one. Fails, changing nothing, when `s` is not a state.
    pub fn del_state(&mut self, s: StateId) -> (r: Result<(), FstError>)
        requires
            old(self)@.wf(),
        ensures
            r is Ok <==> old(self)@.is_state(s as int),
            r is Ok ==> is_restriction(final(self)@, old(self)@, Seq::new(
                old(self)@.num_states(),
                |t: int| t != s,
            )),
            r is Err ==> final(self)@ == old(self)@,
            final(self)@.wf(),
    {
        let mut v: Vec<StateId> = Vec::new();
        v.push(s);
        assert(v@[0] == s);
        let r = self.del_states(&v);
        proof {
            assert(Seq::new(
                old(self)@.num_states(),
                |t: int| forall|j: int| 0 <= j < v@.len() ==> #[trigger] v@[j] != t,
            ) =~= Seq::new(old(self)@.num_states(), |t: int| t != s));
        }
        r
    }

    /// Reserves room for `n` more states; the FST is unchanged.
    pub fn reserve_states(&mut self, n: usize)
        ensures
            final(self)@ == old(self)@,
    {
        self.finals.reserve(n);
        self.trs.reserve(n);
        assert(self@.trs =~= old(self)@.trs);
    }

    /// Reserves room for `n` more transitions at `s`; the FST is unchanged.
    pub fn reserve_trs(&mut self, s: StateId, n: usize) -> (r: Result<(), FstError>)
        requires
            old(self)@.wf(),
        ensures
            r is Ok <==> old(self)@.is_state(s as int),
            final(self)@ == old(self)@,
    {
        if s >= self.finals.len() {
            return Err(FstError::NoSuchState(s));
        }
        self.trs[s].reserve(n);
        assert(self@.trs =~= old(self)@.trs);
        Ok(())
    }

    /// Removes, in one pass, the transitions of `s` at the indices `to_del`, which must be
    /// strictly increasing; the others keep their order. Fails with `NoSuchState` when `s`
    /// is not a state and with `IndexOutOfRange` when `to_del` is not strictly increasing
    /// or holds an index past the transitions, changing nothing.
    pub fn del_trs_id_sorted(&mut self, s: StateId, to_del: &Vec<usize>) -> (r: Result<(), FstError>)
        requires
            old(self)@.wf(),
        ensures
            !old(self)@.is_state(s as int) ==> r == Err::<(), FstError>(FstError::NoSuchState(s)),
            old(self)@.is_state(s as int) ==> (r is Ok <==> sorted_indices(to_del@, old(self)@.trs[s as int].len())),
            old(self)@.is_state(s as int) && r is Err ==> r == Err::<(), FstError>(FstError::IndexOutOfRange),
            r is Ok ==> final(self)@ == (FstModel {
                trs: old(self)@.trs.update(s as int, trs_without(old(self)@.trs[s as int], to_del@)),
                ..old(self)@
            }),
            r is Err ==> final(self)@ == old(self)@,
            final(self)@.wf(),
    {
        if s >= self.finals.len() {
            return Err(FstError::NoSuchState(s));
        }
        let trs = &self.trs[s];
        let m = trs.len();
        let d = to_del.len();
        let mut k: usize = 0;
        while k < d
            invariant
                d == to_del@.len(),
                self@ == old(self)@,
                self@.wf(),
                (s as int) < self@.num_states(),
                m == self@.trs[s as int].len(),
                k <= d,
                forall|a: int| 0 <= a < k ==> #[trigger] to_del@[a] < m,
                forall|a: int, b: int| 0 <= a < b < k ==> #[trigger] to_del@[a] < #[trigger] to_del@[b],
            decreases d - k,
        {
            if to_del[k] >= m || (k > 0 && to_del[k - 1] >= to_del[k]) {
                assert(!sorted_indices(to_del@, m as nat)) by {
                    if k > 0 && to_del@[k - 1] >= to_del@[k as int] {
                        assert(to_del@[k - 1] >= to_del@[k as int]);
                    }
                }
                return Err(FstError::IndexOutOfRange);
            }
            proof {
                assert forall|a: int, b: int| 0 <= a < b < k + 1 implies #[trigger] to_del@[a] < #[trigger] to_del@[b] by {
                    if b == k && a < k - 1 {
                        assert(to_del@[a] < to_del@[k - 1]);
                    }
                }
            }
            k = k + 1;
        }
        let mut out: Vec<Tr<W>> = Vec::new();
        let mut i: usize = 0;
        let mut j: usize = 0;
        while i < m
            invariant
                trs@ == self@.trs[s as int],
                self@ == old(self)@,
                self@.wf(),
                (s as int) < self@.num_states(),
                m == trs@.len(),
                d == to_del@.len(),
                sorted_indices(to_del@, m as nat),
                i <= m,
                j <= d,
                forall|a: int| 0 <= a < j ==> #[trigger] to_del@[a] < i,
                forall|a: int| j <= a < d ==> #[trigger] to_del@[a] >= i,
                out@ == trs_without(trs@.take(i as int), to_del@),
                forall|a: int| 0 <= a < out@.len() ==> (#[trigger] out@[a]).nextstate < self@.num_states(),
            decreases m - i,
        {
            assert(trs@.take(i + 1).drop_last() =~= trs@.take(i as int));
            assert(trs@[i as int] == self@.trs[s as int][i as int]);
            if j < d && to_del[j] == i {
                assert(to_del@.contains(i));
                j = j + 1;
                proof {
                    assert forall|a: int| j <= a < d implies #[trigger] to_del@[a] >= i + 1 by {
                        assert(to_del@[j - 1] < to_del@[a]);
                    }
                }
            } else {
                assert(!to_del@.contains(i)) by {
                    if to_del@.contains(i) {
                        let a = choose|a: int| 0 <= a < d && to_del@[a] == i;
                        if a > j {
                            assert(to_del@[j as int] < to_del@[a]);
                        }
                    }
                }
                out.push(trs[i].duplicate());
            }
            assert(out@ =~= trs_without(trs@.take(i + 1), to_del@));
            i = i + 1;
        }
        assert(trs@.take(m as int) =~= trs@);
        let res = self.set_trs(s, out);
        assert(res is Ok);
        Ok(())
    }

    /// Mutable access to the transitions of `s`, which must exist. The caller keeps every
    /// destination a valid state; the FST is well formed again only if it does.
    pub fn tr_iter_mut(&mut self, s: StateId) -> (r: &mut Vec<Tr<W>>)
        requires
            old(self)@.is_state(s as int),
            old(self)@.wf(),
        ensures
            r@ == old(self)@.trs[s as int],
            final(self)@.trs =~= old(self)@.trs.update(s as int, final(r)@),
            final(self)@.finals == old(self)@.finals,
            final(self)@.start == old(self)@.start,
            final(self)@.isymt == old(self)@.isymt,
            final(self)@.osymt == old(self)@.osymt,
    {
        &mut self.trs[s]
    }

    /// The number of transitions leaving `s` whose input label is epsilon.
    pub fn num_input_epsilons(&self, s: StateId) -> (r: Result<usize, FstError>)
        requires
            self@.wf(),
        ensures
            self@.is_state(s as int) ==> r == Ok::<usize, FstError>(
                count_input_epsilons(self@.trs[s as int]) as usize,
            ),
            !self@.is_state(s as int) ==> r == Err::<usize, FstError>(FstError::NoSuchState(s)),
    {
        if s >= self.finals.len() {
            return Err(FstError::NoSuchState(s));
        }
        let trs = &self.trs[s];
        let mut n: usize = 0;
        let mut i: usize = 0;
        while i < trs.len()
            invariant
                i <= trs@.len(),
                n == count_input_epsilons(trs@.subrange(0, i as int)),
                n <= i,
            decreases trs@.len() - i,
        {
            assert(trs@.subrange(0, i + 1).drop_last() =~= trs@.subrange(0, i as int));
            if trs[i].ilabel == EPS_LABEL {
                n = n + 1;
            }
            i = i + 1;
        }
        assert(trs@.subrange(0, i as int) =~= trs@);
        Ok(n)
    }

    /// The number of transitions leaving `s` whose output label is epsilon.
    pub fn num_output_epsilons(&self, s: StateId) -> (r: Result<usize, FstError>)
        requires
            self@.wf(),
        ensures
            self@.is_state(s as int) ==> r == Ok::<usize, FstError>(
                count_output_epsilons(self@.trs[s as int]) as usize,
            ),
            !self@.is_state(s as int) ==> r == Err::<usize, FstError>(FstError::NoSuchState(s)),
    {
        if s >= self.finals.len() {
            return Err(FstError::NoSuchState(s));
        }
        let trs = &self.trs[s];
        let mut n: usize = 0;
        let mut i: usize = 0;
        while i < trs.len()
            invariant
                i <= trs@.len(),
                n == count_output_epsilons(trs@.subrange(0, i as int)),
                n <= i,
            decreases trs@.len() - i,
        {
            assert(trs@.subrange(0, i + 1).drop_last() =~= trs@.subrange(0, i as int));
            if trs[i].olabel == EPS_LABEL {
                n = n + 1;
            }
            i = i + 1;
        }
        assert(trs@.subrange(0, i as int) =~= trs@);
        Ok(n)
    }
}

} // verus!
