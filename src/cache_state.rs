use vstd::prelude::*;

use crate::semirings::Semiring;
use crate::tr::Tr;

verus! {

/// What a cached state holds: its transitions, its final weight, and whether the final
/// weight and the transitions have been computed yet.
pub struct CacheStateModel<W> {
    pub trs: Seq<Tr<W>>,
    pub final_weight: Option<W>,
    pub expanded: bool,
    pub has_final: bool,
}

/// A state of a lazily computed FST.
pub struct CacheState<W> {
    trs: Vec<Tr<W>>,
    final_weight: Option<W>,
    expanded: bool,
    has_final: bool,
}

impl<W> View for CacheState<W> {
    type V = CacheStateModel<W>;

    closed spec fn view(&self) -> CacheStateModel<W> {
        CacheStateModel {
            trs: self.trs@,
            final_weight: self.final_weight,
            expanded: self.expanded,
            has_final: self.has_final,
        }
    }
}

impl<W: Semiring> CacheState<W> {
    /// A state with nothing computed yet.
    pub fn new() -> (r: Self)
        ensures
            r@ == (CacheStateModel::<W> {
                trs: Seq::empty(),
                final_weight: None,
                expanded: false,
                has_final: false,
            }),
    {
        CacheState { trs: Vec::new(), final_weight: None, expanded: false, has_final: false }
    }

    /// Whether the final weight has been computed.
    pub fn has_final(&self) -> (r: bool)
        ensures
            r == self@.has_final,
    {
        self.has_final
    }

    /// Whether the transitions have been computed.
    pub fn expanded(&self) -> (r: bool)
        ensures
            r == self@.expanded,
    {
        self.expanded
    }

    pub fn mark_expanded(&mut self)
        ensures
            final(self)@ == (CacheStateModel { expanded: true, ..old(self)@ }),
    {
        self.expanded = true;
    }

    /// Records the computed final weight.
    pub fn set_final_weight(&mut self, final_weight: Option<W>)
        ensures
            final(self)@ == (CacheStateModel {
                final_weight: final_weight,
                has_final: true,
                ..old(self)@
            }),
    {
        self.final_weight = final_weight;
        self.has_final = true;
    }

    pub fn final_weight(&self) -> (r: Option<&W>)
        ensures
            r is Some <==> self@.final_weight is Some,
            r is Some ==> *r->Some_0 == self@.final_weight->Some_0,
    {
        self.final_weight.as_ref()
    }

    pub fn push_tr(&mut self, tr: Tr<W>)
        ensures
            final(self)@ == (CacheStateModel { trs: old(self)@.trs.push(tr), ..old(self)@ }),
    {
        self.trs.push(tr);
    }

    /// Reserves room for `n` more transitions; the contents are unchanged.
    pub fn reserve_trs(&mut self, n: usize)
        ensures
            final(self)@ == old(self)@,
    {
        self.trs.reserve(n);
    }

    pub fn num_trs(&self) -> (r: usize)
        ensures
            r == self@.trs.len(),
    {
        self.trs.len()
    }

    /// The transition at index `n`, which must exist.
    pub fn get_tr_unchecked(&self, n: usize) -> (r: &Tr<W>)
        requires
            n < self@.trs.len(),
        ensures
            *r == self@.trs[n as int],
    {
        &self.trs[n]
    }

    /// A mutable reference to the transition at index `n`, which must exist.
    pub fn get_tr_unchecked_mut(&mut self, n: usize) -> (r: &mut Tr<W>)
        requires
            n < old(self)@.trs.len(),
        ensures
            *r == old(self)@.trs[n as int],
            final(self)@ == (CacheStateModel {
                trs: old(self)@.trs.update(n as int, *final(r)),
                ..old(self)@
            }),
    {
        &mut self.trs[n]
    }

    /// Mutable access to the transitions, in stored order.
    pub fn tr_iter_mut(&mut self) -> (r: &mut Vec<Tr<W>>)
        ensures
            r@ == old(self)@.trs,
            final(self)@ == (CacheStateModel { trs: final(r)@, ..old(self)@ }),
    {
        &mut self.trs
    }

    /// The transitions, in stored order.
    pub fn tr_iter(&self) -> (r: &[Tr<W>])
        ensures
            r@ == self@.trs,
    {
        self.trs.as_slice()
    }
}

} // verus!
