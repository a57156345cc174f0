use vstd::prelude::*;

use crate::error::FstError;
use crate::fst::FstModel;
use crate::reverse::reverse_model;
use crate::semirings::{Semiring, WeaklyDivisibleSemiring};
use crate::shortest_distance::{distance_within, first_settled, settled_at, shortest_distance, shortest_distance_to_final};
use crate::tr::Tr;
use crate::vector_fst::VectorFst;
use crate::{StateId, EPS_LABEL};

verus! {

/// The direction in which weights are pushed.
#[derive(Debug, Clone, Copy, PartialEq, Eq, Structural)]
pub enum ReweightType {
    ReweightToInitial,
    ReweightToFinal,
}

/// The new weight of a transition with weight `w` from a state of potential `vs` to a state
/// of potential `vn`: `vs \ (w * vn)` towards the initial state, `(vs * w) / vn` towards the
/// final states; unchanged where the divisor is zero.
pub open spec fn reweighted_weight<W: WeaklyDivisibleSemiring>(vs: W, w: W, vn: W, ty: ReweightType) -> W {
    match ty {
        ReweightType::ReweightToInitial => if vs == W::zero_spec() {
            w
        } else {
            W::divide_spec(W::times_spec(w, vn), vs)
        },
        ReweightType::ReweightToFinal => if vn == W::zero_spec() {
            w
        } else {
            W::divide_spec(W::times_spec(vs, w), vn)
        },
    }
}

/// The new final weight `w` of a state of potential `vs`: `vs \ w` towards the initial
/// state (unchanged when `vs` is zero), `vs * w` towards the final states.
pub open spec fn reweighted_final<W: WeaklyDivisibleSemiring>(vs: W, w: W, ty: ReweightType) -> W {
    match ty {
        ReweightType::ReweightToInitial => if vs == W::zero_spec() {
            w
        } else {
            W::divide_spec(w, vs)
        },
        ReweightType::ReweightToFinal => W::times_spec(vs, w),
    }
}

/// The transition `t` leaving a state of potential `vs`, reweighted.
pub open spec fn reweighted_tr<W: WeaklyDivisibleSemiring>(t: Tr<W>, vs: W, v: Seq<W>, ty: ReweightType) -> Tr<W> {
    Tr { weight: reweighted_weight(vs, t.weight, v[t.nextstate as int], ty), ..t }
}

/// The weight that the start state must carry back after reweighting: `v[start]` towards
/// the initial state, `one / v[start]` towards the final states.
pub open spec fn start_weight<W: WeaklyDivisibleSemiring>(vst: W, ty: ReweightType) -> W {
    match ty {
        ReweightType::ReweightToInitial => vst,
        ReweightType::ReweightToFinal => W::divide_spec(W::one_spec(), vst),
    }
}

/// Some transition of `f` enters `st`.
pub open spec fn has_incoming<W>(f: FstModel<W>, st: int) -> bool {
    exists|s: int, i: int|
        0 <= s < f.trs.len() && 0 <= i < f.trs[s].len() && (#[trigger] f.trs[s][i]).nextstate == st
}

/// `g` with `w` multiplied onto its start state `st`: on the left of the start state's
/// transitions and final weight when no transition enters it, else through a new start
/// state with an epsilon transition of weight `w` to `st`.
pub open spec fn with_start_weight<W: WeaklyDivisibleSemiring>(g: FstModel<W>, st: int, w: W) -> FstModel<W> {
    if !has_incoming(g, st) {
        FstModel {
            trs: g.trs.update(
                st,
                Seq::new(g.trs[st].len(), |i: int| Tr { weight: W::times_spec(w, g.trs[st][i].weight), ..g.trs[st][i] }),
            ),
            finals: g.finals.update(
                st,
                match g.finals[st] {
                    Some(x) => Some(W::times_spec(w, x)),
                    None => None,
                },
            ),
            ..g
        }
    } else {
        FstModel {
            start: Some(g.num_states() as usize),
            finals: g.finals.push(None),
            trs: g.trs.push(seq![Tr { ilabel: EPS_LABEL, olabel: EPS_LABEL, weight: w, nextstate: st as usize }]),
            ..g
        }
    }
}

/// `f` reweighted by the potentials `v`; when the start state's potential is neither zero
/// nor one, the start state then carries it back (see `with_start_weight`), so that the
/// weight of every path is kept.
pub open spec fn reweight_model<W: WeaklyDivisibleSemiring>(f: FstModel<W>, v: Seq<W>, ty: ReweightType) -> FstModel<W> {
    let g = reweight_states_model(f, v, ty);
    match f.start {
        Some(st) => if v[st as int] != W::zero_spec() && v[st as int] != W::one_spec() {
            with_start_weight(g, st as int, start_weight(v[st as int], ty))
        } else {
            g
        },
        None => g,
    }
}

/// `f` with every transition and final weight reweighted by the potentials `v`.
pub open spec fn reweight_states_model<W: WeaklyDivisibleSemiring>(f: FstModel<W>, v: Seq<W>, ty: ReweightType) -> FstModel<W> {
    FstModel {
        finals: Seq::new(
            f.num_states(),
            |s: int|
                match f.finals[s] {
                    Some(w) => Some(reweighted_final(v[s], w, ty)),
                    None => None,
                },
        ),
        trs: Seq::new(
            f.num_states(),
            |s: int| Seq::new(f.trs[s].len(), |i: int| reweighted_tr(f.trs[s][i], v[s], v, ty)),
        ),
        ..f
    }
}

/// Multiplies each transition weight and final weight by the potentials `v` so that path
/// weights telescope (see `reweighted_weight` and `reweighted_final`).
pub fn reweight<W: WeaklyDivisibleSemiring>(
    fst: &mut VectorFst<W>,
    potentials: &Vec<W>,
    ty: ReweightType,
) -> (r: Result<(), FstError>)
    requires
        old(fst)@.wf(),
        old(fst)@.num_states() < usize::MAX,
        potentials@.len() == old(fst)@.num_states(),
    ensures
        r is Ok,
        final(fst)@ == reweight_model(old(fst)@, potentials@, ty),
        final(fst)@.wf(),
{
    let ghost f = fst@;
    let ghost v = potentials@;
    let ghost g = reweight_states_model(f, v, ty);
    let n = fst.num_states();
    let mut s: usize = 0;
    while s < n
        invariant
            fst@.wf(),
            f.wf(),
            v == potentials@,
            v.len() == n,
            n == f.num_states(),
            g == reweight_states_model(f, v, ty),
            s <= n,
            fst@.num_states() == n,
            fst@.start == f.start,
            fst@.isymt == f.isymt,
            fst@.osymt == f.osymt,
            forall|t: int| 0 <= t < s ==> #[trigger] fst@.trs[t] == g.trs[t],
            forall|t: int| 0 <= t < s ==> #[trigger] fst@.finals[t] == g.finals[t],
            forall|t: int| s <= t < n ==> #[trigger] fst@.trs[t] == f.trs[t],
            forall|t: int| s <= t < n ==> #[trigger] fst@.finals[t] == f.finals[t],
        decreases n - s,
    {
        let trs = fst.tr_iter(s).unwrap();
        let vs = &potentials[s];
        let mut out: Vec<Tr<W>> = Vec::new();
        let mut i: usize = 0;
        while i < trs.len()
            invariant
                f.wf(),
                v == potentials@,
                v.len() == n,
                n == f.num_states(),
                s < n,
                *vs == v[s as int],
                trs@ == f.trs[s as int],
                i <= trs@.len(),
                out@.len() == i,
                forall|j: int| 0 <= j < i ==> #[trigger] out@[j] == reweighted_tr(trs@[j], v[s as int], v, ty),
            decreases trs@.len() - i,
        {
            assert(trs@[i as int] == f.trs[s as int][i as int]);
            let t = &trs[i];
            let vn = &potentials[t.nextstate];
            let w = match ty {
                ReweightType::ReweightToInitial => if vs.is_zero() {
                    t.weight.duplicate()
                } else {
                    match t.weight.times(vn).divide(vs) {
                        Ok(q) => q,
                        Err(e) => return Err(e),
                    }
                },
                ReweightType::ReweightToFinal => if vn.is_zero() {
                    t.weight.duplicate()
                } else {
                    match vs.times(&t.weight).divide(vn) {
                        Ok(q) => q,
                        Err(e) => return Err(e),
                    }
                },
            };
            out.push(Tr::new(t.ilabel, t.olabel, w, t.nextstate));
            i = i + 1;
        }
        assert(out@ =~= g.trs[s as int]);
        let fw = fst.final_weight(s).unwrap();
        let ghost before = fst@;
        let res = fst.set_trs(s, out);
        assert(res is Ok);
        match fw {
            Some(w) => {
                let nw = match ty {
                    ReweightType::ReweightToInitial => if vs.is_zero() {
                        w
                    } else {
                        match w.divide(vs) {
                            Ok(q) => q,
                            Err(e) => return Err(e),
                        }
                    },
                    ReweightType::ReweightToFinal => vs.times(&w),
                };
                let res2 = fst.set_final(s, nw);
                assert(res2 is Ok);
            },
            None => {},
        }
        assert forall|t: int| 0 <= t < n && t != s implies #[trigger] fst@.trs[t] == before.trs[t]
            && fst@.finals[t] == before.finals[t] by {
        }
        assert(fst@.trs[s as int] == g.trs[s as int]);
        assert(fst@.finals[s as int] == g.finals[s as int]);
        s = s + 1;
    }
    assert(fst@.trs =~= g.trs);
    assert(fst@.finals =~= g.finals);
    assert(fst@ == g);
    if let Some(st) = fst.start() {
        let vst = &potentials[st];
        if !vst.is_zero() && !vst.equals(&W::one()) {
            let w = match ty {
                ReweightType::ReweightToInitial => vst.duplicate(),
                ReweightType::ReweightToFinal => match W::one().divide(vst) {
                    Ok(q) => q,
                    Err(e) => return Err(e),
                },
            };
            carry_start_weight(fst, st, w);
        }
    }
    Ok(())
}

/// Whether some transition enters `st`.
fn has_incoming_tr<W: Semiring>(fst: &VectorFst<W>, st: StateId) -> (r: bool)
    requires
        fst@.wf(),
    ensures
        r == has_incoming(fst@, st as int),
{
    let n = fst.num_states();
    let mut s: usize = 0;
    while s < n
        invariant
            fst@.wf(),
            n == fst@.num_states(),
            s <= n,
            forall|a: int, i: int|
                0 <= a < s && 0 <= i < fst@.trs[a].len() ==> (#[trigger] fst@.trs[a][i]).nextstate != st,
        decreases n - s,
    {
        let trs = fst.tr_iter(s).unwrap();
        let mut i: usize = 0;
        while i < trs.len()
            invariant
                fst@.wf(),
                n == fst@.num_states(),
                s < n,
                trs@ == fst@.trs[s as int],
                i <= trs@.len(),
                forall|a: int, j: int|
                    0 <= a < s && 0 <= j < fst@.trs[a].len() ==> (#[trigger] fst@.trs[a][j]).nextstate != st,
                forall|j: int| 0 <= j < i ==> (#[trigger] fst@.trs[s as int][j]).nextstate != st,
            decreases trs@.len() - i,
        {
            assert(trs@[i as int] == fst@.trs[s as int][i as int]);
            if trs[i].nextstate == st {
                return true;
            }
            i = i + 1;
        }
        s = s + 1;
    }
    false
}

/// Puts `w` back onto the start state `st` (see `with_start_weight`).
fn carry_start_weight<W: WeaklyDivisibleSemiring>(fst: &mut VectorFst<W>, st: StateId, w: W)
    requires
        old(fst)@.wf(),
        old(fst)@.start == Some(st),
        old(fst)@.num_states() < usize::MAX,
    ensures
        final(fst)@ == with_start_weight(old(fst)@, st as int, w),
        final(fst)@.wf(),
{
    let ghost f = fst@;
    if !has_incoming_tr(fst, st) {
        let trs = fst.tr_iter(st).unwrap();
        let mut out: Vec<Tr<W>> = Vec::new();
        let mut i: usize = 0;
        while i < trs.len()
            invariant
                f.wf(),
                (st as int) < f.num_states(),
                trs@ == f.trs[st as int],
                i <= trs@.len(),
                out@.len() == i,
                forall|j: int| 0 <= j < i ==> #[trigger] out@[j] == (Tr { weight: W::times_spec(w, trs@[j].weight), ..trs@[j] }),
            decreases trs@.len() - i,
        {
            let t = &trs[i];
            out.push(Tr::new(t.ilabel, t.olabel, w.times(&t.weight), t.nextstate));
            i = i + 1;
        }
        assert(out@ =~= Seq::new(f.trs[st as int].len(), |i: int| Tr { weight: W::times_spec(w, f.trs[st as int][i].weight), ..f.trs[st as int][i] }));
        let fw = fst.final_weight(st).unwrap();
        let res = fst.set_trs(st, out);
        assert(res is Ok);
        if let Some(x) = fw {
            let res2 = fst.set_final(st, w.times(&x));
            assert(res2 is Ok);
        }
        assert(fst@.trs =~= with_start_weight(f, st as int, w).trs);
        assert(fst@.finals =~= with_start_weight(f, st as int, w).finals);
    } else {
        let ns = fst.add_state();
        let res = fst.add_tr(ns, Tr::new(EPS_LABEL, EPS_LABEL, w, st));
        assert(res is Ok);
        let res2 = fst.set_start(ns);
        assert(res2 is Ok);
        assert(fst@.trs =~= with_start_weight(f, st as int, w).trs);
    }
}

/// The potentials that pushing uses: the distances to the final states when pushing
/// towards the initial state, from the start state when pushing towards the final states.
pub open spec fn is_push_potential<W: Semiring>(f: FstModel<W>, v: Seq<W>, ty: ReweightType) -> bool {
    &&& v.len() == f.num_states()
    &&& match ty {
        ReweightType::ReweightToInitial => exists|k: nat| #[trigger] first_settled(reverse_model(f), k)
            && forall|s: int| 0 <= s < v.len() ==> #[trigger] v[s] == distance_within(reverse_model(f), s + 1, k),
        ReweightType::ReweightToFinal => exists|k: nat| #[trigger] first_settled(f, k)
            && forall|s: int| 0 <= s < v.len() ==> #[trigger] v[s] == distance_within(f, s, k),
    }
}

/// Pushes the weights towards the initial state or the final states: computes the shortest
/// distances in the matching direction and reweights by them. Fails with `NonConvergent`
/// when the distances do not settle, leaving the FST unchanged.
pub fn push_weights<W: WeaklyDivisibleSemiring>(fst: &mut VectorFst<W>, ty: ReweightType) -> (r: Result<(), FstError>)
    requires
        old(fst)@.wf(),
        old(fst)@.num_states() + 3 <= usize::MAX,
    ensures
        r is Err <==> match ty {
            ReweightType::ReweightToFinal => forall|j: nat|
                1 <= j <= old(fst)@.num_states() + 1 ==> !#[trigger] settled_at(old(fst)@, j),
            ReweightType::ReweightToInitial => forall|j: nat|
                1 <= j <= reverse_model(old(fst)@).num_states() + 1 ==> !#[trigger] settled_at(
                    reverse_model(old(fst)@),
                    j,
                ),
        },
        r is Err ==> r == Err::<(), FstError>(FstError::NonConvergent) && final(fst)@ == old(fst)@,
        r is Ok ==> exists|v: Seq<W>| #[trigger] is_push_potential(old(fst)@, v, ty) && final(fst)@ == reweight_model(old(fst)@, v, ty),
        final(fst)@.wf(),
{
    let dist = match ty {
        ReweightType::ReweightToInitial => shortest_distance_to_final(fst),
        ReweightType::ReweightToFinal => shortest_distance(fst),
    };
    let dist = match dist {
        Ok(d) => d,
        Err(e) => return Err(e),
    };
    let ghost f = fst@;
    assert(is_push_potential(f, dist@, ty));
    reweight(fst, &dist, ty)?;
    Ok(())
}

} // verus!
