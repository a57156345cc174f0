use vstd::prelude::*;

use crate::connect::{
    accessible, coaccessible, coaccessible_states, connect, connected_states, count_kept, is_connect_of,
    kept_trs, lemma_connect_all_connected, lemma_connect_idempotent, lemma_connected_edge,
    lemma_count_kept_bounds, lemma_count_kept_onto, lemma_kept_trs_has, lemma_kept_trs_members,
};
use crate::error::FstError;
use crate::fst::{is_final_weight, FstModel};
use crate::semirings::Semiring;
use crate::symbol_table::symt_opt_view;
use crate::tr::Tr;
use crate::vector_fst::VectorFst;
use crate::EPS_LABEL;

verus! {

/// State `s` is final and none of its successors can reach a final state.
pub open spec fn is_dead_final<W: Semiring>(f: FstModel<W>, s: int) -> bool {
    &&& is_final_weight(f.finals[s])
    &&& forall|i: int|
        0 <= i < f.trs[s].len() ==> !coaccessible(f, (#[trigger] f.trs[s][i]).nextstate as int)
}

/// An epsilon:epsilon transition into a dead final state: it is folded into a final weight.
pub open spec fn is_removable<W: Semiring>(f: FstModel<W>, tr: Tr<W>) -> bool {
    tr.ilabel == EPS_LABEL && tr.olabel == EPS_LABEL && is_dead_final(f, tr.nextstate as int)
}

/// Starting from `init`, adds `final(t) * w` for each removable transition `t` of `trs`,
/// in order.
pub open spec fn absorbed_weight<W: Semiring>(f: FstModel<W>, trs: Seq<Tr<W>>, init: W) -> W
    decreases trs.len(),
{
    if trs.len() == 0 {
        init
    } else {
        let prev = absorbed_weight(f, trs.drop_last(), init);
        if is_removable(f, trs.last()) {
            W::plus_spec(
                prev,
                W::times_spec(f.finals[trs.last().nextstate as int].unwrap(), trs.last().weight),
            )
        } else {
            prev
        }
    }
}

/// The transitions of `trs` that are not removable, in order.
pub open spec fn remaining_trs<W: Semiring>(f: FstModel<W>, trs: Seq<Tr<W>>) -> Seq<Tr<W>>
    decreases trs.len(),
{
    if trs.len() == 0 {
        Seq::empty()
    } else {
        remaining_trs(f, trs.drop_last()) + if is_removable(f, trs.last()) {
            Seq::empty()
        } else {
            seq![trs.last()]
        }
    }
}

/// Some transition of `trs` is removable.
pub open spec fn has_removable<W: Semiring>(f: FstModel<W>, trs: Seq<Tr<W>>) -> bool
    decreases trs.len(),
{
    trs.len() > 0 && (has_removable(f, trs.drop_last()) || is_removable(f, trs.last()))
}

/// The final weight of state `s` once its removable transitions are folded in: unchanged
/// when it has none or when the sum is zero.
pub open spec fn absorbed_final<W: Semiring>(f: FstModel<W>, s: int) -> Option<W> {
    let init = match f.finals[s] {
        Some(w) => w,
        None => W::zero_spec(),
    };
    let w = absorbed_weight(f, f.trs[s], init);
    if has_removable(f, f.trs[s]) && w != W::zero_spec() {
        Some(w)
    } else {
        f.finals[s]
    }
}

/// `f` with every removable transition folded into the final weight of its source.
pub open spec fn final_epsilons_absorbed<W: Semiring>(f: FstModel<W>) -> FstModel<W> {
    FstModel {
        start: f.start,
        isymt: f.isymt,
        osymt: f.osymt,
        finals: Seq::new(f.num_states(), |s: int| absorbed_final(f, s)),
        trs: Seq::new(f.num_states(), |s: int| remaining_trs(f, f.trs[s])),
    }
}

/// One folding pass: `fst` with its removable transitions folded into final weights, and
/// whether any transition was removable.
fn absorb_pass<W: Semiring>(fst: &VectorFst<W>) -> (r: (VectorFst<W>, bool))
    requires
        fst@.wf(),
    ensures
        r.0@ == final_epsilons_absorbed(fst@),
        r.0@.wf(),
        r.1 == any_removable(fst@),
{
    let ghost f = fst@;
    let n = fst.num_states();
    let coaccess = coaccessible_states(fst);

    let mut dead: Vec<bool> = Vec::new();
    let mut s: usize = 0;
    while s < n
        invariant
            f == fst@,
            f.wf(),
            n == f.num_states(),
            coaccess@.len() == n,
            forall|t: int| 0 <= t < n ==> #[trigger] coaccess@[t] == coaccessible(f, t),
            s <= n,
            dead@.len() == s,
            forall|t: int| 0 <= t < s ==> #[trigger] dead@[t] == is_dead_final(f, t),
        decreases n - s,
    {
        let trs = fst.tr_iter(s).unwrap();
        let mut future_coaccess = false;
        let mut i: usize = 0;
        while i < trs.len()
            invariant
                f == fst@,
                f.wf(),
                n == f.num_states(),
                s < n,
                trs@ == f.trs[s as int],
                coaccess@.len() == n,
                forall|t: int| 0 <= t < n ==> #[trigger] coaccess@[t] == coaccessible(f, t),
                i <= trs@.len(),
                future_coaccess <==> exists|j: int|
                    0 <= j < i && coaccessible(f, (#[trigger] f.trs[s as int][j]).nextstate as int),
            decreases trs@.len() - i,
        {
            assert(trs@[i as int] == f.trs[s as int][i as int]);
            if coaccess[trs[i].nextstate] {
                future_coaccess = true;
            }
            i = i + 1;
        }
        dead.push(fst.is_final(s).unwrap() && !future_coaccess);
        s = s + 1;
    }

    let ghost g = final_epsilons_absorbed(f);
    let mut any = false;
    let mut new_finals: Vec<Option<W>> = Vec::new();
    let mut new_trs: Vec<Vec<Tr<W>>> = Vec::new();
    let mut s: usize = 0;
    while s < n
        invariant
            f == fst@,
            f.wf(),
            n == f.num_states(),
            dead@.len() == n,
            forall|t: int| 0 <= t < n ==> #[trigger] dead@[t] == is_dead_final(f, t),
            g == final_epsilons_absorbed(f),
            s <= n,
            any <==> exists|t: int| 0 <= t < s && #[trigger] has_removable(f, f.trs[t]),
            new_finals@.len() == s,
            new_trs@.len() == s,
            forall|t: int| 0 <= t < s ==> #[trigger] new_finals@[t] == g.finals[t],
            forall|t: int| 0 <= t < s ==> (#[trigger] new_trs@[t])@ == g.trs[t],
            forall|a: int, j: int|
                0 <= a < s && 0 <= j < new_trs@[a]@.len() ==> (#[trigger] new_trs@[a]@[j]).nextstate < n,
        decreases n - s,
    {
        let trs = fst.tr_iter(s).unwrap();
        let old_final = fst.final_weight(s).unwrap();
        let init = match &old_final {
            Some(w) => w.duplicate(),
            None => W::zero(),
        };
        let ghost init_g = init;
        let mut weight = init;
        let mut removed = false;
        let mut kept: Vec<Tr<W>> = Vec::new();
        let mut i: usize = 0;
        while i < trs.len()
            invariant
                f == fst@,
                f.wf(),
                n == f.num_states(),
                s < n,
                trs@ == f.trs[s as int],
                dead@.len() == n,
                forall|t: int| 0 <= t < n ==> #[trigger] dead@[t] == is_dead_final(f, t),
                i <= trs@.len(),
                weight == absorbed_weight(f, trs@.take(i as int), init_g),
                removed == has_removable(f, trs@.take(i as int)),
                kept@ == remaining_trs(f, trs@.take(i as int)),
                forall|j: int| 0 <= j < kept@.len() ==> (#[trigger] kept@[j]).nextstate < n,
            decreases trs@.len() - i,
        {
            assert(trs@.take(i + 1).drop_last() =~= trs@.take(i as int));
            assert(trs@[i as int] == f.trs[s as int][i as int]);
            let tr = &trs[i];
            if tr.ilabel == EPS_LABEL && tr.olabel == EPS_LABEL && dead[tr.nextstate] {
                let fw = fst.final_weight(tr.nextstate).unwrap();
                if let Some(x) = fw {
                    weight = weight.plus(&x.times(&tr.weight));
                }
                removed = true;
            } else {
                kept.push(tr.duplicate());
            }
            assert(kept@ =~= remaining_trs(f, trs@.take(i + 1)));
            i = i + 1;
        }
        assert(trs@.take(trs@.len() as int) =~= trs@);
        if removed && !weight.is_zero() {
            new_finals.push(Some(weight));
        } else {
            new_finals.push(old_final);
        }
        if removed {
            any = true;
        }
        proof {
            if exists|t: int| 0 <= t < s + 1 && #[trigger] has_removable(f, f.trs[t]) {
                let t = choose|t: int| 0 <= t < s + 1 && #[trigger] has_removable(f, f.trs[t]);
                if t == s {
                    assert(removed);
                }
            }
            if removed {
                assert(has_removable(f, f.trs[s as int]));
            }
        }
        new_trs.push(kept);
        s = s + 1;
    }

    let isymt = fst.input_symbols();
    let osymt = fst.output_symbols();
    let ghost m = FstModel {
        start: f.start,
        finals: new_finals@,
        trs: new_trs@.map_values(|v: Vec<Tr<W>>| v@),
        isymt: symt_opt_view(isymt),
        osymt: symt_opt_view(osymt),
    };
    assert(m.finals =~= g.finals);
    assert(m.trs =~= g.trs);
    let out = VectorFst::from_parts(fst.start(), new_finals, new_trs, isymt, osymt);
    (out, any)
}

/// The total number of transitions.
pub open spec fn total_trs<W>(trs: Seq<Seq<Tr<W>>>) -> nat
    decreases trs.len(),
{
    if trs.len() == 0 {
        0
    } else {
        total_trs(trs.drop_last()) + trs.last().len()
    }
}

/// Some state of `f` has a removable transition.
pub open spec fn any_removable<W: Semiring>(f: FstModel<W>) -> bool {
    exists|t: int| 0 <= t < f.num_states() && #[trigger] has_removable(f, f.trs[t])
}

/// Folding passes repeated, at most `fuel` times, until no transition is removable.
pub open spec fn absorbed_fixpoint<W: Semiring>(f: FstModel<W>, fuel: nat) -> FstModel<W>
    decreases fuel,
{
    if fuel == 0 || !any_removable(f) {
        f
    } else {
        absorbed_fixpoint(final_epsilons_absorbed(f), (fuel - 1) as nat)
    }
}

/// `f` with removable transitions folded until none is left. Each pass removes at least
/// one transition, so as many passes as there are transitions suffice.
pub open spec fn final_epsilons_folded<W: Semiring>(f: FstModel<W>) -> FstModel<W> {
    absorbed_fixpoint(f, total_trs(f.trs))
}

proof fn lemma_remaining_len<W: Semiring>(f: FstModel<W>, trs: Seq<Tr<W>>)
    ensures
        remaining_trs(f, trs).len() <= trs.len(),
        has_removable(f, trs) ==> remaining_trs(f, trs).len() < trs.len(),
    decreases trs.len(),
{
    if trs.len() > 0 {
        lemma_remaining_len(f, trs.drop_last());
    }
}

proof fn lemma_total_le<W>(a: Seq<Seq<Tr<W>>>, b: Seq<Seq<Tr<W>>>, k: int)
    requires
        a.len() == b.len(),
        forall|i: int| 0 <= i < a.len() ==> (#[trigger] a[i]).len() <= b[i].len(),
        0 <= k < a.len(),
        a[k].len() < b[k].len(),
    ensures
        total_trs(a) < total_trs(b),
    decreases a.len(),
{
    lemma_total_le_weak(a.drop_last(), b.drop_last());
    if k < a.len() - 1 {
        lemma_total_le(a.drop_last(), b.drop_last(), k);
    }
}

proof fn lemma_total_le_weak<W>(a: Seq<Seq<Tr<W>>>, b: Seq<Seq<Tr<W>>>)
    requires
        a.len() == b.len(),
        forall|i: int| 0 <= i < a.len() ==> (#[trigger] a[i]).len() <= b[i].len(),
    ensures
        total_trs(a) <= total_trs(b),
    decreases a.len(),
{
    if a.len() > 0 {
        lemma_total_le_weak(a.drop_last(), b.drop_last());
    }
}

proof fn lemma_absorb_shrinks<W: Semiring>(f: FstModel<W>)
    requires
        f.wf(),
        any_removable(f),
    ensures
        total_trs(final_epsilons_absorbed(f).trs) < total_trs(f.trs),
        final_epsilons_folded(f) == absorbed_fixpoint(final_epsilons_absorbed(f), (total_trs(f.trs) - 1) as nat),
{
    let g = final_epsilons_absorbed(f);
    let k = choose|t: int| 0 <= t < f.num_states() && #[trigger] has_removable(f, f.trs[t]);
    assert forall|i: int| 0 <= i < g.trs.len() implies (#[trigger] g.trs[i]).len() <= f.trs[i].len() by {
        lemma_remaining_len(f, f.trs[i]);
    }
    lemma_remaining_len(f, f.trs[k]);
    lemma_total_le(g.trs, f.trs, k);
}

proof fn lemma_fixpoint_fuel<W: Semiring>(f: FstModel<W>, fuel: nat, need: nat)
    requires
        f.wf(),
        need == total_trs(f.trs),
        fuel >= need,
    ensures
        absorbed_fixpoint(f, fuel) == absorbed_fixpoint(f, need),
    decreases need,
{
    if any_removable(f) {
        lemma_absorb_shrinks(f);
        let g = final_epsilons_absorbed(f);
        lemma_absorbed_wf(f);
        lemma_fixpoint_fuel(g, (fuel - 1) as nat, total_trs(g.trs));
        lemma_fixpoint_fuel(g, (need - 1) as nat, total_trs(g.trs));
    }
}

proof fn lemma_remaining_members<W: Semiring>(f: FstModel<W>, trs: Seq<Tr<W>>, j: int)
    requires
        0 <= j < remaining_trs(f, trs).len(),
    ensures
        exists|i: int| 0 <= i < trs.len() && #[trigger] trs[i] == remaining_trs(f, trs)[j],
    decreases trs.len(),
{
    let prev = remaining_trs(f, trs.drop_last());
    if j < prev.len() {
        lemma_remaining_members(f, trs.drop_last(), j);
        let i = choose|i: int| 0 <= i < trs.drop_last().len() && #[trigger] trs.drop_last()[i] == prev[j];
        assert(trs[i] == remaining_trs(f, trs)[j]);
    } else {
        assert(trs[trs.len() - 1] == remaining_trs(f, trs)[j]);
    }
}

proof fn lemma_absorbed_wf<W: Semiring>(f: FstModel<W>)
    requires
        f.wf(),
    ensures
        final_epsilons_absorbed(f).wf(),
{
    let g = final_epsilons_absorbed(f);
    assert forall|s: int, i: int| 0 <= s < g.trs.len() && 0 <= i < g.trs[s].len() implies (
        #[trigger] g.trs[s][i]).nextstate < g.num_states() by {
        lemma_remaining_members(f, f.trs[s], i);
        let k = choose|k: int| 0 <= k < f.trs[s].len() && #[trigger] f.trs[s][k] == remaining_trs(f, f.trs[s])[i];
        assert(f.trs[s][k].nextstate < f.num_states());
    }
}

proof fn lemma_has_removable_at<W: Semiring>(f: FstModel<W>, trs: Seq<Tr<W>>)
    ensures
        has_removable(f, trs) <==> exists|i: int| 0 <= i < trs.len() && is_removable(f, #[trigger] trs[i]),
    decreases trs.len(),
{
    if trs.len() > 0 {
        lemma_has_removable_at(f, trs.drop_last());
        if exists|i: int| 0 <= i < trs.len() && is_removable(f, #[trigger] trs[i]) {
            let i = choose|i: int| 0 <= i < trs.len() && is_removable(f, #[trigger] trs[i]);
            if i < trs.len() - 1 {
                assert(trs.drop_last()[i] == trs[i]);
            }
        }
        if has_removable(f, trs.drop_last()) {
            let i = choose|i: int| 0 <= i < trs.drop_last().len() && is_removable(f, #[trigger] trs.drop_last()[i]);
            assert(trs[i] == trs.drop_last()[i]);
        }
    }
}

proof fn lemma_fixpoint_wf<W: Semiring>(f: FstModel<W>, fuel: nat)
    requires
        f.wf(),
    ensures
        absorbed_fixpoint(f, fuel).wf(),
        absorbed_fixpoint(f, fuel).num_states() == f.num_states(),
    decreases fuel,
{
    if fuel > 0 && any_removable(f) {
        lemma_absorbed_wf(f);
        lemma_fixpoint_wf(final_epsilons_absorbed(f), (fuel - 1) as nat);
    }
}

/// Connecting an FST with no removable transition leaves none.
proof fn lemma_connect_keeps_none_removable<W: Semiring>(h: FstModel<W>, r: FstModel<W>)
    requires
        h.wf(),
        r.wf(),
        h.num_states() <= usize::MAX,
        !any_removable(h),
        is_connect_of(r, h),
    ensures
        !any_removable(r),
{
    if any_removable(r) {
        let keep = connected_states(h);
        let n = h.num_states() as int;
        let t = choose|t: int| 0 <= t < r.num_states() && #[trigger] has_removable(r, r.trs[t]);
        lemma_has_removable_at(r, r.trs[t]);
        let i = choose|i: int| 0 <= i < r.trs[t].len() && is_removable(r, #[trigger] r.trs[t][i]);
        let d = r.trs[t][i].nextstate as int;
        lemma_connect_all_connected(h, r);
        // A dead final state of `r` has no transition, since every state of `r` is coaccessible.
        if r.trs[d].len() > 0 {
            assert(connected_states(r)[r.trs[d][0].nextstate as int]);
            assert(false);
        }
        let tp = lemma_count_kept_onto(keep, n, t);
        let dp = lemma_count_kept_onto(keep, n, d);
        assert(r.trs[t] == kept_trs(h.trs[tp], keep));
        let ip = lemma_kept_trs_members(h.trs[tp], keep, i);
        let e = h.trs[tp][ip];
        assert(r.trs[t][i] == kept_trs(h.trs[tp], keep)[i]);
        lemma_count_kept_bounds(keep, 0, e.nextstate as int);
        lemma_count_kept_bounds(keep, e.nextstate as int, n);
        assert(count_kept(keep, e.nextstate as int) == d);
        assert(count_kept(keep, dp) == d);
        if e.nextstate != dp {
            if e.nextstate < dp {
                lemma_count_kept_bounds(keep, e.nextstate as int, dp);
            } else {
                lemma_count_kept_bounds(keep, dp, e.nextstate as int);
            }
        }
        assert(r.finals[d] == h.finals[dp]);
        assert(r.trs[d] == kept_trs(h.trs[dp], keep));
        assert forall|k: int| 0 <= k < h.trs[dp].len() implies !coaccessible(h, (#[trigger] h.trs[dp][k]).nextstate as int) by {
            let x = h.trs[dp][k].nextstate as int;
            if coaccessible(h, x) {
                lemma_connected_edge(h, dp, k);
                assert(keep[x]);
                let jj = lemma_kept_trs_has(h.trs[dp], keep, k);
            }
        }
        assert(e.nextstate == dp);
        assert(e.ilabel == EPS_LABEL && e.olabel == EPS_LABEL);
        assert(is_dead_final(h, dp));
        assert(is_removable(h, h.trs[tp][ip]));
        lemma_has_removable_at(h, h.trs[tp]);
        assert(has_removable(h, h.trs[tp]));
    }
}

/// Removing final epsilons twice gives the same FST as removing them once.
pub proof fn lemma_rm_final_epsilon_idempotent<W: Semiring>(f: FstModel<W>, r1: FstModel<W>, r2: FstModel<W>)
    requires
        f.wf(),
        r1.wf(),
        r2.wf(),
        f.num_states() <= usize::MAX,
        is_connect_of(r1, final_epsilons_folded(f)),
        !any_removable(final_epsilons_folded(f)),
        is_connect_of(r2, final_epsilons_folded(r1)),
    ensures
        r2 == r1,
{
    let h = final_epsilons_folded(f);
    lemma_fixpoint_wf(f, total_trs(f.trs));
    lemma_connect_keeps_none_removable(h, r1);
    assert(final_epsilons_folded(r1) == r1);
    lemma_connect_idempotent(h, r1, r2);
}

/// Removes final states that are reached only by epsilon:epsilon transitions: each such
/// transition into a final state with no coaccessible successor is deleted and its weight
/// times that final weight is added to the final weight of its source. This is repeated
/// until no such transition is left; then the FST is connected.
pub fn rm_final_epsilon<W: Semiring>(ifst: &mut VectorFst<W>) -> (r: Result<(), FstError>)
    requires
        old(ifst)@.wf(),
    ensures
        r is Ok,
        final(ifst)@.wf(),
        is_connect_of(final(ifst)@, final_epsilons_folded(old(ifst)@)),
        !any_removable(final_epsilons_folded(old(ifst)@)),
{
    let ghost target = final_epsilons_folded(old(ifst)@);
    loop
        invariant
            ifst@.wf(),
            target == final_epsilons_folded(old(ifst)@),
            final_epsilons_folded(ifst@) == target,
        ensures
            ifst@.wf(),
            ifst@ == target,
            !any_removable(target),
        decreases total_trs(ifst@.trs),
    {
        let (next, changed) = absorb_pass(ifst);
        if !changed {
            assert(final_epsilons_folded(ifst@) == ifst@);
            break;
        }
        proof {
            let cur = ifst@;
            lemma_absorb_shrinks(cur);
            lemma_fixpoint_fuel(next@, (total_trs(cur.trs) - 1) as nat, total_trs(next@.trs));
        }
        *ifst = next;
    }
    connect(ifst)?;
    Ok(())
}

} // verus!
