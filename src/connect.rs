use vstd::prelude::*;
use vstd::set_lib::{lemma_int_range, lemma_len_subset, set_int_range};

use crate::error::FstError;
use crate::fst::{is_final_weight, FstModel};
use crate::semirings::Semiring;
use crate::symbol_table::symt_opt_view;
use crate::tr::Tr;
use crate::vector_fst::{copy_weight_opt, VectorFst};

verus! {

/// State `s` is reached from the start state by a path of at most `k` transitions.
pub open spec fn accessible_within<W: Semiring>(f: FstModel<W>, s: int, k: nat) -> bool
    decreases k,
{
    if k == 0 {
        f.start == Some(s as usize)
    } else {
        accessible_within(f, s, (k - 1) as nat) || exists|p: int, i: int|
            0 <= p < f.trs.len() && 0 <= i < f.trs[p].len() && accessible_within(
                f,
                p,
                (k - 1) as nat,
            ) && (#[trigger] f.trs[p][i]).nextstate == s
    }
}

/// State `s` reaches a final state by a path of at most `k` transitions.
pub open spec fn coaccessible_within<W: Semiring>(f: FstModel<W>, s: int, k: nat) -> bool
    decreases k,
{
    if k == 0 {
        is_final_weight(f.finals[s])
    } else {
        coaccessible_within(f, s, (k - 1) as nat) || exists|i: int|
            0 <= i < f.trs[s].len() && coaccessible_within(
                f,
                (#[trigger] f.trs[s][i]).nextstate as int,
                (k - 1) as nat,
            )
    }
}

/// State `s` is reachable from the start state. A shortest such path visits no state twice,
/// so it has fewer than `num_states` transitions.
pub open spec fn accessible<W: Semiring>(f: FstModel<W>, s: int) -> bool {
    accessible_within(f, s, f.num_states())
}

/// State `s` can reach a final state (by a path that visits no state twice).
pub open spec fn coaccessible<W: Semiring>(f: FstModel<W>, s: int) -> bool {
    coaccessible_within(f, s, f.num_states())
}

/// The number of kept states among `0..s`: the new id of a kept state `s`.
pub open spec fn count_kept(keep: Seq<bool>, s: int) -> nat
    decreases s,
{
    if s <= 0 {
        0
    } else {
        count_kept(keep, s - 1) + if keep[s - 1] {
            1nat
        } else {
            0nat
        }
    }
}

/// The transitions of `trs` that lead to kept states, in order, redirected to the new ids.
pub open spec fn kept_trs<W: Semiring>(trs: Seq<Tr<W>>, keep: Seq<bool>) -> Seq<Tr<W>>
    decreases trs.len(),
{
    if trs.len() == 0 {
        Seq::empty()
    } else {
        kept_trs(trs.drop_last(), keep) + if keep[trs.last().nextstate as int] {
            seq![
                Tr {
                    ilabel: trs.last().ilabel,
                    olabel: trs.last().olabel,
                    weight: trs.last().weight,
                    nextstate: count_kept(keep, trs.last().nextstate as int) as usize,
                },
            ]
        } else {
            Seq::empty()
        }
    }
}

/// `r` is `f` restricted to the states marked in `keep`: the kept states are renumbered
/// densely in their old order, keep their final weights, and keep the transitions that
/// lead to kept states, in order; the start state stays if it is kept, and the symbol
/// tables are kept.
pub open spec fn is_restriction<W: Semiring>(r: FstModel<W>, f: FstModel<W>, keep: Seq<bool>) -> bool {
    &&& r.num_states() == count_kept(keep, f.num_states() as int)
    &&& r.isymt == f.isymt
    &&& r.osymt == f.osymt
    &&& r.start == match f.start {
        Some(s) => if keep[s as int] {
            Some(count_kept(keep, s as int) as usize)
        } else {
            None
        },
        None => None,
    }
    &&& forall|s: int|
        0 <= s < f.num_states() && #[trigger] keep[s] ==> r.finals[count_kept(keep, s) as int]
            == f.finals[s] && r.trs[count_kept(keep, s) as int] == kept_trs(f.trs[s], keep)
}

/// The states that are both accessible and coaccessible.
pub open spec fn connected_states<W: Semiring>(f: FstModel<W>) -> Seq<bool> {
    Seq::new(f.num_states(), |s: int| accessible(f, s) && coaccessible(f, s))
}

/// `r` is `f` with every state that is not both accessible and coaccessible removed.
pub open spec fn is_connect_of<W: Semiring>(r: FstModel<W>, f: FstModel<W>) -> bool {
    is_restriction(r, f, connected_states(f))
}

pub proof fn lemma_count_kept_bounds(keep: Seq<bool>, a: int, b: int)
    requires
        0 <= a <= b <= keep.len(),
    ensures
        count_kept(keep, a) <= count_kept(keep, b),
        count_kept(keep, b) <= count_kept(keep, a) + (b - a),
        a < b && keep[a] ==> count_kept(keep, a) < count_kept(keep, b),
    decreases b - a,
{
    if a < b {
        lemma_count_kept_bounds(keep, a, b - 1);
    }
}

/// `r` does not change from round `j` to round `j + 1` on the states `0..n`.
pub open spec fn stable_at(r: spec_fn(nat, int) -> bool, n: nat, j: nat) -> bool {
    forall|s: int| 0 <= s < n ==> r((j + 1) as nat, s) == #[trigger] r(j, s)
}

pub open spec fn round_set(r: spec_fn(nat, int) -> bool, n: nat, k: nat) -> Set<int> {
    Set::new(|s: int| 0 <= s < n && r(k, s))
}

proof fn lemma_rounds_monotone(r: spec_fn(nat, int) -> bool, a: nat, b: nat, s: int)
    requires
        forall|k: nat, t: int| #[trigger] r(k, t) ==> r((k + 1) as nat, t),
        a <= b,
        r(a, s),
    ensures
        r(b, s),
    decreases b - a,
{
    if a < b {
        lemma_rounds_monotone(r, a, (b - 1) as nat, s);
        assert(r((b - 1) as nat, s));
    }
}

proof fn lemma_rounds_grow(r: spec_fn(nat, int) -> bool, n: nat, k: nat)
    requires
        forall|k: nat, t: int| #[trigger] r(k, t) ==> r((k + 1) as nat, t),
    ensures
        (exists|j: nat| j < k && #[trigger] stable_at(r, n, j)) || round_set(r, n, k).len() >= k,
        round_set(r, n, k).finite(),
    decreases k,
{
    lemma_int_range(0, n as int);
    lemma_len_subset(round_set(r, n, k), set_int_range(0, n as int));
    if k > 0 {
        let k1 = (k - 1) as nat;
        lemma_rounds_grow(r, n, k1);
        if !(exists|j: nat| j < k1 && #[trigger] stable_at(r, n, j)) && !stable_at(r, n, k1) {
            let s = choose|s: int| 0 <= s < n && r(k, s) != #[trigger] r(k1, s);
            assert(r(k, s) && !r(k1, s));
            let big = round_set(r, n, k);
            lemma_len_subset(round_set(r, n, k1), big.remove(s));
            lemma_len_subset(big, set_int_range(0, n as int));
        } else if stable_at(r, n, k1) {
            assert(k1 < k);
        }
    }
}

proof fn lemma_stable_forever(r: spec_fn(nat, int) -> bool, n: nat, j: nat, m: nat)
    requires
        forall|k: nat| stable_at(r, n, k) ==> #[trigger] stable_at(r, n, (k + 1) as nat),
        stable_at(r, n, j),
        j <= m,
    ensures
        forall|s: int| 0 <= s < n ==> #[trigger] r(m, s) == r(j, s),
    decreases m - j,
{
    if j < m {
        let m1 = (m - 1) as nat;
        lemma_stable_forever(r, n, j, m1);
        lemma_stable_forever_step(r, n, j, m1);
        assert forall|s: int| 0 <= s < n implies #[trigger] r(m, s) == r(j, s) by {
            assert(r(m1, s) == r(j, s));
            assert((m1 + 1) as nat == m);
            assert(r((m1 + 1) as nat, s) == r(m1, s));
        }
    }
}

proof fn lemma_stable_forever_step(r: spec_fn(nat, int) -> bool, n: nat, j: nat, m: nat)
    requires
        forall|k: nat| stable_at(r, n, k) ==> #[trigger] stable_at(r, n, (k + 1) as nat),
        stable_at(r, n, j),
        j <= m,
    ensures
        stable_at(r, n, m),
    decreases m - j,
{
    if j < m {
        lemma_stable_forever_step(r, n, j, (m - 1) as nat);
        assert(stable_at(r, n, ((m - 1) as nat + 1) as nat));
    }
}

/// A monotone round-by-round property of `n` states in which a round that changes nothing
/// is followed by rounds that change nothing holds after `n` rounds whenever it holds at all.
pub proof fn lemma_rounds_saturate(r: spec_fn(nat, int) -> bool, n: nat, m: nat, s: int)
    requires
        forall|k: nat, t: int| #[trigger] r(k, t) ==> r((k + 1) as nat, t),
        forall|k: nat| stable_at(r, n, k) ==> #[trigger] stable_at(r, n, (k + 1) as nat),
        0 <= s < n,
        r(m, s),
    ensures
        r(n, s),
{
    if m <= n {
        lemma_rounds_monotone(r, m, n, s);
    } else {
        lemma_rounds_grow(r, n, n + 1);
        lemma_int_range(0, n as int);
        lemma_len_subset(round_set(r, n, n + 1), set_int_range(0, n as int));
        let j = choose|j: nat| j < n + 1 && #[trigger] stable_at(r, n, j);
        lemma_stable_forever(r, n, j, m);
        lemma_rounds_monotone(r, j, n, s);
    }
}

/// Reachability from the start state within `k` transitions holds within `num_states`
/// transitions as soon as it holds at all.
pub proof fn lemma_accessible_saturates<W: Semiring>(f: FstModel<W>, s: int, m: nat)
    requires
        f.wf(),
        0 <= s < f.num_states(),
        accessible_within(f, s, m),
    ensures
        accessible(f, s),
{
    let r = |k: nat, t: int| accessible_within(f, t, k);
    let n = f.num_states();
    assert forall|k: nat| stable_at(r, n, k) implies #[trigger] stable_at(r, n, (k + 1) as nat) by {
        assert forall|t: int| 0 <= t < n implies r((k + 2) as nat, t) == #[trigger] r((k + 1) as nat, t) by {
            if r((k + 2) as nat, t) && !accessible_within(f, t, (k + 1) as nat) {
                let (p, i) = choose|p: int, i: int|
                    0 <= p < f.trs.len() && 0 <= i < f.trs[p].len() && accessible_within(f, p, (k + 1) as nat)
                        && (#[trigger] f.trs[p][i]).nextstate == t;
                assert(r((k + 1) as nat, p) == r(k, p));
            }
        }
    }
    lemma_rounds_saturate(r, n, m, s);
}

/// Reaching a final state within `k` transitions holds within `num_states` transitions as
/// soon as it holds at all.
pub proof fn lemma_coaccessible_saturates<W: Semiring>(f: FstModel<W>, s: int, m: nat)
    requires
        f.wf(),
        0 <= s < f.num_states(),
        coaccessible_within(f, s, m),
    ensures
        coaccessible(f, s),
{
    let r = |k: nat, t: int| coaccessible_within(f, t, k);
    let n = f.num_states();
    assert forall|k: nat| stable_at(r, n, k) implies #[trigger] stable_at(r, n, (k + 1) as nat) by {
        assert forall|t: int| 0 <= t < n implies r((k + 2) as nat, t) == #[trigger] r((k + 1) as nat, t) by {
            if r((k + 2) as nat, t) && !coaccessible_within(f, t, (k + 1) as nat) {
                let i = choose|i: int|
                    0 <= i < f.trs[t].len() && coaccessible_within(
                        f,
                        (#[trigger] f.trs[t][i]).nextstate as int,
                        (k + 1) as nat,
                    );
                let d = f.trs[t][i].nextstate as int;
                assert(r((k + 1) as nat, d) == r(k, d));
            }
        }
    }
    lemma_rounds_saturate(r, n, m, s);
}

pub(crate) proof fn lemma_kept_trs_has<W: Semiring>(trs: Seq<Tr<W>>, keep: Seq<bool>, i: int) -> (j: int)
    requires
        0 <= i < trs.len(),
        0 <= trs[i].nextstate < keep.len(),
        keep.len() <= usize::MAX,
        keep[trs[i].nextstate as int],
    ensures
        0 <= j < kept_trs(trs, keep).len(),
        kept_trs(trs, keep)[j].nextstate == count_kept(keep, trs[i].nextstate as int),
    decreases trs.len(),
{
    lemma_count_kept_bounds(keep, trs[i].nextstate as int, keep.len() as int);
    lemma_count_kept_bounds(keep, 0, keep.len() as int);
    let prev = kept_trs(trs.drop_last(), keep);
    if i == trs.len() - 1 {
        assert(trs.last() == trs[i]);
        assert(kept_trs(trs, keep)[prev.len() as int].nextstate == count_kept(keep, trs[i].nextstate as int) as usize);
        prev.len() as int
    } else {
        assert(trs.drop_last()[i] == trs[i]);
        let j = lemma_kept_trs_has(trs.drop_last(), keep, i);
        assert(kept_trs(trs, keep)[j] == prev[j]);
        j
    }
}

pub(crate) proof fn lemma_kept_trs_members<W: Semiring>(trs: Seq<Tr<W>>, keep: Seq<bool>, j: int) -> (i: int)
    requires
        0 <= j < kept_trs(trs, keep).len(),
    ensures
        0 <= i < trs.len(),
        keep[trs[i].nextstate as int],
        kept_trs(trs, keep)[j] == (Tr {
            nextstate: count_kept(keep, trs[i].nextstate as int) as usize,
            ..trs[i]
        }),
    decreases trs.len(),
{
    let prev = kept_trs(trs.drop_last(), keep);
    if j < prev.len() {
        let i = lemma_kept_trs_members(trs.drop_last(), keep, j);
        assert(trs.drop_last()[i] == trs[i]);
        i
    } else {
        trs.len() - 1
    }
}

pub(crate) proof fn lemma_count_kept_onto(keep: Seq<bool>, m: int, j: int) -> (s: int)
    requires
        0 <= m <= keep.len(),
        0 <= j < count_kept(keep, m),
    ensures
        0 <= s < m,
        keep[s],
        count_kept(keep, s) == j,
    decreases m,
{
    if keep[m - 1] && j == count_kept(keep, m - 1) {
        m - 1
    } else {
        lemma_count_kept_onto(keep, m - 1, j)
    }
}

proof fn lemma_count_kept_all(keep: Seq<bool>, m: int)
    requires
        0 <= m <= keep.len(),
        forall|t: int| 0 <= t < keep.len() ==> #[trigger] keep[t],
    ensures
        count_kept(keep, m) == m,
    decreases m,
{
    if m > 0 {
        lemma_count_kept_all(keep, m - 1);
    }
}

proof fn lemma_kept_trs_all<W: Semiring>(trs: Seq<Tr<W>>, keep: Seq<bool>)
    requires
        forall|t: int| 0 <= t < keep.len() ==> #[trigger] keep[t],
        forall|i: int| 0 <= i < trs.len() ==> (#[trigger] trs[i]).nextstate < keep.len(),
    ensures
        kept_trs(trs, keep) == trs,
    decreases trs.len(),
{
    if trs.len() > 0 {
        assert forall|i: int| 0 <= i < trs.drop_last().len() implies (#[trigger] trs.drop_last()[i]).nextstate < keep.len() by {
            assert(trs.drop_last()[i] == trs[i]);
        }
        lemma_kept_trs_all(trs.drop_last(), keep);
        let last = trs.last();
        assert(last == trs[trs.len() - 1]);
        lemma_count_kept_all(keep, last.nextstate as int);
        assert(kept_trs(trs, keep) =~= trs);
    }
}

pub(crate) proof fn lemma_connected_edge<W: Semiring>(f: FstModel<W>, p: int, i: int)
    requires
        f.wf(),
        0 <= p < f.num_states(),
        0 <= i < f.trs[p].len(),
        accessible(f, p),
        coaccessible(f, f.trs[p][i].nextstate as int),
    ensures
        accessible(f, f.trs[p][i].nextstate as int),
        coaccessible(f, p),
{
    let t = f.trs[p][i].nextstate as int;
    let n = f.num_states();
    assert(accessible_within(f, t, n + 1));
    lemma_accessible_saturates(f, t, n + 1);
    assert(coaccessible_within(f, p, n + 1));
    lemma_coaccessible_saturates(f, p, n + 1);
}

proof fn lemma_accessible_transfer<W: Semiring>(f: FstModel<W>, g: FstModel<W>, s: int, k: nat)
    requires
        f.wf(),
        g.wf(),
        is_connect_of(g, f),
        f.num_states() <= usize::MAX,
        0 <= s < f.num_states(),
        connected_states(f)[s],
        accessible_within(f, s, k),
    ensures
        accessible_within(g, count_kept(connected_states(f), s) as int, k),
    decreases k,
{
    let keep = connected_states(f);
    let n = f.num_states();
    lemma_count_kept_bounds(keep, s, n as int);
    if k > 0 && !accessible_within(f, s, (k - 1) as nat) {
        let (p, i) = choose|p: int, i: int|
            0 <= p < f.trs.len() && 0 <= i < f.trs[p].len() && accessible_within(f, p, (k - 1) as nat)
                && (#[trigger] f.trs[p][i]).nextstate == s;
        lemma_accessible_saturates(f, p, (k - 1) as nat);
        lemma_connected_edge(f, p, i);
        assert(keep[p]);
        lemma_accessible_transfer(f, g, p, (k - 1) as nat);
        lemma_count_kept_bounds(keep, p, n as int);
        let cp = count_kept(keep, p) as int;
        let j = lemma_kept_trs_has(f.trs[p], keep, i);
        assert(g.trs[cp] == kept_trs(f.trs[p], keep));
        assert(g.trs[cp][j].nextstate == count_kept(keep, s));
    } else if k > 0 {
        lemma_accessible_transfer(f, g, s, (k - 1) as nat);
    } else {
        assert(f.start == Some(s as usize));
        assert(g.start == Some(count_kept(keep, s) as usize));
    }
}

proof fn lemma_coaccessible_transfer<W: Semiring>(f: FstModel<W>, g: FstModel<W>, s: int, k: nat)
    requires
        f.wf(),
        g.wf(),
        is_connect_of(g, f),
        f.num_states() <= usize::MAX,
        0 <= s < f.num_states(),
        connected_states(f)[s],
        coaccessible_within(f, s, k),
    ensures
        coaccessible_within(g, count_kept(connected_states(f), s) as int, k),
    decreases k,
{
    let keep = connected_states(f);
    let n = f.num_states();
    lemma_count_kept_bounds(keep, s, n as int);
    let cs = count_kept(keep, s) as int;
    if k > 0 && !coaccessible_within(f, s, (k - 1) as nat) {
        let i = choose|i: int|
            0 <= i < f.trs[s].len() && coaccessible_within(
                f,
                (#[trigger] f.trs[s][i]).nextstate as int,
                (k - 1) as nat,
            );
        let t = f.trs[s][i].nextstate as int;
        lemma_coaccessible_saturates(f, t, (k - 1) as nat);
        lemma_connected_edge(f, s, i);
        assert(keep[t]);
        lemma_coaccessible_transfer(f, g, t, (k - 1) as nat);
        let j = lemma_kept_trs_has(f.trs[s], keep, i);
        assert(g.trs[cs] == kept_trs(f.trs[s], keep));
        assert(g.trs[cs][j].nextstate == count_kept(keep, t));
    } else if k > 0 {
        lemma_coaccessible_transfer(f, g, s, (k - 1) as nat);
    } else {
        assert(g.finals[cs] == f.finals[s]);
    }
}

pub(crate) proof fn lemma_connect_all_connected<W: Semiring>(f: FstModel<W>, g: FstModel<W>)
    requires
        f.wf(),
        g.wf(),
        f.num_states() <= usize::MAX,
        is_connect_of(g, f),
    ensures
        forall|j: int| 0 <= j < g.num_states() ==> #[trigger] connected_states(g)[j],
{
    let keep = connected_states(f);
    let n = f.num_states();
    assert forall|j: int| 0 <= j < g.num_states() implies #[trigger] connected_states(g)[j] by {
        let s = lemma_count_kept_onto(keep, n as int, j);
        lemma_accessible_transfer(f, g, s, n);
        lemma_coaccessible_transfer(f, g, s, n);
        lemma_accessible_saturates(g, j, n);
        lemma_coaccessible_saturates(g, j, n);
    }
}

proof fn lemma_kept_trs_identity<W: Semiring>(g: FstModel<W>, keep: Seq<bool>, j: int)
    requires
        g.wf(),
        keep.len() == g.num_states(),
        forall|t: int| 0 <= t < keep.len() ==> #[trigger] keep[t],
        0 <= j < g.num_states(),
    ensures
        kept_trs(g.trs[j], keep) == g.trs[j],
{
    assert forall|i: int| 0 <= i < g.trs[j].len() implies (#[trigger] g.trs[j][i]).nextstate < keep.len() by {
    }
    lemma_kept_trs_all(g.trs[j], keep);
}

#[verifier::rlimit(100)]
proof fn lemma_restrict_finals_to_all<W: Semiring>(g: FstModel<W>, h: FstModel<W>, keep: Seq<bool>)
    requires
        g.wf(),
        h.wf(),
        keep.len() == g.num_states(),
        forall|j: int| 0 <= j < g.num_states() ==> #[trigger] keep[j],
        is_restriction(h, g, keep),
    ensures
        h.finals == g.finals,
{
    let m = g.num_states();
    lemma_count_kept_all(keep, m as int);
    assert forall|j: int| 0 <= j < m implies #[trigger] h.finals[j] == g.finals[j] by {
        lemma_count_kept_all(keep, j);
        assert(keep[j]);
    }
    assert(h.finals =~= g.finals);
}

#[verifier::rlimit(100)]
proof fn lemma_restrict_trs_to_all<W: Semiring>(g: FstModel<W>, h: FstModel<W>, keep: Seq<bool>)
    requires
        g.wf(),
        h.wf(),
        keep.len() == g.num_states(),
        forall|j: int| 0 <= j < g.num_states() ==> #[trigger] keep[j],
        is_restriction(h, g, keep),
    ensures
        h.trs == g.trs,
{
    let m = g.num_states();
    lemma_count_kept_all(keep, m as int);
    assert forall|j: int| 0 <= j < m implies #[trigger] h.trs[j] == g.trs[j] by {
        lemma_count_kept_all(keep, j);
        assert(keep[j]);
        lemma_kept_trs_identity(g, keep, j);
    }
    assert(h.trs =~= g.trs);
}

proof fn lemma_restrict_to_all<W: Semiring>(g: FstModel<W>, h: FstModel<W>, keep: Seq<bool>)
    requires
        g.wf(),
        h.wf(),
        keep.len() == g.num_states(),
        forall|j: int| 0 <= j < g.num_states() ==> #[trigger] keep[j],
        is_restriction(h, g, keep),
    ensures
        h == g,
{
    lemma_restrict_finals_to_all(g, h, keep);
    lemma_restrict_trs_to_all(g, h, keep);
    if let Some(st) = g.start {
        lemma_count_kept_all(keep, st as int);
        assert(keep[st as int]);
    }
}

/// `j` is the new id of some state that survives the connection of `f`.
pub open spec fn is_new_id<W: Semiring>(f: FstModel<W>, j: int) -> bool {
    exists|s: int|
        0 <= s < f.num_states() && connected_states(f)[s] && #[trigger] count_kept(
            connected_states(f),
            s,
        ) == j
}

/// The states that survive a connection are renumbered onto `0..num_states` of the result,
/// one to one and in their old order.
pub proof fn lemma_connect_ids_dense<W: Semiring>(f: FstModel<W>, g: FstModel<W>)
    requires
        f.wf(),
        is_connect_of(g, f),
    ensures
        forall|j: int| 0 <= j < g.num_states() ==> #[trigger] is_new_id(f, j),
        forall|s: int|
            0 <= s < f.num_states() && #[trigger] connected_states(f)[s] ==> count_kept(
                connected_states(f),
                s,
            ) < g.num_states(),
        forall|s: int, t: int|
            0 <= s < t < f.num_states() && connected_states(f)[s] ==> #[trigger] count_kept(
                connected_states(f),
                s,
            ) < #[trigger] count_kept(connected_states(f), t),
{
    let keep = connected_states(f);
    let n = f.num_states() as int;
    assert forall|j: int| 0 <= j < g.num_states() implies #[trigger] is_new_id(f, j) by {
        let s = lemma_count_kept_onto(keep, n, j);
        assert(0 <= s < n && keep[s] && count_kept(keep, s) == j);
    }
    assert forall|s: int| 0 <= s < n && #[trigger] keep[s] implies count_kept(keep, s) < g.num_states() by {
        lemma_count_kept_bounds(keep, s, n);
    }
    assert forall|s: int, t: int| 0 <= s < t < n && keep[s] implies #[trigger] count_kept(keep, s)
        < #[trigger] count_kept(keep, t) by {
        lemma_count_kept_bounds(keep, s, t);
    }
}

/// Connecting twice gives the same FST as connecting once: every state that survives the
/// first connection is accessible and coaccessible in its result.
pub proof fn lemma_connect_idempotent<W: Semiring>(f: FstModel<W>, g: FstModel<W>, h: FstModel<W>)
    requires
        f.wf(),
        g.wf(),
        h.wf(),
        f.num_states() <= usize::MAX,
        is_connect_of(g, f),
        is_connect_of(h, g),
    ensures
        h == g,
{
    lemma_connect_all_connected(f, g);
    lemma_restrict_to_all(g, h, connected_states(g));
}

/// Marks the states reachable from the start state.
pub fn accessible_states<W: Semiring>(fst: &VectorFst<W>) -> (r: Vec<bool>)
    requires
        fst@.wf(),
    ensures
        r@.len() == fst@.num_states(),
        forall|s: int| 0 <= s < r@.len() ==> #[trigger] r@[s] == accessible(fst@, s),
{
    let ghost f = fst@;
    let n = fst.num_states();
    let start = fst.start();
    let mut cur: Vec<bool> = Vec::new();
    let mut s: usize = 0;
    while s < n
        invariant
            f == fst@,
            n == f.num_states(),
            start == f.start,
            s <= n,
            cur@.len() == s,
            forall|t: int| 0 <= t < s ==> #[trigger] cur@[t] == accessible_within(f, t, 0),
        decreases n - s,
    {
        cur.push(start == Some(s));
        s = s + 1;
    }
    let mut k: usize = 0;
    while k < n
        invariant
            f == fst@,
            f.wf(),
            n == f.num_states(),
            k <= n,
            cur@.len() == n,
            forall|t: int| 0 <= t < n ==> #[trigger] cur@[t] == accessible_within(f, t, k as nat),
        decreases n - k,
    {
        let mut next: Vec<bool> = Vec::new();
        let mut s: usize = 0;
        while s < n
            invariant
                cur@.len() == n,
                s <= n,
                next@.len() == s,
                forall|t: int| 0 <= t < s ==> #[trigger] next@[t] == cur@[t],
            decreases n - s,
        {
            next.push(cur[s]);
            s = s + 1;
        }
        let mut p: usize = 0;
        while p < n
            invariant
                f == fst@,
                f.wf(),
                n == f.num_states(),
                k < n,
                p <= n,
                cur@.len() == n,
                next@.len() == n,
                forall|t: int| 0 <= t < n ==> #[trigger] cur@[t] == accessible_within(f, t, k as nat),
                forall|t: int|
                    0 <= t < n ==> (#[trigger] next@[t] <==> (accessible_within(f, t, k as nat) || exists|q: int, i: int|
                        0 <= q < p && 0 <= i < f.trs[q].len() && accessible_within(f, q, k as nat)
                            && (#[trigger] f.trs[q][i]).nextstate == t)),
            decreases n - p,
        {
            if cur[p] {
                let trs = fst.tr_iter(p).unwrap();
                let mut i: usize = 0;
                while i < trs.len()
                    invariant
                        f == fst@,
                        f.wf(),
                        n == f.num_states(),
                        k < n,
                        p < n,
                        i <= trs@.len(),
                        trs@ == f.trs[p as int],
                        accessible_within(f, p as int, k as nat),
                        cur@.len() == n,
                        next@.len() == n,
                        forall|t: int|
                            0 <= t < n ==> (#[trigger] next@[t] <==> (accessible_within(f, t, k as nat) || (exists|q: int, j: int|
                                0 <= q < p && 0 <= j < f.trs[q].len() && accessible_within(f, q, k as nat)
                                    && (#[trigger] f.trs[q][j]).nextstate == t) || (exists|j: int| 0 <= j < i && (#[trigger] f.trs[p as int][j]).nextstate == t))),
                    decreases trs@.len() - i,
                {
                    assert(trs@[i as int] == f.trs[p as int][i as int]);
                    let d = trs[i].nextstate;
                    let ghost before = next@;
                    next.set(d, true);
                    assert forall|t: int| 0 <= t < n implies (#[trigger] next@[t] <==> (accessible_within(f, t, k as nat) || (exists|q: int, j: int|
                        0 <= q < p && 0 <= j < f.trs[q].len() && accessible_within(f, q, k as nat)
                            && (#[trigger] f.trs[q][j]).nextstate == t) || (exists|j: int| 0 <= j < i + 1 && (#[trigger] f.trs[p as int][j]).nextstate == t))) by {
                        if t == d {
                            assert(f.trs[p as int][i as int].nextstate == t);
                        } else {
                            assert(next@[t] == before[t]);
                            if exists|j: int| 0 <= j < i + 1 && (#[trigger] f.trs[p as int][j]).nextstate == t {
                                let j = choose|j: int| 0 <= j < i + 1 && (#[trigger] f.trs[p as int][j]).nextstate == t;
                                assert(j < i);
                            }
                        }
                    }
                    i = i + 1;
                }
                assert forall|t: int| 0 <= t < n implies (#[trigger] next@[t] <==> (accessible_within(f, t, k as nat) || exists|q: int, j: int|
                    0 <= q < p + 1 && 0 <= j < f.trs[q].len() && accessible_within(f, q, k as nat)
                        && (#[trigger] f.trs[q][j]).nextstate == t)) by {
                    if exists|q: int, j: int| 0 <= q < p + 1 && 0 <= j < f.trs[q].len() && accessible_within(f, q, k as nat)
                        && (#[trigger] f.trs[q][j]).nextstate == t {
                        let (q, j) = choose|q: int, j: int| 0 <= q < p + 1 && 0 <= j < f.trs[q].len() && accessible_within(f, q, k as nat)
                            && (#[trigger] f.trs[q][j]).nextstate == t;
                        if q == p {
                            assert(f.trs[p as int][j].nextstate == t);
                        }
                    }
                }
            } else {
                assert forall|t: int| 0 <= t < n implies (#[trigger] next@[t] <==> (accessible_within(f, t, k as nat) || exists|q: int, j: int|
                    0 <= q < p + 1 && 0 <= j < f.trs[q].len() && accessible_within(f, q, k as nat)
                        && (#[trigger] f.trs[q][j]).nextstate == t)) by {
                    if exists|q: int, j: int| 0 <= q < p + 1 && 0 <= j < f.trs[q].len() && accessible_within(f, q, k as nat)
                        && (#[trigger] f.trs[q][j]).nextstate == t {
                        let (q, j) = choose|q: int, j: int| 0 <= q < p + 1 && 0 <= j < f.trs[q].len() && accessible_within(f, q, k as nat)
                            && (#[trigger] f.trs[q][j]).nextstate == t;
                        assert(q != p);
                    }
                }
            }
            p = p + 1;
        }
        cur = next;
        k = k + 1;
    }
    cur
}

/// Marks the states from which a final state can be reached.
pub fn coaccessible_states<W: Semiring>(fst: &VectorFst<W>) -> (r: Vec<bool>)
    requires
        fst@.wf(),
    ensures
        r@.len() == fst@.num_states(),
        forall|s: int| 0 <= s < r@.len() ==> #[trigger] r@[s] == coaccessible(fst@, s),
{
    let ghost f = fst@;
    let n = fst.num_states();
    let mut cur: Vec<bool> = Vec::new();
    let mut s: usize = 0;
    while s < n
        invariant
            f == fst@,
            f.wf(),
            n == f.num_states(),
            s <= n,
            cur@.len() == s,
            forall|t: int| 0 <= t < s ==> #[trigger] cur@[t] == coaccessible_within(f, t, 0),
        decreases n - s,
    {
        cur.push(fst.is_final(s).unwrap());
        s = s + 1;
    }
    let mut k: usize = 0;
    while k < n
        invariant
            f == fst@,
            f.wf(),
            n == f.num_states(),
            k <= n,
            cur@.len() == n,
            forall|t: int| 0 <= t < n ==> #[trigger] cur@[t] == coaccessible_within(f, t, k as nat),
        decreases n - k,
    {
        let mut next: Vec<bool> = Vec::new();
        let mut s: usize = 0;
        while s < n
            invariant
                f == fst@,
                f.wf(),
                n == f.num_states(),
                k < n,
                s <= n,
                cur@.len() == n,
                next@.len() == s,
                forall|t: int| 0 <= t < n ==> #[trigger] cur@[t] == coaccessible_within(f, t, k as nat),
                forall|t: int| 0 <= t < s ==> #[trigger] next@[t] == coaccessible_within(f, t, (k + 1) as nat),
            decreases n - s,
        {
            let trs = fst.tr_iter(s).unwrap();
            let mut found = cur[s];
            let mut i: usize = 0;
            while i < trs.len()
                invariant
                    f == fst@,
                    f.wf(),
                    n == f.num_states(),
                    s < n,
                    i <= trs@.len(),
                    trs@ == f.trs[s as int],
                    cur@.len() == n,
                    forall|t: int| 0 <= t < n ==> #[trigger] cur@[t] == coaccessible_within(f, t, k as nat),
                    found <==> (coaccessible_within(f, s as int, k as nat) || exists|j: int|
                        0 <= j < i && coaccessible_within(f, (#[trigger] f.trs[s as int][j]).nextstate as int, k as nat)),
                decreases trs@.len() - i,
            {
                assert(trs@[i as int] == f.trs[s as int][i as int]);
                if cur[trs[i].nextstate] {
                    found = true;
                }
                i = i + 1;
            }
            next.push(found);
            s = s + 1;
        }
        cur = next;
        k = k + 1;
    }
    cur
}

/// Builds the restriction of `fst` to the states marked in `keep` (see `is_restriction`).
pub fn restrict<W: Semiring>(fst: &VectorFst<W>, keep: &Vec<bool>) -> (r: VectorFst<W>)
    requires
        fst@.wf(),
        keep@.len() == fst@.num_states(),
    ensures
        r@.wf(),
        is_restriction(r@, fst@, keep@),
{
    let ghost f = fst@;
    let ghost kp = keep@;
    let n = fst.num_states();
    let mut mapping: Vec<usize> = Vec::new();
    let mut cnt: usize = 0;
    let mut s: usize = 0;
    while s < n
        invariant
            n == f.num_states(),
            kp == keep@,
            kp.len() == n,
            s <= n,
            mapping@.len() == s,
            cnt == count_kept(kp, s as int),
            cnt <= s,
            forall|t: int| 0 <= t < s ==> #[trigger] mapping@[t] == count_kept(kp, t),
        decreases n - s,
    {
        proof { lemma_count_kept_bounds(kp, s as int, s + 1); }
        mapping.push(cnt);
        if keep[s] {
            cnt = cnt + 1;
        }
        s = s + 1;
    }
    let total = cnt;
    let mut finals: Vec<Option<W>> = Vec::new();
    let mut trs: Vec<Vec<Tr<W>>> = Vec::new();
    let mut s: usize = 0;
    while s < n
        invariant
            f == fst@,
            f.wf(),
            n == f.num_states(),
            kp == keep@,
            kp.len() == n,
            s <= n,
            mapping@.len() == n,
            total == count_kept(kp, n as int),
            forall|t: int| 0 <= t < n ==> #[trigger] mapping@[t] == count_kept(kp, t),
            finals@.len() == count_kept(kp, s as int),
            trs@.len() == count_kept(kp, s as int),
            forall|t: int|
                0 <= t < s && #[trigger] kp[t] ==> finals@[count_kept(kp, t) as int] == f.finals[t]
                    && trs@[count_kept(kp, t) as int]@ == kept_trs(f.trs[t], kp),
            forall|a: int, j: int|
                0 <= a < trs@.len() && 0 <= j < trs@[a]@.len() ==> (#[trigger] trs@[a]@[j]).nextstate < total,
        decreases n - s,
    {
        if keep[s] {
            let otrs = fst.tr_iter(s).unwrap();
            let mut v: Vec<Tr<W>> = Vec::new();
            let mut i: usize = 0;
            while i < otrs.len()
                invariant
                    f == fst@,
                    f.wf(),
                    n == f.num_states(),
                    kp == keep@,
                    kp.len() == n,
                    s < n,
                    i <= otrs@.len(),
                    otrs@ == f.trs[s as int],
                    mapping@.len() == n,
                    total == count_kept(kp, n as int),
                    forall|t: int| 0 <= t < n ==> #[trigger] mapping@[t] == count_kept(kp, t),
                    v@ == kept_trs(otrs@.take(i as int), kp),
                    forall|j: int| 0 <= j < v@.len() ==> (#[trigger] v@[j]).nextstate < total,
                decreases otrs@.len() - i,
            {
                assert(otrs@.take(i + 1).drop_last() =~= otrs@.take(i as int));
                assert(otrs@[i as int] == f.trs[s as int][i as int]);
                let d = otrs[i].nextstate;
                if keep[d] {
                    proof { lemma_count_kept_bounds(kp, d as int, n as int); }
                    let tr = Tr::new(otrs[i].ilabel, otrs[i].olabel, otrs[i].weight.duplicate(), mapping[d]);
                    v.push(tr);
                }
                assert(v@ =~= kept_trs(otrs@.take(i + 1), kp));
                i = i + 1;
            }
            assert(otrs@.take(otrs@.len() as int) =~= otrs@);
            let fw = fst.final_weight(s).unwrap();
            let ghost old_trs = trs@;
            let ghost old_finals = finals@;
            finals.push(fw);
            trs.push(v);
            assert forall|t: int|
                0 <= t < s + 1 && #[trigger] kp[t] implies finals@[count_kept(kp, t) as int] == f.finals[t]
                    && trs@[count_kept(kp, t) as int]@ == kept_trs(f.trs[t], kp) by {
                if t < s {
                    lemma_count_kept_bounds(kp, t, s as int);
                    assert(trs@[count_kept(kp, t) as int] == old_trs[count_kept(kp, t) as int]);
                }
            }
        } else {
            assert forall|t: int|
                0 <= t < s + 1 && #[trigger] kp[t] implies finals@[count_kept(kp, t) as int] == f.finals[t]
                    && trs@[count_kept(kp, t) as int]@ == kept_trs(f.trs[t], kp) by {
                assert(t < s);
            }
        }
        s = s + 1;
    }
    let start = match fst.start() {
        Some(st) => if keep[st] {
            Some(mapping[st])
        } else {
            None
        },
        None => None,
    };
    proof {
        if let Some(st) = start {
            let os = f.start.unwrap();
            lemma_count_kept_bounds(kp, os as int, n as int);
        }
    }
    let isymt = fst.input_symbols();
    let osymt = fst.output_symbols();
    let ghost m = FstModel {
        start: start,
        finals: finals@,
        trs: trs@.map_values(|v: Vec<Tr<W>>| v@),
        isymt: symt_opt_view(isymt),
        osymt: symt_opt_view(osymt),
    };
    assert(m.wf());
    assert forall|t: int|
        0 <= t < f.num_states() && #[trigger] kp[t] implies m.finals[count_kept(kp, t) as int]
            == f.finals[t] && m.trs[count_kept(kp, t) as int] == kept_trs(f.trs[t], kp) by {
        lemma_count_kept_bounds(kp, t, n as int);
    }
    assert(is_restriction(m, f, kp));
    VectorFst::from_parts(start, finals, trs, isymt, osymt)
}

/// Removes every state that is not both accessible and coaccessible, renumbering the
/// remaining states densely in their old order.
pub fn connect<W: Semiring>(fst: &mut VectorFst<W>) -> (r: Result<(), FstError>)
    requires
        old(fst)@.wf(),
    ensures
        r is Ok,
        final(fst)@.wf(),
        is_connect_of(final(fst)@, old(fst)@),
{
    let access = accessible_states(fst);
    let coaccess = coaccessible_states(fst);
    let n = fst.num_states();
    let mut keep: Vec<bool> = Vec::new();
    let mut s: usize = 0;
    while s < n
        invariant
            n == fst@.num_states(),
            access@.len() == n,
            coaccess@.len() == n,
            forall|t: int| 0 <= t < n ==> #[trigger] access@[t] == accessible(fst@, t),
            forall|t: int| 0 <= t < n ==> #[trigger] coaccess@[t] == coaccessible(fst@, t),
            s <= n,
            keep@.len() == s,
            forall|t: int| 0 <= t < s ==> #[trigger] keep@[t] == connected_states(fst@)[t],
        decreases n - s,
    {
        keep.push(access[s] && coaccess[s]);
        s = s + 1;
    }
    assert(keep@ =~= connected_states(fst@));
    let r = restrict(fst, &keep);
    *fst = r;
    Ok(())
}

} // verus!
