use vstd::prelude::*;

use crate::fst::FstModel;
use crate::semirings::Semiring;
use crate::tr::Tr;
use crate::error::FstError;
use crate::reverse::{reverse, reverse_model};
use crate::vector_fst::VectorFst;

verus! {

/// Starting from `acc`, adds `w * t.weight` for each transition `t` among the first `i` of
/// `trs` that enters `s`, in order.
pub open spec fn trs_into_sum<W: Semiring>(trs: Seq<Tr<W>>, w: W, s: int, i: int, acc: W) -> W
    decreases i,
{
    if i <= 0 {
        acc
    } else {
        let prev = trs_into_sum(trs, w, s, i - 1, acc);
        if trs[i - 1].nextstate == s {
            W::plus_spec(prev, W::times_spec(w, trs[i - 1].weight))
        } else {
            prev
        }
    }
}

/// The sum, over the transitions `t` leaving the states `0..p` (by state, then in stored
/// order) that enter `s`, of `layer[source] * t.weight`.
pub open spec fn incoming_sum<W: Semiring>(f: FstModel<W>, layer: Seq<W>, s: int, p: int) -> W
    decreases p,
{
    if p <= 0 {
        W::zero_spec()
    } else {
        trs_into_sum(f.trs[p - 1], layer[p - 1], s, f.trs[p - 1].len() as int, incoming_sum(f, layer, s, p - 1))
    }
}

/// The weight sum of the paths from the start state that have exactly `k` transitions,
/// for each state where they end.
pub open spec fn paths_layer<W: Semiring>(f: FstModel<W>, k: nat) -> Seq<W>
    decreases k,
{
    if k == 0 {
        Seq::new(
            f.num_states(),
            |s: int| if f.start == Some(s as usize) { W::one_spec() } else { W::zero_spec() },
        )
    } else {
        Seq::new(
            f.num_states(),
            |s: int| incoming_sum(f, paths_layer(f, (k - 1) as nat), s, f.num_states() as int),
        )
    }
}

/// The weight sum of the paths from the start state to `s` with fewer than `k` transitions.
pub open spec fn distance_within<W: Semiring>(f: FstModel<W>, s: int, k: nat) -> W
    decreases k,
{
    if k == 0 {
        W::zero_spec()
    } else {
        W::plus_spec(distance_within(f, s, (k - 1) as nat), paths_layer(f, (k - 1) as nat)[s])
    }
}

/// One more round of paths changes no distance after `k` rounds.
pub open spec fn settled_at<W: Semiring>(f: FstModel<W>, k: nat) -> bool {
    forall|s: int| 0 <= s < f.num_states() ==> #[trigger] distance_within(f, s, k + 1) == distance_within(f, s, k)
}

/// The round at which shortest distance stops: the first `k` in `1..=num_states + 1`
/// after which one more round changes nothing.
pub open spec fn first_settled<W: Semiring>(f: FstModel<W>, k: nat) -> bool {
    &&& 1 <= k <= f.num_states() + 1
    &&& settled_at(f, k)
    &&& forall|j: nat| 1 <= j < k ==> !#[trigger] settled_at(f, j)
}

/// Computes the next layer of path weights from `layer`.
fn next_layer<W: Semiring>(fst: &VectorFst<W>, layer: &Vec<W>) -> (r: Vec<W>)
    requires
        fst@.wf(),
        layer@.len() == fst@.num_states(),
    ensures
        r@.len() == fst@.num_states(),
        forall|s: int| 0 <= s < r@.len() ==> #[trigger] r@[s] == incoming_sum(fst@, layer@, s, fst@.num_states() as int),
{
    let ghost f = fst@;
    let n = fst.num_states();
    let mut acc: Vec<W> = Vec::new();
    let mut s: usize = 0;
    while s < n
        invariant
            s <= n,
            acc@.len() == s,
            forall|t: int| 0 <= t < s ==> #[trigger] acc@[t] == W::zero_spec(),
        decreases n - s,
    {
        acc.push(W::zero());
        s = s + 1;
    }
    let mut p: usize = 0;
    while p < n
        invariant
            f == fst@,
            f.wf(),
            n == f.num_states(),
            layer@.len() == n,
            p <= n,
            acc@.len() == n,
            forall|t: int| 0 <= t < n ==> #[trigger] acc@[t] == incoming_sum(f, layer@, t, p as int),
        decreases n - p,
    {
        let trs = fst.tr_iter(p).unwrap();
        let ghost base = acc@;
        let mut i: usize = 0;
        while i < trs.len()
            invariant
                f == fst@,
                f.wf(),
                n == f.num_states(),
                layer@.len() == n,
                p < n,
                trs@ == f.trs[p as int],
                i <= trs@.len(),
                acc@.len() == n,
                base.len() == n,
                forall|t: int| 0 <= t < n ==> #[trigger] base[t] == incoming_sum(f, layer@, t, p as int),
                forall|t: int| 0 <= t < n ==> #[trigger] acc@[t] == trs_into_sum(trs@, layer@[p as int], t, i as int, base[t]),
            decreases trs@.len() - i,
        {
            assert(trs@[i as int] == f.trs[p as int][i as int]);
            let d = trs[i].nextstate;
            let term = layer[p].times(&trs[i].weight);
            let v = acc[d].plus(&term);
            acc.set(d, v);
            i = i + 1;
        }
        p = p + 1;
    }
    acc
}

/// The shortest distance from the start state to every state: the weight sums of the
/// paths with fewer than `k` transitions, for the first round `k` (at most
/// `num_states + 1`) after which one more round changes no distance. On an acyclic FST
/// this holds by round `num_states` at the latest. Fails with `NonConvergent` when no
/// round up to that limit settles.
pub fn shortest_distance<W: Semiring>(fst: &VectorFst<W>) -> (r: Result<Vec<W>, FstError>)
    requires
        fst@.wf(),
        fst@.num_states() + 2 <= usize::MAX,
    ensures
        r is Err <==> forall|j: nat| 1 <= j <= fst@.num_states() + 1 ==> !#[trigger] settled_at(fst@, j),
        r is Err ==> r == Err::<Vec<W>, FstError>(FstError::NonConvergent),
        r matches Ok(d) ==> exists|k: nat| #[trigger] first_settled(fst@, k) && d@.len() == fst@.num_states()
            && forall|s: int| 0 <= s < d@.len() ==> #[trigger] d@[s] == distance_within(fst@, s, k),
{
    let ghost f = fst@;
    let n = fst.num_states();
    let start = fst.start();
    let mut layer: Vec<W> = Vec::new();
    let mut dist: Vec<W> = Vec::new();
    let mut s: usize = 0;
    while s < n
        invariant
            f == fst@,
            n == f.num_states(),
            start == f.start,
            s <= n,
            layer@.len() == s,
            dist@.len() == s,
            forall|t: int| 0 <= t < s ==> #[trigger] layer@[t] == paths_layer(f, 0)[t],
            forall|t: int| 0 <= t < s ==> #[trigger] dist@[t] == W::zero_spec(),
        decreases n - s,
    {
        if start == Some(s) {
            layer.push(W::one());
        } else {
            layer.push(W::zero());
        }
        dist.push(W::zero());
        s = s + 1;
    }
    let mut k: usize = 0;
    while k <= n + 1
        invariant
            f == fst@,
            f.wf(),
            n == f.num_states(),
            n + 2 <= usize::MAX,
            k <= n + 2,
            layer@.len() == n,
            dist@.len() == n,
            layer@ == paths_layer(f, k as nat),
            forall|t: int| 0 <= t < n ==> #[trigger] dist@[t] == distance_within(f, t, k as nat),
            forall|j: nat| 1 <= j < k ==> !#[trigger] settled_at(f, j),
        decreases n + 2 - k,
    {
        let mut settled = true;
        let mut s: usize = 0;
        while s < n
            invariant
                n == f.num_states(),
                s <= n,
                layer@.len() == n,
                dist@.len() == n,
                layer@ == paths_layer(f, k as nat),
                forall|t: int| 0 <= t < s ==> #[trigger] dist@[t] == distance_within(f, t, (k + 1) as nat),
                forall|t: int| s <= t < n ==> #[trigger] dist@[t] == distance_within(f, t, k as nat),
                settled <==> forall|t: int| 0 <= t < s ==> #[trigger] distance_within(f, t, (k + 1) as nat) == distance_within(f, t, k as nat),
            decreases n - s,
        {
            let v = dist[s].plus(&layer[s]);
            assert(v == distance_within(f, s as int, (k + 1) as nat));
            let same = v.equals(&dist[s]);
            if !same {
                settled = false;
            }
            let ghost before = dist@;
            dist.set(s, v);
            assert forall|t: int| 0 <= t < s + 1 implies #[trigger] dist@[t] == distance_within(f, t, (k + 1) as nat) by {
                if t < s {
                    assert(dist@[t] == before[t]);
                }
            }
            s = s + 1;
        }
        if settled && k >= 1 {
            // `dist` now holds round `k + 1`, equal to round `k`.
            proof {
                assert(settled_at(f, k as nat));
                assert(first_settled(f, k as nat));
                assert forall|t: int| 0 <= t < n implies #[trigger] dist@[t] == distance_within(f, t, k as nat) by {
                    assert(distance_within(f, t, (k + 1) as nat) == distance_within(f, t, k as nat));
                }
            }
            return Ok(dist);
        }
        proof {
            if k >= 1 {
                assert(!settled_at(f, k as nat));
            }
        }
        let next = next_layer(fst, &layer);
        assert(next@ =~= paths_layer(f, (k + 1) as nat));
        layer = next;
        k = k + 1;
    }
    Err(FstError::NonConvergent)
}

/// The shortest distance from every state to the final states: the distance of state
/// `s + 1` in the reverse FST, whose start state reaches the old final states.
pub fn shortest_distance_to_final<W: Semiring>(fst: &VectorFst<W>) -> (r: Result<Vec<W>, FstError>)
    requires
        fst@.wf(),
        fst@.num_states() + 3 <= usize::MAX,
    ensures
        r is Err <==> forall|j: nat| 1 <= j <= reverse_model(fst@).num_states() + 1 ==> !#[trigger] settled_at(reverse_model(fst@), j),
        r is Err ==> r == Err::<Vec<W>, FstError>(FstError::NonConvergent),
        r matches Ok(d) ==> exists|k: nat| #[trigger] first_settled(reverse_model(fst@), k) && d@.len() == fst@.num_states()
            && forall|s: int| 0 <= s < d@.len() ==> #[trigger] d@[s] == distance_within(reverse_model(fst@), s + 1, k),
{
    let rfst = reverse(fst)?;
    let n = fst.num_states();
    let rd = shortest_distance(&rfst)?;
    let mut d: Vec<W> = Vec::new();
    let mut s: usize = 0;
    while s < n
        invariant
            n == fst@.num_states(),
            rd@.len() == n + 1,
            s <= n,
            d@.len() == s,
            forall|t: int| 0 <= t < s ==> #[trigger] d@[t] == rd@[t + 1],
        decreases n - s,
    {
        d.push(rd[s + 1].duplicate());
        s = s + 1;
    }
    proof {
        let k = choose|k: nat| #[trigger] first_settled(rfst@, k) && rd@.len() == rfst@.num_states()
            && forall|s: int| 0 <= s < rd@.len() ==> #[trigger] rd@[s] == distance_within(rfst@, s, k);
        assert forall|t: int| 0 <= t < d@.len() implies #[trigger] d@[t] == distance_within(reverse_model(fst@), t + 1, k) by {
            assert(rd@[t + 1] == distance_within(rfst@, t + 1, k));
        }
    }
    Ok(d)
}

} // verus!
