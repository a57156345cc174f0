use vstd::prelude::*;

use crate::error::FstError;
use crate::fst::FstModel;
use crate::semirings::Semiring;
use crate::tr::Tr;
use crate::vector_fst::{copy_trs, VectorFst};

verus! {

/// The order under which transitions are sorted.
#[derive(Debug, Clone, Copy, PartialEq, Eq, Structural)]
pub enum TrSortType {
    /// Lexicographic on `(ilabel, olabel, nextstate)`.
    ILabel,
    /// Lexicographic on `(olabel, ilabel, nextstate)`.
    OLabel,
}

/// The sort key of a transition.
pub open spec fn tr_key<W>(t: Tr<W>, by: TrSortType) -> (usize, usize, usize) {
    match by {
        TrSortType::ILabel => (t.ilabel, t.olabel, t.nextstate),
        TrSortType::OLabel => (t.olabel, t.ilabel, t.nextstate),
    }
}

/// The key of `a` is lexicographically smaller than that of `b`.
pub open spec fn key_lt<W>(a: Tr<W>, b: Tr<W>, by: TrSortType) -> bool {
    let (a0, a1, a2) = tr_key(a, by);
    let (b0, b1, b2) = tr_key(b, by);
    a0 < b0 || (a0 == b0 && (a1 < b1 || (a1 == b1 && a2 < b2)))
}

/// No transition of `s` has a smaller key than one before it.
pub open spec fn is_sorted_by<W>(s: Seq<Tr<W>>, by: TrSortType) -> bool {
    forall|i: int, j: int| 0 <= i < j < s.len() ==> !key_lt(#[trigger] s[j], #[trigger] s[i], by)
}

/// `perm` is a bijection of `0..n` with `r[k] == s[perm[k]]`, and transitions with equal
/// keys keep their relative order.
pub open spec fn is_stable_permutation<W>(
    r: Seq<Tr<W>>,
    s: Seq<Tr<W>>,
    perm: Seq<int>,
    by: TrSortType,
) -> bool {
    &&& r.len() == s.len()
    &&& perm.len() == s.len()
    &&& forall|k: int| 0 <= k < perm.len() ==> 0 <= #[trigger] perm[k] < s.len() && r[k] == s[perm[k]]
    &&& forall|k1: int, k2: int|
        0 <= k1 < k2 < perm.len() ==> #[trigger] perm[k1] != #[trigger] perm[k2]
    &&& forall|k1: int, k2: int|
        0 <= k1 < k2 < perm.len() && tr_key(r[k1], by) == tr_key(r[k2], by) ==> #[trigger] perm[k1]
            < #[trigger] perm[k2]
}

/// `r` is the stable sort of `s`: sorted, a stable permutation of `s`, and `s` itself when
/// `s` was already sorted.
pub open spec fn is_stable_sort_of<W>(r: Seq<Tr<W>>, s: Seq<Tr<W>>, by: TrSortType) -> bool {
    &&& is_sorted_by(r, by)
    &&& exists|perm: Seq<int>| is_stable_permutation(r, s, perm, by)
    &&& (is_sorted_by(s, by) ==> r == s)
}

/// `r` is `f` with the transitions of every state stably sorted.
pub open spec fn is_arcsorted_of<W>(r: FstModel<W>, f: FstModel<W>, by: TrSortType) -> bool {
    &&& r.start == f.start
    &&& r.isymt == f.isymt
    &&& r.osymt == f.osymt
    &&& r.finals == f.finals
    &&& r.trs.len() == f.trs.len()
    &&& forall|s: int| 0 <= s < f.trs.len() ==> is_stable_sort_of(#[trigger] r.trs[s], f.trs[s], by)
}

/// Whether `a` sorts strictly before `b`.
pub fn tr_less<W>(a: &Tr<W>, b: &Tr<W>, by: TrSortType) -> (r: bool)
    ensures
        r == key_lt(*a, *b, by),
{
    let (a0, a1, a2, b0, b1, b2) = match by {
        TrSortType::ILabel => (a.ilabel, a.olabel, a.nextstate, b.ilabel, b.olabel, b.nextstate),
        TrSortType::OLabel => (a.olabel, a.ilabel, a.nextstate, b.olabel, b.ilabel, b.nextstate),
    };
    a0 < b0 || (a0 == b0 && (a1 < b1 || (a1 == b1 && a2 < b2)))
}

/// Stable insertion sort of `v` by key.
pub fn sort_trs<W>(v: &mut Vec<Tr<W>>, by: TrSortType)
    ensures
        is_stable_sort_of(final(v)@, old(v)@, by),
{
    let ghost s = old(v)@;
    let n = v.len();
    let ghost mut perm: Seq<int> = Seq::new(n as nat, |k: int| k);
    if n == 0 {
        assert(is_stable_permutation(v@, s, perm, by));
        return;
    }
    let mut i: usize = 1;
    while i < n
        invariant
            1 <= i <= n,
            n == s.len(),
            v@.len() == n,
            is_stable_permutation(v@, s, perm, by),
            forall|k: int| i <= k < n ==> #[trigger] perm[k] == k,
            forall|k: int| 0 <= k < i ==> #[trigger] perm[k] < i,
            forall|a: int, b: int| 0 <= a < b < i ==> !key_lt(#[trigger] v@[b], #[trigger] v@[a], by),
            is_sorted_by(s, by) ==> v@ == s,
        decreases n - i,
    {
        let mut j: usize = i;
        while j > 0 && tr_less(&v[j], &v[j - 1], by)
            invariant
                1 <= i < n,
                j <= i,
                n == s.len(),
                v@.len() == n,
                is_stable_permutation(v@, s, perm, by),
                forall|k: int| i < k < n ==> #[trigger] perm[k] == k,
                perm[j as int] == i,
                forall|k: int| 0 <= k <= i && k != j ==> #[trigger] perm[k] < i,
                // the prefix without position j is sorted, and everything after j is greater
                forall|a: int, b: int|
                    0 <= a < b <= i && a != j && b != j ==> !key_lt(#[trigger] v@[b], #[trigger] v@[a], by),
                forall|b: int| j < b <= i ==> key_lt(v@[j as int], #[trigger] v@[b], by),
                is_sorted_by(s, by) ==> v@ == s && j == i,
            decreases j,
        {
            let ghost before = v@;
            let ghost pbefore = perm;
            let x = v.remove(j);
            v.insert(j - 1, x);
            proof {
                perm = perm.update(j - 1, pbefore[j as int]).update(j as int, pbefore[j - 1]);
                assert(v@ =~= before.update(j - 1, before[j as int]).update(j as int, before[j - 1]));
            }
            j = j - 1;
        }
        i = i + 1;
    }
}

/// Stably sorts the transitions of every state by the key that `by` selects.
pub fn arc_sort<W: Semiring>(fst: &mut VectorFst<W>, by: TrSortType) -> (r: Result<(), FstError>)
    requires
        old(fst)@.wf(),
    ensures
        r is Ok,
        final(fst)@.wf(),
        is_arcsorted_of(final(fst)@, old(fst)@, by),
{
    let n = fst.num_states();
    let mut s: usize = 0;
    while s < n
        invariant
            fst@.wf(),
            n == fst@.num_states(),
            s <= n,
            fst@.start == old(fst)@.start,
            fst@.isymt == old(fst)@.isymt,
            fst@.osymt == old(fst)@.osymt,
            fst@.finals == old(fst)@.finals,
            fst@.trs.len() == old(fst)@.trs.len(),
            forall|t: int| 0 <= t < s ==> is_stable_sort_of(#[trigger] fst@.trs[t], old(fst)@.trs[t], by),
            forall|t: int| s <= t < n ==> #[trigger] fst@.trs[t] == old(fst)@.trs[t],
        decreases n - s,
    {
        let mut v = copy_trs(fst.tr_iter(s).unwrap());
        let ghost orig = v@;
        sort_trs(&mut v, by);
        proof {
            let perm = choose|perm: Seq<int>| is_stable_permutation(v@, orig, perm, by);
            assert forall|i: int| 0 <= i < v@.len() implies fst@.is_state(#[trigger] v@[i].nextstate as int) by {
                assert(v@[i] == orig[perm[i]]);
                assert(orig[perm[i]] == fst@.trs[s as int][perm[i]]);
            }
        }
        let res = fst.set_trs(s, v);
        assert(res is Ok);
        s = s + 1;
    }
    Ok(())
}

/// Sorting the transitions twice gives the same FST as sorting them once.
pub proof fn lemma_arc_sort_idempotent<W>(f: FstModel<W>, a: FstModel<W>, b: FstModel<W>, by: TrSortType)
    requires
        is_arcsorted_of(a, f, by),
        is_arcsorted_of(b, a, by),
    ensures
        b == a,
{
    assert forall|s: int| 0 <= s < a.trs.len() implies #[trigger] b.trs[s] == a.trs[s] by {
        assert(is_stable_sort_of(a.trs[s], f.trs[s], by));
        assert(is_stable_sort_of(b.trs[s], a.trs[s], by));
    }
    assert(b.trs =~= a.trs);
}

} // verus!
