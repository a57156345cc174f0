use vstd::prelude::*;

use crate::error::FstError;
use crate::fst::FstModel;
use crate::semirings::Semiring;
use crate::symbol_table::symt_opt_view;
use crate::tr::Tr;
use crate::vector_fst::VectorFst;
use crate::EPS_LABEL;

verus! {

/// The transitions of the superinitial state of the reverse: for each final state `s` of
/// `finals`, in increasing order, an epsilon transition to `s + 1` weighted by the reversed
/// final weight.
pub open spec fn reversed_final_trs<W: Semiring>(finals: Seq<Option<W>>) -> Seq<Tr<W>>
    decreases finals.len(),
{
    if finals.len() == 0 {
        Seq::empty()
    } else {
        reversed_final_trs(finals.drop_last()) + match finals.last() {
            Some(w) => seq![
                Tr {
                    ilabel: EPS_LABEL,
                    olabel: EPS_LABEL,
                    weight: W::reverse_spec(w),
                    nextstate: finals.len() as usize,
                },
            ],
            None => Seq::empty(),
        }
    }
}

/// The reversed copies, in order, of the transitions of `trs` (which leave state `src`)
/// that enter state `t`: each leads to `src + 1` with the reversed weight.
pub open spec fn reversed_into<W: Semiring>(trs: Seq<Tr<W>>, t: int, src: int) -> Seq<Tr<W>>
    decreases trs.len(),
{
    if trs.len() == 0 {
        Seq::empty()
    } else {
        reversed_into(trs.drop_last(), t, src) + if trs.last().nextstate == t {
            seq![
                Tr {
                    ilabel: trs.last().ilabel,
                    olabel: trs.last().olabel,
                    weight: W::reverse_spec(trs.last().weight),
                    nextstate: (src + 1) as usize,
                },
            ]
        } else {
            Seq::empty()
        }
    }
}

/// The reversed transitions entering `t` from the states `0..k`, by increasing source.
pub open spec fn reversed_incoming<W: Semiring>(f: FstModel<W>, t: int, k: int) -> Seq<Tr<W>>
    decreases k,
{
    if k <= 0 {
        Seq::empty()
    } else {
        reversed_incoming(f, t, k - 1) + reversed_into(f.trs[k - 1], t, k - 1)
    }
}

/// The reverse of `f`: a superinitial start state `0`, and state `s + 1` for each state `s`
/// of `f`. The old start state becomes final with weight one; every transition
/// `s -(i,o,w)-> t` becomes `t+1 -(i,o,reverse(w))-> s+1`. The symbol tables are copied.
pub open spec fn reverse_model<W: Semiring>(f: FstModel<W>) -> FstModel<W> {
    FstModel {
        start: Some(0),
        isymt: f.isymt,
        osymt: f.osymt,
        finals: Seq::new(
            f.num_states() + 1,
            |s: int|
                if s > 0 && f.start == Some((s - 1) as usize) {
                    Some(W::one_spec())
                } else {
                    None
                },
        ),
        trs: Seq::new(
            f.num_states() + 1,
            |s: int|
                if s == 0 {
                    reversed_final_trs(f.finals)
                } else {
                    reversed_incoming(f, s - 1, f.num_states() as int)
                },
        ),
    }
}

/// Reverses an FST: if `ifst` transduces `x` to `y` with weight `a`, the result transduces
/// the reverse of `x` to the reverse of `y` with weight `reverse(a)`.
pub fn reverse<W: Semiring>(ifst: &VectorFst<W>) -> (r: Result<VectorFst<W>, FstError>)
    requires
        ifst@.wf(),
        ifst@.num_states() < usize::MAX,
    ensures
        r is Ok,
        r matches Ok(o) ==> o@ == reverse_model(ifst@) && o@.wf(),
{
    let ghost f = ifst@;
    let n = ifst.num_states();
    let istart = ifst.start();

    // First pass: count the transitions entering each state to size the output vectors.
    let mut c_trs: Vec<usize> = Vec::new();
    let mut k: usize = 0;
    while k <= n
        invariant
            k <= n + 1,
            n < usize::MAX,
            c_trs@.len() == k,
        decreases n + 1 - k,
    {
        c_trs.push(0);
        k = k + 1;
    }
    let mut is: usize = 0;
    while is < n
        invariant
            f == ifst@,
            f.wf(),
            n == f.num_states(),
            n < usize::MAX,
            c_trs@.len() == n + 1,
        decreases n - is,
    {
        let trs = ifst.tr_iter(is).unwrap();
        let mut i: usize = 0;
        while i < trs.len()
            invariant
                f == ifst@,
                f.wf(),
                0 <= is < n,
                trs@ == f.trs[is as int],
                n == f.num_states(),
                n < usize::MAX,
                c_trs@.len() == n + 1,
            decreases trs@.len() - i,
        {
            assert(trs@[i as int] == f.trs[is as int][i as int]);
            let j = trs[i].nextstate + 1;
            let c = c_trs[j];
            if c < usize::MAX {
                c_trs.set(j, c + 1);
            }
            i = i + 1;
        }
        is = is + 1;
    }

    let mut states_trs: Vec<Vec<Tr<W>>> = Vec::new();
    let mut k: usize = 0;
    while k <= n
        invariant
            k <= n + 1,
            n < usize::MAX,
            c_trs@.len() == n + 1,
            states_trs@.len() == k,
            forall|t: int| 0 <= t < k ==> (#[trigger] states_trs@[t])@ == Seq::<Tr<W>>::empty(),
        decreases n + 1 - k,
    {
        states_trs.push(Vec::with_capacity(c_trs[k]));
        k = k + 1;
    }

    let mut is: usize = 0;
    while is < n
        invariant
            f == ifst@,
            f.wf(),
            n == f.num_states(),
            n < usize::MAX,
            is <= n,
            states_trs@.len() == n + 1,
            states_trs@[0]@ == reversed_final_trs(f.finals.take(is as int)),
            forall|t: int|
                0 <= t < n ==> (#[trigger] states_trs@[t + 1])@ == reversed_incoming(f, t, is as int),
            forall|t: int, j: int|
                0 <= t <= n && 0 <= j < states_trs@[t]@.len() ==> (
                #[trigger] states_trs@[t]@[j]).nextstate <= is,
        decreases n - is,
    {
        let os = is + 1;
        let fw = ifst.final_weight(is).unwrap();
        assert(f.finals.take(is + 1).drop_last() =~= f.finals.take(is as int));
        if let Some(w) = fw {
            let rtr = Tr::new(EPS_LABEL, EPS_LABEL, w.reverse(), os);
            states_trs[0].push(rtr);
        }
        assert(states_trs@[0]@ =~= reversed_final_trs(f.finals.take(is + 1)));
        let trs = ifst.tr_iter(is).unwrap();
        let mut i: usize = 0;
        while i < trs.len()
            invariant
                f == ifst@,
                f.wf(),
                0 <= is < n,
                os == is + 1,
                trs@ == f.trs[is as int],
                n == f.num_states(),
                n < usize::MAX,
                i <= trs@.len(),
                states_trs@.len() == n + 1,
                states_trs@[0]@ == reversed_final_trs(f.finals.take(is + 1)),
                forall|t: int|
                    0 <= t < n ==> (#[trigger] states_trs@[t + 1])@ == reversed_incoming(f, t, is as int)
                        + reversed_into(trs@.take(i as int), t, is as int),
                forall|t: int, j: int|
                    0 <= t <= n && 0 <= j < states_trs@[t]@.len() ==> (
                    #[trigger] states_trs@[t]@[j]).nextstate <= is + 1,
            decreases trs@.len() - i,
        {
            let tr = &trs[i];
            assert(tr == f.trs[is as int][i as int]);
            let nos = tr.nextstate + 1;
            let rtr = Tr::new(tr.ilabel, tr.olabel, tr.weight.reverse(), os);
            let ghost before = states_trs@;
            states_trs[nos].push(rtr);
            assert forall|t: int| 0 <= t < n implies (#[trigger] states_trs@[t + 1])@
                == reversed_incoming(f, t, is as int) + reversed_into(trs@.take(i + 1), t, is as int) by {
                assert(trs@.take(i + 1).drop_last() =~= trs@.take(i as int));
                if t + 1 == nos {
                    assert(states_trs@[t + 1]@ =~= before[t + 1]@.push(rtr));
                } else {
                    assert(states_trs@[t + 1] == before[t + 1]);
                }
            }
            assert forall|t: int, j: int|
                0 <= t <= n && 0 <= j < states_trs@[t]@.len() implies (
                #[trigger] states_trs@[t]@[j]).nextstate <= is + 1 by {
                if t == nos && j == before[t]@.len() {
                } else {
                    assert(states_trs@[t]@[j] == before[t]@[j]);
                }
            }
            i = i + 1;
        }
        assert forall|t: int| 0 <= t < n implies (#[trigger] states_trs@[t + 1])@
            == reversed_incoming(f, t, is + 1) by {
            assert(trs@.take(trs@.len() as int) =~= trs@);
        }
        is = is + 1;
    }

    let mut ofinals: Vec<Option<W>> = Vec::new();
    let mut k: usize = 0;
    while k <= n
        invariant
            k <= n + 1,
            n < usize::MAX,
            n == f.num_states(),
            istart == f.start,
            ofinals@.len() == k,
            forall|s: int| 0 <= s < k ==> #[trigger] ofinals@[s] == reverse_model(f).finals[s],
        decreases n + 1 - k,
    {
        if k > 0 && istart == Some(k - 1) {
            ofinals.push(Some(W::one()));
        } else {
            ofinals.push(None);
        }
        k = k + 1;
    }

    let isymt = ifst.input_symbols();
    let osymt = ifst.output_symbols();
    let ghost m = FstModel {
        start: Some(0usize),
        finals: ofinals@,
        trs: states_trs@.map_values(|v: Vec<Tr<W>>| v@),
        isymt: symt_opt_view(isymt),
        osymt: symt_opt_view(osymt),
    };
    assert(f.finals.take(n as int) =~= f.finals);
    assert(m.finals =~= reverse_model(f).finals);
    assert forall|s: int| 0 <= s <= n implies #[trigger] m.trs[s] == reverse_model(f).trs[s] by {
        if s > 0 {
            let t = s - 1;
            assert(states_trs@[t + 1]@ == reversed_incoming(f, t, n as int));
        }
    }
    assert(m.trs =~= reverse_model(f).trs);
    let ofst = VectorFst::from_parts(Some(0), ofinals, states_trs, isymt, osymt);
    Ok(ofst)
}

} // verus!
