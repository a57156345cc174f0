use rustfst::arcsort::{arc_sort, TrSortType};
use rustfst::cache_state::CacheState;
use rustfst::connect::connect;
use rustfst::const_fst::ConstFst;
use rustfst::error::FstError;
use rustfst::reverse::reverse;
use rustfst::rm_final_epsilon::rm_final_epsilon;
use rustfst::semirings::{BooleanWeight, Semiring, TropicalWeight};
use rustfst::semirings::WeaklyDivisibleSemiring;
use rustfst::shortest_distance::{shortest_distance, shortest_distance_to_final};
use rustfst::weight_pushing::{push_weights, reweight, ReweightType};
use rustfst::tr::Tr;
use rustfst::vector_fst::VectorFst;
use rustfst::EPS_LABEL;

fn tw(v: u32) -> TropicalWeight {
    TropicalWeight::new(v)
}

fn trs_of(fst: &VectorFst<TropicalWeight>, s: usize) -> Vec<(usize, usize, Option<u32>, usize)> {
    fst.tr_iter(s)
        .unwrap()
        .iter()
        .map(|t| (t.ilabel, t.olabel, t.weight.value(), t.nextstate))
        .collect()
}

#[test]
fn arcsort_by_ilabel() {
    // Weights in tenths: 1.0, 0.5 and 0.7.
    let mut fst = VectorFst::<TropicalWeight>::new();
    let s0 = fst.add_state();
    let s1 = fst.add_state();
    fst.set_start(s0).unwrap();
    fst.set_final(s1, tw(0)).unwrap();
    fst.add_tr(s0, Tr::new(3, 5, tw(10), s1)).unwrap();
    fst.add_tr(s0, Tr::new(1, 2, tw(5), s1)).unwrap();
    fst.add_tr(s0, Tr::new(2, 2, tw(7), s1)).unwrap();
    arc_sort(&mut fst, TrSortType::ILabel).unwrap();
    assert_eq!(
        trs_of(&fst, s0),
        vec![(1, 2, Some(5), 1), (2, 2, Some(7), 1), (3, 5, Some(10), 1)]
    );
    // Sorting again changes nothing.
    arc_sort(&mut fst, TrSortType::ILabel).unwrap();
    assert_eq!(
        trs_of(&fst, s0),
        vec![(1, 2, Some(5), 1), (2, 2, Some(7), 1), (3, 5, Some(10), 1)]
    );
}

#[test]
fn arcsort_by_olabel_is_stable() {
    let mut fst = VectorFst::<TropicalWeight>::new();
    let s0 = fst.add_state();
    fst.add_tr(s0, Tr::new(1, 2, tw(1), s0)).unwrap();
    fst.add_tr(s0, Tr::new(1, 2, tw(9), s0)).unwrap();
    fst.add_tr(s0, Tr::new(7, 1, tw(3), s0)).unwrap();
    arc_sort(&mut fst, TrSortType::OLabel).unwrap();
    assert_eq!(
        trs_of(&fst, s0),
        vec![(7, 1, Some(3), 0), (1, 2, Some(1), 0), (1, 2, Some(9), 0)]
    );
}

#[test]
fn reverse_two_state_acceptor() {
    let a = 7;
    let mut fst = VectorFst::<TropicalWeight>::new();
    let s0 = fst.add_state();
    let s1 = fst.add_state();
    fst.set_start(s0).unwrap();
    fst.set_final(s1, tw(2)).unwrap();
    fst.add_tr(s0, Tr::new(a, a, tw(3), s1)).unwrap();
    let rev = reverse(&fst).unwrap();
    assert_eq!(rev.num_states(), 3);
    assert_eq!(rev.start(), Some(0));
    assert_eq!(rev.final_weight(1).unwrap(), Some(TropicalWeight::one()));
    assert_eq!(rev.final_weight(0).unwrap(), None);
    assert_eq!(rev.final_weight(2).unwrap(), None);
    assert_eq!(trs_of(&rev, 0), vec![(EPS_LABEL, EPS_LABEL, Some(2), 2)]);
    assert_eq!(trs_of(&rev, 2), vec![(a, a, Some(3), 1)]);
    assert_eq!(trs_of(&rev, 1), vec![]);
}

#[test]
fn reverse_twice_restores_transitions_shifted() {
    let mut fst = VectorFst::<BooleanWeight>::new();
    let s0 = fst.add_state();
    let s1 = fst.add_state();
    fst.set_start(s0).unwrap();
    fst.set_final(s1, BooleanWeight::one()).unwrap();
    fst.add_tr(s0, Tr::new(1, 2, BooleanWeight::one(), s1)).unwrap();
    let rr = reverse(&reverse(&fst).unwrap()).unwrap();
    assert_eq!(rr.num_states(), 4);
    assert_eq!(rr.start(), Some(0));
}

#[test]
fn rm_final_epsilon_folds_epsilon_final() {
    // Weights in tenths: finals 1.0 and 2.0, transitions 0.5 and 0.3.
    let a = 4;
    let mut fst = VectorFst::<TropicalWeight>::new();
    let s0 = fst.add_state();
    let s1 = fst.add_state();
    let s2 = fst.add_state();
    fst.set_start(s0).unwrap();
    fst.set_final(s1, tw(10)).unwrap();
    fst.set_final(s2, tw(20)).unwrap();
    fst.add_tr(s0, Tr::new(a, a, tw(5), s1)).unwrap();
    fst.add_tr(s1, Tr::new(EPS_LABEL, EPS_LABEL, tw(3), s2)).unwrap();
    rm_final_epsilon(&mut fst).unwrap();
    assert_eq!(fst.num_states(), 2);
    assert_eq!(fst.start(), Some(0));
    assert_eq!(fst.final_weight(1).unwrap(), Some(tw(10)));
    assert_eq!(trs_of(&fst, 0), vec![(a, a, Some(5), 1)]);
    assert_eq!(trs_of(&fst, 1), vec![]);
}

#[test]
fn rm_final_epsilon_takes_cheaper_epsilon_path() {
    let mut fst = VectorFst::<TropicalWeight>::new();
    let s0 = fst.add_state();
    let s1 = fst.add_state();
    let s2 = fst.add_state();
    fst.set_start(s0).unwrap();
    fst.set_final(s1, tw(10)).unwrap();
    fst.set_final(s2, tw(2)).unwrap();
    fst.add_tr(s0, Tr::new(1, 1, tw(5), s1)).unwrap();
    fst.add_tr(s1, Tr::new(EPS_LABEL, EPS_LABEL, tw(3), s2)).unwrap();
    rm_final_epsilon(&mut fst).unwrap();
    assert_eq!(fst.num_states(), 2);
    assert_eq!(fst.final_weight(1).unwrap(), Some(tw(5)));
}

#[test]
fn rm_final_epsilon_keeps_non_epsilon_continuation() {
    let mut fst = VectorFst::<TropicalWeight>::new();
    let s0 = fst.add_state();
    let s1 = fst.add_state();
    fst.set_start(s0).unwrap();
    fst.set_final(s1, tw(1)).unwrap();
    fst.add_tr(s0, Tr::new(3, 3, tw(1), s1)).unwrap();
    rm_final_epsilon(&mut fst).unwrap();
    assert_eq!(fst.num_states(), 2);
    assert_eq!(trs_of(&fst, 0), vec![(3, 3, Some(1), 1)]);
}

#[test]
fn connect_removes_useless_states() {
    let mut fst = VectorFst::<BooleanWeight>::new();
    let s0 = fst.add_state();
    let s1 = fst.add_state();
    let s2 = fst.add_state(); // not coaccessible
    let s3 = fst.add_state(); // not accessible
    let s4 = fst.add_state();
    fst.set_start(s0).unwrap();
    fst.set_final(s4, BooleanWeight::one()).unwrap();
    fst.add_tr(s0, Tr::new(1, 1, BooleanWeight::one(), s1)).unwrap();
    fst.add_tr(s0, Tr::new(2, 2, BooleanWeight::one(), s2)).unwrap();
    fst.add_tr(s1, Tr::new(3, 3, BooleanWeight::one(), s4)).unwrap();
    fst.add_tr(s3, Tr::new(4, 4, BooleanWeight::one(), s4)).unwrap();
    connect(&mut fst).unwrap();
    assert_eq!(fst.num_states(), 3);
    assert_eq!(fst.start(), Some(0));
    assert_eq!(fst.num_trs(0).unwrap(), 1);
    assert_eq!(fst.tr_iter(0).unwrap()[0].nextstate, 1);
    assert_eq!(fst.tr_iter(1).unwrap()[0].nextstate, 2);
    assert_eq!(fst.final_weight(2).unwrap(), Some(BooleanWeight::one()));
    // Connecting again changes nothing.
    connect(&mut fst).unwrap();
    assert_eq!(fst.num_states(), 3);
    assert_eq!(fst.num_trs(0).unwrap(), 1);
}

#[test]
fn connect_without_start_empties() {
    let mut fst = VectorFst::<BooleanWeight>::new();
    let s0 = fst.add_state();
    fst.set_final(s0, BooleanWeight::one()).unwrap();
    connect(&mut fst).unwrap();
    assert_eq!(fst.num_states(), 0);
    assert_eq!(fst.start(), None);
}

#[test]
fn missing_states_are_reported() {
    let mut fst = VectorFst::<BooleanWeight>::new();
    let s0 = fst.add_state();
    assert_eq!(fst.set_start(3), Err(FstError::NoSuchState(3)));
    assert_eq!(fst.set_final(2, BooleanWeight::one()), Err(FstError::NoSuchState(2)));
    assert_eq!(
        fst.add_tr(s0, Tr::new(1, 1, BooleanWeight::one(), 5)),
        Err(FstError::NoSuchState(5))
    );
    assert_eq!(fst.num_trs(1), Err(FstError::NoSuchState(1)));
    assert_eq!(fst.final_weight(9), Err(FstError::NoSuchState(9)));
    assert_eq!(fst.num_trs(s0), Ok(0));
}

#[test]
fn state_ids_are_dense() {
    let mut fst = VectorFst::<BooleanWeight>::new();
    assert_eq!(fst.add_state(), 0);
    assert_eq!(fst.add_state(), 1);
    fst.add_states(3);
    assert_eq!(fst.num_states(), 5);
    assert_eq!(fst.add_state(), 5);
    assert!(fst.is_start(0) == false);
    fst.set_start(0).unwrap();
    assert!(fst.is_start(0));
    assert_eq!(fst.is_final(0), Ok(false));
}

#[test]
fn epsilon_counts() {
    let mut fst = VectorFst::<BooleanWeight>::new();
    let s0 = fst.add_state();
    let s1 = fst.add_state();
    let one = BooleanWeight::one;
    fst.add_tr(s0, Tr::new(EPS_LABEL, 18, one(), s1)).unwrap();
    fst.add_tr(s0, Tr::new(76, EPS_LABEL, one(), s1)).unwrap();
    fst.add_tr(s0, Tr::new(EPS_LABEL, 18, one(), s1)).unwrap();
    fst.add_tr(s0, Tr::new(45, 18, one(), s0)).unwrap();
    fst.add_tr(s1, Tr::new(76, 18, one(), s1)).unwrap();
    assert_eq!(fst.num_input_epsilons(s0).unwrap(), 2);
    assert_eq!(fst.num_input_epsilons(s1).unwrap(), 0);
    assert_eq!(fst.num_output_epsilons(s0).unwrap(), 1);
    assert_eq!(fst.num_output_epsilons(s1).unwrap(), 0);
    let cfst = ConstFst::from_vector_fst(fst);
    assert_eq!(cfst.num_input_epsilons(s0).unwrap(), 2);
    assert_eq!(cfst.num_output_epsilons(s0).unwrap(), 1);
    assert_eq!(cfst.num_input_epsilons(7), Err(FstError::NoSuchState(7)));
}

#[test]
fn add_fst_appends_states() {
    let mut a = VectorFst::<BooleanWeight>::new();
    a.add_state();
    let mut b = VectorFst::<BooleanWeight>::new();
    let b0 = b.add_state();
    let b1 = b.add_state();
    b.add_tr(b0, Tr::new(1, 2, BooleanWeight::one(), b1)).unwrap();
    b.set_final(b1, BooleanWeight::one()).unwrap();
    let mapping = a.add_fst(&b).unwrap();
    assert_eq!(mapping, vec![1, 2]);
    assert_eq!(a.num_states(), 3);
    assert_eq!(a.tr_iter(1).unwrap()[0].nextstate, 2);
    assert_eq!(a.final_weight(2).unwrap(), None);
}

fn sample_fst() -> VectorFst<TropicalWeight> {
    let mut fst = VectorFst::<TropicalWeight>::new();
    let s0 = fst.add_state();
    let s1 = fst.add_state();
    let s2 = fst.add_state();
    fst.set_start(s0).unwrap();
    fst.set_final(s2, tw(4)).unwrap();
    fst.add_tr(s0, Tr::new(1, 1, tw(1), s1)).unwrap();
    fst.add_tr(s0, Tr::new(0, 2, tw(2), s2)).unwrap();
    fst.add_tr(s1, Tr::new(3, 0, tw(3), s2)).unwrap();
    fst.add_tr(s2, Tr::new(4, 4, tw(5), s0)).unwrap();
    fst
}

fn iteration_of(data: Vec<rustfst::fst::FstIterData<TropicalWeight, Vec<Tr<TropicalWeight>>>>) -> Vec<(usize, Option<TropicalWeight>, Vec<Tr<TropicalWeight>>, usize)> {
    data.into_iter().map(|d| (d.state_id, d.final_weight, d.trs, d.num_trs)).collect()
}

#[test]
fn test_fst_into_iterator_vector() {
    let fst = sample_fst();
    let mut reference = vec![];
    for s in 0..fst.num_states() {
        let trs: Vec<Tr<TropicalWeight>> = fst.tr_iter(s).unwrap().iter().map(|t| t.duplicate()).collect();
        reference.push((s, fst.final_weight(s).unwrap(), trs, fst.num_trs(s).unwrap()));
    }
    assert_eq!(iteration_of(fst.fst_iter()), reference);
    assert_eq!(iteration_of(fst.fst_into_iter()), reference);
}

#[test]
fn test_fst_into_iterator_const() {
    let fst = sample_fst();
    let vector_iteration = iteration_of(fst.fst_iter());
    let cfst = ConstFst::from_vector_fst(fst);
    let mut reference = vec![];
    for s in 0..cfst.num_states() {
        let trs: Vec<Tr<TropicalWeight>> = cfst.tr_iter(s).unwrap().iter().map(|t| t.duplicate()).collect();
        reference.push((s, cfst.final_weight(s).unwrap(), trs, cfst.num_trs(s).unwrap()));
    }
    assert_eq!(iteration_of(cfst.fst_iter()), reference);
    assert_eq!(vector_iteration, reference);
    assert_eq!(cfst.start(), Some(0));
    assert_eq!(cfst.state_range(), 0..3);
    assert!(cfst.tr_iter(3).is_err());
    assert_eq!(iteration_of(cfst.fst_into_iter()), reference);
}

#[test]
fn cache_state_records() {
    let mut c = CacheState::<BooleanWeight>::new();
    assert!(!c.has_final());
    assert!(!c.expanded());
    c.mark_expanded();
    assert!(c.expanded());
    c.set_final_weight(Some(BooleanWeight::one()));
    assert!(c.has_final());
    assert_eq!(c.final_weight(), Some(&BooleanWeight::one()));
    c.reserve_trs(2);
    c.push_tr(Tr::new(1, 2, BooleanWeight::one(), 0));
    c.push_tr(Tr::new(3, 4, BooleanWeight::zero(), 1));
    assert_eq!(c.num_trs(), 2);
    assert_eq!(c.get_tr_unchecked(1).ilabel, 3);
    c.get_tr_unchecked_mut(0).olabel = 9;
    assert_eq!(c.tr_iter()[0].olabel, 9);
    c.tr_iter_mut().pop();
    assert_eq!(c.num_trs(), 1);
}

#[test]
fn shortest_distance_tropical_acyclic() {
    let a = 1;
    let b = 2;
    let mut fst = VectorFst::<TropicalWeight>::new();
    let s0 = fst.add_state();
    let s1 = fst.add_state();
    let s2 = fst.add_state();
    fst.set_start(s0).unwrap();
    fst.add_tr(s0, Tr::new(a, a, tw(1), s1)).unwrap();
    fst.add_tr(s0, Tr::new(a, a, tw(4), s2)).unwrap();
    fst.add_tr(s1, Tr::new(b, b, tw(2), s2)).unwrap();
    let d = shortest_distance(&fst).unwrap();
    assert_eq!(d, vec![tw(0), tw(1), tw(3)]);
}

#[test]
fn shortest_distance_with_cycle_and_unreachable() {
    let mut fst = VectorFst::<TropicalWeight>::new();
    let s0 = fst.add_state();
    let s1 = fst.add_state();
    let s2 = fst.add_state();
    fst.set_start(s0).unwrap();
    fst.add_tr(s0, Tr::new(1, 1, tw(2), s1)).unwrap();
    fst.add_tr(s1, Tr::new(1, 1, tw(1), s0)).unwrap();
    let d = shortest_distance(&fst).unwrap();
    assert_eq!(d, vec![tw(0), tw(2), TropicalWeight::zero()]);
    assert!(d[s2].is_zero());
}

#[test]
fn shortest_distance_boolean_reachability() {
    let mut fst = VectorFst::<BooleanWeight>::new();
    let s0 = fst.add_state();
    let s1 = fst.add_state();
    let s2 = fst.add_state();
    fst.set_start(s1).unwrap();
    fst.add_tr(s1, Tr::new(1, 1, BooleanWeight::one(), s2)).unwrap();
    fst.add_tr(s0, Tr::new(1, 1, BooleanWeight::one(), s1)).unwrap();
    let d = shortest_distance(&fst).unwrap();
    assert_eq!(d, vec![BooleanWeight::zero(), BooleanWeight::one(), BooleanWeight::one()]);
}

#[test]
fn symbol_tables_follow_the_fst() {
    let mut fst = sample_fst();
    let mut isymt = rustfst::symbol_table::SymbolTable::new();
    isymt.add_symbol("a");
    fst.set_input_symbols(isymt);
    let rev = reverse(&fst).unwrap();
    assert_eq!(rev.input_symbols().unwrap().get_symbol(1), Some("a"));
    assert!(rev.output_symbols().is_none());
    let mut other = VectorFst::<TropicalWeight>::new();
    other.set_symts_from_fst(&rev);
    assert_eq!(other.input_symbols().unwrap().len(), 2);
    connect(&mut fst).unwrap();
    assert_eq!(fst.input_symbols().unwrap().get_label("a"), Some(1));
    let cfst = ConstFst::from_vector_fst(fst);
    assert_eq!(cfst.input_symbols().unwrap().len(), 2);
}

#[test]
fn delete_states_renumbers() {
    let mut fst = sample_fst();
    fst.del_state(1).unwrap();
    assert_eq!(fst.num_states(), 2);
    assert_eq!(trs_of(&fst, 0), vec![(0, 2, Some(2), 1)]);
    assert_eq!(trs_of(&fst, 1), vec![(4, 4, Some(5), 0)]);
    assert_eq!(fst.final_weight(1).unwrap(), Some(tw(4)));
    assert_eq!(fst.del_state(5), Err(FstError::NoSuchState(5)));
    fst.del_states(&vec![0, 1]).unwrap();
    assert_eq!(fst.num_states(), 0);
    assert_eq!(fst.start(), None);
    let mut g = sample_fst();
    g.reserve_states(4);
    g.reserve_trs(0, 4).unwrap();
    assert!(g.reserve_trs(9, 1).is_err());
    assert_eq!(g.num_states(), 3);
}

#[test]
fn zero_final_weight_is_not_final() {
    let mut fst = VectorFst::<BooleanWeight>::new();
    let s0 = fst.add_state();
    let s1 = fst.add_state();
    fst.set_start(s0).unwrap();
    fst.set_final(s1, BooleanWeight::new(false)).unwrap();
    assert_eq!(fst.is_final(s1), Ok(false));
    fst.add_tr(s0, Tr::new(1, 1, BooleanWeight::one(), s1)).unwrap();
    connect(&mut fst).unwrap();
    assert_eq!(fst.num_states(), 0);
    let mut g = VectorFst::<BooleanWeight>::new();
    let t0 = g.add_state();
    g.set_final(t0, BooleanWeight::one()).unwrap();
    assert_eq!(g.is_final(t0), Ok(true));
}

#[test]
fn shortest_distance_towards_finals() {
    let mut fst = VectorFst::<TropicalWeight>::new();
    let s0 = fst.add_state();
    let s1 = fst.add_state();
    let s2 = fst.add_state();
    fst.set_start(s0).unwrap();
    fst.set_final(s2, tw(0)).unwrap();
    fst.add_tr(s0, Tr::new(1, 1, tw(1), s1)).unwrap();
    fst.add_tr(s0, Tr::new(1, 1, tw(4), s2)).unwrap();
    fst.add_tr(s1, Tr::new(2, 2, tw(2), s2)).unwrap();
    let d = shortest_distance_to_final(&fst).unwrap();
    assert_eq!(d, vec![tw(3), tw(2), tw(0)]);
}

#[test]
fn boolean_division() {
    let t = BooleanWeight::one();
    let f = BooleanWeight::zero();
    assert_eq!(f.divide(&t), Ok(f.clone()));
    assert_eq!(t.divide(&f), Err(FstError::DivisionByZero));
}

#[test]
fn push_weights_to_initial_boolean() {
    let mut fst = VectorFst::<BooleanWeight>::new();
    let s0 = fst.add_state();
    let s1 = fst.add_state();
    let s2 = fst.add_state(); // cannot reach a final state
    fst.set_start(s0).unwrap();
    fst.set_final(s1, BooleanWeight::one()).unwrap();
    fst.add_tr(s0, Tr::new(1, 1, BooleanWeight::one(), s1)).unwrap();
    fst.add_tr(s0, Tr::new(2, 2, BooleanWeight::one(), s2)).unwrap();
    push_weights(&mut fst, ReweightType::ReweightToInitial).unwrap();
    // The transition into the dead state gets weight zero; the other keeps one.
    assert_eq!(fst.tr_iter(0).unwrap()[0].weight, BooleanWeight::one());
    assert_eq!(fst.tr_iter(0).unwrap()[1].weight, BooleanWeight::zero());
    assert_eq!(fst.final_weight(1).unwrap(), Some(BooleanWeight::one()));
    let pot = vec![BooleanWeight::one(), BooleanWeight::zero(), BooleanWeight::one()];
    reweight(&mut fst, &pot, ReweightType::ReweightToFinal).unwrap();
    assert_eq!(fst.tr_iter(0).unwrap()[0].weight, BooleanWeight::one());
    assert_eq!(fst.final_weight(1).unwrap(), Some(BooleanWeight::zero()));
    push_weights(&mut fst, ReweightType::ReweightToFinal).unwrap();
}

#[test]
fn rm_final_epsilon_folds_epsilon_chain_to_fixed_point() {
    let mut fst = VectorFst::<BooleanWeight>::new();
    let s0 = fst.add_state();
    let s1 = fst.add_state();
    let s2 = fst.add_state();
    fst.set_start(s0).unwrap();
    fst.set_final(s2, BooleanWeight::one()).unwrap();
    fst.add_tr(s0, Tr::new(EPS_LABEL, EPS_LABEL, BooleanWeight::one(), s1)).unwrap();
    fst.add_tr(s1, Tr::new(EPS_LABEL, EPS_LABEL, BooleanWeight::one(), s2)).unwrap();
    rm_final_epsilon(&mut fst).unwrap();
    assert_eq!(fst.num_states(), 1);
    assert_eq!(fst.final_weight(0).unwrap(), Some(BooleanWeight::one()));
    assert_eq!(fst.num_trs(0).unwrap(), 0);
    rm_final_epsilon(&mut fst).unwrap();
    assert_eq!(fst.num_states(), 1);
    assert_eq!(fst.final_weight(0).unwrap(), Some(BooleanWeight::one()));
}

#[test]
fn delete_transitions_by_sorted_ids() {
    let mut fst = sample_fst();
    fst.add_tr(0, Tr::new(7, 7, tw(7), 0)).unwrap();
    fst.del_trs_id_sorted(0, &vec![0, 2]).unwrap();
    assert_eq!(trs_of(&fst, 0), vec![(0, 2, Some(2), 2)]);
    assert_eq!(fst.del_trs_id_sorted(0, &vec![1]), Err(FstError::IndexOutOfRange));
    assert_eq!(fst.del_trs_id_sorted(1, &vec![0, 0]), Err(FstError::IndexOutOfRange));
    assert_eq!(fst.del_trs_id_sorted(9, &vec![]), Err(FstError::NoSuchState(9)));
    fst.tr_iter_mut(1)[0].olabel = 8;
    assert_eq!(trs_of(&fst, 1), vec![(3, 8, Some(3), 2)]);
}

#[test]
fn push_weights_to_initial_tropical() {
    let a = 1;
    let b = 2;
    let mut fst = VectorFst::<TropicalWeight>::new();
    let s0 = fst.add_state();
    let s1 = fst.add_state();
    let s2 = fst.add_state();
    fst.set_start(s0).unwrap();
    fst.set_final(s2, tw(0)).unwrap();
    fst.add_tr(s0, Tr::new(a, a, tw(1), s1)).unwrap();
    fst.add_tr(s1, Tr::new(b, b, tw(2), s2)).unwrap();
    push_weights(&mut fst, ReweightType::ReweightToInitial).unwrap();
    assert_eq!(fst.num_states(), 3);
    assert_eq!(fst.start(), Some(0));
    assert_eq!(trs_of(&fst, 0), vec![(a, a, Some(3), 1)]);
    assert_eq!(trs_of(&fst, 1), vec![(b, b, Some(0), 2)]);
    assert_eq!(fst.final_weight(2).unwrap(), Some(tw(0)));
    assert_eq!(fst.final_weight(0).unwrap(), None);
    assert_eq!(fst.final_weight(1).unwrap(), None);
    // At the non-initial state 1, outgoing weights plus the final weight sum to one.
    assert_eq!(fst.tr_iter(1).unwrap()[0].weight.plus(&TropicalWeight::zero()), TropicalWeight::one());
}

#[test]
fn push_weights_to_final_tropical() {
    let mut fst = VectorFst::<TropicalWeight>::new();
    let s0 = fst.add_state();
    let s1 = fst.add_state();
    let s2 = fst.add_state();
    fst.set_start(s0).unwrap();
    fst.add_tr(s0, Tr::new(1, 1, tw(1), s1)).unwrap();
    fst.add_tr(s0, Tr::new(1, 1, tw(4), s2)).unwrap();
    fst.add_tr(s1, Tr::new(2, 2, tw(2), s2)).unwrap();
    push_weights(&mut fst, ReweightType::ReweightToFinal).unwrap();
    assert_eq!(trs_of(&fst, 0), vec![(1, 1, Some(0), 1), (1, 1, Some(1), 2)]);
    assert_eq!(trs_of(&fst, 1), vec![(2, 2, Some(0), 2)]);
    assert_eq!(fst.start(), Some(0));
}

#[test]
fn tropical_division() {
    assert_eq!(tw(5).divide(&tw(3)), Ok(tw(2)));
    assert_eq!(tw(5).divide(&TropicalWeight::zero()), Err(FstError::DivisionByZero));
    assert_eq!(TropicalWeight::zero().divide(&tw(3)), Ok(TropicalWeight::zero()));
}

#[test]
fn reweight_start_with_incoming_gets_new_start() {
    let mut fst = VectorFst::<TropicalWeight>::new();
    let s0 = fst.add_state();
    let s1 = fst.add_state();
    fst.set_start(s0).unwrap();
    fst.set_final(s1, tw(0)).unwrap();
    fst.add_tr(s0, Tr::new(1, 1, tw(2), s1)).unwrap();
    fst.add_tr(s1, Tr::new(2, 2, tw(1), s0)).unwrap();
    push_weights(&mut fst, ReweightType::ReweightToInitial).unwrap();
    assert_eq!(fst.num_states(), 3);
    assert_eq!(fst.start(), Some(2));
    assert_eq!(trs_of(&fst, 2), vec![(EPS_LABEL, EPS_LABEL, Some(2), 0)]);
    assert_eq!(trs_of(&fst, 0), vec![(1, 1, Some(0), 1)]);
}
