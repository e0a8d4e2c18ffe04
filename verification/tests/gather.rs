use liquid_rust::fixpoint::constraint::{Constant, Constraint, Expr, KVid, Pred, Sort};
use liquid_rust::fixpoint::gather::{same_sorts, GatherError, KVarGatherCtx};

fn k(id: usize, args: Vec<usize>) -> Pred {
    Pred::KVar(KVid::from_usize(id), args)
}

fn tt() -> Pred {
    Pred::Expr(Expr::Constant(Constant::Bool(true)))
}

fn quantify(sort: Sort, premise: Pred, conclusion: Constraint) -> Constraint {
    Constraint::ForAll(sort, premise, Box::new(conclusion))
}

fn signatures(c: &Constraint) -> Vec<(usize, Vec<Sort>)> {
    KVarGatherCtx::gather_kvars(c)
        .unwrap()
        .into_iter()
        .map(|kvar| (kvar.id.as_usize(), kvar.sorts))
        .collect()
}

#[test]
fn no_unknown_predicates() {
    assert_eq!(signatures(&Constraint::truth()), vec![]);
    assert_eq!(signatures(&Constraint::Conj(vec![])), vec![]);
}

#[test]
fn arguments_resolve_against_the_open_quantifiers() {
    let c = quantify(
        Sort::Int,
        tt(),
        quantify(Sort::Bool, tt(), Constraint::Pred(k(0, vec![1, 0, 1]))),
    );
    assert_eq!(signatures(&c), vec![(0, vec![Sort::Bool, Sort::Int, Sort::Bool])]);
}

#[test]
fn premise_sees_its_own_quantifier() {
    let c = quantify(Sort::Bool, k(4, vec![0]), Constraint::truth());
    assert_eq!(signatures(&c), vec![(4, vec![Sort::Bool])]);
}

#[test]
fn one_signature_per_predicate_in_order_of_first_occurrence() {
    let c = Constraint::Conj(vec![
        quantify(Sort::Int, k(2, vec![0]), Constraint::Pred(k(1, vec![]))),
        quantify(Sort::Int, tt(), Constraint::Pred(Pred::And(vec![k(2, vec![0]), k(1, vec![])]))),
    ]);
    assert_eq!(signatures(&c), vec![(2, vec![Sort::Int]), (1, vec![])]);
}

#[test]
fn the_scope_closes_with_its_quantifier() {
    // The second member of the conjunction is outside the quantifier of
    // the first, so its argument names no open level.
    let c = Constraint::Conj(vec![
        quantify(Sort::Int, tt(), Constraint::Pred(k(0, vec![0]))),
        Constraint::Pred(k(1, vec![0])),
    ]);
    assert_eq!(
        KVarGatherCtx::gather_kvars(&c).err(),
        Some(GatherError::Unbound(KVid::from_usize(1), 0))
    );
}

#[test]
fn a_guard_opens_no_level() {
    let c = Constraint::Guard(tt(), Box::new(Constraint::Pred(k(0, vec![0]))));
    assert_eq!(
        KVarGatherCtx::gather_kvars(&c).err(),
        Some(GatherError::Unbound(KVid::from_usize(0), 0))
    );
    let inside = quantify(
        Sort::Int,
        tt(),
        Constraint::Guard(k(0, vec![0]), Box::new(Constraint::Pred(k(0, vec![0])))),
    );
    assert_eq!(signatures(&inside), vec![(0, vec![Sort::Int])]);
}

#[test]
fn the_first_unbound_argument_is_the_error() {
    let c = quantify(Sort::Int, tt(), Constraint::Pred(k(3, vec![0, 7, 9])));
    assert_eq!(
        KVarGatherCtx::gather_kvars(&c).err(),
        Some(GatherError::Unbound(KVid::from_usize(3), 7))
    );
}

#[test]
fn a_second_occurrence_must_agree_with_the_first() {
    let c = Constraint::Conj(vec![
        quantify(Sort::Int, tt(), Constraint::Pred(k(0, vec![0]))),
        quantify(Sort::Bool, tt(), Constraint::Pred(k(0, vec![0]))),
    ]);
    assert_eq!(
        KVarGatherCtx::gather_kvars(&c).err(),
        Some(GatherError::Inconsistent(KVid::from_usize(0)))
    );
    let arity = quantify(
        Sort::Int,
        tt(),
        Constraint::Pred(Pred::And(vec![k(0, vec![0]), k(0, vec![0, 0])])),
    );
    assert_eq!(
        KVarGatherCtx::gather_kvars(&arity).err(),
        Some(GatherError::Inconsistent(KVid::from_usize(0)))
    );
}

#[test]
fn lists_of_sorts() {
    assert!(same_sorts(&vec![], &vec![]));
    assert!(same_sorts(&vec![Sort::Int, Sort::Bool], &vec![Sort::Int, Sort::Bool]));
    assert!(!same_sorts(&vec![Sort::Int, Sort::Bool], &vec![Sort::Bool, Sort::Int]));
    assert!(!same_sorts(&vec![Sort::Int], &vec![Sort::Int, Sort::Int]));
}
