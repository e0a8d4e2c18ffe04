use liquid_rust::fixpoint::constraint::{
    BinOp, Constant, Constraint, Expr, KVid, Pred, Qualifier, Sort,
};
use liquid_rust::fixpoint::gather::GatherError;
use liquid_rust::fixpoint::query::{emit_query, QueryError};

fn var(n: usize) -> Expr {
    Expr::Variable(n)
}

fn lt(a: Expr, b: Expr) -> Expr {
    Expr::BinaryOp(BinOp::Lt, Box::new(a), Box::new(b))
}

#[test]
fn query_has_declarations_then_qualifiers_then_the_constraint() {
    let c = Constraint::ForAll(
        Sort::Int,
        Pred::KVar(KVid::from_usize(1), vec![0]),
        Box::new(Constraint::ForAll(
            Sort::Bool,
            Pred::Expr(var(1)),
            Box::new(Constraint::Pred(Pred::KVar(KVid::from_usize(0), vec![0, 1]))),
        )),
    );
    let qualifiers = vec![
        Qualifier { name: String::from("Less"), vars: vec![Sort::Int, Sort::Int], pred: lt(var(0), var(1)) },
        Qualifier {
            name: String::from("True"),
            vars: vec![],
            pred: Expr::Constant(Constant::Bool(true)),
        },
    ];
    let mut w = String::from(";\n");
    emit_query(&mut w, &qualifiers, &c).unwrap();
    assert_eq!(
        w,
        ";\n\
         (declare $k1 ((int)))\n\
         (declare $k0 ((int) (bool)))\n\
         (qualif Less ((v0 int) (v1 int)) (v0 < v1))\n\
         (qualif True () (true))\n\
         (forall ((v0 int) ($k1 v0)) (forall ((v1 bool) (v1)) (($k0 v0 v1))))\n"
    );
}

#[test]
fn query_of_a_constraint_without_unknowns() {
    let mut w = String::new();
    emit_query(&mut w, &vec![], &Constraint::truth()).unwrap();
    assert_eq!(w, "((true))\n");
}

#[test]
fn no_query_without_signatures() {
    let c = Constraint::Pred(Pred::KVar(KVid::from_usize(2), vec![3]));
    let mut w = String::from("kept");
    assert_eq!(
        emit_query(&mut w, &vec![], &c),
        Err(QueryError::Gather(GatherError::Unbound(KVid::from_usize(2), 3)))
    );
    assert_eq!(w, "kept");
}
