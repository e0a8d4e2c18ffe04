use liquid_rust::fixpoint::constraint::{BinOp, Constant, Constraint, Expr, KVar, KVid, Pred, Qualifier, Sort, UnOp};

fn var(n: usize) -> Expr {
    Expr::Variable(n)
}

fn num(n: u128) -> Expr {
    Expr::Constant(Constant::Int(n))
}

fn bin(op: BinOp, a: Expr, b: Expr) -> Expr {
    Expr::BinaryOp(op, Box::new(a), Box::new(b))
}

fn text_of(c: &Constraint) -> String {
    let mut w = String::new();
    c.emit(&mut w, 0);
    w
}

fn expr_text(e: &Expr) -> String {
    let mut w = String::new();
    e.emit(&mut w);
    w
}

#[test]
fn variables_and_literals() {
    assert_eq!(expr_text(&var(0)), "v0");
    assert_eq!(expr_text(&var(12)), "v12");
    assert_eq!(expr_text(&num(0)), "0");
    assert_eq!(expr_text(&num(340282366920938463463374607431768211455)), "340282366920938463463374607431768211455");
    assert_eq!(expr_text(&Expr::Constant(Constant::Bool(true))), "true");
    assert_eq!(expr_text(&Expr::Constant(Constant::Bool(false))), "false");
}

#[test]
fn remainder_is_mod_for_the_solver() {
    assert_eq!(expr_text(&bin(BinOp::Rem, var(0), num(2))), "v0 mod 2");
    assert_eq!(BinOp::Rem.to_string(), "%");
}

#[test]
fn negation_differs_between_renderers() {
    let e = Expr::UnaryOp(UnOp::Not, Box::new(var(1)));
    assert_eq!(expr_text(&e), "~v1");
    assert_eq!(UnOp::Not.to_string(), "!");
    assert_eq!(UnOp::Neg.to_string(), "-");
    let n = Expr::UnaryOp(UnOp::Neg, Box::new(bin(BinOp::Add, var(0), num(1))));
    assert_eq!(expr_text(&n), "-(v0 + 1)");
}

#[test]
fn parentheses_follow_precedence() {
    let sum = bin(BinOp::Add, var(0), num(1));
    assert_eq!(expr_text(&bin(BinOp::Mul, sum, var(1))), "(v0 + 1) * v1");
    let product = bin(BinOp::Mul, var(0), num(2));
    assert_eq!(expr_text(&bin(BinOp::Add, product, var(1))), "v0 * 2 + v1");
    let chain = bin(BinOp::Add, bin(BinOp::Add, var(0), var(1)), var(2));
    assert_eq!(expr_text(&chain), "v0 + v1 + v2");
    let compare = bin(BinOp::Eq, bin(BinOp::Lt, var(0), var(1)), Expr::Constant(Constant::Bool(true)));
    assert_eq!(expr_text(&compare), "(v0 < v1) = true");
}

#[test]
fn precedence_table() {
    assert_eq!(BinOp::Mul.precedence(), 5);
    assert_eq!(BinOp::Div.precedence(), 5);
    assert_eq!(BinOp::Rem.precedence(), 5);
    assert_eq!(BinOp::Add.precedence(), 4);
    assert_eq!(BinOp::Sub.precedence(), 4);
    assert_eq!(BinOp::Eq.precedence(), 3);
    assert_eq!(BinOp::Neq.precedence(), 3);
    assert_eq!(BinOp::Lt.precedence(), 3);
    assert_eq!(BinOp::Gt.precedence(), 3);
    assert_eq!(BinOp::Lte.precedence(), 3);
    assert_eq!(BinOp::Gte.precedence(), 3);
    assert_eq!(BinOp::And.precedence(), 2);
    assert_eq!(BinOp::Or.precedence(), 1);
    assert!(!BinOp::associative(3));
    assert!(BinOp::associative(5));
    assert!(BinOp::associative(1));
}

#[test]
fn predicates() {
    let mut w = String::new();
    Pred::KVar(KVid::from_usize(3), vec![0, 2]).emit(&mut w);
    assert_eq!(w, "($k3 v0 v2)");
    let mut w = String::new();
    Pred::Expr(bin(BinOp::Gte, var(0), num(0))).emit(&mut w);
    assert_eq!(w, "(v0 >= 0)");
    let mut w = String::new();
    Pred::And(vec![Pred::Expr(var(0)), Pred::KVar(KVid::from_usize(0), vec![1])]).emit(&mut w);
    assert_eq!(w, "(and (v0) ($k0 v1))");
    let mut w = String::new();
    Pred::And(vec![]).emit(&mut w);
    assert_eq!(w, "(and)");
}

#[test]
fn nested_quantifiers_are_numbered_by_depth() {
    let inner = Constraint::ForAll(
        Sort::Bool,
        Pred::Expr(var(1)),
        Box::new(Constraint::Pred(Pred::Expr(bin(BinOp::Gt, var(0), num(0))))),
    );
    let outer = Constraint::ForAll(Sort::Int, Pred::Expr(bin(BinOp::Gte, var(0), num(0))), Box::new(inner));
    assert_eq!(
        text_of(&outer),
        "(forall ((v0 int) (v0 >= 0)) (forall ((v1 bool) (v1)) ((v0 > 0))))"
    );
}

#[test]
fn siblings_restart_at_the_same_level() {
    let leaf = |n: usize| Constraint::ForAll(Sort::Int, Pred::Expr(var(n)), Box::new(Constraint::truth()));
    let deep = Constraint::ForAll(Sort::Int, Pred::Expr(var(0)), Box::new(leaf(1)));
    let c = Constraint::Conj(vec![deep, leaf(0)]);
    assert_eq!(
        text_of(&c),
        "(and (forall ((v0 int) (v0)) (forall ((v1 int) (v1)) ((true)))) (forall ((v0 int) (v0)) ((true))))"
    );
}

#[test]
fn guard_binds_no_level() {
    let c = Constraint::Guard(
        Pred::Expr(Expr::Constant(Constant::Bool(true))),
        Box::new(Constraint::ForAll(Sort::Int, Pred::Expr(var(0)), Box::new(Constraint::truth()))),
    );
    assert_eq!(text_of(&c), "(forall ((_ int) (true)) (forall ((v0 int) (v0)) ((true))))");
}

#[test]
fn emission_appends() {
    let mut w = String::from("; ");
    Constraint::truth().emit(&mut w, 7);
    assert_eq!(w, "; ((true))");
    let mut w = String::new();
    Constraint::ForAll(Sort::Int, Pred::Expr(var(7)), Box::new(Constraint::truth())).emit(&mut w, 7);
    assert_eq!(w, "(forall ((v7 int) (v7)) ((true)))");
}

#[test]
fn declarations_and_qualifiers() {
    let mut w = String::new();
    KVar { id: KVid::from_usize(4), sorts: vec![Sort::Int, Sort::Bool] }.emit(&mut w);
    assert_eq!(w, "(declare $k4 ((int) (bool)))");
    let mut w = String::new();
    KVar { id: KVid::from_usize(0), sorts: vec![] }.emit(&mut w);
    assert_eq!(w, "(declare $k0 ())");
    let q = Qualifier {
        name: String::from("Less"),
        vars: vec![Sort::Int, Sort::Int],
        pred: bin(BinOp::Lt, var(0), var(1)),
    };
    let mut w = String::new();
    q.emit(&mut w);
    assert_eq!(w, "(qualif Less ((v0 int) (v1 int)) (v0 < v1))");
}

#[test]
fn nesting_depth() {
    let leaf = || Constraint::ForAll(Sort::Int, Pred::Expr(var(0)), Box::new(Constraint::truth()));
    let deep = Constraint::ForAll(Sort::Int, Pred::Expr(var(0)), Box::new(leaf()));
    let guarded = Constraint::Guard(Pred::Expr(var(0)), Box::new(leaf()));
    let c = Constraint::Conj(vec![leaf(), deep, guarded]);
    assert!(Constraint::truth().nests_within(0));
    assert!(!leaf().nests_within(0));
    assert!(leaf().nests_within(1));
    assert!(!c.nests_within(1));
    assert!(c.nests_within(2));
    assert!(c.nests_within(usize::MAX));
    assert!(Constraint::Conj(vec![]).nests_within(0));
}

#[test]
fn join_of_lists() {
    assert!(Constraint::join(vec![]).is_none());
    let one = Constraint::join(vec![Constraint::truth()]).unwrap();
    assert_eq!(text_of(&one), "((true))");
    let two = Constraint::join(vec![Constraint::truth(), Constraint::truth()]).unwrap();
    assert_eq!(text_of(&two), "(and ((true)) ((true)))");
}

#[test]
fn names() {
    assert_eq!(KVid::from_usize(10).to_string(), "$k10");
    assert_eq!(Sort::Int.to_string(), "int");
    assert_eq!(Sort::Bool.to_string(), "bool");
    assert_eq!(Constant::Int(42).to_string(), "42");
    assert_eq!(Constant::Bool(true).to_string(), "true");
    assert_eq!(BinOp::Eq.to_string(), "=");
    assert_eq!(BinOp::Neq.to_string(), "!=");
    assert_eq!(BinOp::And.to_string(), "&&");
    assert_eq!(BinOp::Or.to_string(), "||");
    assert_eq!(BinOp::Lte.to_string(), "<=");
}
