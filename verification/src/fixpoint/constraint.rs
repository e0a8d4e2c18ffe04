//! Syntax of constraints, predicates and expressions.

use vstd::prelude::*;

verus! {

/// An implication tree over predicates.
pub enum Constraint {
    /// An atomic obligation.
    Pred(Pred),
    /// All of the listed constraints.
    Conj(Vec<Constraint>),
    /// A side condition carried into scope for the conclusion; it binds no
    /// variable that the conclusion can name.
    Guard(Pred, Box<Constraint>),
    /// A fresh bound variable of the given sort, assumed to satisfy the
    /// premise, under which the conclusion must hold.
    ForAll(Sort, Pred, Box<Constraint>),
}

/// The sort of a bound variable.
#[derive(Clone, Copy, PartialEq, Eq, Structural, Debug)]
pub enum Sort {
    Int,
    Bool,
}

/// The identifier of an unknown predicate.
#[derive(Clone, Copy, PartialEq, Eq, Structural, Hash, Debug)]
pub struct KVid(pub usize);

/// A predicate as it stands in a constraint.
pub enum Pred {
    /// All of the listed predicates.
    And(Vec<Pred>),
    /// An unknown predicate applied to bound variables, each given by the
    /// nesting level of its binder.
    KVar(KVid, Vec<usize>),
    /// A primitive expression of boolean sort.
    Expr(Expr),
}

/// A primitive expression.
pub enum Expr {
    /// The variable bound at the given nesting level.
    Variable(usize),
    Constant(Constant),
    BinaryOp(BinOp, Box<Expr>, Box<Expr>),
    UnaryOp(UnOp, Box<Expr>),
}

/// A literal.
#[derive(Clone, Copy, PartialEq, Eq, Structural, Hash, Debug)]
pub enum Constant {
    Bool(bool),
    Int(u128),
}

/// A named predicate template over a list of sorts, passed to the solver as
/// a hint and never interpreted here.
pub struct Qualifier {
    pub name: String,
    pub vars: Vec<Sort>,
    pub pred: Expr,
}

/// The signature of an unknown predicate: the sort of each argument.
pub struct KVar {
    pub id: KVid,
    pub sorts: Vec<Sort>,
}

/// A primitive binary operator.
#[derive(Clone, Copy, PartialEq, Eq, Structural, Hash, Debug)]
pub enum BinOp {
    /// Integer addition.
    Add,
    /// Integer subtraction.
    Sub,
    /// Integer multiplication.
    Mul,
    /// Integer division.
    Div,
    /// Integer remainder.
    Rem,
    /// Equality.
    Eq,
    /// Disequality.
    Neq,
    /// Less than.
    Lt,
    /// Greater than.
    Gt,
    /// Less than or equal.
    Lte,
    /// Greater than or equal.
    Gte,
    /// Boolean conjunction.
    And,
    /// Boolean disjunction.
    Or,
}

/// A primitive unary operator.
#[derive(Clone, Copy, PartialEq, Eq, Structural, Hash, Debug)]
pub enum UnOp {
    /// Boolean negation.
    Not,
    /// Integer negation.
    Neg,
}

impl KVid {
    pub fn from_usize(n: usize) -> (id: Self)
        ensures
            id == KVid(n),
    {
        KVid(n)
    }

    pub fn as_usize(&self) -> (n: usize)
        ensures
            n == self.0,
    {
        self.0
    }
}

impl BinOp {
    /// How tightly the operator binds: multiplicative operators 5, additive
    /// 4, comparisons 3, conjunction 2, disjunction 1.
    pub open spec fn spec_precedence(&self) -> u32 {
        match self {
            BinOp::Mul | BinOp::Div | BinOp::Rem => 5,
            BinOp::Add | BinOp::Sub => 4,
            BinOp::Eq | BinOp::Neq | BinOp::Lt | BinOp::Gt | BinOp::Lte | BinOp::Gte => 3,
            BinOp::And => 2,
            BinOp::Or => 1,
        }
    }

    #[verifier::when_used_as_spec(spec_precedence)]
    pub fn precedence(&self) -> (p: u32)
        ensures
            p == self.spec_precedence(),
    {
        match self {
            BinOp::Mul | BinOp::Div | BinOp::Rem => 5,
            BinOp::Add | BinOp::Sub => 4,
            BinOp::Eq | BinOp::Neq | BinOp::Lt | BinOp::Gt | BinOp::Lte | BinOp::Gte => 3,
            BinOp::And => 2,
            BinOp::Or => 1,
        }
    }

    /// Whether operators of the given precedence may be chained without
    /// parentheses: all but the comparisons.
    pub open spec fn spec_associative(precedence: u32) -> bool {
        precedence != 3
    }

    #[verifier::when_used_as_spec(spec_associative)]
    pub fn associative(precedence: u32) -> (a: bool)
        ensures
            a == Self::spec_associative(precedence),
    {
        precedence != 3
    }
}

impl Constraint {
    /// The constraint that always holds.
    pub open spec fn spec_truth() -> Constraint {
        Constraint::Pred(Pred::Expr(Expr::Constant(Constant::Bool(true))))
    }

    #[verifier::when_used_as_spec(spec_truth)]
    pub fn truth() -> (c: Constraint)
        ensures
            c == Self::spec_truth(),
    {
        Constraint::Pred(Pred::Expr(Expr::Constant(Constant::Bool(true))))
    }

    /// What `join` makes of a list: nothing of an empty one, the element of
    /// a singleton, and the conjunction of anything longer.
    pub open spec fn spec_join(constraints: Vec<Constraint>) -> Option<Constraint> {
        if constraints@.len() == 0 {
            None
        } else if constraints@.len() == 1 {
            Some(constraints@[0])
        } else {
            Some(Constraint::Conj(constraints))
        }
    }

    /// Folds a list of constraints into one.
    pub fn join(constraints: Vec<Constraint>) -> (joined: Option<Constraint>)
        ensures
            joined == Self::spec_join(constraints),
    {
        let mut constraints = constraints;
        let n: usize = constraints.len();
        if n == 0 {
            None
        } else if n == 1 {
            Some(constraints.remove(0))
        } else {
            Some(Constraint::Conj(constraints))
        }
    }
}

} // verus!
