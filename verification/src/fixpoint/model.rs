//! Constraints as mathematical values, and what it means for one to hold.

use crate::fixpoint::constraint::{BinOp, Constant, Constraint, Expr, KVid, Pred, Sort, UnOp};
use vstd::prelude::*;

verus! {

/// A predicate as a mathematical value.
pub enum PredModel {
    And(Seq<PredModel>),
    KVar(KVid, Seq<usize>),
    Expr(Expr),
}

/// A constraint as a mathematical value.
pub enum ConstraintModel {
    Pred(PredModel),
    Conj(Seq<ConstraintModel>),
    Guard(PredModel, Box<ConstraintModel>),
    ForAll(Sort, PredModel, Box<ConstraintModel>),
}

impl Pred {
    /// The predicate as a mathematical value.
    pub open spec fn model(&self) -> PredModel
        decreases self,
    {
        match self {
            Pred::And(preds) => PredModel::And(
                Seq::new(
                    preds.len() as nat,
                    |i: int|
                        if 0 <= i < preds.len() {
                            preds[i].model()
                        } else {
                            arbitrary()
                        },
                ),
            ),
            Pred::KVar(id, args) => PredModel::KVar(*id, args@),
            Pred::Expr(expr) => PredModel::Expr(*expr),
        }
    }
}

impl Constraint {
    /// The constraint as a mathematical value.
    pub open spec fn model(&self) -> ConstraintModel
        decreases self,
    {
        match self {
            Constraint::Pred(pred) => ConstraintModel::Pred(pred.model()),
            Constraint::Conj(constraints) => ConstraintModel::Conj(
                Seq::new(
                    constraints.len() as nat,
                    |i: int|
                        if 0 <= i < constraints.len() {
                            constraints[i].model()
                        } else {
                            arbitrary()
                        },
                ),
            ),
            Constraint::Guard(premise, conclusion) => ConstraintModel::Guard(
                premise.model(),
                Box::new(conclusion.model()),
            ),
            Constraint::ForAll(sort, premise, conclusion) => ConstraintModel::ForAll(
                *sort,
                premise.model(),
                Box::new(conclusion.model()),
            ),
        }
    }
}

/// The models of a list of constraints.
pub open spec fn models_of(constraints: Seq<Constraint>) -> Seq<ConstraintModel> {
    Seq::new(constraints.len(), |i: int| constraints[i].model())
}

/// The constraint that always holds.
pub open spec fn truth() -> ConstraintModel {
    ConstraintModel::Pred(PredModel::Expr(Expr::Constant(Constant::Bool(true))))
}

/// The constraint that never holds.
pub open spec fn falsity() -> ConstraintModel {
    ConstraintModel::Pred(PredModel::Expr(Expr::Constant(Constant::Bool(false))))
}

/// One constraint for a list of obligations: the constraint that always
/// holds for none, the obligation itself for one, and their conjunction
/// for more.
pub open spec fn all_of(obligations: Seq<ConstraintModel>) -> ConstraintModel {
    if obligations.len() == 0 {
        truth()
    } else if obligations.len() == 1 {
        obligations[0]
    } else {
        ConstraintModel::Conj(obligations)
    }
}

/// `body` under the quantifiers of `layers` from place `from` on, outermost
/// first.
pub open spec fn wrap(layers: Seq<(Sort, PredModel)>, from: int, body: ConstraintModel)
    -> ConstraintModel
    decreases layers.len() - from,
{
    if 0 <= from < layers.len() {
        ConstraintModel::ForAll(
            layers[from].0,
            layers[from].1,
            Box::new(wrap(layers, from + 1, body)),
        )
    } else {
        body
    }
}

/// A value of the logic.
pub enum Value {
    Int(int),
    Bool(bool),
}

impl Value {
    /// Whether the value is of the sort.
    pub open spec fn has_sort(self, sort: Sort) -> bool {
        match sort {
            Sort::Int => self is Int,
            Sort::Bool => self is Bool,
        }
    }

    /// The integer of the value; `0` for a boolean.
    pub open spec fn as_int(self) -> int {
        match self {
            Value::Int(n) => n,
            Value::Bool(_) => 0,
        }
    }

    /// The boolean of the value; `false` for an integer.
    pub open spec fn as_bool(self) -> bool {
        match self {
            Value::Bool(b) => b,
            Value::Int(_) => false,
        }
    }
}

/// An interpretation of the unknown predicates: which arguments each one
/// accepts.
pub type Solution = spec_fn(KVid, Seq<Value>) -> bool;

impl Expr {
    /// The value of the expression when the variable bound at level `n` has
    /// the value `vals[n]`. Division and remainder by zero are `0`.
    pub open spec fn eval(&self, vals: Seq<Value>) -> Value
        decreases self,
    {
        match self {
            Expr::Variable(level) => if *level < vals.len() {
                vals[*level as int]
            } else {
                Value::Int(0)
            },
            Expr::Constant(Constant::Bool(b)) => Value::Bool(*b),
            Expr::Constant(Constant::Int(n)) => Value::Int(*n as int),
            Expr::BinaryOp(op, left, right) => {
                let a = left.eval(vals);
                let b = right.eval(vals);
                match op {
                    BinOp::Add => Value::Int(a.as_int() + b.as_int()),
                    BinOp::Sub => Value::Int(a.as_int() - b.as_int()),
                    BinOp::Mul => Value::Int(a.as_int() * b.as_int()),
                    BinOp::Div => Value::Int(
                        if b.as_int() == 0 {
                            0
                        } else {
                            a.as_int() / b.as_int()
                        },
                    ),
                    BinOp::Rem => Value::Int(
                        if b.as_int() == 0 {
                            0
                        } else {
                            a.as_int() % b.as_int()
                        },
                    ),
                    BinOp::Eq => Value::Bool(a == b),
                    BinOp::Neq => Value::Bool(a != b),
                    BinOp::Lt => Value::Bool(a.as_int() < b.as_int()),
                    BinOp::Gt => Value::Bool(a.as_int() > b.as_int()),
                    BinOp::Lte => Value::Bool(a.as_int() <= b.as_int()),
                    BinOp::Gte => Value::Bool(a.as_int() >= b.as_int()),
                    BinOp::And => Value::Bool(a.as_bool() && b.as_bool()),
                    BinOp::Or => Value::Bool(a.as_bool() || b.as_bool()),
                }
            },
            Expr::UnaryOp(UnOp::Not, operand) => Value::Bool(!operand.eval(vals).as_bool()),
            Expr::UnaryOp(UnOp::Neg, operand) => Value::Int(-operand.eval(vals).as_int()),
        }
    }
}

impl PredModel {
    /// Whether the predicate holds of the given values under the given
    /// interpretation of the unknown predicates.
    pub open spec fn holds(self, vals: Seq<Value>, solution: Solution) -> bool
        decreases self,
    {
        match self {
            PredModel::And(preds) => forall|i: int|
                0 <= i < preds.len() ==> (#[trigger] preds[i]).holds(vals, solution),
            PredModel::KVar(id, args) => solution(
                id,
                Seq::new(
                    args.len(),
                    |i: int|
                        if 0 <= i < args.len() && args[i] < vals.len() {
                            vals[args[i] as int]
                        } else {
                            Value::Int(0)
                        },
                ),
            ),
            PredModel::Expr(expr) => expr.eval(vals) == Value::Bool(true),
        }
    }
}

impl ConstraintModel {
    /// Whether the constraint holds of the given values under the given
    /// interpretation of the unknown predicates. A quantifier binds the
    /// level after the last of `vals`.
    pub open spec fn holds(self, vals: Seq<Value>, solution: Solution) -> bool
        decreases self,
    {
        match self {
            ConstraintModel::Pred(pred) => pred.holds(vals, solution),
            ConstraintModel::Conj(constraints) => forall|i: int|
                0 <= i < constraints.len() ==> (#[trigger] constraints[i]).holds(vals, solution),
            ConstraintModel::Guard(premise, conclusion) => premise.holds(vals, solution)
                ==> conclusion.holds(vals, solution),
            ConstraintModel::ForAll(sort, premise, conclusion) => forall|value: Value|
                #![trigger vals.push(value)]
                value.has_sort(sort) && premise.holds(vals.push(value), solution)
                    ==> conclusion.holds(vals.push(value), solution),
        }
    }

    /// Whether the constraint holds whatever the unknown predicates mean.
    pub open spec fn valid(self) -> bool {
        forall|solution: Solution| self.holds(Seq::empty(), solution)
    }
}

} // verus!
