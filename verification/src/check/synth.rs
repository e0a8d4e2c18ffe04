//! Synthesis: how a statement changes the environment.
//!
//! An assignment never changes the type of a ghost variable. It makes a new
//! ghost variable for the local, whose type says that the value is what the
//! right-hand side computes from the ghost variables of the locals it reads.

use crate::check::env::{
    fact_of, find_fact, ghost_of, heap_model, heap_valid, Env, EnvModel, Fact, FactModel, TyError,
    TyResult,
};
use crate::mir::{Constant, Local, Operand, Rvalue, Statement};
use crate::ty::context::{well_formed, TyCtxt};
use crate::ty::make::{extends, lemma_extends_refl, lemma_extends_trans, lemma_handles_stable};
use crate::ty::tree::{
    lemma_pred_tree_stable, lemma_ty_tree_stable, PredTree, RefineTree, TyTree,
};
use crate::ty::Ty;
use crate::ty::{BaseTy, BinOp, GhostVar, NodeModel, Path, PathModel, Pred, TyKind, UnOp, Var};
use vstd::prelude::*;

verus! {

/// The predicate that stands for the value of an operand: the ghost
/// variable of a local, or a literal as it is.
pub open spec fn operand_pred(env: EnvModel, operand: Operand) -> Result<PredTree, TyError> {
    match operand {
        Operand::Local(local) => match ghost_of(env.locals, local) {
            None => Err(TyError::UnboundLocal(local)),
            Some(var) => Ok(
                PredTree::Path(PathModel { base: Var::GhostVar(var), projs: Seq::empty() }),
            ),
        },
        Operand::Literal(constant) => Ok(PredTree::Const(constant)),
    }
}

/// The base type of an operand: that of the type of the ghost variable of
/// a local, which must be a refined base type, or that of a literal.
pub open spec fn operand_base(env: EnvModel, operand: Operand) -> Result<BaseTy, TyError> {
    match operand {
        Operand::Local(local) => match ghost_of(env.locals, local) {
            None => Err(TyError::UnboundLocal(local)),
            Some(var) => match fact_of(env.heap, var) {
                None => Err(TyError::UnboundVar(Var::GhostVar(var))),
                Some(fact) => match fact.ty {
                    TyTree::Refined(base, _) => Ok(base),
                    _ => Err(TyError::NotAValue(Var::GhostVar(var))),
                },
            },
        },
        Operand::Literal(Constant::Bool(_)) => Ok(BaseTy::Bool),
        Operand::Literal(Constant::Int(_)) => Ok(BaseTy::Int),
    }
}

/// The base type of what a binary operator computes: an integer for the
/// arithmetic operators, a boolean for the others.
pub open spec fn result_base(op: BinOp) -> BaseTy {
    match op {
        BinOp::Add | BinOp::Sub | BinOp::Mul | BinOp::Div | BinOp::Rem => BaseTy::Int,
        _ => BaseTy::Bool,
    }
}

/// The base type of what a unary operator computes.
pub open spec fn unary_base(op: UnOp) -> BaseTy {
    match op {
        UnOp::Not => BaseTy::Bool,
        UnOp::Neg => BaseTy::Int,
    }
}

/// The type that says of a value of base type `base` that it equals
/// `value`: `{ base | v == value }`.
pub open spec fn singleton(base: BaseTy, value: PredTree) -> TyTree {
    TyTree::Refined(
        base,
        RefineTree::Pred(
            PredTree::BinaryOp(
                BinOp::Eq(base),
                Box::new(PredTree::Path(PathModel { base: Var::Nu, projs: Seq::empty() })),
                Box::new(value),
            ),
        ),
    )
}

/// The type of what a right-hand side computes in an environment.
pub open spec fn rvalue_type(env: EnvModel, rvalue: Rvalue) -> Result<TyTree, TyError> {
    match rvalue {
        Rvalue::Use(operand) => match operand_base(env, operand) {
            Err(e) => Err(e),
            Ok(base) => match operand_pred(env, operand) {
                Err(e) => Err(e),
                Ok(value) => Ok(singleton(base, value)),
            },
        },
        Rvalue::BinaryOp(op, left, right) => match operand_pred(env, left) {
            Err(e) => Err(e),
            Ok(a) => match operand_pred(env, right) {
                Err(e) => Err(e),
                Ok(b) => Ok(
                    singleton(result_base(op), PredTree::BinaryOp(op, Box::new(a), Box::new(b))),
                ),
            },
        },
        Rvalue::UnaryOp(op, operand) => match operand_pred(env, operand) {
            Err(e) => Err(e),
            Ok(a) => Ok(singleton(unary_base(op), PredTree::UnaryOp(op, Box::new(a)))),
        },
    }
}

/// The environment after a statement, where `next` is the ghost variable
/// that has not been used yet.
///
/// An assignment adds the unused ghost variable to the heap, with the type
/// of the right-hand side, and makes it the ghost variable of the local.
/// Everything that was in the environment stays.
pub open spec fn synth(env: EnvModel, statement: Statement, next: nat) -> Result<
    EnvModel,
    TyError,
> {
    match statement {
        Statement::Noop => Ok(env),
        Statement::Assign(local, rvalue) => match rvalue_type(env, rvalue) {
            Err(e) => Err(e),
            Ok(ty) => if next >= usize::MAX {
                Err(TyError::Exhausted)
            } else {
                let var = GhostVar(next as usize);
                Ok(
                    EnvModel {
                        heap: env.heap.push(FactModel { var, ty, aliases: Seq::empty() }),
                        locals: env.locals.push((local, var)),
                    },
                )
            },
        },
    }
}

/// The ghost variables that a statement uses up.
pub open spec fn used(statement: Statement) -> nat {
    match statement {
        Statement::Noop => 0,
        Statement::Assign(_, _) => 1,
    }
}

/// What the entries of a heap stand for is the same in every table that
/// begins with one in which they are valid.
pub proof fn lemma_heap_model_stable(heap: Seq<Fact>, nodes: Seq<NodeModel>, longer: Seq<NodeModel>)
    requires
        well_formed(nodes),
        heap_valid(heap, nodes),
        extends(nodes, longer),
    ensures
        heap_model(heap, longer) == heap_model(heap, nodes),
        heap_valid(heap, longer),
{
    assert forall|i: int| 0 <= i < heap.len() implies (#[trigger] heap[i]).model(longer)
        == heap[i].model(nodes) by {
        lemma_ty_tree_stable(nodes, longer, heap[i].ty.index as int);
    }
    assert(heap_model(heap, longer) =~= heap_model(heap, nodes));
    assert forall|i: int| 0 <= i < heap.len() implies crate::ty::context::is_ty(
        longer,
        (#[trigger] heap[i]).ty,
        longer.len() as int,
    ) by {
        assert(crate::ty::context::is_ty(nodes, heap[i].ty, nodes.len() as int));
        assert(longer[heap[i].ty.index as int] == longer.take(nodes.len() as int)[heap[i].ty.index as int]);
    }
}

impl Operand {
    /// Interns the predicate that stands for the value of the operand.
    pub fn to_pred(&self, tcx: &mut TyCtxt, env: &Env) -> (made: Result<Pred, TyError>)
        requires
            old(tcx).wf(),
        ensures
            final(tcx).wf(),
            extends(old(tcx)@, final(tcx)@),
            final(tcx).next_ghost() == old(tcx).next_ghost(),
            match (made, operand_pred(env.model(old(tcx)@), *self)) {
                (Ok(pred), Ok(expected)) => final(tcx).has_pred(pred) && final(tcx).pred_tree(pred)
                    == expected,
                (Err(e), Err(expected)) => e == expected,
                _ => false,
            },
    {
        match self {
            Operand::Local(local) => match env.ghost_of(*local) {
                None => {
                    proof {
                        lemma_extends_refl(tcx@);
                    }
                    Err(TyError::UnboundLocal(*local))
                },
                Some(var) => {
                    let path = Path::new(Var::GhostVar(var), Vec::new());
                    assert(path@.projs =~= Seq::<usize>::empty());
                    Ok(tcx.mk_path(path))
                },
            },
            Operand::Literal(constant) => Ok(tcx.mk_const(*constant)),
        }
    }

    /// The base type of the operand.
    pub fn base(&self, tcx: &TyCtxt, env: &Env) -> (base: Result<BaseTy, TyError>)
        requires
            tcx.wf(),
            env.valid(tcx@),
        ensures
            base == operand_base(env.model(tcx@), *self),
    {
        match self {
            Operand::Local(local) => match env.ghost_of(*local) {
                None => Err(TyError::UnboundLocal(*local)),
                Some(var) => match find_fact(&env.heap, var, tcx) {
                    None => Err(TyError::UnboundVar(Var::GhostVar(var))),
                    Some(at) => {
                        let ty = env.heap[at].ty;
                        let node = tcx.ty(ty);
                        assert(tcx@[ty.index as int] == NodeModel::Ty(node.kind@));
                        match &node.kind {
                            TyKind::Refined(base, _) => Ok(*base),
                            _ => Err(TyError::NotAValue(Var::GhostVar(var))),
                        }
                    },
                },
            },
            Operand::Literal(Constant::Bool(_)) => Ok(BaseTy::Bool),
            Operand::Literal(Constant::Int(_)) => Ok(BaseTy::Int),
        }
    }
}

impl BinOp {
    /// The base type of what the operator computes.
    pub fn result_base(&self) -> (base: BaseTy)
        ensures
            base == result_base(*self),
    {
        match self {
            BinOp::Add | BinOp::Sub | BinOp::Mul | BinOp::Div | BinOp::Rem => BaseTy::Int,
            _ => BaseTy::Bool,
        }
    }
}

impl UnOp {
    /// The base type of what the operator computes.
    pub fn result_base(&self) -> (base: BaseTy)
        ensures
            base == unary_base(*self),
    {
        match self {
            UnOp::Not => BaseTy::Bool,
            UnOp::Neg => BaseTy::Int,
        }
    }
}

impl TyCtxt {
    /// Interns the type that says of a value of base type `base` that it
    /// equals the predicate `value`.
    pub fn mk_singleton(&mut self, base: BaseTy, value: Pred) -> (ty: Ty)
        requires
            old(self).wf(),
            old(self).has_pred(value),
        ensures
            final(self).wf(),
            extends(old(self)@, final(self)@),
            final(self).next_ghost() == old(self).next_ghost(),
            final(self).has_ty(ty),
            final(self).ty_tree(ty) == singleton(base, old(self).pred_tree(value)),
    {
        let ghost t0 = self@;
        let path = Path::new(Var::Nu, Vec::new());
        assert(path@.projs =~= Seq::<usize>::empty());
        let nu = self.mk_path(path);
        let ghost t1 = self@;
        proof {
            lemma_handles_stable(t0, t1, value.index as int);
            lemma_pred_tree_stable(t0, t1, value.index as int);
        }
        let eq = self.mk_bin_op(BinOp::Eq(base), nu, value);
        let ghost t2 = self@;
        let ty = self.mk_refine(base, eq);
        proof {
            lemma_extends_trans(t0, t1, t2);
            lemma_extends_trans(t0, t2, self@);
        }
        ty
    }
}

impl Rvalue {
    /// Interns the type of what the right-hand side computes.
    pub fn synth(&self, tcx: &mut TyCtxt, env: &Env) -> (made: Result<Ty, TyError>)
        requires
            old(tcx).wf(),
            env.valid(old(tcx)@),
        ensures
            final(tcx).wf(),
            extends(old(tcx)@, final(tcx)@),
            final(tcx).next_ghost() == old(tcx).next_ghost(),
            match (made, rvalue_type(env.model(old(tcx)@), *self)) {
                (Ok(ty), Ok(expected)) => final(tcx).has_ty(ty) && final(tcx).ty_tree(ty)
                    == expected,
                (Err(e), Err(expected)) => e == expected,
                _ => false,
            },
    {
        let ghost t0 = tcx@;
        match self {
            Rvalue::Use(operand) => {
                let base = match operand.base(tcx, env) {
                    Ok(base) => base,
                    Err(e) => {
                        proof {
                            lemma_extends_refl(t0);
                        }
                        return Err(e);
                    },
                };
                let value = match operand.to_pred(tcx, env) {
                    Ok(value) => value,
                    Err(e) => {
                        return Err(e);
                    },
                };
                let ghost t1 = tcx@;
                let ty = tcx.mk_singleton(base, value);
                proof {
                    lemma_extends_trans(t0, t1, tcx@);
                }
                Ok(ty)
            },
            Rvalue::BinaryOp(op, left, right) => {
                let a = match left.to_pred(tcx, env) {
                    Ok(a) => a,
                    Err(e) => {
                        return Err(e);
                    },
                };
                let ghost t1 = tcx@;
                proof {
                    lemma_heap_model_stable(env.heap@, t0, t1);
                }
                let b = match right.to_pred(tcx, env) {
                    Ok(b) => b,
                    Err(e) => {
                        proof {
                            lemma_extends_trans(t0, t1, tcx@);
                        }
                        return Err(e);
                    },
                };
                let ghost t2 = tcx@;
                proof {
                    lemma_handles_stable(t1, t2, a.index as int);
                    lemma_pred_tree_stable(t1, t2, a.index as int);
                }
                let value = tcx.mk_bin_op(*op, a, b);
                let ghost t3 = tcx@;
                let ty = tcx.mk_singleton(op.result_base(), value);
                proof {
                    lemma_extends_trans(t0, t1, t2);
                    lemma_extends_trans(t0, t2, t3);
                    lemma_extends_trans(t0, t3, tcx@);
                }
                Ok(ty)
            },
            Rvalue::UnaryOp(op, operand) => {
                let a = match operand.to_pred(tcx, env) {
                    Ok(a) => a,
                    Err(e) => {
                        return Err(e);
                    },
                };
                let ghost t1 = tcx@;
                let value = tcx.mk_un_op(*op, a);
                let ghost t2 = tcx@;
                let ty = tcx.mk_singleton(op.result_base(), value);
                proof {
                    lemma_extends_trans(t0, t1, t2);
                    lemma_extends_trans(t0, t2, tcx@);
                }
                Ok(ty)
            },
        }
    }
}

impl Statement {
    /// Moves the environment past the statement.
    pub fn synth(&self, tcx: &mut TyCtxt, env: &mut Env) -> (done: TyResult)
        requires
            old(tcx).wf(),
            old(env).valid(old(tcx)@),
        ensures
            final(tcx).wf(),
            extends(old(tcx)@, final(tcx)@),
            match (done, synth(old(env).model(old(tcx)@), *self, old(tcx).next_ghost())) {
                (Ok(()), Ok(expected)) => {
                    &&& final(env).valid(final(tcx)@)
                    &&& final(env).model(final(tcx)@) == expected
                    &&& final(tcx).next_ghost() == old(tcx).next_ghost() + used(*self)
                },
                (Err(e), Err(expected)) => e == expected,
                _ => false,
            },
    {
        let ghost t0 = tcx@;
        let ghost before = env.model(t0);
        match self {
            Statement::Noop => {
                proof {
                    lemma_extends_refl(t0);
                }
                Ok(())
            },
            Statement::Assign(local, rvalue) => {
                let ty = match rvalue.synth(tcx, env) {
                    Ok(ty) => ty,
                    Err(e) => {
                        return Err(e);
                    },
                };
                let ghost t1 = tcx@;
                let var = match tcx.fresh_ghost() {
                    Some(var) => var,
                    None => {
                        return Err(TyError::Exhausted);
                    },
                };
                proof {
                    lemma_heap_model_stable(env.heap@, t0, t1);
                }
                let ghost heap_before = env.heap@;
                env.heap.push(Fact { var, ty, aliases: Vec::new() });
                env.locals.push((*local, var));
                proof {
                    let expected = synth(before, *self, old(tcx).next_ghost()).unwrap();
                    assert(heap_model(env.heap@, t1) =~= heap_model(heap_before, t1).push(
                        FactModel { var, ty: tcx.ty_tree(ty), aliases: Seq::empty() },
                    ));
                    assert(env.model(tcx@).heap =~= expected.heap);
                    assert(env.model(tcx@).locals =~= expected.locals);
                }
                Ok(())
            },
        }
    }
}

} // verus!
