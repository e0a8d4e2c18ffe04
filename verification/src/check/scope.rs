//! The variables in scope of an obligation, and the compilation of
//! refinements into the predicates of constraints.
//!
//! Each integer or boolean in scope is bound by one quantifier of the
//! constraint under construction, and is known there by the nesting level of
//! that quantifier.

use crate::check::env::TyError;
use crate::fixpoint::constraint as fixpoint;
use crate::fixpoint::constraint::{Expr, Sort};
use crate::fixpoint::model::PredModel;
use crate::mir::Constant;
use crate::ty::context::{children_below, TyCtxt};
use crate::ty::tree::{pred_tree, ty_tree, PredTree, RefineTree, TyTree};
use crate::ty::{
    BaseTy, BinOp, Field, Kvar, NodeModel, Path, PathModel, Pred, PredKind, Refine, Ty, TyKind,
    TyModel, UnOp, Var,
};
use vstd::prelude::*;

verus! {

/// A name in scope: a variable, its type, and the level of the first
/// quantifier that was opened for it. For an integer or a boolean that is
/// the level by which it is known.
#[derive(Clone, Copy, Debug)]
pub struct Binding {
    pub var: Var,
    pub ty: Ty,
    pub start: usize,
}

/// A name in scope as a mathematical value.
pub struct BindingModel {
    pub var: Var,
    pub ty: TyTree,
    pub start: usize,
}

/// What is in scope: the names, innermost last, and the quantifiers that
/// are open, outermost first, each with its sort and its premise.
pub struct Scope {
    pub names: Vec<Binding>,
    pub layers: Vec<(Sort, fixpoint::Pred)>,
}

/// A scope as a mathematical value.
pub struct ScopeModel {
    pub names: Seq<BindingModel>,
    pub layers: Seq<(Sort, PredModel)>,
}

impl Binding {
    pub open spec fn model(&self, nodes: Seq<NodeModel>) -> BindingModel {
        BindingModel { var: self.var, ty: ty_tree(nodes, self.ty.index as int), start: self.start }
    }
}

/// The models of a list of names.
pub open spec fn names_model(names: Seq<Binding>, nodes: Seq<NodeModel>) -> Seq<BindingModel> {
    Seq::new(names.len(), |i: int| names[i].model(nodes))
}

/// The models of a list of quantifiers.
pub open spec fn layers_model(layers: Seq<(Sort, fixpoint::Pred)>) -> Seq<(Sort, PredModel)> {
    Seq::new(layers.len(), |i: int| (layers[i].0, layers[i].1.model()))
}

impl Scope {
    pub open spec fn model(&self, nodes: Seq<NodeModel>) -> ScopeModel {
        ScopeModel {
            names: names_model(self.names@, nodes),
            layers: layers_model(self.layers@),
        }
    }

    /// Whether every type of the scope is a type of the table.
    pub open spec fn valid(&self, nodes: Seq<NodeModel>) -> bool {
        forall|i: int|
            0 <= i < self.names@.len() ==> crate::ty::context::is_ty(
                nodes,
                (#[trigger] self.names@[i]).ty,
                nodes.len() as int,
            )
    }
}

/// The sort of the values of a base type.
pub open spec fn sort_of(base: BaseTy) -> Sort {
    match base {
        BaseTy::Int => Sort::Int,
        BaseTy::Bool => Sort::Bool,
    }
}

/// The operator of constraints for an operator of refinements. Equality
/// and disequality lose their base type.
pub open spec fn lower_bin_op(op: BinOp) -> fixpoint::BinOp {
    match op {
        BinOp::Add => fixpoint::BinOp::Add,
        BinOp::Sub => fixpoint::BinOp::Sub,
        BinOp::Mul => fixpoint::BinOp::Mul,
        BinOp::Div => fixpoint::BinOp::Div,
        BinOp::Rem => fixpoint::BinOp::Rem,
        BinOp::Eq(_) => fixpoint::BinOp::Eq,
        BinOp::Neq(_) => fixpoint::BinOp::Neq,
        BinOp::Lt => fixpoint::BinOp::Lt,
        BinOp::Gt => fixpoint::BinOp::Gt,
        BinOp::Lte => fixpoint::BinOp::Lte,
        BinOp::Gte => fixpoint::BinOp::Gte,
        BinOp::And => fixpoint::BinOp::And,
        BinOp::Or => fixpoint::BinOp::Or,
    }
}

/// The operator of constraints for a unary operator of refinements.
pub open spec fn lower_un_op(op: UnOp) -> fixpoint::UnOp {
    match op {
        UnOp::Not => fixpoint::UnOp::Not,
        UnOp::Neg => fixpoint::UnOp::Neg,
    }
}

/// The literal of constraints for a literal of the program.
pub open spec fn lower_constant(constant: Constant) -> fixpoint::Constant {
    match constant {
        Constant::Bool(b) => fixpoint::Constant::Bool(b),
        Constant::Int(n) => fixpoint::Constant::Int(n),
    }
}

/// The innermost name for a variable.
pub open spec fn lookup(names: Seq<BindingModel>, var: Var) -> Option<BindingModel>
    decreases names.len(),
{
    if names.len() == 0 {
        None
    } else if names.last().var == var {
        Some(names.last())
    } else {
        lookup(names.drop_last(), var)
    }
}

/// The level by which a variable is known: `nu` for the refined value
/// itself, and otherwise the level of the innermost name for it, which must
/// be an integer or a boolean.
pub open spec fn level_of(names: Seq<BindingModel>, nu: Option<usize>, var: Var) -> Result<
    usize,
    TyError,
> {
    match var {
        Var::Nu => match nu {
            Some(level) => Ok(level),
            None => Err(TyError::UnboundVar(var)),
        },
        _ => match lookup(names, var) {
            None => Err(TyError::UnboundVar(var)),
            Some(binding) => if binding.ty is Refined {
                Ok(binding.start)
            } else {
                Err(TyError::NotAValue(var))
            },
        },
    }
}

/// The number of quantifiers that the first `n` fields of a tuple open
/// when they are bound.
pub open spec fn fields_width(fields: Seq<(Field, TyTree)>, n: nat) -> nat
    decreases fields, n,
{
    if n == 0 || n > fields.len() {
        0
    } else {
        fields_width(fields, (n - 1) as nat) + width(fields[n - 1].1)
    }
}

/// The number of quantifiers that a type opens when a variable is bound
/// with it: one for each integer or boolean in it.
pub open spec fn width(ty: TyTree) -> nat
    decreases ty, 0nat,
{
    match ty {
        TyTree::Refined(_, _) => 1,
        TyTree::Tuple(fields) => fields_width(fields, fields.len()),
        _ => 0,
    }
}

/// The part of a type that projections lead to: its type, and the number
/// of quantifiers that the type opens before those of the part. Nothing
/// where a projection is not into a tuple or past its last field.
pub open spec fn component(ty: TyTree, projs: Seq<usize>) -> Option<(nat, TyTree)>
    decreases projs.len(),
{
    if projs.len() == 0 {
        Some((0, ty))
    } else {
        match ty {
            TyTree::Tuple(fields) => if projs[0] < fields.len() {
                match component(fields[projs[0] as int].1, projs.drop_first()) {
                    None => None,
                    Some((offset, part)) => Some(
                        (fields_width(fields, projs[0] as nat) + offset, part),
                    ),
                }
            } else {
                None
            },
            _ => None,
        }
    }
}

/// The level by which the value of a path is known. A path without
/// projections is its variable. A path with projections is a part of a
/// tuple: it is known by the level of the quantifier that was opened for it
/// when the tuple was bound, and it must be an integer or a boolean.
pub open spec fn path_level(names: Seq<BindingModel>, nu: Option<usize>, path: PathModel) -> Result<
    usize,
    TyError,
> {
    if path.projs.len() == 0 {
        level_of(names, nu, path.base)
    } else if path.base == Var::Nu {
        Err(TyError::Projection(path.base))
    } else {
        match lookup(names, path.base) {
            None => Err(TyError::UnboundVar(path.base)),
            Some(binding) => match component(binding.ty, path.projs) {
                None => Err(TyError::Projection(path.base)),
                Some((offset, part)) => if !(part is Refined) {
                    Err(TyError::NotAValue(path.base))
                } else if binding.start + offset > usize::MAX {
                    Err(TyError::Exhausted)
                } else {
                    Ok((binding.start + offset) as usize)
                },
            },
        }
    }
}

/// The expression of constraints for a predicate: every path becomes the
/// level by which its value is known, every operator and literal its
/// counterpart. The first path that cannot be resolved, from left to
/// right, is the error.
pub open spec fn compile_pred(names: Seq<BindingModel>, nu: Option<usize>, pred: PredTree)
    -> Result<Expr, TyError>
    decreases pred,
{
    match pred {
        PredTree::Path(path) => match path_level(names, nu, path) {
            Ok(level) => Ok(Expr::Variable(level)),
            Err(e) => Err(e),
        },
        PredTree::BinaryOp(op, left, right) => match compile_pred(names, nu, *left) {
            Err(e) => Err(e),
            Ok(a) => match compile_pred(names, nu, *right) {
                Err(e) => Err(e),
                Ok(b) => Ok(Expr::BinaryOp(lower_bin_op(op), Box::new(a), Box::new(b))),
            },
        },
        PredTree::UnaryOp(op, operand) => match compile_pred(names, nu, *operand) {
            Err(e) => Err(e),
            Ok(a) => Ok(Expr::UnaryOp(lower_un_op(op), Box::new(a))),
        },
        PredTree::Const(constant) => Ok(Expr::Constant(lower_constant(constant))),
    }
}

/// The levels of the variables of an unknown refinement, in order.
pub open spec fn compile_args(names: Seq<BindingModel>, nu: Option<usize>, vars: Seq<Var>)
    -> Result<Seq<usize>, TyError>
    decreases vars.len(),
{
    if vars.len() == 0 {
        Ok(Seq::empty())
    } else {
        match compile_args(names, nu, vars.drop_last()) {
            Err(e) => Err(e),
            Ok(levels) => match level_of(names, nu, vars.last()) {
                Err(e) => Err(e),
                Ok(level) => Ok(levels.push(level)),
            },
        }
    }
}

/// The predicate of constraints for a refinement of the value at level
/// `nu`: a known predicate becomes a primitive expression, an unknown one
/// the application of its name to the levels of its variables. An unknown
/// refinement never becomes anything else.
pub open spec fn compile_refine(names: Seq<BindingModel>, nu: usize, refine: RefineTree) -> Result<
    PredModel,
    TyError,
> {
    match refine {
        RefineTree::Pred(pred) => match compile_pred(names, Some(nu), pred) {
            Err(e) => Err(e),
            Ok(expr) => Ok(PredModel::Expr(expr)),
        },
        RefineTree::Infer(kvar) => match compile_args(names, Some(nu), kvar.vars) {
            Err(e) => Err(e),
            Ok(args) => Ok(PredModel::KVar(kvar.id, args)),
        },
    }
}

impl BaseTy {
    /// The sort of the values of the base type.
    pub fn sort(&self) -> (sort: Sort)
        ensures
            sort == sort_of(*self),
    {
        match self {
            BaseTy::Int => Sort::Int,
            BaseTy::Bool => Sort::Bool,
        }
    }
}

impl BinOp {
    /// The operator of constraints for this operator.
    pub fn lower(&self) -> (op: fixpoint::BinOp)
        ensures
            op == lower_bin_op(*self),
    {
        match self {
            BinOp::Add => fixpoint::BinOp::Add,
            BinOp::Sub => fixpoint::BinOp::Sub,
            BinOp::Mul => fixpoint::BinOp::Mul,
            BinOp::Div => fixpoint::BinOp::Div,
            BinOp::Rem => fixpoint::BinOp::Rem,
            BinOp::Eq(_) => fixpoint::BinOp::Eq,
            BinOp::Neq(_) => fixpoint::BinOp::Neq,
            BinOp::Lt => fixpoint::BinOp::Lt,
            BinOp::Gt => fixpoint::BinOp::Gt,
            BinOp::Lte => fixpoint::BinOp::Lte,
            BinOp::Gte => fixpoint::BinOp::Gte,
            BinOp::And => fixpoint::BinOp::And,
            BinOp::Or => fixpoint::BinOp::Or,
        }
    }
}

impl UnOp {
    /// The operator of constraints for this operator.
    pub fn lower(&self) -> (op: fixpoint::UnOp)
        ensures
            op == lower_un_op(*self),
    {
        match self {
            UnOp::Not => fixpoint::UnOp::Not,
            UnOp::Neg => fixpoint::UnOp::Neg,
        }
    }
}

impl Constant {
    /// The literal of constraints for this literal.
    pub fn lower(&self) -> (constant: fixpoint::Constant)
        ensures
            constant == lower_constant(*self),
    {
        match self {
            Constant::Bool(b) => fixpoint::Constant::Bool(*b),
            Constant::Int(n) => fixpoint::Constant::Int(*n),
        }
    }
}

impl Scope {
    /// A scope with no name and no open quantifier.
    pub fn new() -> (scope: Scope)
        ensures
            scope.names@.len() == 0,
            scope.layers@.len() == 0,
    {
        Scope { names: Vec::new(), layers: Vec::new() }
    }

    /// The innermost name for a variable.
    pub fn lookup(&self, tcx: &TyCtxt, var: Var) -> (found: Option<Binding>)
        ensures
            match found {
                Some(binding) => lookup(names_model(self.names@, tcx@), var) == Some(
                    binding.model(tcx@),
                ) && exists|i: int| 0 <= i < self.names@.len() && self.names@[i] == binding,
                None => lookup(names_model(self.names@, tcx@), var) is None,
            },
    {
        let ghost nodes = tcx@;
        let ghost all = names_model(self.names@, nodes);
        let mut i: usize = self.names.len();
        assert(all.take(i as int) =~= all);
        while i > 0
            invariant
                i <= self.names.len(),
                nodes == tcx@,
                all == names_model(self.names@, nodes),
                lookup(all, var) == lookup(all.take(i as int), var),
            decreases i,
        {
            i = i - 1;
            assert(all.take(i + 1).drop_last() =~= all.take(i as int));
            if self.names[i].var == var {
                return Some(self.names[i]);
            }
        }
        None
    }

    /// The level by which a variable is known.
    pub fn level_of(&self, tcx: &TyCtxt, nu: Option<usize>, var: Var) -> (level: Result<
        usize,
        TyError,
    >)
        requires
            tcx.wf(),
            self.valid(tcx@),
        ensures
            level == level_of(names_model(self.names@, tcx@), nu, var),
    {
        match var {
            Var::Nu => match nu {
                Some(level) => Ok(level),
                None => Err(TyError::UnboundVar(var)),
            },
            _ => match self.lookup(tcx, var) {
                None => Err(TyError::UnboundVar(var)),
                Some(binding) => {
                    let node = tcx.ty(binding.ty);
                    assert(tcx@[binding.ty.index as int] == NodeModel::Ty(node.kind@));
                    match &node.kind {
                        TyKind::Refined(_, _) => Ok(binding.start),
                        _ => Err(TyError::NotAValue(var)),
                    }
                },
            },
        }
    }

    /// The level by which the value of a path is known.
    pub fn path_level(&self, tcx: &TyCtxt, nu: Option<usize>, path: &Path) -> (level: Result<
        usize,
        TyError,
    >)
        requires
            tcx.wf(),
            self.valid(tcx@),
        ensures
            level == path_level(names_model(self.names@, tcx@), nu, path@),
    {
        if path.projs.len() == 0 {
            return self.level_of(tcx, nu, path.base);
        }
        match path.base {
            Var::Nu => Err(TyError::Projection(path.base)),
            _ => match self.lookup(tcx, path.base) {
                None => Err(TyError::UnboundVar(path.base)),
                Some(binding) => {
                    assert(path.projs@.skip(0) =~= path.projs@);
                    self.part_level(tcx, binding, path)
                },
            },
        }
    }

    /// The level of the part of the variable of a name that the projections
    /// of a path lead to.
    fn part_level(&self, tcx: &TyCtxt, binding: Binding, path: &Path) -> (level: Result<
        usize,
        TyError,
    >)
        requires
            tcx.wf(),
            tcx.has_ty(binding.ty),
        ensures
            level == (match component(tcx.ty_tree(binding.ty), path.projs@) {
                None => Err::<usize, TyError>(TyError::Projection(path.base)),
                Some((offset, part)) => if !(part is Refined) {
                    Err(TyError::NotAValue(path.base))
                } else if binding.start + offset > usize::MAX {
                    Err(TyError::Exhausted)
                } else {
                    Ok((binding.start + offset) as usize)
                },
            }),
    {
        assert(path.projs@.skip(0) =~= path.projs@);
        match tcx.part(binding.ty, &path.projs, 0) {
            None => Err(TyError::Projection(path.base)),
            Some(part) => {
                if !tcx.is_refined(part) {
                    Err(TyError::NotAValue(path.base))
                } else {
                    match tcx.offset(binding.ty, &path.projs, 0) {
                        None => Err(TyError::Exhausted),
                        Some(offset) => match binding.start.checked_add(offset) {
                            None => Err(TyError::Exhausted),
                            Some(level) => Ok(level),
                        },
                    }
                }
            },
        }
    }

    /// The expression of constraints for the predicate behind a handle.
    pub fn compile_pred(&self, tcx: &TyCtxt, nu: Option<usize>, pred: Pred) -> (compiled: Result<
        Expr,
        TyError,
    >)
        requires
            tcx.wf(),
            self.valid(tcx@),
            tcx.has_pred(pred),
        ensures
            compiled == compile_pred(names_model(self.names@, tcx@), nu, tcx.pred_tree(pred)),
        decreases pred.index,
    {
        assert(children_below(tcx@, tcx@[pred.index as int], pred.index as int));
        let node = tcx.pred(pred);
        assert(tcx@[pred.index as int] == NodeModel::Pred(node.kind@));
        match &node.kind {
            PredKind::Path(path) => match self.path_level(tcx, nu, path) {
                Ok(level) => Ok(Expr::Variable(level)),
                Err(e) => Err(e),
            },
            PredKind::BinaryOp(op, left, right) => {
                let a = match self.compile_pred(tcx, nu, *left) {
                    Ok(a) => a,
                    Err(e) => {
                        return Err(e);
                    },
                };
                let b = match self.compile_pred(tcx, nu, *right) {
                    Ok(b) => b,
                    Err(e) => {
                        return Err(e);
                    },
                };
                Ok(Expr::BinaryOp(op.lower(), Box::new(a), Box::new(b)))
            },
            PredKind::UnaryOp(op, operand) => {
                let a = match self.compile_pred(tcx, nu, *operand) {
                    Ok(a) => a,
                    Err(e) => {
                        return Err(e);
                    },
                };
                Ok(Expr::UnaryOp(op.lower(), Box::new(a)))
            },
            PredKind::Const(constant) => Ok(Expr::Constant(constant.lower())),
        }
    }

    /// The levels of the variables of an unknown refinement.
    pub fn compile_args(&self, tcx: &TyCtxt, nu: Option<usize>, vars: &Vec<Var>) -> (compiled:
        Result<Vec<usize>, TyError>)
        requires
            tcx.wf(),
            self.valid(tcx@),
        ensures
            match (compiled, compile_args(names_model(self.names@, tcx@), nu, vars@)) {
                (Ok(levels), Ok(expected)) => levels@ == expected,
                (Err(e), Err(expected)) => e == expected,
                _ => false,
            },
    {
        let ghost names = names_model(self.names@, tcx@);
        let mut levels: Vec<usize> = Vec::new();
        let mut i: usize = 0;
        assert(vars@.take(0) =~= Seq::<Var>::empty());
        while i < vars.len()
            invariant
                i <= vars.len(),
                tcx.wf(),
                self.valid(tcx@),
                names == names_model(self.names@, tcx@),
                compile_args(names, nu, vars@.take(i as int)) matches Ok(so_far) && so_far
                    == levels@,
            decreases vars.len() - i,
        {
            proof {
                assert(vars@.take(i + 1).drop_last() =~= vars@.take(i as int));
                assert(vars@.take(i + 1).last() == vars@[i as int]);
            }
            match self.level_of(tcx, nu, vars[i]) {
                Ok(level) => levels.push(level),
                Err(e) => {
                    proof {
                        lemma_compile_args_error_stays(names, nu, vars@, i + 1);
                    }
                    return Err(e);
                },
            }
            i = i + 1;
        }
        assert(vars@.take(vars.len() as int) =~= vars@);
        Ok(levels)
    }

    /// The predicate of constraints for a refinement of the value at level
    /// `nu`.
    pub fn compile_refine(&self, tcx: &TyCtxt, nu: usize, refine: &Refine) -> (compiled: Result<
        fixpoint::Pred,
        TyError,
    >)
        requires
            tcx.wf(),
            self.valid(tcx@),
            refine matches Refine::Pred(pred) ==> tcx.has_pred(*pred),
        ensures
            match (
                compiled,
                compile_refine(
                    names_model(self.names@, tcx@),
                    nu,
                    crate::ty::tree::refine_tree(tcx@, refine@),
                ),
            ) {
                (Ok(pred), Ok(expected)) => pred.model() == expected,
                (Err(e), Err(expected)) => e == expected,
                _ => false,
            },
    {
        match refine {
            Refine::Pred(pred) => match self.compile_pred(tcx, Some(nu), *pred) {
                Ok(expr) => Ok(fixpoint::Pred::Expr(expr)),
                Err(e) => Err(e),
            },
            Refine::Infer(kvar) => match self.compile_args(tcx, Some(nu), &kvar.vars) {
                Ok(args) => Ok(fixpoint::Pred::KVar(kvar.id, args)),
                Err(e) => Err(e),
            },
        }
    }
}

impl TyCtxt {
    /// Whether the type behind a handle is a refined base type.
    pub fn is_refined(&self, ty: Ty) -> (refined: bool)
        requires
            self.wf(),
            self.has_ty(ty),
        ensures
            refined == (self.ty_tree(ty) is Refined),
    {
        let node = self.ty(ty);
        assert(self@[ty.index as int] == NodeModel::Ty(node.kind@));
        match &node.kind {
            TyKind::Refined(_, _) => true,
            _ => false,
        }
    }

    /// The number of quantifiers that the type behind a handle opens, or
    /// nothing if they are too many to count.
    pub fn width(&self, ty: Ty) -> (counted: Option<usize>)
        requires
            self.wf(),
            self.has_ty(ty),
        ensures
            match counted {
                Some(n) => n == width(self.ty_tree(ty)),
                None => width(self.ty_tree(ty)) > usize::MAX,
            },
        decreases ty.index, 1nat,
    {
        assert(children_below(self@, self@[ty.index as int], ty.index as int));
        let node = self.ty(ty);
        assert(self@[ty.index as int] == NodeModel::Ty(node.kind@));
        match &node.kind {
            TyKind::Refined(_, _) => Some(1),
            TyKind::Tuple(tuple) => self.fields_width(ty, tuple.0.len()),
            _ => Some(0),
        }
    }

    /// The number of quantifiers that the first `n` fields of the tuple
    /// behind a handle open, or nothing if they are too many to count.
    pub fn fields_width(&self, ty: Ty, n: usize) -> (counted: Option<usize>)
        requires
            self.wf(),
            self.has_ty(ty),
            self.ty_tree(ty) is Tuple,
            n <= self.ty_tree(ty)->Tuple_0.len(),
        ensures
            match counted {
                Some(total) => total == fields_width(self.ty_tree(ty)->Tuple_0, n as nat),
                None => fields_width(self.ty_tree(ty)->Tuple_0, n as nat) > usize::MAX,
            },
        decreases ty.index, 0nat,
    {
        assert(children_below(self@, self@[ty.index as int], ty.index as int));
        let node = self.ty(ty);
        assert(self@[ty.index as int] == NodeModel::Ty(node.kind@));
        let ghost fields = self.ty_tree(ty)->Tuple_0;
        match &node.kind {
            TyKind::Tuple(tuple) => {
                let mut total: usize = 0;
                let mut i: usize = 0;
                while i < n
                    invariant
                        i <= n,
                        n <= tuple.0.len(),
                        self.wf(),
                        fields.len() == tuple.0.len(),
                        fields == self.ty_tree(ty)->Tuple_0,
                        forall|k: int|
                            0 <= k < tuple.0.len() ==> (#[trigger] tuple.0@[k]).1.index < ty.index
                                && self.has_ty(tuple.0@[k].1) && fields[k] == (
                                tuple.0@[k].0,
                                self.ty_tree(tuple.0@[k].1),
                            ),
                        total == fields_width(fields, i as nat),
                    decreases n - i,
                {
                    let inner = tuple.0[i].1;
                    assert(fields[i as int] == (tuple.0@[i as int].0, self.ty_tree(inner)));
                    let step = match self.width(inner) {
                        Some(step) => step,
                        None => {
                            proof {
                                lemma_fields_width_grows(fields, (i + 1) as nat, n as nat);
                            }
                            return None;
                        },
                    };
                    total = match total.checked_add(step) {
                        Some(sum) => sum,
                        None => {
                            proof {
                                lemma_fields_width_grows(fields, (i + 1) as nat, n as nat);
                            }
                            return None;
                        },
                    };
                    i = i + 1;
                }
                Some(total)
            },
            _ => {
                proof {
                    assert(false);
                }
                vstd::pervasive::unreached()
            },
        }
    }

    /// The handle of the part of a type that the projections from place
    /// `from` on lead to, or nothing where a projection is not into a tuple
    /// or past its last field.
    pub fn part(&self, ty: Ty, projs: &Vec<usize>, from: usize) -> (found: Option<Ty>)
        requires
            self.wf(),
            self.has_ty(ty),
            from <= projs@.len(),
        ensures
            match (found, component(self.ty_tree(ty), projs@.skip(from as int))) {
                (Some(part), Some((_, expected))) => self.has_ty(part) && self.ty_tree(part)
                    == expected,
                (None, None) => true,
                _ => false,
            },
        decreases projs@.len() - from,
    {
        let ghost rest = projs@.skip(from as int);
        if from == projs.len() {
            return Some(ty);
        }
        assert(rest[0] == projs@[from as int]);
        assert(rest.drop_first() =~= projs@.skip(from + 1));
        assert(children_below(self@, self@[ty.index as int], ty.index as int));
        let node = self.ty(ty);
        assert(self@[ty.index as int] == NodeModel::Ty(node.kind@));
        match &node.kind {
            TyKind::Tuple(tuple) => {
                let at: usize = projs[from];
                if at < tuple.0.len() {
                    let inner = tuple.0[at].1;
                    assert(self.ty_tree(ty)->Tuple_0[at as int] == (
                        tuple.0@[at as int].0,
                        self.ty_tree(inner),
                    ));
                    self.part(inner, projs, from + 1)
                } else {
                    None
                }
            },
            _ => None,
        }
    }

    /// The number of quantifiers that a type opens before those of the part
    /// that the projections from place `from` on lead to, or nothing if
    /// they are too many to count.
    pub fn offset(&self, ty: Ty, projs: &Vec<usize>, from: usize) -> (counted: Option<usize>)
        requires
            self.wf(),
            self.has_ty(ty),
            from <= projs@.len(),
            component(self.ty_tree(ty), projs@.skip(from as int)) is Some,
        ensures
            match counted {
                Some(n) => n == component(self.ty_tree(ty), projs@.skip(from as int)).unwrap().0,
                None => component(self.ty_tree(ty), projs@.skip(from as int)).unwrap().0
                    > usize::MAX,
            },
        decreases projs@.len() - from,
    {
        let ghost rest = projs@.skip(from as int);
        if from == projs.len() {
            return Some(0);
        }
        assert(rest[0] == projs@[from as int]);
        assert(rest.drop_first() =~= projs@.skip(from + 1));
        assert(children_below(self@, self@[ty.index as int], ty.index as int));
        let node = self.ty(ty);
        assert(self@[ty.index as int] == NodeModel::Ty(node.kind@));
        match &node.kind {
            TyKind::Tuple(tuple) => {
                let at: usize = projs[from];
                let inner = tuple.0[at].1;
                assert(self.ty_tree(ty)->Tuple_0[at as int] == (
                    tuple.0@[at as int].0,
                    self.ty_tree(inner),
                ));
                let before = match self.fields_width(ty, at) {
                    Some(before) => before,
                    None => {
                        return None;
                    },
                };
                let within = match self.offset(inner, projs, from + 1) {
                    Some(within) => within,
                    None => {
                        return None;
                    },
                };
                before.checked_add(within)
            },
            _ => {
                proof {
                    assert(false);
                }
                vstd::pervasive::unreached()
            },
        }
    }
}

/// More fields open no fewer quantifiers.
pub proof fn lemma_fields_width_grows(fields: Seq<(Field, TyTree)>, m: nat, n: nat)
    requires
        m <= n <= fields.len(),
    ensures
        fields_width(fields, m) <= fields_width(fields, n),
    decreases n,
{
    if m < n {
        lemma_fields_width_grows(fields, m, (n - 1) as nat);
    }
}

/// Once a variable fails to resolve, the whole list fails with its error.
pub proof fn lemma_compile_args_error_stays(
    names: Seq<BindingModel>,
    nu: Option<usize>,
    vars: Seq<Var>,
    n: int,
)
    requires
        0 <= n <= vars.len(),
        compile_args(names, nu, vars.take(n)) is Err,
    ensures
        compile_args(names, nu, vars) == compile_args(names, nu, vars.take(n)),
    decreases vars.len() - n,
{
    if n == vars.len() {
        assert(vars.take(n) =~= vars);
    } else {
        assert(vars.take(n + 1).drop_last() =~= vars.take(n));
        lemma_compile_args_error_stays(names, nu, vars, n + 1);
    }
}

} // verus!
