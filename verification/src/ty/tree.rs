//! Types and predicates as trees: what a handle stands for, written out in
//! full.

use crate::fixpoint::constraint::KVid;
use crate::mir::Constant;
use crate::ty::context::{children_below, is_pred, is_ty, well_formed};
use crate::ty::{
    BaseTy, BinOp, BorrowKind, Field, GhostVar, KvarModel, NodeModel, PathModel, Pred, PredModel,
    RefineModel, RegionModel, Ty, TyModel, UnOp, Var,
};
use vstd::prelude::*;

verus! {

/// A predicate written out in full.
pub enum PredTree {
    Path(PathModel),
    BinaryOp(BinOp, Box<PredTree>, Box<PredTree>),
    UnaryOp(UnOp, Box<PredTree>),
    Const(Constant),
}

/// A refinement written out in full.
pub enum RefineTree {
    Infer(KvarModel),
    Pred(PredTree),
}

/// A type written out in full.
pub enum TyTree {
    Refined(BaseTy, RefineTree),
    Tuple(Seq<(Field, TyTree)>),
    Ref(BorrowKind, RegionModel, GhostVar),
    Uninit(usize),
}

/// The predicate that the handle at place `at` stands for.
pub open spec fn pred_tree(nodes: Seq<NodeModel>, at: int) -> PredTree
    decreases at,
{
    if 0 <= at < nodes.len() {
        match nodes[at] {
            NodeModel::Pred(PredModel::Path(path)) => PredTree::Path(path),
            NodeModel::Pred(PredModel::BinaryOp(op, left, right)) => if left.index < at
                && right.index < at {
                PredTree::BinaryOp(
                    op,
                    Box::new(pred_tree(nodes, left.index as int)),
                    Box::new(pred_tree(nodes, right.index as int)),
                )
            } else {
                arbitrary()
            },
            NodeModel::Pred(PredModel::UnaryOp(op, operand)) => if operand.index < at {
                PredTree::UnaryOp(op, Box::new(pred_tree(nodes, operand.index as int)))
            } else {
                arbitrary()
            },
            NodeModel::Pred(PredModel::Const(constant)) => PredTree::Const(constant),
            NodeModel::Ty(_) => arbitrary(),
        }
    } else {
        arbitrary()
    }
}

/// The refinement that `refine` stands for.
pub open spec fn refine_tree(nodes: Seq<NodeModel>, refine: RefineModel) -> RefineTree {
    match refine {
        RefineModel::Infer(kvar) => RefineTree::Infer(kvar),
        RefineModel::Pred(pred) => RefineTree::Pred(pred_tree(nodes, pred.index as int)),
    }
}

/// The type that the handle at place `at` stands for.
pub open spec fn ty_tree(nodes: Seq<NodeModel>, at: int) -> TyTree
    decreases at,
{
    if 0 <= at < nodes.len() {
        match nodes[at] {
            NodeModel::Ty(TyModel::Refined(base, refine)) => TyTree::Refined(
                base,
                refine_tree(nodes, refine),
            ),
            NodeModel::Ty(TyModel::Tuple(fields)) => TyTree::Tuple(
                Seq::new(
                    fields.len(),
                    |k: int|
                        if 0 <= k < fields.len() && fields[k].1.index < at {
                            (fields[k].0, ty_tree(nodes, fields[k].1.index as int))
                        } else {
                            arbitrary()
                        },
                ),
            ),
            NodeModel::Ty(TyModel::Ref(kind, region, pointee)) => TyTree::Ref(
                kind,
                region,
                pointee,
            ),
            NodeModel::Ty(TyModel::Uninit(size)) => TyTree::Uninit(size),
            NodeModel::Pred(_) => arbitrary(),
        }
    } else {
        arbitrary()
    }
}

/// What a predicate handle stands for is the same in every table that
/// begins with the nodes up to it.
pub proof fn lemma_pred_tree_stable(nodes: Seq<NodeModel>, longer: Seq<NodeModel>, at: int)
    requires
        nodes.len() <= longer.len(),
        longer.take(nodes.len() as int) == nodes,
        0 <= at < nodes.len(),
    ensures
        pred_tree(longer, at) == pred_tree(nodes, at),
    decreases at,
{
    assert(longer[at] == longer.take(nodes.len() as int)[at]);
    match nodes[at] {
        NodeModel::Pred(PredModel::BinaryOp(_, left, right)) => {
            if left.index < at && right.index < at {
                lemma_pred_tree_stable(nodes, longer, left.index as int);
                lemma_pred_tree_stable(nodes, longer, right.index as int);
            }
        },
        NodeModel::Pred(PredModel::UnaryOp(_, operand)) => {
            if operand.index < at {
                lemma_pred_tree_stable(nodes, longer, operand.index as int);
            }
        },
        _ => {},
    }
}

/// What a type handle stands for is the same in every table that begins
/// with the nodes up to it: interning more never changes the meaning of a
/// handle.
pub proof fn lemma_ty_tree_stable(nodes: Seq<NodeModel>, longer: Seq<NodeModel>, at: int)
    requires
        well_formed(nodes),
        nodes.len() <= longer.len(),
        longer.take(nodes.len() as int) == nodes,
        0 <= at < nodes.len(),
    ensures
        ty_tree(longer, at) == ty_tree(nodes, at),
    decreases at,
{
    assert(longer[at] == longer.take(nodes.len() as int)[at]);
    assert(children_below(nodes, nodes[at], at));
    match nodes[at] {
        NodeModel::Ty(TyModel::Refined(_, RefineModel::Pred(pred))) => {
            lemma_pred_tree_stable(nodes, longer, pred.index as int);
        },
        NodeModel::Ty(TyModel::Tuple(fields)) => {
            assert forall|k: int| 0 <= k < fields.len() && fields[k].1.index < at implies ty_tree(
                longer,
                fields[k].1.index as int,
            ) == ty_tree(nodes, fields[k].1.index as int) by {
                lemma_ty_tree_stable(nodes, longer, fields[k].1.index as int);
            }
            assert(ty_tree(longer, at)->Tuple_0 =~= ty_tree(nodes, at)->Tuple_0);
        },
        _ => {},
    }
}

/// Two predicate handles of a well-formed table that stand for the same
/// predicate are the same handle.
pub proof fn lemma_pred_tree_injective(nodes: Seq<NodeModel>, a: int, b: int)
    requires
        well_formed(nodes),
        0 <= a < nodes.len(),
        0 <= b < nodes.len(),
        nodes[a] is Pred,
        nodes[b] is Pred,
        pred_tree(nodes, a) == pred_tree(nodes, b),
    ensures
        a == b,
    decreases a,
{
    assert(children_below(nodes, nodes[a], a));
    assert(children_below(nodes, nodes[b], b));
    match (nodes[a], nodes[b]) {
        (
            NodeModel::Pred(PredModel::BinaryOp(_, l1, r1)),
            NodeModel::Pred(PredModel::BinaryOp(_, l2, r2)),
        ) => {
            lemma_pred_tree_injective(nodes, l1.index as int, l2.index as int);
            lemma_pred_tree_injective(nodes, r1.index as int, r2.index as int);
        },
        (
            NodeModel::Pred(PredModel::UnaryOp(_, left)),
            NodeModel::Pred(PredModel::UnaryOp(_, right)),
        ) => {
            lemma_pred_tree_injective(nodes, left.index as int, right.index as int);
        },
        _ => {},
    }
    assert(nodes[a] == nodes[b]);
}

/// Two type handles of a well-formed table that stand for the same type
/// are the same handle: structural equality and equality of handles
/// coincide.
pub proof fn lemma_ty_tree_injective(nodes: Seq<NodeModel>, a: int, b: int)
    requires
        well_formed(nodes),
        0 <= a < nodes.len(),
        0 <= b < nodes.len(),
        nodes[a] is Ty,
        nodes[b] is Ty,
        ty_tree(nodes, a) == ty_tree(nodes, b),
    ensures
        a == b,
    decreases a,
{
    assert(children_below(nodes, nodes[a], a));
    assert(children_below(nodes, nodes[b], b));
    match (nodes[a], nodes[b]) {
        (
            NodeModel::Ty(TyModel::Refined(_, RefineModel::Pred(left))),
            NodeModel::Ty(TyModel::Refined(_, RefineModel::Pred(right))),
        ) => {
            lemma_pred_tree_injective(nodes, left.index as int, right.index as int);
        },
        (NodeModel::Ty(TyModel::Tuple(f1)), NodeModel::Ty(TyModel::Tuple(f2))) => {
            let t1 = ty_tree(nodes, a)->Tuple_0;
            let t2 = ty_tree(nodes, b)->Tuple_0;
            assert(t1.len() == f1.len());
            assert(t2.len() == f2.len());
            assert forall|k: int| 0 <= k < f1.len() implies f1[k] == f2[k] by {
                assert(is_ty(nodes, f1[k].1, a));
                assert(is_ty(nodes, f2[k].1, b));
                assert(t1[k] == (f1[k].0, ty_tree(nodes, f1[k].1.index as int)));
                assert(t2[k] == (f2[k].0, ty_tree(nodes, f2[k].1.index as int)));
                lemma_ty_tree_injective(nodes, f1[k].1.index as int, f2[k].1.index as int);
            }
            assert(f1 =~= f2);
        },
        _ => {},
    }
    assert(nodes[a] == nodes[b]);
}

} // verus!
