//! Construction of types and predicates by what they stand for.

use crate::mir::Constant;
use crate::ty::context::{
    admits, children_below, handle_of, interned, lemma_interned_extends, well_formed, TyCtxt,
};
use crate::ty::tree::{
    lemma_pred_tree_stable, lemma_ty_tree_stable, pred_tree, ty_tree, PredTree, RefineTree, TyTree,
};
use crate::ty::{
    BaseTy, BinOp, NodeModel, Path, Pred, PredKind, PredModel, Refine, Ty, TyKind, UnOp,
};
use vstd::prelude::*;

verus! {

/// Whether the table `longer` begins with the table `nodes`: every handle
/// of `nodes` is a handle of `longer` and stands for the same there.
pub open spec fn extends(nodes: Seq<NodeModel>, longer: Seq<NodeModel>) -> bool {
    nodes.len() <= longer.len() && longer.take(nodes.len() as int) == nodes
}

/// A table begins with itself.
pub proof fn lemma_extends_refl(nodes: Seq<NodeModel>)
    ensures
        extends(nodes, nodes),
{
    assert(nodes.take(nodes.len() as int) =~= nodes);
}

/// What begins with a table that begins with another begins with that
/// other.
pub proof fn lemma_extends_trans(a: Seq<NodeModel>, b: Seq<NodeModel>, c: Seq<NodeModel>)
    requires
        extends(a, b),
        extends(b, c),
    ensures
        extends(a, c),
{
    assert(c.take(a.len() as int) =~= c.take(b.len() as int).take(a.len() as int));
}

/// A handle of a table is a handle of the same kind in every table that
/// begins with it.
pub proof fn lemma_handles_stable(nodes: Seq<NodeModel>, longer: Seq<NodeModel>, index: int)
    requires
        extends(nodes, longer),
        0 <= index < nodes.len(),
    ensures
        longer[index] == nodes[index],
{
    assert(longer[index] == longer.take(nodes.len() as int)[index]);
}

impl TyCtxt {
    /// Interns the predicate that is the given path.
    pub fn mk_path(&mut self, path: Path) -> (pred: Pred)
        requires
            old(self).wf(),
        ensures
            final(self).wf(),
            extends(old(self)@, final(self)@),
            final(self).next_ghost() == old(self).next_ghost(),
            final(self).has_pred(pred),
            final(self).pred_tree(pred) == PredTree::Path(path@),
    {
        let ghost model = path@;
        proof {
            lemma_interned_extends(self@, NodeModel::Pred(PredModel::Path(model)));
        }
        match self.mk_pred(PredKind::Path(path)) {
            Some(pred) => pred,
            None => {
                proof {
                    assert(false);
                }
                vstd::pervasive::unreached()
            },
        }
    }

    /// Interns the predicate that is the given literal.
    pub fn mk_const(&mut self, constant: Constant) -> (pred: Pred)
        requires
            old(self).wf(),
        ensures
            final(self).wf(),
            extends(old(self)@, final(self)@),
            final(self).next_ghost() == old(self).next_ghost(),
            final(self).has_pred(pred),
            final(self).pred_tree(pred) == PredTree::Const(constant),
    {
        proof {
            lemma_interned_extends(self@, NodeModel::Pred(PredModel::Const(constant)));
        }
        match self.mk_pred(PredKind::Const(constant)) {
            Some(pred) => pred,
            None => {
                proof {
                    assert(false);
                }
                vstd::pervasive::unreached()
            },
        }
    }

    /// Interns the application of a binary operator to two predicates of
    /// this table.
    pub fn mk_bin_op(&mut self, op: BinOp, left: Pred, right: Pred) -> (pred: Pred)
        requires
            old(self).wf(),
            old(self).has_pred(left),
            old(self).has_pred(right),
        ensures
            final(self).wf(),
            extends(old(self)@, final(self)@),
            final(self).next_ghost() == old(self).next_ghost(),
            final(self).has_pred(pred),
            final(self).pred_tree(pred) == PredTree::BinaryOp(
                op,
                Box::new(old(self).pred_tree(left)),
                Box::new(old(self).pred_tree(right)),
            ),
    {
        proof {
            lemma_interned_extends(self@, NodeModel::Pred(PredModel::BinaryOp(op, left, right)));
        }
        match self.mk_pred(PredKind::BinaryOp(op, left, right)) {
            Some(pred) => {
                proof {
                    assert(children_below(self@, self@[pred.index as int], pred.index as int));
                    lemma_pred_tree_stable(old(self)@, self@, left.index as int);
                    lemma_pred_tree_stable(old(self)@, self@, right.index as int);
                }
                pred
            },
            None => {
                proof {
                    assert(false);
                }
                vstd::pervasive::unreached()
            },
        }
    }

    /// Interns the application of a unary operator to a predicate of this
    /// table.
    pub fn mk_un_op(&mut self, op: UnOp, operand: Pred) -> (pred: Pred)
        requires
            old(self).wf(),
            old(self).has_pred(operand),
        ensures
            final(self).wf(),
            extends(old(self)@, final(self)@),
            final(self).next_ghost() == old(self).next_ghost(),
            final(self).has_pred(pred),
            final(self).pred_tree(pred) == PredTree::UnaryOp(
                op,
                Box::new(old(self).pred_tree(operand)),
            ),
    {
        proof {
            lemma_interned_extends(self@, NodeModel::Pred(PredModel::UnaryOp(op, operand)));
        }
        match self.mk_pred(PredKind::UnaryOp(op, operand)) {
            Some(pred) => {
                proof {
                    assert(children_below(self@, self@[pred.index as int], pred.index as int));
                    lemma_pred_tree_stable(old(self)@, self@, operand.index as int);
                }
                pred
            },
            None => {
                proof {
                    assert(false);
                }
                vstd::pervasive::unreached()
            },
        }
    }

    /// Interns the base type refined by a predicate of this table.
    pub fn mk_refine(&mut self, base: BaseTy, pred: Pred) -> (ty: Ty)
        requires
            old(self).wf(),
            old(self).has_pred(pred),
        ensures
            final(self).wf(),
            extends(old(self)@, final(self)@),
            final(self).next_ghost() == old(self).next_ghost(),
            final(self).has_ty(ty),
            final(self).ty_tree(ty) == TyTree::Refined(
                base,
                RefineTree::Pred(old(self).pred_tree(pred)),
            ),
    {
        let kind = TyKind::Refined(base, Refine::Pred(pred));
        proof {
            lemma_interned_extends(self@, NodeModel::Ty(kind@));
        }
        match self.mk_ty(kind) {
            Some(ty) => {
                proof {
                    lemma_pred_tree_stable(old(self)@, self@, pred.index as int);
                }
                ty
            },
            None => {
                proof {
                    assert(false);
                }
                vstd::pervasive::unreached()
            },
        }
    }
}

} // verus!
