//! Renaming of the ghost variables that the references of a type point at.
//!
//! A type that was written in one scope names the cells of its references
//! by the ghost variables of that scope. To be read in another, the
//! references must name the ghost variables that stand for those cells
//! there.

use crate::ty::context::{
    acyclic, admits, children_below, field_refs, is_ty, lemma_interned_extends,
    lemma_pred_fields_stable, well_formed, TyCtxt,
};
use crate::ty::make::{extends, lemma_extends_refl, lemma_extends_trans, lemma_handles_stable};
use crate::ty::tree::{lemma_ty_tree_stable, ty_tree, TyTree};
use crate::ty::{
    Field, GhostVar, NodeModel, RefineModel, Tuple, Ty, TyKind, TyModel,
};
use vstd::prelude::*;

verus! {

/// The ghost variable that stands for `var`: that of the last entry for it,
/// and `var` itself where there is none.
pub open spec fn rename(renaming: Seq<(GhostVar, GhostVar)>, var: GhostVar) -> GhostVar
    decreases renaming.len(),
{
    if renaming.len() == 0 {
        var
    } else if renaming.last().0 == var {
        renaming.last().1
    } else {
        rename(renaming.drop_last(), var)
    }
}

/// The type in which every reference points at the ghost variable that
/// stands for the one it pointed at. Refinements are left as they are.
pub open spec fn rename_pointees(ty: TyTree, renaming: Seq<(GhostVar, GhostVar)>) -> TyTree
    decreases ty,
{
    match ty {
        TyTree::Tuple(fields) => TyTree::Tuple(
            Seq::new(
                fields.len(),
                |k: int|
                    if 0 <= k < fields.len() {
                        (fields[k].0, rename_pointees(fields[k].1, renaming))
                    } else {
                        arbitrary()
                    },
            ),
        ),
        TyTree::Ref(kind, region, pointee) => TyTree::Ref(kind, region, rename(renaming, pointee)),
        _ => ty,
    }
}

/// The ghost variable that stands for `var`.
pub fn renamed(renaming: &Vec<(GhostVar, GhostVar)>, var: GhostVar) -> (to: GhostVar)
    ensures
        to == rename(renaming@, var),
{
    let mut i: usize = renaming.len();
    assert(renaming@.take(i as int) =~= renaming@);
    while i > 0
        invariant
            i <= renaming.len(),
            rename(renaming@, var) == rename(renaming@.take(i as int), var),
        decreases i,
    {
        i = i - 1;
        assert(renaming@.take(i + 1).drop_last() =~= renaming@.take(i as int));
        if renaming[i].0 == var {
            return renaming[i].1;
        }
    }
    var
}

impl TyCtxt {
    /// Interns the type in which every reference of `ty` points at the
    /// ghost variable that stands for the one it pointed at. A refined base
    /// type is its own renaming.
    pub fn rename_pointees(&mut self, ty: Ty, renaming: &Vec<(GhostVar, GhostVar)>) -> (made: Ty)
        requires
            old(self).wf(),
            old(self).has_ty(ty),
        ensures
            final(self).wf(),
            extends(old(self)@, final(self)@),
            final(self).next_ghost() == old(self).next_ghost(),
            final(self).has_ty(made),
            final(self).ty_tree(made) == rename_pointees(old(self).ty_tree(ty), renaming@),
            old(self).ty_tree(ty) is Refined ==> made == ty,
        decreases ty.index, 1nat,
    {
        let ghost t0 = self@;
        proof {
            lemma_extends_refl(t0);
            assert(children_below(t0, t0[ty.index as int], ty.index as int));
        }
        let node = self.ty(ty);
        assert(t0[ty.index as int] == NodeModel::Ty(node.kind@));
        match &node.kind {
            TyKind::Refined(_, _) => ty,
            TyKind::Uninit(_) => ty,
            TyKind::Ref(kind, region, pointee) => {
                let kind = *kind;
                let region = region.duplicate();
                let to = renamed(renaming, *pointee);
                let made_kind = TyKind::Ref(kind, region, to);
                proof {
                    lemma_interned_extends(t0, NodeModel::Ty(made_kind@));
                }
                match self.mk_ty(made_kind) {
                    Some(made) => made,
                    None => {
                        proof {
                            assert(false);
                        }
                        vstd::pervasive::unreached()
                    },
                }
            },
            TyKind::Tuple(tuple) => {
                let fields = tuple.iter();
                self.rename_fields(ty, fields, renaming)
            },
        }
    }

    /// Interns the tuple of the given fields, which are those of the tuple
    /// `of`, with the references of every field renamed.
    fn rename_fields(
        &mut self,
        of: Ty,
        fields: Vec<(Field, Ty)>,
        renaming: &Vec<(GhostVar, GhostVar)>,
    ) -> (made: Ty)
        requires
            old(self).wf(),
            old(self).has_ty(of),
            old(self)@[of.index as int] == NodeModel::Ty(TyModel::Tuple(fields@)),
        ensures
            final(self).wf(),
            extends(old(self)@, final(self)@),
            final(self).next_ghost() == old(self).next_ghost(),
            final(self).has_ty(made),
            final(self).ty_tree(made) == rename_pointees(old(self).ty_tree(of), renaming@),
        decreases of.index, 0nat,
    {
        let ghost t0 = self@;
        let ghost trees = ty_tree(t0, of.index as int)->Tuple_0;
        proof {
            lemma_extends_refl(t0);
            assert(children_below(t0, t0[of.index as int], of.index as int));
        }
        let mut made: Vec<(Field, Ty)> = Vec::new();
        let mut i: usize = 0;
        while i < fields.len()
            invariant
                i <= fields.len(),
                self.wf(),
                well_formed(t0),
                t0 == old(self)@,
                extends(t0, self@),
                self.next_ghost() == old(self).next_ghost(),
                of.index < t0.len(),
                t0[of.index as int] == NodeModel::Ty(TyModel::Tuple(fields@)),
                trees == ty_tree(t0, of.index as int)->Tuple_0,
                trees.len() == fields@.len(),
                forall|k: int|
                    0 <= k < fields@.len() ==> is_ty(t0, (#[trigger] fields@[k]).1, of.index as int)
                        && trees[k] == (fields@[k].0, ty_tree(t0, fields@[k].1.index as int)),
                made@.len() == i,
                forall|k: int|
                    0 <= k < i ==> {
                        &&& (#[trigger] made@[k]).0 == fields@[k].0
                        &&& self.has_ty(made@[k].1)
                        &&& self.ty_tree(made@[k].1) == rename_pointees(trees[k].1, renaming@)
                        &&& (trees[k].1 is Refined ==> made@[k].1 == fields@[k].1)
                    },
            decreases fields.len() - i,
        {
            let ghost t1 = self@;
            let ghost so_far = made@;
            let field = fields[i].0;
            let inner = fields[i].1;
            proof {
                assert(is_ty(t0, fields@[i as int].1, of.index as int));
                lemma_handles_stable(t0, t1, inner.index as int);
                lemma_ty_tree_stable(t0, t1, inner.index as int);
            }
            let renamed_inner = self.rename_pointees(inner, renaming);
            made.push((field, renamed_inner));
            proof {
                lemma_extends_trans(t0, t1, self@);
                assert forall|k: int| 0 <= k < i + 1 implies {
                    &&& (#[trigger] made@[k]).0 == fields@[k].0
                    &&& self.has_ty(made@[k].1)
                    &&& self.ty_tree(made@[k].1) == rename_pointees(trees[k].1, renaming@)
                    &&& (trees[k].1 is Refined ==> made@[k].1 == fields@[k].1)
                } by {
                    if k < i {
                        assert(made@[k] == so_far[k]);
                        lemma_handles_stable(t1, self@, so_far[k].1.index as int);
                        lemma_ty_tree_stable(t1, self@, so_far[k].1.index as int);
                    }
                }
            }
            i = i + 1;
        }
        let ghost t2 = self@;
        let ghost made_fields = made@;
        proof {
            assert(acyclic(t0, fields@));
            assert forall|k: int| 0 <= k < made_fields.len() implies is_ty(
                t2,
                (#[trigger] made_fields[k]).1,
                t2.len() as int,
            ) by {}
            assert forall|k: int, field: Field|
                0 <= k < made_fields.len() && #[trigger] field_refs(t2, made_fields[k].1).contains(
                    field,
                ) implies field.0 < made_fields[k].0.0 by {
                let handle = made_fields[k].1;
                assert(self.ty_tree(handle) == rename_pointees(trees[k].1, renaming@));
                assert(children_below(t2, t2[handle.index as int], handle.index as int));
                match t2[handle.index as int] {
                    NodeModel::Ty(TyModel::Refined(_, refine)) => {
                        assert(trees[k].1 is Refined);
                        assert(handle == fields@[k].1);
                        lemma_handles_stable(t0, t2, handle.index as int);
                        match refine {
                            RefineModel::Pred(pred) => {
                                assert(children_below(
                                    t0,
                                    t0[handle.index as int],
                                    handle.index as int,
                                ));
                                lemma_pred_fields_stable(t0, t2, pred.index as int);
                            },
                            RefineModel::Infer(_) => {},
                        }
                        assert(field_refs(t0, fields@[k].1).contains(field));
                    },
                    _ => {},
                }
            }
            assert(admits(t2, NodeModel::Ty(TyModel::Tuple(made_fields))));
            lemma_interned_extends(t2, NodeModel::Ty(TyModel::Tuple(made_fields)));
        }
        let result = match self.mk_ty(TyKind::Tuple(Tuple(made))) {
            Some(result) => result,
            None => {
                proof {
                    assert(false);
                }
                vstd::pervasive::unreached()
            },
        };
        proof {
            lemma_extends_trans(t0, t2, self@);
            let expected = rename_pointees(ty_tree(t0, of.index as int), renaming@)->Tuple_0;
            let got = self.ty_tree(result)->Tuple_0;
            assert(children_below(self@, self@[result.index as int], result.index as int));
            assert(got.len() == expected.len());
            assert forall|k: int| 0 <= k < got.len() implies got[k] == expected[k] by {
                lemma_ty_tree_stable(t2, self@, made_fields[k].1.index as int);
            }
            assert(got =~= expected);
        }
        result
    }
}

} // verus!
