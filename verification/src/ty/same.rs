//! Structural equality of the parts of types and predicates.

use crate::ty::{Field, Kvar, Node, Path, PredKind, Refine, Region, RegionModel, Tuple, Ty, TyKind, Var};
use vstd::prelude::*;

verus! {

/// Whether two lists of positions are equal.
pub fn same_projs(a: &Vec<usize>, b: &Vec<usize>) -> (same: bool)
    ensures
        same == (a@ == b@),
{
    if a.len() != b.len() {
        return false;
    }
    let mut i: usize = 0;
    while i < a.len()
        invariant
            i <= a.len(),
            a.len() == b.len(),
            a@.take(i as int) == b@.take(i as int),
        decreases a.len() - i,
    {
        if a[i] != b[i] {
            assert(a@[i as int] != b@[i as int]);
            return false;
        }
        assert(a@.take(i + 1) =~= a@.take(i as int).push(a@[i as int]));
        assert(b@.take(i + 1) =~= b@.take(i as int).push(b@[i as int]));
        i = i + 1;
    }
    assert(a@.take(a.len() as int) =~= a@);
    assert(b@.take(b.len() as int) =~= b@);
    true
}

/// Whether two lists of variables are equal.
pub fn same_vars(a: &Vec<Var>, b: &Vec<Var>) -> (same: bool)
    ensures
        same == (a@ == b@),
{
    if a.len() != b.len() {
        return false;
    }
    let mut i: usize = 0;
    while i < a.len()
        invariant
            i <= a.len(),
            a.len() == b.len(),
            a@.take(i as int) == b@.take(i as int),
        decreases a.len() - i,
    {
        if a[i] != b[i] {
            assert(a@[i as int] != b@[i as int]);
            return false;
        }
        assert(a@.take(i + 1) =~= a@.take(i as int).push(a@[i as int]));
        assert(b@.take(i + 1) =~= b@.take(i as int).push(b@[i as int]));
        i = i + 1;
    }
    assert(a@.take(a.len() as int) =~= a@);
    assert(b@.take(b.len() as int) =~= b@);
    true
}

/// Whether two lists of fields are equal.
pub fn same_fields(a: &Vec<(Field, Ty)>, b: &Vec<(Field, Ty)>) -> (same: bool)
    ensures
        same == (a@ == b@),
{
    if a.len() != b.len() {
        return false;
    }
    let mut i: usize = 0;
    while i < a.len()
        invariant
            i <= a.len(),
            a.len() == b.len(),
            a@.take(i as int) == b@.take(i as int),
        decreases a.len() - i,
    {
        if a[i].0 != b[i].0 || a[i].1 != b[i].1 {
            assert(a@[i as int] != b@[i as int]);
            return false;
        }
        assert(a@.take(i + 1) =~= a@.take(i as int).push(a@[i as int]));
        assert(b@.take(i + 1) =~= b@.take(i as int).push(b@[i as int]));
        i = i + 1;
    }
    assert(a@.take(a.len() as int) =~= a@);
    assert(b@.take(b.len() as int) =~= b@);
    true
}

impl Path {
    /// Whether two paths are the same path.
    pub fn same(&self, other: &Path) -> (same: bool)
        ensures
            same == (self@ == other@),
    {
        self.base == other.base && same_projs(&self.projs, &other.projs)
    }
}

impl Kvar {
    /// Whether two unknown refinements have the same name and variables.
    pub fn same(&self, other: &Kvar) -> (same: bool)
        ensures
            same == (self@ == other@),
    {
        self.id == other.id && same_vars(&self.vars, &other.vars)
    }
}

impl Refine {
    /// Whether two refinements have the same structure.
    pub fn same(&self, other: &Refine) -> (same: bool)
        ensures
            same == (self@ == other@),
    {
        match (self, other) {
            (Refine::Infer(a), Refine::Infer(b)) => a.same(b),
            (Refine::Pred(a), Refine::Pred(b)) => *a == *b,
            _ => false,
        }
    }
}

impl Region {
    /// Whether two regions have the same structure: concrete regions must
    /// list the same places in the same order.
    pub fn same(&self, other: &Region) -> (same: bool)
        ensures
            same == (self@ == other@),
    {
        match (self, other) {
            (Region::Concrete(a), Region::Concrete(b)) => {
                if a.len() != b.len() {
                    assert(self@->Concrete_0.len() != other@->Concrete_0.len());
                    return false;
                }
                let mut i: usize = 0;
                while i < a.len()
                    invariant
                        i <= a.len(),
                        a.len() == b.len(),
                        self@ == RegionModel::Concrete(Seq::new(a.len() as nat, |k: int| a[k]@)),
                        other@ == RegionModel::Concrete(Seq::new(b.len() as nat, |k: int| b[k]@)),
                        forall|k: int| 0 <= k < i ==> a[k]@ == b[k]@,
                    decreases a.len() - i,
                {
                    if !a[i].same(&b[i]) {
                        assert(self@->Concrete_0[i as int] != other@->Concrete_0[i as int]);
                        return false;
                    }
                    i = i + 1;
                }
                assert(self@->Concrete_0 =~= other@->Concrete_0);
                true
            },
            (Region::Abstract(a), Region::Abstract(b)) => *a == *b,
            (Region::Infer(a), Region::Infer(b)) => *a == *b,
            _ => false,
        }
    }
}

impl Tuple {
    /// Whether two tuples have the same fields with the same types.
    pub fn same(&self, other: &Tuple) -> (same: bool)
        ensures
            same == (self@ == other@),
    {
        same_fields(&self.0, &other.0)
    }
}

impl TyKind {
    /// Whether two types have the same structure.
    pub fn same(&self, other: &TyKind) -> (same: bool)
        ensures
            same == (self@ == other@),
    {
        match (self, other) {
            (TyKind::Refined(b1, r1), TyKind::Refined(b2, r2)) => *b1 == *b2 && r1.same(r2),
            (TyKind::Tuple(t1), TyKind::Tuple(t2)) => t1.same(t2),
            (TyKind::Ref(k1, r1, g1), TyKind::Ref(k2, r2, g2)) => *k1 == *k2 && *g1 == *g2
                && r1.same(r2),
            (TyKind::Uninit(n1), TyKind::Uninit(n2)) => *n1 == *n2,
            _ => false,
        }
    }
}

impl PredKind {
    /// Whether two predicates have the same structure.
    pub fn same(&self, other: &PredKind) -> (same: bool)
        ensures
            same == (self@ == other@),
    {
        match (self, other) {
            (PredKind::Path(a), PredKind::Path(b)) => a.same(b),
            (PredKind::BinaryOp(o1, l1, r1), PredKind::BinaryOp(o2, l2, r2)) => *o1 == *o2
                && *l1 == *l2 && *r1 == *r2,
            (PredKind::UnaryOp(o1, a), PredKind::UnaryOp(o2, b)) => *o1 == *o2 && *a == *b,
            (PredKind::Const(c1), PredKind::Const(c2)) => *c1 == *c2,
            _ => false,
        }
    }
}

impl Node {
    /// Whether two nodes have the same structure.
    pub fn same(&self, other: &Node) -> (same: bool)
        ensures
            same == (self@ == other@),
    {
        match (self, other) {
            (Node::Ty(a), Node::Ty(b)) => a.kind.same(&b.kind),
            (Node::Pred(a), Node::Pred(b)) => a.kind.same(&b.kind),
            _ => false,
        }
    }
}

} // verus!
