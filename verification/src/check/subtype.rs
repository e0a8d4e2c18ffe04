//! Compilation of subtyping judgments into constraints.
//!
//! To take a variable to have a type is to open one quantifier for each
//! integer or boolean in the type, with the refinement as its premise. To
//! require that the same variable also has another type is to state the
//! refinements of that type about the same quantified variables.

use crate::check::env::{fact_of, find_fact, heap_model, heap_valid, Fact, FactModel, TyError};
use crate::check::scope::{
    compile_refine, layers_model, level_of, lookup, names_model, sort_of, Binding, BindingModel,
    Scope, ScopeModel,
};
use crate::fixpoint::constraint as fixpoint;
use crate::fixpoint::constraint::{Constraint, Sort};
use crate::fixpoint::model::{ConstraintModel, PredModel};
use crate::ty::context::{children_below, is_ty, TyCtxt};
use crate::ty::tree::{refine_tree, ty_tree, TyTree};
use crate::check::env::{Env, EnvModel};
use crate::fixpoint::model::{all_of, falsity, models_of, truth, wrap};
use crate::mir::{Place, PlaceModel};
use crate::ty::{Field, GhostVar, NodeModel, Region, RegionModel, Ty, TyKind, TyModel, Var};
use vstd::prelude::*;

verus! {

/// The scope after the first `n` fields of a tuple have been bound, each
/// under its own name.
pub open spec fn bind_fields(scope: ScopeModel, fields: Seq<(Field, TyTree)>, n: nat) -> Result<
    ScopeModel,
    TyError,
>
    decreases fields, n,
{
    if n == 0 || n > fields.len() {
        Ok(scope)
    } else {
        match bind_fields(scope, fields, (n - 1) as nat) {
            Err(e) => Err(e),
            Ok(inner) => bind(inner, Var::Field(fields[n - 1].0), fields[n - 1].1),
        }
    }
}

/// The scope after `var` has been bound with the type `ty`.
///
/// A refined base type opens a quantifier of its sort at the next level,
/// with its refinement, stated about that level, as the premise. A tuple
/// binds its fields in order, so that the refinement of a field can name
/// the fields before it; the names of the fields go out of scope at the end
/// of the tuple. A reference and uninitialized memory open nothing. In
/// every case `var` is the innermost name afterwards.
pub open spec fn bind(scope: ScopeModel, var: Var, ty: TyTree) -> Result<ScopeModel, TyError>
    decreases ty, 0nat,
{
    let start = scope.layers.len() as usize;
    match ty {
        TyTree::Refined(base, refine) => match compile_refine(scope.names, start, refine) {
            Err(e) => Err(e),
            Ok(premise) => Ok(
                ScopeModel {
                    names: scope.names.push(BindingModel { var, ty, start }),
                    layers: scope.layers.push((sort_of(base), premise)),
                },
            ),
        },
        TyTree::Tuple(fields) => match bind_fields(scope, fields, fields.len()) {
            Err(e) => Err(e),
            Ok(inner) => Ok(
                ScopeModel {
                    names: scope.names.push(BindingModel { var, ty, start }),
                    layers: inner.layers,
                },
            ),
        },
        _ => Ok(
            ScopeModel {
                names: scope.names.push(BindingModel { var, ty, start }),
                layers: scope.layers,
            },
        ),
    }
}

impl Scope {
    /// Binds `var` with the type `ty`.
    pub fn bind(&mut self, tcx: &TyCtxt, var: Var, ty: Ty) -> (done: Result<(), TyError>)
        requires
            tcx.wf(),
            old(self).valid(tcx@),
            tcx.has_ty(ty),
        ensures
            match (done, bind(old(self).model(tcx@), var, tcx.ty_tree(ty))) {
                (Ok(()), Ok(scope)) => {
                    &&& final(self).valid(tcx@)
                    &&& final(self).model(tcx@) == scope
                    &&& final(self).names@ == old(self).names@.push(
                        Binding { var, ty, start: old(self).layers@.len() as usize },
                    )
                },
                (Err(e), Err(expected)) => e == expected,
                _ => false,
            },
        decreases ty.index,
    {
        assert(children_below(tcx@, tcx@[ty.index as int], ty.index as int));
        let node = tcx.ty(ty);
        assert(tcx@[ty.index as int] == NodeModel::Ty(node.kind@));
        let start: usize = self.layers.len();
        let ghost before = self.model(tcx@);
        match &node.kind {
            TyKind::Refined(base, refine) => {
                let premise = match self.compile_refine(tcx, start, refine) {
                    Ok(premise) => premise,
                    Err(e) => {
                        return Err(e);
                    },
                };
                self.names.push(Binding { var, ty, start });
                self.layers.push((base.sort(), premise));
                proof {
                    let expected = bind(before, var, tcx.ty_tree(ty)).unwrap();
                    assert(self.model(tcx@).names =~= expected.names);
                    assert(self.model(tcx@).layers =~= expected.layers);
                }
                Ok(())
            },
            TyKind::Tuple(tuple) => {
                let mark: usize = self.names.len();
                let ghost fields = tcx.ty_tree(ty)->Tuple_0;
                let mut i: usize = 0;
                while i < tuple.0.len()
                    invariant
                        i <= tuple.0.len(),
                        tcx.wf(),
                        self.valid(tcx@),
                        before == old(self).model(tcx@),
                        mark == old(self).names@.len(),
                        mark <= self.names@.len(),
                        self.names@.take(mark as int) == old(self).names@,
                        fields.len() == tuple.0.len(),
                        tcx.ty_tree(ty) == TyTree::Tuple(fields),
                        forall|k: int|
                            0 <= k < tuple.0.len() ==> (#[trigger] tuple.0@[k]).1.index < ty.index
                                && tcx.has_ty(tuple.0@[k].1) && fields[k] == (
                                tuple.0@[k].0,
                                tcx.ty_tree(tuple.0@[k].1),
                            ),
                        bind_fields(before, fields, i as nat) matches Ok(scope) && scope
                            == self.model(tcx@),
                    decreases tuple.0.len() - i,
                {
                    let field = tuple.0[i].0;
                    let inner = tuple.0[i].1;
                    assert(fields[i as int] == (field, tcx.ty_tree(inner)));
                    let ghost names_before = self.names@;
                    let ghost scope_before = self.model(tcx@);
                    match self.bind(tcx, Var::Field(field), inner) {
                        Ok(()) => {},
                        Err(e) => {
                            proof {
                                assert(bind_fields(before, fields, (i + 1) as nat) == bind(
                                    scope_before,
                                    Var::Field(field),
                                    tcx.ty_tree(inner),
                                ));
                                lemma_bind_fields_error_stays(before, fields, i + 1);
                            }
                            return Err(e);
                        },
                    }
                    proof {
                        assert(self.names@.take(mark as int) =~= names_before.take(mark as int));
                    }
                    i = i + 1;
                }
                self.names.truncate(mark);
                self.names.push(Binding { var, ty, start });
                proof {
                    let expected = bind(before, var, tcx.ty_tree(ty)).unwrap();
                    assert(self.names@ =~= old(self).names@.push(Binding { var, ty, start }));
                    assert(self.model(tcx@).names =~= expected.names);
                    assert(self.model(tcx@).layers =~= expected.layers);
                }
                Ok(())
            },
            _ => {
                self.names.push(Binding { var, ty, start });
                proof {
                    let expected = bind(before, var, tcx.ty_tree(ty)).unwrap();
                    assert(self.model(tcx@).names =~= expected.names);
                    assert(self.model(tcx@).layers =~= expected.layers);
                }
                Ok(())
            },
        }
    }
}

/// Once a field fails to bind, the tuple fails with its error.
pub proof fn lemma_bind_fields_error_stays(
    scope: ScopeModel,
    fields: Seq<(Field, TyTree)>,
    n: int,
)
    requires
        0 <= n <= fields.len(),
        bind_fields(scope, fields, n as nat) is Err,
    ensures
        bind_fields(scope, fields, fields.len()) == bind_fields(scope, fields, n as nat),
    decreases fields.len() - n,
{
    if n < fields.len() {
        lemma_bind_fields_error_stays(scope, fields, n + 1);
    }
}

/// Whether every place that the first region may point into is one that
/// the second may point into. Regions that are not both concrete are
/// contained in one another only if they are the same region.
pub open spec fn contained(sub: RegionModel, sup: RegionModel) -> bool {
    match sub {
        RegionModel::Concrete(a) => sup is Concrete && all_among(a, sup->Concrete_0),
        RegionModel::Abstract(a) => sup == RegionModel::Abstract(a),
        RegionModel::Infer(a) => sup == RegionModel::Infer(a),
    }
}

/// Whether every one of the first places is one of the second.
pub open spec fn all_among(a: Seq<PlaceModel>, b: Seq<PlaceModel>) -> bool {
    forall|i: int| 0 <= i < a.len() ==> b.contains(#[trigger] a[i])
}

/// Whether a place is among the given places.
pub fn has_place(places: &Vec<Place>, place: &Place) -> (found: bool)
    ensures
        found == Seq::new(places.len() as nat, |k: int| places[k]@).contains(place@),
{
    let ghost all = Seq::new(places.len() as nat, |k: int| places[k]@);
    let mut i: usize = 0;
    while i < places.len()
        invariant
            i <= places.len(),
            all == Seq::new(places.len() as nat, |k: int| places[k]@),
            forall|k: int| 0 <= k < i ==> all[k] != place@,
        decreases places.len() - i,
    {
        if places[i].same(place) {
            assert(all[i as int] == place@);
            return true;
        }
        i = i + 1;
    }
    false
}

impl Region {
    /// Whether this region is contained in `sup`.
    pub fn contained_in(&self, sup: &Region) -> (inside: bool)
        ensures
            inside == contained(self@, sup@),
    {
        match (self, sup) {
            (Region::Concrete(a), Region::Concrete(b)) => {
                let ghost sub = self@->Concrete_0;
                let ghost all = sup@->Concrete_0;
                let mut i: usize = 0;
                while i < a.len()
                    invariant
                        i <= a.len(),
                        self@ == RegionModel::Concrete(sub),
                        sup@ == RegionModel::Concrete(all),
                        sub.len() == a.len(),
                        sub == Seq::new(a.len() as nat, |k: int| a[k]@),
                        all == Seq::new(b.len() as nat, |k: int| b[k]@),
                        forall|k: int| 0 <= k < i ==> all.contains(#[trigger] sub[k]),
                    decreases a.len() - i,
                {
                    if !has_place(b, &a[i]) {
                        assert(sub[i as int] == a[i as int]@);
                        assert(!all.contains(sub[i as int]));
                        assert(!all_among(sub, all));
                        return false;
                    }
                    i = i + 1;
                }
                true
            },
            (Region::Abstract(a), Region::Abstract(b)) => *a == *b,
            (Region::Infer(a), Region::Infer(b)) => *a == *b,
            _ => false,
        }
    }
}

/// What the first `n` fields of a tuple owe to the fields of another: the
/// names in scope afterwards, the obligations, and the level after the last
/// quantifier of the fields.
pub open spec fn oblige_fields(
    names: Seq<BindingModel>,
    heap: Seq<FactModel>,
    fuel: nat,
    actual: Seq<(Field, TyTree)>,
    start: usize,
    target: Seq<(Field, TyTree)>,
    n: nat,
) -> Result<(Seq<BindingModel>, Seq<ConstraintModel>, usize), TyError>
    decreases fuel, target, n,
{
    if n == 0 || n > target.len() || n > actual.len() {
        Ok((names, Seq::empty(), start))
    } else {
        match oblige_fields(names, heap, fuel, actual, start, target, (n - 1) as nat) {
            Err(e) => Err(e),
            Ok((inner, before, level)) => match oblige(
                inner,
                heap,
                fuel,
                actual[n - 1].1,
                level,
                target[n - 1].1,
            ) {
                Err(e) => Err(e),
                Ok((obligations, next)) => Ok(
                    (
                        inner.push(
                            BindingModel {
                                var: Var::Field(target[n - 1].0),
                                ty: actual[n - 1].1,
                                start: level,
                            },
                        ),
                        before + obligations,
                        next,
                    ),
                ),
            },
        }
    }
}

/// What a variable that was bound with the type `actual`, its first
/// quantifier at level `start`, owes to the type `target`: the obligations,
/// and the level after its last quantifier.
///
/// Types of different shape owe an error. A refined base type owes the
/// refinement of the target, stated about its own level. A tuple owes what
/// its fields owe, each field of the target naming the fields before it. A
/// reference owes a falsity unless its region is contained in the target's,
/// and what its pointee owes to the pointee of the target, whose type is
/// looked up in `heap` and read with the aliases of its entry in scope;
/// `fuel` bounds the references that may be followed.
/// Uninitialized memory of the same size owes nothing.
pub open spec fn oblige(
    names: Seq<BindingModel>,
    heap: Seq<FactModel>,
    fuel: nat,
    actual: TyTree,
    start: usize,
    target: TyTree,
) -> Result<(Seq<ConstraintModel>, usize), TyError>
    decreases fuel, target, 0nat,
{
    match (actual, target) {
        (TyTree::Refined(b1, _), TyTree::Refined(b2, refine)) => if b1 != b2 {
            Err(TyError::ShapeMismatch)
        } else if start == usize::MAX {
            Err(TyError::Exhausted)
        } else {
            match compile_refine(names, start, refine) {
                Err(e) => Err(e),
                Ok(conclusion) => Ok(
                    (seq![ConstraintModel::Pred(conclusion)], (start + 1) as usize),
                ),
            }
        },
        (TyTree::Tuple(fs1), TyTree::Tuple(fs2)) => if fs1.len() != fs2.len() {
            Err(TyError::ShapeMismatch)
        } else {
            match oblige_fields(names, heap, fuel, fs1, start, fs2, fs2.len()) {
                Err(e) => Err(e),
                Ok((_, obligations, next)) => Ok((obligations, next)),
            }
        },
        (TyTree::Ref(k1, r1, g1), TyTree::Ref(k2, r2, g2)) => if k1 != k2 {
            Err(TyError::ShapeMismatch)
        } else if fuel == 0 {
            Err(TyError::Cyclic)
        } else {
            match lookup(names, Var::GhostVar(g1)) {
                None => Err(TyError::UnboundVar(Var::GhostVar(g1))),
                Some(pointee) => match fact_of(heap, g2) {
                    None => Err(TyError::UnboundVar(Var::GhostVar(g2))),
                    Some(fact) => match alias_names(names, fact.aliases, fact.aliases.len()) {
                        Err(e) => Err(e),
                        Ok(extended) => match oblige(
                            extended.push(
                                BindingModel {
                                    var: Var::GhostVar(g2),
                                    ty: pointee.ty,
                                    start: pointee.start,
                                },
                            ),
                            heap,
                            (fuel - 1) as nat,
                            pointee.ty,
                            pointee.start,
                            fact.ty,
                        ) {
                            Err(e) => Err(e),
                            Ok((obligations, _)) => Ok(
                                (
                                    if contained(r1, r2) {
                                        obligations
                                    } else {
                                        seq![falsity()] + obligations
                                    },
                                    start,
                                ),
                            ),
                        },
                    },
                },
            }
        },
        (TyTree::Uninit(n1), TyTree::Uninit(n2)) => if n1 == n2 {
            Ok((Seq::empty(), start))
        } else {
            Err(TyError::ShapeMismatch)
        },
        _ => Err(TyError::ShapeMismatch),
    }
}

/// Once a field fails, the tuple fails with its error.
pub proof fn lemma_oblige_fields_error_stays(
    names: Seq<BindingModel>,
    heap: Seq<FactModel>,
    fuel: nat,
    actual: Seq<(Field, TyTree)>,
    start: usize,
    target: Seq<(Field, TyTree)>,
    n: int,
)
    requires
        0 <= n <= target.len(),
        actual.len() == target.len(),
        oblige_fields(names, heap, fuel, actual, start, target, n as nat) is Err,
    ensures
        oblige_fields(names, heap, fuel, actual, start, target, target.len()) == oblige_fields(
            names,
            heap,
            fuel,
            actual,
            start,
            target,
            n as nat,
        ),
    decreases target.len() - n,
{
    if n < target.len() {
        lemma_oblige_fields_error_stays(names, heap, fuel, actual, start, target, n + 1);
    }
}

impl Scope {
    /// Adds to `out` what a variable that was bound with the type `actual`,
    /// its first quantifier at level `start`, owes to the type `target`,
    /// and returns the level after its last quantifier. The scope is the
    /// same afterwards as before.
    pub fn oblige(
        &mut self,
        tcx: &TyCtxt,
        heap: &Vec<Fact>,
        fuel: usize,
        actual: Ty,
        start: usize,
        target: Ty,
        out: &mut Vec<Constraint>,
    ) -> (done: Result<usize, TyError>)
        requires
            tcx.wf(),
            old(self).valid(tcx@),
            heap_valid(heap@, tcx@),
            tcx.has_ty(actual),
            tcx.has_ty(target),
        ensures
            match (
                done,
                oblige(
                    names_model(old(self).names@, tcx@),
                    heap_model(heap@, tcx@),
                    fuel as nat,
                    tcx.ty_tree(actual),
                    start,
                    tcx.ty_tree(target),
                ),
            ) {
                (Ok(next), Ok((obligations, expected))) => {
                    &&& next == expected
                    &&& final(self).names@ == old(self).names@
                    &&& final(self).layers@ == old(self).layers@
                    &&& models_of(final(out)@) == models_of(old(out)@) + obligations
                },
                (Err(e), Err(expected)) => e == expected,
                _ => false,
            },
        decreases fuel, target.index,
    {
        assert(children_below(tcx@, tcx@[actual.index as int], actual.index as int));
        assert(children_below(tcx@, tcx@[target.index as int], target.index as int));
        let from = tcx.ty(actual);
        let to = tcx.ty(target);
        assert(tcx@[actual.index as int] == NodeModel::Ty(from.kind@));
        assert(tcx@[target.index as int] == NodeModel::Ty(to.kind@));
        let ghost names = names_model(self.names@, tcx@);
        let ghost facts = heap_model(heap@, tcx@);
        match (&from.kind, &to.kind) {
            (TyKind::Refined(b1, _), TyKind::Refined(b2, refine)) => {
                if *b1 != *b2 {
                    return Err(TyError::ShapeMismatch);
                }
                if start == usize::MAX {
                    return Err(TyError::Exhausted);
                }
                let conclusion = match self.compile_refine(tcx, start, refine) {
                    Ok(conclusion) => conclusion,
                    Err(e) => {
                        return Err(e);
                    },
                };
                let obligation = Constraint::Pred(conclusion);
                let ghost model = obligation.model();
                out.push(obligation);
                proof {
                    assert(models_of(out@) =~= models_of(old(out)@) + seq![model]);
                }
                Ok(start + 1)
            },
            (TyKind::Tuple(t1), TyKind::Tuple(t2)) => {
                if t1.0.len() != t2.0.len() {
                    return Err(TyError::ShapeMismatch);
                }
                let ghost fs1 = tcx.ty_tree(actual)->Tuple_0;
                let ghost fs2 = tcx.ty_tree(target)->Tuple_0;
                let mark: usize = self.names.len();
                let mut level: usize = start;
                let mut i: usize = 0;
                proof {
                    assert(models_of(out@) =~= models_of(old(out)@) + Seq::<ConstraintModel>::empty());
                }
                while i < t2.0.len()
                    invariant
                        i <= t2.0.len(),
                        t1.0.len() == t2.0.len(),
                        tcx.wf(),
                        self.valid(tcx@),
                        heap_valid(heap@, tcx@),
                        names == names_model(old(self).names@, tcx@),
                        facts == heap_model(heap@, tcx@),
                        mark == old(self).names@.len(),
                        mark <= self.names@.len(),
                        self.names@.take(mark as int) == old(self).names@,
                        self.layers@ == old(self).layers@,
                        fs1.len() == t1.0.len(),
                        fs2.len() == t2.0.len(),
                        tcx.ty_tree(actual) == TyTree::Tuple(fs1),
                        tcx.ty_tree(target) == TyTree::Tuple(fs2),
                        forall|k: int|
                            0 <= k < t1.0.len() ==> tcx.has_ty((#[trigger] t1.0@[k]).1) && fs1[k]
                                == (t1.0@[k].0, tcx.ty_tree(t1.0@[k].1)),
                        forall|k: int|
                            0 <= k < t2.0.len() ==> (#[trigger] t2.0@[k]).1.index < target.index
                                && tcx.has_ty(t2.0@[k].1) && fs2[k] == (
                                t2.0@[k].0,
                                tcx.ty_tree(t2.0@[k].1),
                            ),
                        oblige_fields(names, facts, fuel as nat, fs1, start, fs2, i as nat) matches Ok(
                            (inner, obligations, next),
                        ) && inner == names_model(self.names@, tcx@) && next == level && models_of(
                            out@,
                        ) == models_of(old(out)@) + obligations,
                    decreases t2.0.len() - i,
                {
                    let field = t2.0[i].0;
                    let have = t1.0[i].1;
                    let want = t2.0[i].1;
                    assert(fs1[i as int] == (t1.0@[i as int].0, tcx.ty_tree(have)));
                    assert(fs2[i as int] == (field, tcx.ty_tree(want)));
                    let ghost names_before = self.names@;
                    let ghost so_far = oblige_fields(
                        names,
                        facts,
                        fuel as nat,
                        fs1,
                        start,
                        fs2,
                        i as nat,
                    ).unwrap();
                    let next = match self.oblige(tcx, heap, fuel, have, level, want, out) {
                        Ok(next) => next,
                        Err(e) => {
                            proof {
                                lemma_oblige_fields_error_stays(
                                    names,
                                    facts,
                                    fuel as nat,
                                    fs1,
                                    start,
                                    fs2,
                                    i + 1,
                                );
                            }
                            return Err(e);
                        },
                    };
                    self.names.push(Binding { var: Var::Field(field), ty: have, start: level });
                    proof {
                        let step = oblige(
                            so_far.0,
                            facts,
                            fuel as nat,
                            tcx.ty_tree(have),
                            level,
                            tcx.ty_tree(want),
                        ).unwrap();
                        assert(self.names@.take(mark as int) =~= names_before.take(mark as int));
                        assert(names_model(self.names@, tcx@) =~= so_far.0.push(
                            BindingModel {
                                var: Var::Field(field),
                                ty: tcx.ty_tree(have),
                                start: level,
                            },
                        ));
                        assert(models_of(out@) =~= models_of(old(out)@) + (so_far.1 + step.0));
                    }
                    level = next;
                    i = i + 1;
                }
                self.names.truncate(mark);
                assert(self.names@ =~= old(self).names@);
                Ok(level)
            },
            (TyKind::Ref(k1, r1, g1), TyKind::Ref(k2, r2, g2)) => {
                if *k1 != *k2 {
                    return Err(TyError::ShapeMismatch);
                }
                if fuel == 0 {
                    return Err(TyError::Cyclic);
                }
                let pointee = match self.lookup(tcx, Var::GhostVar(*g1)) {
                    Some(pointee) => pointee,
                    None => {
                        return Err(TyError::UnboundVar(Var::GhostVar(*g1)));
                    },
                };
                let at = match find_fact(heap, *g2, tcx) {
                    Some(at) => at,
                    None => {
                        return Err(TyError::UnboundVar(Var::GhostVar(*g2)));
                    },
                };
                let want = heap[at].ty;
                let inside = r1.contained_in(r2);
                if !inside {
                    let obligation = Constraint::Pred(
                        fixpoint::Pred::Expr(
                            fixpoint::Expr::Constant(fixpoint::Constant::Bool(false)),
                        ),
                    );
                    out.push(obligation);
                    proof {
                        assert(models_of(out@) =~= models_of(old(out)@) + seq![falsity()]);
                    }
                }
                let mark: usize = self.names.len();
                proof {
                    assert(facts[at as int] == heap@[at as int].model(tcx@));
                }
                match self.push_aliases(tcx, &heap[at].aliases) {
                    Ok(()) => {},
                    Err(e) => {
                        return Err(e);
                    },
                }
                let ghost extended = names_model(self.names@, tcx@);
                let ghost names_before = self.names@;
                self.names.push(Binding { var: Var::GhostVar(*g2), ty: pointee.ty, start: pointee.start });
                proof {
                    assert(names_model(self.names@, tcx@) =~= extended.push(
                        BindingModel {
                            var: Var::GhostVar(*g2),
                            ty: tcx.ty_tree(pointee.ty),
                            start: pointee.start,
                        },
                    ));
                    assert(self.names@.take(mark as int) =~= names_before.take(mark as int));
                }
                match self.oblige(tcx, heap, fuel - 1, pointee.ty, pointee.start, want, out) {
                    Ok(_) => {},
                    Err(e) => {
                        return Err(e);
                    },
                }
                self.names.truncate(mark);
                proof {
                    assert(self.names@ =~= old(self).names@);
                    let step = oblige(
                        extended.push(
                            BindingModel {
                                var: Var::GhostVar(*g2),
                                ty: tcx.ty_tree(pointee.ty),
                                start: pointee.start,
                            },
                        ),
                        facts,
                        (fuel - 1) as nat,
                        tcx.ty_tree(pointee.ty),
                        pointee.start,
                        tcx.ty_tree(want),
                    ).unwrap();
                    if !inside {
                        assert(models_of(out@) =~= models_of(old(out)@) + (seq![falsity()] + step.0));
                    }
                }
                Ok(start)
            },
            (TyKind::Uninit(n1), TyKind::Uninit(n2)) => {
                if *n1 == *n2 {
                    proof {
                        assert(models_of(out@) =~= models_of(old(out)@) + Seq::<ConstraintModel>::empty());
                    }
                    Ok(start)
                } else {
                    Err(TyError::ShapeMismatch)
                }
            },
            _ => Err(TyError::ShapeMismatch),
        }
    }
}

/// The names after the first `n` aliases have been added: each alias makes
/// the variable that stands for it here known under the name it has in the
/// other scope. An alias for a variable that is not in scope is an error.
pub open spec fn alias_names(
    names: Seq<BindingModel>,
    aliases: Seq<(GhostVar, GhostVar)>,
    n: nat,
) -> Result<Seq<BindingModel>, TyError>
    decreases n,
{
    if n == 0 || n > aliases.len() {
        Ok(names)
    } else {
        match alias_names(names, aliases, (n - 1) as nat) {
            Err(e) => Err(e),
            Ok(inner) => match lookup(inner, Var::GhostVar(aliases[n - 1].1)) {
                None => Err(TyError::UnboundVar(Var::GhostVar(aliases[n - 1].1))),
                Some(binding) => Ok(
                    inner.push(
                        BindingModel {
                            var: Var::GhostVar(aliases[n - 1].0),
                            ty: binding.ty,
                            start: binding.start,
                        },
                    ),
                ),
            },
        }
    }
}

/// The scope after one entry of a heap has been bound. Its aliases are in
/// scope while its type is read, and not afterwards.
pub open spec fn bind_fact(scope: ScopeModel, fact: FactModel) -> Result<ScopeModel, TyError> {
    match alias_names(scope.names, fact.aliases, fact.aliases.len()) {
        Err(e) => Err(e),
        Ok(extended) => match bind(
            ScopeModel { names: extended, layers: scope.layers },
            Var::GhostVar(fact.var),
            fact.ty,
        ) {
            Err(e) => Err(e),
            Ok(inner) => Ok(
                ScopeModel { names: scope.names.push(inner.names.last()), layers: inner.layers },
            ),
        },
    }
}

/// The scope after the first `n` entries of a heap have been bound, in
/// order.
pub open spec fn bind_heap(scope: ScopeModel, heap: Seq<FactModel>, n: nat) -> Result<
    ScopeModel,
    TyError,
>
    decreases n,
{
    if n == 0 || n > heap.len() {
        Ok(scope)
    } else {
        match bind_heap(scope, heap, (n - 1) as nat) {
            Err(e) => Err(e),
            Ok(inner) => bind_fact(inner, heap[n - 1]),
        }
    }
}

/// Once an alias fails, the list fails with its error.
pub proof fn lemma_alias_names_error_stays(
    names: Seq<BindingModel>,
    aliases: Seq<(GhostVar, GhostVar)>,
    n: int,
)
    requires
        0 <= n <= aliases.len(),
        alias_names(names, aliases, n as nat) is Err,
    ensures
        alias_names(names, aliases, aliases.len()) == alias_names(names, aliases, n as nat),
    decreases aliases.len() - n,
{
    if n < aliases.len() {
        lemma_alias_names_error_stays(names, aliases, n + 1);
    }
}

/// Once an entry fails to bind, the heap fails with its error.
pub proof fn lemma_bind_heap_error_stays(scope: ScopeModel, heap: Seq<FactModel>, n: int)
    requires
        0 <= n <= heap.len(),
        bind_heap(scope, heap, n as nat) is Err,
    ensures
        bind_heap(scope, heap, heap.len()) == bind_heap(scope, heap, n as nat),
    decreases heap.len() - n,
{
    if n < heap.len() {
        lemma_bind_heap_error_stays(scope, heap, n + 1);
    }
}

/// A quantifier added as the innermost layer wraps the body directly.
pub proof fn lemma_wrap_push(
    layers: Seq<(Sort, PredModel)>,
    layer: (Sort, PredModel),
    from: int,
    body: ConstraintModel,
)
    requires
        0 <= from <= layers.len(),
    ensures
        wrap(layers.push(layer), from, body) == wrap(
            layers,
            from,
            ConstraintModel::ForAll(layer.0, layer.1, Box::new(body)),
        ),
    decreases layers.len() - from,
{
    let pushed = layers.push(layer);
    if from < layers.len() {
        lemma_wrap_push(layers, layer, from + 1, body);
        assert(pushed[from] == layers[from]);
    } else {
        assert(pushed[from] == layer);
        assert(wrap(pushed, from + 1, body) == body);
        assert(wrap(pushed, from, body) == ConstraintModel::ForAll(
            layer.0,
            layer.1,
            Box::new(wrap(pushed, from + 1, body)),
        ));
    }
}

/// One constraint for a list of obligations.
pub fn conjoin(obligations: Vec<Constraint>) -> (all: Constraint)
    ensures
        all.model() == all_of(models_of(obligations@)),
{
    let ghost models = models_of(obligations@);
    match Constraint::join(obligations) {
        None => Constraint::truth(),
        Some(all) => {
            proof {
                if obligations@.len() > 1 {
                    assert(all.model()->Conj_0 =~= models);
                }
            }
            all
        },
    }
}

impl Scope {
    /// Adds the first aliases of a heap entry to the names.
    fn push_aliases(&mut self, tcx: &TyCtxt, aliases: &Vec<(GhostVar, GhostVar)>) -> (done: Result<
        (),
        TyError,
    >)
        requires
            tcx.wf(),
            old(self).valid(tcx@),
        ensures
            match (
                done,
                alias_names(names_model(old(self).names@, tcx@), aliases@, aliases@.len()),
            ) {
                (Ok(()), Ok(extended)) => {
                    &&& final(self).valid(tcx@)
                    &&& names_model(final(self).names@, tcx@) == extended
                    &&& final(self).layers@ == old(self).layers@
                    &&& old(self).names@.len() <= final(self).names@.len()
                    &&& final(self).names@.take(old(self).names@.len() as int) == old(
                        self,
                    ).names@
                },
                (Err(e), Err(expected)) => e == expected,
                _ => false,
            },
    {
        let ghost names = names_model(self.names@, tcx@);
        let ghost mark = self.names@.len();
        let mut i: usize = 0;
        assert(self.names@.take(mark as int) =~= self.names@);
        while i < aliases.len()
            invariant
                i <= aliases.len(),
                tcx.wf(),
                self.valid(tcx@),
                names == names_model(old(self).names@, tcx@),
                mark == old(self).names@.len(),
                mark <= self.names@.len(),
                self.names@.take(mark as int) == old(self).names@,
                self.layers@ == old(self).layers@,
                alias_names(names, aliases@, i as nat) matches Ok(extended) && extended
                    == names_model(self.names@, tcx@),
            decreases aliases.len() - i,
        {
            let from = aliases[i].0;
            let to = aliases[i].1;
            let ghost names_before = self.names@;
            match self.lookup(tcx, Var::GhostVar(to)) {
                None => {
                    proof {
                        lemma_alias_names_error_stays(names, aliases@, i + 1);
                    }
                    return Err(TyError::UnboundVar(Var::GhostVar(to)));
                },
                Some(binding) => {
                    self.names.push(
                        Binding { var: Var::GhostVar(from), ty: binding.ty, start: binding.start },
                    );
                    proof {
                        assert(self.names@.take(mark as int) =~= names_before.take(mark as int));
                        assert(names_model(self.names@, tcx@) =~= names_model(
                            names_before,
                            tcx@,
                        ).push(
                            BindingModel {
                                var: Var::GhostVar(from),
                                ty: tcx.ty_tree(binding.ty),
                                start: binding.start,
                            },
                        ));
                    }
                },
            }
            i = i + 1;
        }
        Ok(())
    }

    /// Binds one entry of a heap.
    pub fn bind_fact(&mut self, tcx: &TyCtxt, fact: &Fact) -> (done: Result<(), TyError>)
        requires
            tcx.wf(),
            old(self).valid(tcx@),
            tcx.has_ty(fact.ty),
        ensures
            match (done, bind_fact(old(self).model(tcx@), fact.model(tcx@))) {
                (Ok(()), Ok(scope)) => final(self).valid(tcx@) && final(self).model(tcx@) == scope,
                (Err(e), Err(expected)) => e == expected,
                _ => false,
            },
    {
        let ghost before = self.model(tcx@);
        let mark: usize = self.names.len();
        match self.push_aliases(tcx, &fact.aliases) {
            Ok(()) => {},
            Err(e) => {
                return Err(e);
            },
        }
        let ghost extended = self.model(tcx@);
        proof {
            assert(extended.layers == before.layers);
        }
        match self.bind(tcx, Var::GhostVar(fact.var), fact.ty) {
            Ok(()) => {},
            Err(e) => {
                return Err(e);
            },
        }
        let ghost inner = self.model(tcx@);
        let last: usize = self.names.len() - 1;
        let binding = self.names[last];
        self.names.truncate(mark);
        self.names.push(binding);
        proof {
            let expected = bind_fact(before, fact.model(tcx@)).unwrap();
            assert(inner.names.last() == binding.model(tcx@));
            assert(self.model(tcx@).names =~= expected.names);
            assert(self.model(tcx@).layers =~= expected.layers);
        }
        Ok(())
    }

    /// Binds every entry of a heap, in order.
    pub fn bind_heap(&mut self, tcx: &TyCtxt, heap: &Vec<Fact>) -> (done: Result<(), TyError>)
        requires
            tcx.wf(),
            old(self).valid(tcx@),
            heap_valid(heap@, tcx@),
        ensures
            match (
                done,
                bind_heap(old(self).model(tcx@), heap_model(heap@, tcx@), heap@.len()),
            ) {
                (Ok(()), Ok(scope)) => final(self).valid(tcx@) && final(self).model(tcx@) == scope,
                (Err(e), Err(expected)) => e == expected,
                _ => false,
            },
    {
        let ghost before = self.model(tcx@);
        let ghost facts = heap_model(heap@, tcx@);
        let mut i: usize = 0;
        while i < heap.len()
            invariant
                i <= heap.len(),
                tcx.wf(),
                self.valid(tcx@),
                heap_valid(heap@, tcx@),
                before == old(self).model(tcx@),
                facts == heap_model(heap@, tcx@),
                bind_heap(before, facts, i as nat) matches Ok(scope) && scope == self.model(tcx@),
            decreases heap.len() - i,
        {
            assert(facts[i as int] == heap@[i as int].model(tcx@));
            match self.bind_fact(tcx, &heap[i]) {
                Ok(()) => {},
                Err(e) => {
                    proof {
                        lemma_bind_heap_error_stays(before, facts, i + 1);
                    }
                    return Err(e);
                },
            }
            i = i + 1;
        }
        Ok(())
    }

    /// `body` under every quantifier of the scope, outermost first.
    pub fn close(self, body: Constraint) -> (closed: Constraint)
        ensures
            closed.model() == wrap(layers_model(self.layers@), 0, body.model()),
    {
        let ghost all = layers_model(self.layers@);
        let mut layers = self.layers;
        let mut closed = body;
        proof {
            assert(all.take(all.len() as int) =~= all);
        }
        while layers.len() > 0
            invariant
                layers@.len() <= all.len(),
                layers_model(layers@) == all.take(layers@.len() as int),
                wrap(all.take(layers@.len() as int), 0, closed.model()) == wrap(
                    all,
                    0,
                    body.model(),
                ),
            decreases layers.len(),
        {
            let ghost rest = all.take(layers@.len() - 1);
            let ghost inner = closed.model();
            let ghost before = layers@;
            let layer = layers.pop().unwrap();
            proof {
                let model = (layer.0, layer.1.model());
                assert(layers_model(before)[before.len() - 1] == model);
                assert(all.take(before.len() as int) =~= rest.push(model));
                lemma_wrap_push(rest, model, 0, inner);
                assert(layers_model(layers@) =~= rest);
            }
            closed = Constraint::ForAll(layer.0, layer.1, Box::new(closed));
        }
        proof {
            assert(all.take(0) =~= Seq::<(Sort, PredModel)>::empty());
        }
        closed
    }
}

/// The scope with no name and no open quantifier.
pub open spec fn empty_scope() -> ScopeModel {
    ScopeModel { names: Seq::empty(), layers: Seq::empty() }
}

/// The constraint that holds exactly when the type `sub` is a subtype of
/// the type `sup`, both read in the environment `env`.
///
/// The ghost variables of the environment are bound in order; a variable of
/// the type `sub` is bound under the name of the refined value itself; and
/// what it owes to `sup` stands, as one constraint, under all the
/// quantifiers so opened. For two refined base types that is a quantifier
/// over the sort of the base type whose premise is the refinement of `sub`
/// and whose conclusion is the refinement of `sup`.
pub open spec fn subtype_constraint(env: EnvModel, sub: TyTree, sup: TyTree) -> Result<
    ConstraintModel,
    TyError,
> {
    match bind_heap(empty_scope(), env.heap, env.heap.len()) {
        Err(e) => Err(e),
        Ok(scope) => match bind(scope, Var::Nu, sub) {
            Err(e) => Err(e),
            Ok(inner) => match oblige(
                inner.names,
                env.heap,
                env.heap.len(),
                sub,
                scope.layers.len() as usize,
                sup,
            ) {
                Err(e) => Err(e),
                Ok((obligations, _)) => Ok(wrap(inner.layers, 0, all_of(obligations))),
            },
        },
    }
}

/// The names under which the first `n` of the given ghost variables are
/// bound.
pub open spec fn lookup_all(names: Seq<BindingModel>, vars: Seq<GhostVar>, n: nat) -> Result<
    Seq<BindingModel>,
    TyError,
>
    decreases n,
{
    if n == 0 || n > vars.len() {
        Ok(Seq::empty())
    } else {
        match lookup_all(names, vars, (n - 1) as nat) {
            Err(e) => Err(e),
            Ok(found) => match lookup(names, Var::GhostVar(vars[n - 1])) {
                None => Err(TyError::UnboundVar(Var::GhostVar(vars[n - 1]))),
                Some(binding) => Ok(found.push(binding)),
            },
        }
    }
}

/// What the first `n` of the given variables owe, each to its target.
pub open spec fn oblige_all(
    names: Seq<BindingModel>,
    heap: Seq<FactModel>,
    actuals: Seq<BindingModel>,
    targets: Seq<TyTree>,
    n: nat,
) -> Result<Seq<ConstraintModel>, TyError>
    decreases n,
{
    if n == 0 || n > actuals.len() || n > targets.len() {
        Ok(Seq::empty())
    } else {
        match oblige_all(names, heap, actuals, targets, (n - 1) as nat) {
            Err(e) => Err(e),
            Ok(before) => match oblige(
                names,
                heap,
                heap.len(),
                actuals[n - 1].ty,
                actuals[n - 1].start,
                targets[n - 1],
            ) {
                Err(e) => Err(e),
                Ok((obligations, _)) => Ok(before + obligations),
            },
        }
    }
}

/// The premise that a branch was taken: the boolean ghost variable itself
/// where it was taken on true, and its negation where it was taken on
/// false.
pub open spec fn guard_pred(names: Seq<BindingModel>, guard: (GhostVar, bool)) -> Result<
    PredModel,
    TyError,
> {
    match level_of(names, None, Var::GhostVar(guard.0)) {
        Err(e) => Err(e),
        Ok(level) => Ok(
            PredModel::Expr(
                if guard.1 {
                    fixpoint::Expr::Variable(level)
                } else {
                    fixpoint::Expr::UnaryOp(
                        fixpoint::UnOp::Not,
                        Box::new(fixpoint::Expr::Variable(level)),
                    )
                },
            ),
        ),
    }
}

/// `body` behind the premise of a branch, if there is one. The premise
/// binds no variable.
pub open spec fn guarded(
    names: Seq<BindingModel>,
    guard: Option<(GhostVar, bool)>,
    body: ConstraintModel,
) -> Result<ConstraintModel, TyError> {
    match guard {
        None => Ok(body),
        Some(guard) => match guard_pred(names, guard) {
            Err(e) => Err(e),
            Ok(premise) => Ok(ConstraintModel::Guard(premise, Box::new(body))),
        },
    }
}

/// The constraint that holds exactly when, in the environment `env`, each
/// of the ghost variables `vars` has the type that `targets` gives for it.
///
/// The targets are written in another scope: `aliases` names, for each
/// ghost variable of that scope, the one of `env` that stands for it, and
/// `heap` gives the types of the pointees of that scope. The ghost
/// variables of `env` are bound in order, and all that is owed stands, as
/// one constraint, under the quantifiers so opened: each obligation is its
/// own implication from the same premises. Where the judgment is made
/// on one side of a branch, `guard` names the boolean that was tested and
/// the side that was taken, and all that is owed stands behind that
/// premise.
#[verifier::opaque]
pub open spec fn entailment(
    env: EnvModel,
    aliases: Seq<(GhostVar, GhostVar)>,
    vars: Seq<GhostVar>,
    targets: Seq<TyTree>,
    heap: Seq<FactModel>,
    guard: Option<(GhostVar, bool)>,
) -> Result<ConstraintModel, TyError> {
    match bind_heap(empty_scope(), env.heap, env.heap.len()) {
        Err(e) => Err(e),
        Ok(scope) => match lookup_all(scope.names, vars, vars.len()) {
            Err(e) => Err(e),
            Ok(actuals) => match guarded(scope.names, guard, truth()) {
                Err(e) => Err(e),
                Ok(_) => match alias_names(scope.names, aliases, aliases.len()) {
                    Err(e) => Err(e),
                    Ok(extended) => match oblige_all(
                        extended,
                        heap,
                        actuals,
                        targets,
                        targets.len(),
                    ) {
                        Err(e) => Err(e),
                        Ok(obligations) => match guarded(scope.names, guard, all_of(obligations)) {
                            Err(e) => Err(e),
                            Ok(body) => Ok(wrap(scope.layers, 0, body)),
                        },
                    },
                },
            },
        },
    }
}

/// The trees of a list of type handles.
pub open spec fn trees_of(types: Seq<Ty>, nodes: Seq<NodeModel>) -> Seq<TyTree> {
    Seq::new(types.len(), |i: int| ty_tree(nodes, types[i].index as int))
}

/// Once a variable fails to resolve, the list fails with its error.
pub proof fn lemma_lookup_all_error_stays(names: Seq<BindingModel>, vars: Seq<GhostVar>, n: int)
    requires
        0 <= n <= vars.len(),
        lookup_all(names, vars, n as nat) is Err,
    ensures
        lookup_all(names, vars, vars.len()) == lookup_all(names, vars, n as nat),
    decreases vars.len() - n,
{
    if n < vars.len() {
        lemma_lookup_all_error_stays(names, vars, n + 1);
    }
}

/// Once a variable fails, the list fails with its error.
pub proof fn lemma_oblige_all_error_stays(
    names: Seq<BindingModel>,
    heap: Seq<FactModel>,
    actuals: Seq<BindingModel>,
    targets: Seq<TyTree>,
    n: int,
)
    requires
        0 <= n <= targets.len(),
        actuals.len() == targets.len(),
        oblige_all(names, heap, actuals, targets, n as nat) is Err,
    ensures
        oblige_all(names, heap, actuals, targets, targets.len()) == oblige_all(
            names,
            heap,
            actuals,
            targets,
            n as nat,
        ),
    decreases targets.len() - n,
{
    if n < targets.len() {
        lemma_oblige_all_error_stays(names, heap, actuals, targets, n + 1);
    }
}

/// Compiles the judgment that `sub` is a subtype of `sup` in `env`.
pub fn subtype(tcx: &TyCtxt, env: &Env, sub: Ty, sup: Ty) -> (compiled: Result<
    Constraint,
    TyError,
>)
    requires
        tcx.wf(),
        env.valid(tcx@),
        tcx.has_ty(sub),
        tcx.has_ty(sup),
    ensures
        match (
            compiled,
            subtype_constraint(env.model(tcx@), tcx.ty_tree(sub), tcx.ty_tree(sup)),
        ) {
            (Ok(constraint), Ok(expected)) => constraint.model() == expected,
            (Err(e), Err(expected)) => e == expected,
            _ => false,
        },
{
    let mut scope = Scope::new();
    proof {
        assert(scope.model(tcx@).names =~= empty_scope().names);
        assert(scope.model(tcx@).layers =~= empty_scope().layers);
    }
    match scope.bind_heap(tcx, &env.heap) {
        Ok(()) => {},
        Err(e) => {
            return Err(e);
        },
    }
    let start: usize = scope.layers.len();
    match scope.bind(tcx, Var::Nu, sub) {
        Ok(()) => {},
        Err(e) => {
            return Err(e);
        },
    }
    let mut out: Vec<Constraint> = Vec::new();
    match scope.oblige(tcx, &env.heap, env.heap.len(), sub, start, sup, &mut out) {
        Ok(_) => {},
        Err(e) => {
            return Err(e);
        },
    }
    proof {
        assert(models_of(Seq::<Constraint>::empty()) =~= Seq::<ConstraintModel>::empty());
        let obligations = oblige(
            scope.model(tcx@).names,
            heap_model(env.heap@, tcx@),
            env.heap@.len(),
            tcx.ty_tree(sub),
            start,
            tcx.ty_tree(sup),
        ).unwrap().0;
        assert(models_of(out@) =~= obligations);
    }
    Ok(scope.close(conjoin(out)))
}

/// Compiles the judgment that, in `env`, each of the ghost variables `vars`
/// has the type that `targets` gives for it.
pub fn entail(
    tcx: &TyCtxt,
    env: &Env,
    aliases: &Vec<(GhostVar, GhostVar)>,
    vars: &Vec<GhostVar>,
    targets: &Vec<Ty>,
    heap: &Vec<Fact>,
    guard: Option<(GhostVar, bool)>,
) -> (compiled: Result<Constraint, TyError>)
    requires
        tcx.wf(),
        env.valid(tcx@),
        heap_valid(heap@, tcx@),
        vars@.len() == targets@.len(),
        forall|i: int| 0 <= i < targets@.len() ==> tcx.has_ty(#[trigger] targets@[i]),
    ensures
        match (
            compiled,
            entailment(
                env.model(tcx@),
                aliases@,
                vars@,
                trees_of(targets@, tcx@),
                heap_model(heap@, tcx@),
                guard,
            ),
        ) {
            (Ok(constraint), Ok(expected)) => constraint.model() == expected,
            (Err(e), Err(expected)) => e == expected,
            _ => false,
        },
{
    proof {
        reveal(entailment);
    }
    let ghost wanted = trees_of(targets@, tcx@);
    let ghost facts = heap_model(heap@, tcx@);
    let mut scope = Scope::new();
    proof {
        assert(scope.model(tcx@).names =~= empty_scope().names);
        assert(scope.model(tcx@).layers =~= empty_scope().layers);
    }
    match scope.bind_heap(tcx, &env.heap) {
        Ok(()) => {},
        Err(e) => {
            return Err(e);
        },
    }
    let ghost bound = scope.model(tcx@);
    let mut actuals: Vec<Binding> = Vec::new();
    let mut i: usize = 0;
    while i < vars.len()
        invariant
            i <= vars.len(),
            tcx.wf(),
            scope.valid(tcx@),
            bound == scope.model(tcx@),
            actuals@.len() == i,
            vars@.len() == targets@.len(),
            bind_heap(empty_scope(), heap_model(env.heap@, tcx@), env.heap@.len()) matches Ok(
                all,
            ) && all == bound,
            forall|k: int| 0 <= k < actuals@.len() ==> tcx.has_ty((#[trigger] actuals@[k]).ty),
            lookup_all(bound.names, vars@, i as nat) matches Ok(found) && found == names_model(
                actuals@,
                tcx@,
            ),
        decreases vars.len() - i,
    {
        let ghost found_before = names_model(actuals@, tcx@);
        match scope.lookup(tcx, Var::GhostVar(vars[i])) {
            None => {
                proof {
                    reveal(entailment);
                    lemma_lookup_all_error_stays(bound.names, vars@, i + 1);
                }
                return Err(TyError::UnboundVar(Var::GhostVar(vars[i])));
            },
            Some(binding) => {
                actuals.push(binding);
                proof {
                    assert(names_model(actuals@, tcx@) =~= found_before.push(binding.model(tcx@)));
                }
            },
        }
        i = i + 1;
    }
    let premise: Option<fixpoint::Pred> = match guard {
        None => None,
        Some(tested) => match scope.level_of(tcx, None, Var::GhostVar(tested.0)) {
            Err(e) => {
                return Err(e);
            },
            Ok(level) => Some(
                fixpoint::Pred::Expr(
                    if tested.1 {
                        fixpoint::Expr::Variable(level)
                    } else {
                        fixpoint::Expr::UnaryOp(
                            fixpoint::UnOp::Not,
                            Box::new(fixpoint::Expr::Variable(level)),
                        )
                    },
                ),
            ),
        },
    };
    match scope.push_aliases(tcx, aliases) {
        Ok(()) => {},
        Err(e) => {
            return Err(e);
        },
    }
    let ghost extended = names_model(scope.names@, tcx@);
    let ghost found = names_model(actuals@, tcx@);
    let mut out: Vec<Constraint> = Vec::new();
    proof {
        assert(models_of(out@) =~= Seq::<ConstraintModel>::empty());
    }
    let mut j: usize = 0;
    while j < targets.len()
        invariant
            j <= targets.len(),
            tcx.wf(),
            scope.valid(tcx@),
            heap_valid(heap@, tcx@),
            actuals@.len() == targets@.len(),
            found == names_model(actuals@, tcx@),
            wanted == trees_of(targets@, tcx@),
            facts == heap_model(heap@, tcx@),
            extended == names_model(scope.names@, tcx@),
            layers_model(scope.layers@) == bound.layers,
            vars@.len() == targets@.len(),
            bind_heap(empty_scope(), heap_model(env.heap@, tcx@), env.heap@.len()) matches Ok(
                all,
            ) && all == bound,
            lookup_all(bound.names, vars@, vars@.len()) matches Ok(all) && all == found,
            alias_names(bound.names, aliases@, aliases@.len()) matches Ok(all) && all == extended,
            guarded(bound.names, guard, truth()) is Ok,
            match (premise, guard) {
                (Some(pred), Some(tested)) => guard_pred(bound.names, tested) matches Ok(expected)
                    && expected == pred.model(),
                (None, None) => true,
                _ => false,
            },
            forall|k: int| 0 <= k < actuals@.len() ==> tcx.has_ty((#[trigger] actuals@[k]).ty),
            forall|k: int| 0 <= k < targets@.len() ==> tcx.has_ty(#[trigger] targets@[k]),
            oblige_all(extended, facts, found, wanted, j as nat) matches Ok(obligations)
                && obligations == models_of(out@),
        decreases targets.len() - j,
    {
        let actual = actuals[j];
        assert(found[j as int] == actual.model(tcx@));
        assert(wanted[j as int] == tcx.ty_tree(targets@[j as int]));
        match scope.oblige(tcx, heap, heap.len(), actual.ty, actual.start, targets[j], &mut out) {
            Ok(_) => {},
            Err(e) => {
                proof {
                    reveal(entailment);
                    lemma_oblige_all_error_stays(extended, facts, found, wanted, j + 1);
                }
                return Err(e);
            },
        }
        j = j + 1;
    }
    let all = conjoin(out);
    let body = match premise {
        None => all,
        Some(pred) => Constraint::Guard(pred, Box::new(all)),
    };
    Ok(scope.close(body))
}

} // verus!
