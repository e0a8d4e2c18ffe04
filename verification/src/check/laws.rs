//! What holds of the engine: that subtyping is reflexive, and that
//! statements never use a ghost variable twice.

use crate::check::env::{EnvModel, TyError};
use crate::check::scope::{
    compile_args, compile_pred, compile_refine, component, fields_width, lemma_fields_width_grows,
    level_of, lookup, path_level, width, BindingModel, ScopeModel,
};
use crate::ty::PathModel;
use crate::check::bblock::run;
use crate::check::env::{fact_of, FactModel};
use crate::check::synth::{synth, used};
use crate::mir::Statement;
use crate::check::subtype::{
    alias_names, all_among, bind, bind_fact, bind_fields, bind_heap, contained, empty_scope,
    oblige, oblige_fields, subtype_constraint,
};
use crate::ty::RegionModel;
use crate::fixpoint::model::truth;
use crate::ty::GhostVar;
use crate::ty::Field;
use crate::fixpoint::constraint::{Expr, Sort};
use crate::fixpoint::model::{all_of, wrap, ConstraintModel, PredModel, Solution, Value};
use crate::ty::tree::{PredTree, RefineTree, TyTree};
use crate::ty::Var;
use vstd::prelude::*;

verus! {

/// Whether `vals` gives every quantifier of `layers` from place `from` on a
/// value of its sort that satisfies its premise, and begins with `prefix`.
pub open spec fn fits(
    layers: Seq<(Sort, PredModel)>,
    from: int,
    prefix: Seq<Value>,
    vals: Seq<Value>,
    solution: Solution,
) -> bool {
    &&& vals.len() == layers.len()
    &&& vals.take(from) == prefix
    &&& forall|i: int|
        from <= i < layers.len() ==> vals[i].has_sort((#[trigger] layers[i]).0) && layers[i].1.holds(
            vals.take(i + 1),
            solution,
        )
}

/// A body that holds of all values that satisfy the premises of the
/// quantifiers around it holds under those quantifiers.
pub proof fn lemma_wrap_holds(
    layers: Seq<(Sort, PredModel)>,
    from: int,
    body: ConstraintModel,
    prefix: Seq<Value>,
    solution: Solution,
)
    requires
        0 <= from <= layers.len(),
        prefix.len() == from,
        forall|vals: Seq<Value>| #[trigger]
            fits(layers, from, prefix, vals, solution) ==> body.holds(vals, solution),
    ensures
        wrap(layers, from, body).holds(prefix, solution),
    decreases layers.len() - from,
{
    if from == layers.len() {
        assert(prefix.take(from) =~= prefix);
        assert(fits(layers, from, prefix, prefix, solution));
    } else {
        let inner = wrap(layers, from + 1, body);
        assert forall|value: Value|
            #![trigger prefix.push(value)]
            value.has_sort(layers[from].0) && layers[from].1.holds(
                prefix.push(value),
                solution,
            ) implies inner.holds(prefix.push(value), solution) by {
            let longer = prefix.push(value);
            assert forall|vals: Seq<Value>| #[trigger]
                fits(layers, from + 1, longer, vals, solution) implies body.holds(
                vals,
                solution,
            ) by {
                assert(vals.take(from) =~= longer.take(from));
                assert(longer.take(from) =~= prefix);
                assert(vals[from] == longer[from]);
                assert(vals.take(from + 1) =~= longer);
                assert(fits(layers, from, prefix, vals, solution));
            }
            lemma_wrap_holds(layers, from + 1, body, longer, solution);
        }
    }
}

/// A name for the refined value itself hides no other name.
pub proof fn lemma_lookup_behind_nu(names: Seq<BindingModel>, binding: BindingModel, var: Var)
    requires
        binding.var == Var::Nu,
        var != Var::Nu,
    ensures
        lookup(names.push(binding), var) == lookup(names, var),
{
    assert(names.push(binding).drop_last() =~= names);
}

/// Subtyping is reflexive on refined base types: in every environment, the
/// constraint of the judgment that a refined base type is a subtype of
/// itself holds whatever the unknown predicates mean. Its conclusion is its
/// own innermost premise. This covers known and unknown refinements alike.
pub proof fn lemma_subtype_reflexive_refined(env: EnvModel, ty: TyTree)
    requires
        ty is Refined,
        subtype_constraint(env, ty, ty) is Ok,
    ensures
        subtype_constraint(env, ty, ty).unwrap().valid(),
{
    let scope = bind_heap(empty_scope(), env.heap, env.heap.len()).unwrap();
    let inner = bind(scope, Var::Nu, ty).unwrap();
    let start = scope.layers.len() as usize;
    let refine = ty->Refined_1;
    let binding = BindingModel { var: Var::Nu, ty, start };
    let premise = compile_refine(scope.names, start, refine).unwrap();
    assert(inner.names == scope.names.push(binding));
    assert(inner.layers == scope.layers.push((crate::check::scope::sort_of(ty->Refined_0), premise)));
    lemma_covers_refl(scope.names);
    lemma_covers_behind_nu(scope.names, scope.names, binding);
    lemma_covers_refine(inner.names, scope.names, start, refine);
    let owed = oblige(inner.names, env.heap, env.heap.len(), ty, start, ty).unwrap().0;
    assert(owed == seq![ConstraintModel::Pred(premise)]);
    let body = all_of(owed);
    assert(body == ConstraintModel::Pred(premise));
    let layers = inner.layers;
    let last = layers.len() - 1;
    assert(layers[last].1 == premise);
    assert forall|solution: Solution|
        subtype_constraint(env, ty, ty).unwrap().holds(Seq::empty(), solution) by {
        assert forall|vals: Seq<Value>| #[trigger]
            fits(layers, 0, Seq::empty(), vals, solution) implies body.holds(vals, solution) by {
            assert(layers[last].1.holds(vals.take(last + 1), solution));
            assert(vals.take(last + 1) =~= vals);
        }
        lemma_wrap_holds(layers, 0, body, Seq::empty(), solution);
    }
}

/// Whether `big` resolves every variable that `small` resolves, but the
/// refined value itself, to the same name: reading in `big` what was
/// written for `small` changes nothing.
pub open spec fn covers(big: Seq<BindingModel>, small: Seq<BindingModel>) -> bool {
    forall|var: Var|
        var != Var::Nu && (#[trigger] lookup(small, var)) is Some ==> lookup(big, var) == lookup(
            small,
            var,
        )
}

/// A list of names covers itself.
pub proof fn lemma_covers_refl(a: Seq<BindingModel>)
    ensures
        covers(a, a),
{
}

/// A list that covers another still covers it when the same name is added
/// to both.
pub proof fn lemma_covers_push(big: Seq<BindingModel>, small: Seq<BindingModel>, binding: BindingModel)
    requires
        covers(big, small),
    ensures
        covers(big.push(binding), small.push(binding)),
{
    assert(big.push(binding).drop_last() =~= big);
    assert(small.push(binding).drop_last() =~= small);
    assert forall|var: Var|
        var != Var::Nu && (#[trigger] lookup(small.push(binding), var)) is Some implies lookup(
        big.push(binding),
        var,
    ) == lookup(small.push(binding), var) by {
        if binding.var != var {
            assert(lookup(small, var) is Some);
        }
    }
}

/// A name for the refined value itself hides nothing that a list covers.
pub proof fn lemma_covers_behind_nu(
    big: Seq<BindingModel>,
    small: Seq<BindingModel>,
    binding: BindingModel,
)
    requires
        covers(big, small),
        binding.var == Var::Nu,
    ensures
        covers(big.push(binding), small),
{
    assert forall|var: Var|
        var != Var::Nu && (#[trigger] lookup(small, var)) is Some implies lookup(
        big.push(binding),
        var,
    ) == lookup(small, var) by {
        lemma_lookup_behind_nu(big, binding, var);
    }
}

/// A list that covers another gives every variable that resolves there
/// the same level.
pub proof fn lemma_covers_level(
    big: Seq<BindingModel>,
    small: Seq<BindingModel>,
    nu: Option<usize>,
    var: Var,
)
    requires
        covers(big, small),
        level_of(small, nu, var) is Ok,
    ensures
        level_of(big, nu, var) == level_of(small, nu, var),
{
    if var != Var::Nu {
        assert(lookup(small, var) is Some);
    }
}

/// A list that covers another compiles every predicate that compiles there
/// to the same expression.
pub proof fn lemma_covers_pred(
    big: Seq<BindingModel>,
    small: Seq<BindingModel>,
    nu: Option<usize>,
    pred: PredTree,
)
    requires
        covers(big, small),
        compile_pred(small, nu, pred) is Ok,
    ensures
        compile_pred(big, nu, pred) == compile_pred(small, nu, pred),
    decreases pred,
{
    match pred {
        PredTree::Path(path) => {
            lemma_covers_path(big, small, nu, path);
        },
        PredTree::BinaryOp(_, left, right) => {
            lemma_covers_pred(big, small, nu, *left);
            lemma_covers_pred(big, small, nu, *right);
        },
        PredTree::UnaryOp(_, operand) => {
            lemma_covers_pred(big, small, nu, *operand);
        },
        PredTree::Const(_) => {},
    }
}

/// A list that covers another gives every list of variables that resolves
/// there the same levels.
pub proof fn lemma_covers_args(
    big: Seq<BindingModel>,
    small: Seq<BindingModel>,
    nu: Option<usize>,
    vars: Seq<Var>,
)
    requires
        covers(big, small),
        compile_args(small, nu, vars) is Ok,
    ensures
        compile_args(big, nu, vars) == compile_args(small, nu, vars),
    decreases vars.len(),
{
    if vars.len() > 0 {
        lemma_covers_args(big, small, nu, vars.drop_last());
        lemma_covers_level(big, small, nu, vars.last());
    }
}

/// A list that covers another compiles every refinement that compiles
/// there to the same predicate.
pub proof fn lemma_covers_refine(
    big: Seq<BindingModel>,
    small: Seq<BindingModel>,
    nu: usize,
    refine: RefineTree,
)
    requires
        covers(big, small),
        compile_refine(small, nu, refine) is Ok,
    ensures
        compile_refine(big, nu, refine) == compile_refine(small, nu, refine),
{
    match refine {
        RefineTree::Pred(pred) => {
            lemma_covers_pred(big, small, Some(nu), pred);
        },
        RefineTree::Infer(kvar) => {
            lemma_covers_args(big, small, Some(nu), kvar.vars);
        },
    }
}

/// Whether the quantifiers that were opened for each of the names are
/// among the first `depth`: every integer or boolean in scope, and every
/// integer or boolean inside a tuple in scope, is known by a level below
/// `depth`.
pub open spec fn levels_below(names: Seq<BindingModel>, depth: int) -> bool {
    forall|i: int|
        0 <= i < names.len() ==> (#[trigger] names[i]).start + width(names[i].ty) <= depth
}

/// The part of a type that projections lead to opens its quantifiers among
/// those of the type.
pub proof fn lemma_component_within(ty: TyTree, projs: Seq<usize>)
    requires
        component(ty, projs) is Some,
    ensures
        component(ty, projs).unwrap().0 + width(component(ty, projs).unwrap().1) <= width(ty),
    decreases projs.len(),
{
    if projs.len() > 0 {
        let fields = ty->Tuple_0;
        let at = projs[0] as nat;
        lemma_component_within(fields[at as int].1, projs.drop_first());
        lemma_fields_width_grows(fields, (at + 1) as nat, fields.len());
    }
}

/// A list that covers another gives every path that resolves there the
/// same level.
pub proof fn lemma_covers_path(
    big: Seq<BindingModel>,
    small: Seq<BindingModel>,
    nu: Option<usize>,
    path: PathModel,
)
    requires
        covers(big, small),
        path_level(small, nu, path) is Ok,
    ensures
        path_level(big, nu, path) == path_level(small, nu, path),
{
    if path.projs.len() == 0 {
        lemma_covers_level(big, small, nu, path.base);
    } else {
        assert(lookup(small, path.base) is Some);
    }
}

/// The level of a path is below the depth below which all names are known
/// and the refined value itself is bound.
pub proof fn lemma_path_below(
    names: Seq<BindingModel>,
    nu: Option<usize>,
    path: PathModel,
    depth: int,
)
    requires
        levels_below(names, depth),
        nu matches Some(level) ==> level < depth,
        path_level(names, nu, path) is Ok,
    ensures
        path_level(names, nu, path).unwrap() < depth,
{
    if path.projs.len() == 0 {
        lemma_level_below(names, nu, path.base, depth);
    } else {
        lemma_lookup_is_member(names, path.base);
        let binding = lookup(names, path.base).unwrap();
        lemma_component_within(binding.ty, path.projs);
    }
}

/// A name that is found is one of the names.
pub proof fn lemma_lookup_is_member(names: Seq<BindingModel>, var: Var)
    requires
        lookup(names, var) is Some,
    ensures
        exists|i: int| 0 <= i < names.len() && names[i] == lookup(names, var).unwrap(),
    decreases names.len(),
{
    if names.last().var == var {
        assert(names[names.len() - 1] == lookup(names, var).unwrap());
    } else {
        lemma_lookup_is_member(names.drop_last(), var);
        let i = choose|i: int|
            0 <= i < names.drop_last().len() && names.drop_last()[i] == lookup(
                names.drop_last(),
                var,
            ).unwrap();
        assert(names[i] == names.drop_last()[i]);
    }
}

/// Whether every variable of an expression is bound at a level below
/// `depth`.
pub open spec fn expr_below(expr: Expr, depth: int) -> bool
    decreases expr,
{
    match expr {
        Expr::Variable(level) => level < depth,
        Expr::Constant(_) => true,
        Expr::BinaryOp(_, left, right) => expr_below(*left, depth) && expr_below(*right, depth),
        Expr::UnaryOp(_, operand) => expr_below(*operand, depth),
    }
}

/// Whether every variable of a compiled refinement is bound at a level
/// below `depth`.
pub open spec fn pred_below(pred: PredModel, depth: int) -> bool {
    match pred {
        PredModel::Expr(expr) => expr_below(expr, depth),
        PredModel::KVar(_, args) => forall|i: int| 0 <= i < args.len() ==> #[trigger] args[i] < depth,
        PredModel::And(_) => false,
    }
}

/// The level of a variable is below the depth below which all names are
/// known and the refined value itself is bound.
pub proof fn lemma_level_below(names: Seq<BindingModel>, nu: Option<usize>, var: Var, depth: int)
    requires
        levels_below(names, depth),
        nu matches Some(level) ==> level < depth,
        level_of(names, nu, var) is Ok,
    ensures
        level_of(names, nu, var).unwrap() < depth,
{
    if var != Var::Nu {
        lemma_lookup_is_member(names, var);
    }
}

/// A compiled predicate names only levels that are in scope.
pub proof fn lemma_pred_below(
    names: Seq<BindingModel>,
    nu: Option<usize>,
    pred: PredTree,
    depth: int,
)
    requires
        levels_below(names, depth),
        nu matches Some(level) ==> level < depth,
        compile_pred(names, nu, pred) is Ok,
    ensures
        expr_below(compile_pred(names, nu, pred).unwrap(), depth),
    decreases pred,
{
    match pred {
        PredTree::Path(path) => {
            lemma_path_below(names, nu, path, depth);
        },
        PredTree::BinaryOp(_, left, right) => {
            lemma_pred_below(names, nu, *left, depth);
            lemma_pred_below(names, nu, *right, depth);
        },
        PredTree::UnaryOp(_, operand) => {
            lemma_pred_below(names, nu, *operand, depth);
        },
        PredTree::Const(_) => {},
    }
}

/// The levels of a compiled list of variables are in scope.
pub proof fn lemma_args_below(
    names: Seq<BindingModel>,
    nu: Option<usize>,
    vars: Seq<Var>,
    depth: int,
)
    requires
        levels_below(names, depth),
        nu matches Some(level) ==> level < depth,
        compile_args(names, nu, vars) is Ok,
    ensures
        compile_args(names, nu, vars).unwrap().len() == vars.len(),
        forall|i: int|
            0 <= i < vars.len() ==> #[trigger] compile_args(names, nu, vars).unwrap()[i] < depth,
    decreases vars.len(),
{
    if vars.len() > 0 {
        lemma_args_below(names, nu, vars.drop_last(), depth);
        lemma_level_below(names, nu, vars.last(), depth);
    }
}

/// A compiled refinement names only levels that are in scope.
pub proof fn lemma_refine_below(
    names: Seq<BindingModel>,
    nu: usize,
    refine: RefineTree,
    depth: int,
)
    requires
        levels_below(names, depth),
        nu < depth,
        compile_refine(names, nu, refine) is Ok,
    ensures
        pred_below(compile_refine(names, nu, refine).unwrap(), depth),
{
    match refine {
        RefineTree::Pred(pred) => {
            lemma_pred_below(names, Some(nu), pred, depth);
        },
        RefineTree::Infer(kvar) => {
            lemma_args_below(names, Some(nu), kvar.vars, depth);
        },
    }
}

/// The value of an expression depends only on the levels that it names.
pub proof fn lemma_eval_local(expr: Expr, vals: Seq<Value>, depth: int)
    requires
        expr_below(expr, depth),
        0 <= depth <= vals.len(),
    ensures
        expr.eval(vals.take(depth)) == expr.eval(vals),
    decreases expr,
{
    match expr {
        Expr::Variable(level) => {
            assert(vals.take(depth)[level as int] == vals[level as int]);
        },
        Expr::Constant(_) => {},
        Expr::BinaryOp(_, left, right) => {
            lemma_eval_local(*left, vals, depth);
            lemma_eval_local(*right, vals, depth);
        },
        Expr::UnaryOp(_, operand) => {
            lemma_eval_local(*operand, vals, depth);
        },
    }
}

/// Whether a compiled refinement holds depends only on the levels that it
/// names.
pub proof fn lemma_holds_local(pred: PredModel, vals: Seq<Value>, depth: int, solution: Solution)
    requires
        pred_below(pred, depth),
        0 <= depth <= vals.len(),
    ensures
        pred.holds(vals.take(depth), solution) == pred.holds(vals, solution),
{
    match pred {
        PredModel::Expr(expr) => {
            lemma_eval_local(expr, vals, depth);
        },
        PredModel::KVar(id, args) => {
            let short = vals.take(depth);
            let of_short = Seq::new(
                args.len(),
                |i: int|
                    if 0 <= i < args.len() && args[i] < short.len() {
                        short[args[i] as int]
                    } else {
                        Value::Int(0)
                    },
            );
            let of_all = Seq::new(
                args.len(),
                |i: int|
                    if 0 <= i < args.len() && args[i] < vals.len() {
                        vals[args[i] as int]
                    } else {
                        Value::Int(0)
                    },
            );
            assert(of_short =~= of_all);
        },
        PredModel::And(_) => {},
    }
}

/// Whether the first `n` fields of a tuple hold no reference.
pub open spec fn fields_ref_free(fields: Seq<(Field, TyTree)>, n: nat) -> bool
    decreases fields, n,
{
    n == 0 || n > fields.len() || (fields_ref_free(fields, (n - 1) as nat) && ref_free(
        fields[n - 1].1,
    ))
}

/// Whether a type holds no reference, at any depth.
pub open spec fn ref_free(ty: TyTree) -> bool
    decreases ty, 0nat,
{
    match ty {
        TyTree::Ref(_, _, _) => false,
        TyTree::Tuple(fields) => fields_ref_free(fields, fields.len()),
        _ => true,
    }
}

/// Whether the premises of the quantifiers from place `from` up to place
/// `to` hold of the values that `vals` gives them.
pub open spec fn premises_hold(
    layers: Seq<(Sort, PredModel)>,
    from: int,
    to: int,
    vals: Seq<Value>,
    solution: Solution,
) -> bool {
    forall|i: int| from <= i < to ==> (#[trigger] layers[i]).1.holds(vals.take(i + 1), solution)
}

/// Whether every one of the obligations holds.
pub open spec fn all_hold(
    obligations: Seq<ConstraintModel>,
    vals: Seq<Value>,
    solution: Solution,
) -> bool {
    forall|i: int| 0 <= i < obligations.len() ==> (#[trigger] obligations[i]).holds(vals, solution)
}

/// What binding a variable does to a scope: the quantifiers that were open
/// stay as they were, one is opened for each integer or boolean of the
/// type, the variable becomes the innermost name, and every integer or
/// boolean in scope is known by the level of an open quantifier.
pub open spec fn grows(scope: ScopeModel, after: ScopeModel, var: Var, ty: TyTree) -> bool {
    &&& after.layers.len() == scope.layers.len() + width(ty)
    &&& after.layers.take(scope.layers.len() as int) == scope.layers
    &&& after.names == scope.names.push(
        BindingModel { var, ty, start: scope.layers.len() as usize },
    )
    &&& levels_below(after.names, after.layers.len() as int)
}

/// Binding a variable keeps the open quantifiers, makes the variable the
/// innermost name, and leaves every integer or boolean in scope known by
/// the level of an open quantifier.
pub proof fn lemma_bind_grows(scope: ScopeModel, var: Var, ty: TyTree)
    requires
        bind(scope, var, ty) is Ok,
        bind(scope, var, ty).unwrap().layers.len() <= usize::MAX,
        levels_below(scope.names, scope.layers.len() as int),
    ensures
        grows(scope, bind(scope, var, ty).unwrap(), var, ty),
    decreases ty, 0nat,
{
    let after = bind(scope, var, ty).unwrap();
    match ty {
        TyTree::Refined(_, _) => {
            assert(after.layers.take(scope.layers.len() as int) =~= scope.layers);
        },
        TyTree::Tuple(fields) => {
            lemma_bind_fields_grow(scope, fields, fields.len());
        },
        _ => {
            assert(after.layers.take(scope.layers.len() as int) =~= scope.layers);
        },
    }
}

/// Binding the first `n` fields of a tuple keeps the open quantifiers.
pub proof fn lemma_bind_fields_grow(scope: ScopeModel, fields: Seq<(Field, TyTree)>, n: nat)
    requires
        n <= fields.len(),
        bind_fields(scope, fields, n) is Ok,
        bind_fields(scope, fields, n).unwrap().layers.len() <= usize::MAX,
        levels_below(scope.names, scope.layers.len() as int),
    ensures
        bind_fields(scope, fields, n).unwrap().layers.len() == scope.layers.len() + fields_width(
            fields,
            n,
        ),
        bind_fields(scope, fields, n).unwrap().layers.take(scope.layers.len() as int)
            == scope.layers,
        levels_below(
            bind_fields(scope, fields, n).unwrap().names,
            bind_fields(scope, fields, n).unwrap().layers.len() as int,
        ),
    decreases fields, n,
{
    if n == 0 {
        assert(scope.layers.take(scope.layers.len() as int) =~= scope.layers);
    } else {
        let before = bind_fields(scope, fields, (n - 1) as nat).unwrap();
        let after = bind_fields(scope, fields, n).unwrap();
        lemma_bind_no_fewer(before, Var::Field(fields[n - 1].0), fields[n - 1].1);
        lemma_bind_fields_grow(scope, fields, (n - 1) as nat);
        lemma_bind_grows(before, Var::Field(fields[n - 1].0), fields[n - 1].1);
        assert(after.layers.take(scope.layers.len() as int) =~= before.layers.take(
            scope.layers.len() as int,
        )) by {
            assert forall|i: int| 0 <= i < scope.layers.len() implies #[trigger] after.layers[i]
                == before.layers[i] by {
                assert(after.layers.take(before.layers.len() as int)[i] == after.layers[i]);
            }
        }
    }
}

/// Binding a variable closes no quantifier.
pub proof fn lemma_bind_no_fewer(scope: ScopeModel, var: Var, ty: TyTree)
    requires
        bind(scope, var, ty) is Ok,
    ensures
        scope.layers.len() <= bind(scope, var, ty).unwrap().layers.len(),
    decreases ty, 0nat,
{
    match ty {
        TyTree::Tuple(fields) => {
            lemma_bind_fields_no_fewer(scope, fields, fields.len());
        },
        _ => {},
    }
}

/// Binding the first `n` fields of a tuple closes no quantifier.
pub proof fn lemma_bind_fields_no_fewer(scope: ScopeModel, fields: Seq<(Field, TyTree)>, n: nat)
    requires
        n <= fields.len(),
        bind_fields(scope, fields, n) is Ok,
    ensures
        scope.layers.len() <= bind_fields(scope, fields, n).unwrap().layers.len(),
    decreases fields, n,
{
    if n > 0 {
        let before = bind_fields(scope, fields, (n - 1) as nat).unwrap();
        lemma_bind_fields_no_fewer(scope, fields, (n - 1) as nat);
        lemma_bind_no_fewer(before, Var::Field(fields[n - 1].0), fields[n - 1].1);
    }
}

/// An alias copies the level of a name that is in scope, so it keeps
/// every integer or boolean known by the level of an open quantifier.
pub proof fn lemma_alias_names_below(
    names: Seq<BindingModel>,
    aliases: Seq<(GhostVar, GhostVar)>,
    n: nat,
    depth: int,
)
    requires
        n <= aliases.len(),
        alias_names(names, aliases, n) is Ok,
        levels_below(names, depth),
    ensures
        levels_below(alias_names(names, aliases, n).unwrap(), depth),
    decreases n,
{
    if n > 0 {
        let inner = alias_names(names, aliases, (n - 1) as nat).unwrap();
        lemma_alias_names_below(names, aliases, (n - 1) as nat, depth);
        let found = lookup(inner, Var::GhostVar(aliases[n - 1].1)).unwrap();
        lemma_lookup_is_member(inner, Var::GhostVar(aliases[n - 1].1));
        let after = alias_names(names, aliases, n).unwrap();
        assert forall|i: int| 0 <= i < after.len() && (#[trigger] after[i]).ty is Refined implies after[i].start
            < depth by {
            if i < inner.len() {
                assert(after[i] == inner[i]);
            }
        }
    }
}

/// Binding one entry of a heap closes no quantifier and keeps every integer
/// or boolean in scope known by the level of an open quantifier.
pub proof fn lemma_bind_fact_below(scope: ScopeModel, fact: FactModel)
    requires
        bind_fact(scope, fact) is Ok,
        bind_fact(scope, fact).unwrap().layers.len() <= usize::MAX,
        levels_below(scope.names, scope.layers.len() as int),
    ensures
        scope.layers.len() <= bind_fact(scope, fact).unwrap().layers.len(),
        levels_below(
            bind_fact(scope, fact).unwrap().names,
            bind_fact(scope, fact).unwrap().layers.len() as int,
        ),
{
    let extended = alias_names(scope.names, fact.aliases, fact.aliases.len()).unwrap();
    lemma_alias_names_below(scope.names, fact.aliases, fact.aliases.len(), scope.layers.len() as int);
    let widened = ScopeModel { names: extended, layers: scope.layers };
    let inner = bind(widened, Var::GhostVar(fact.var), fact.ty).unwrap();
    lemma_bind_no_fewer(widened, Var::GhostVar(fact.var), fact.ty);
    lemma_bind_grows(widened, Var::GhostVar(fact.var), fact.ty);
    let after = bind_fact(scope, fact).unwrap();
    assert(inner.names.last() == inner.names[inner.names.len() - 1]);
    assert forall|i: int| 0 <= i < after.names.len() && (#[trigger] after.names[i]).ty is Refined implies after.names[i].start
        < after.layers.len() by {
        if i < scope.names.len() {
            assert(after.names[i] == scope.names[i]);
        }
    }
}

/// Binding the first `n` entries of a heap closes no quantifier and keeps
/// every integer or boolean in scope known by the level of an open
/// quantifier.
pub proof fn lemma_bind_heap_below(scope: ScopeModel, heap: Seq<FactModel>, n: nat)
    requires
        n <= heap.len(),
        bind_heap(scope, heap, n) is Ok,
        bind_heap(scope, heap, n).unwrap().layers.len() <= usize::MAX,
        levels_below(scope.names, scope.layers.len() as int),
    ensures
        scope.layers.len() <= bind_heap(scope, heap, n).unwrap().layers.len(),
        levels_below(
            bind_heap(scope, heap, n).unwrap().names,
            bind_heap(scope, heap, n).unwrap().layers.len() as int,
        ),
    decreases n,
{
    if n > 0 {
        let before = bind_heap(scope, heap, (n - 1) as nat).unwrap();
        lemma_bind_fact_no_fewer(before, heap[n - 1]);
        lemma_bind_heap_below(scope, heap, (n - 1) as nat);
        lemma_bind_fact_below(before, heap[n - 1]);
    }
}

/// Binding one entry of a heap closes no quantifier.
pub proof fn lemma_bind_fact_no_fewer(scope: ScopeModel, fact: FactModel)
    requires
        bind_fact(scope, fact) is Ok,
    ensures
        scope.layers.len() <= bind_fact(scope, fact).unwrap().layers.len(),
{
    let extended = alias_names(scope.names, fact.aliases, fact.aliases.len()).unwrap();
    lemma_bind_no_fewer(
        ScopeModel { names: extended, layers: scope.layers },
        Var::GhostVar(fact.var),
        fact.ty,
    );
}

/// A constraint for a list of obligations holds where each of them holds.
pub proof fn lemma_all_of_holds(
    obligations: Seq<ConstraintModel>,
    vals: Seq<Value>,
    solution: Solution,
)
    requires
        all_hold(obligations, vals, solution),
    ensures
        all_of(obligations).holds(vals, solution),
{
    if obligations.len() == 1 {
        assert(obligations[0].holds(vals, solution));
    }
}

/// The scope after the first `n` entries of a heap have been bound.
pub open spec fn bound(heap: Seq<FactModel>, n: nat) -> ScopeModel {
    bind_heap(empty_scope(), heap, n).unwrap()
}

/// The names under which the type of the entry at place `at` was read when
/// it was bound: those of the entries before it, and its aliases.
pub open spec fn read_names(heap: Seq<FactModel>, at: int) -> Seq<BindingModel> {
    alias_names(bound(heap, at as nat).names, heap[at].aliases, heap[at].aliases.len()).unwrap()
}

/// Whether no ghost variable of a heap is used twice: no two entries have
/// the same ghost variable, and no alias gives an entry another meaning
/// for the ghost variable of an entry.
pub open spec fn never_reused(heap: Seq<FactModel>) -> bool {
    &&& forall|i: int, j: int|
        0 <= i < j < heap.len() ==> (#[trigger] heap[i]).var != (#[trigger] heap[j]).var
    &&& forall|i: int, j: int, k: int|
        0 <= i < heap.len() && 0 <= j < heap.len() && 0 <= k < heap[i].aliases.len() ==> (
        #[trigger] heap[i].aliases[k]).0 != (#[trigger] heap[j]).var
}

/// A list that covers a list that covers a third covers the third.
pub proof fn lemma_covers_trans(a: Seq<BindingModel>, b: Seq<BindingModel>, c: Seq<BindingModel>)
    requires
        covers(a, b),
        covers(b, c),
    ensures
        covers(a, c),
{
    assert forall|var: Var| var != Var::Nu && (#[trigger] lookup(c, var)) is Some implies lookup(
        a,
        var,
    ) == lookup(c, var) by {
        assert(lookup(b, var) == lookup(c, var));
        assert(lookup(b, var) is Some);
    }
}

/// The name that is found for a variable is a name of that variable.
pub proof fn lemma_lookup_var(names: Seq<BindingModel>, var: Var)
    requires
        lookup(names, var) is Some,
    ensures
        lookup(names, var).unwrap().var == var,
    decreases names.len(),
{
    if names.last().var != var {
        lemma_lookup_var(names.drop_last(), var);
    }
}

/// A variable of which no name is in a list is not found in it.
pub proof fn lemma_lookup_absent(names: Seq<BindingModel>, var: Var)
    requires
        forall|i: int| 0 <= i < names.len() ==> (#[trigger] names[i]).var != var,
    ensures
        lookup(names, var) is None,
    decreases names.len(),
{
    if names.len() > 0 {
        assert(names[names.len() - 1].var != var);
        assert forall|i: int| 0 <= i < names.drop_last().len() implies (#[trigger] names.drop_last()[i]).var
            != var by {
            assert(names.drop_last()[i] == names[i]);
        }
        lemma_lookup_absent(names.drop_last(), var);
    }
}

/// A name added for a variable that a list does not resolve hides nothing
/// that another list covers of it.
pub proof fn lemma_covers_push_fresh(
    big: Seq<BindingModel>,
    small: Seq<BindingModel>,
    binding: BindingModel,
)
    requires
        covers(big, small),
        lookup(small, binding.var) is None,
    ensures
        covers(big.push(binding), small),
{
    assert(big.push(binding).drop_last() =~= big);
    assert forall|var: Var|
        var != Var::Nu && (#[trigger] lookup(small, var)) is Some implies lookup(
        big.push(binding),
        var,
    ) == lookup(small, var) by {
        assert(binding.var != var);
    }
}

/// A name added again for the variable that it already is the name of
/// hides nothing that another list covers.
pub proof fn lemma_covers_push_same(
    big: Seq<BindingModel>,
    small: Seq<BindingModel>,
    binding: BindingModel,
)
    requires
        covers(big, small),
        lookup(small, binding.var) == Some(binding),
    ensures
        covers(big.push(binding), small),
{
    assert(big.push(binding).drop_last() =~= big);
}

/// The names of a heap that is bound are the ghost variables of its
/// entries, in order, each with the type of its entry and the level at
/// which its entry was bound; and the quantifiers that were open when an
/// entry was bound stay open.
pub proof fn lemma_bound_names(heap: Seq<FactModel>, n: nat)
    requires
        n <= heap.len(),
        bind_heap(empty_scope(), heap, n) is Ok,
        bound(heap, n).layers.len() <= usize::MAX,
    ensures
        bound(heap, n).names.len() == n,
        levels_below(bound(heap, n).names, bound(heap, n).layers.len() as int),
        forall|i: int|
            0 <= i < n ==> {
                &&& bind_heap(empty_scope(), heap, i as nat) is Ok
                &&& bind_fact(bound(heap, i as nat), heap[i]) is Ok
                &&& bound(heap, (i + 1) as nat) == bind_fact(bound(heap, i as nat), heap[i]).unwrap()
                &&& bound(heap, i as nat).layers.len() <= bound(heap, (i + 1) as nat).layers.len()
                &&& bound(heap, (i + 1) as nat).layers.len() <= bound(heap, n).layers.len()
                &&& bound(heap, n).layers.take(bound(heap, (i + 1) as nat).layers.len() as int)
                    == bound(heap, (i + 1) as nat).layers
                &&& levels_below(
                    bound(heap, i as nat).names,
                    bound(heap, i as nat).layers.len() as int,
                )
                &&& #[trigger] bound(heap, n).names[i] == (BindingModel {
                    var: Var::GhostVar(heap[i].var),
                    ty: heap[i].ty,
                    start: bound(heap, i as nat).layers.len() as usize,
                })
            },
    decreases n,
{
    lemma_bind_heap_below(empty_scope(), heap, n);
    if n > 0 {
        let m = (n - 1) as nat;
        let before = bound(heap, m);
        let after = bound(heap, n);
        assert(after == bind_fact(before, heap[n - 1]).unwrap());
        lemma_bind_fact_no_fewer(before, heap[n - 1]);
        lemma_bound_names(heap, m);
        lemma_bind_fact_shape(before, heap[n - 1]);
        assert(after.layers.take(after.layers.len() as int) =~= after.layers);
        assert forall|i: int| 0 <= i < n implies {
            &&& bind_heap(empty_scope(), heap, i as nat) is Ok
            &&& bind_fact(bound(heap, i as nat), heap[i]) is Ok
            &&& bound(heap, (i + 1) as nat) == bind_fact(bound(heap, i as nat), heap[i]).unwrap()
            &&& bound(heap, i as nat).layers.len() <= bound(heap, (i + 1) as nat).layers.len()
            &&& bound(heap, (i + 1) as nat).layers.len() <= after.layers.len()
            &&& after.layers.take(bound(heap, (i + 1) as nat).layers.len() as int) == bound(
                heap,
                (i + 1) as nat,
            ).layers
            &&& levels_below(bound(heap, i as nat).names, bound(heap, i as nat).layers.len() as int)
            &&& #[trigger] after.names[i] == (BindingModel {
                var: Var::GhostVar(heap[i].var),
                ty: heap[i].ty,
                start: bound(heap, i as nat).layers.len() as usize,
            })
        } by {
            if i < m {
                let part = bound(heap, (i + 1) as nat).layers;
                assert(before.names[i] == after.names[i]);
                assert(after.layers.take(part.len() as int) =~= before.layers.take(
                    part.len() as int,
                )) by {
                    assert forall|k: int| 0 <= k < part.len() implies #[trigger] after.layers[k]
                        == before.layers[k] by {
                        assert(after.layers.take(before.layers.len() as int)[k] == after.layers[k]);
                    }
                }
            }
        }
    }
}

/// What binding one entry of a heap does to a scope: the quantifiers that
/// were open stay as they were, and the ghost variable of the entry becomes
/// the innermost name, with the type of the entry and the level of the
/// first quantifier that was opened for it.
pub proof fn lemma_bind_fact_shape(scope: ScopeModel, fact: FactModel)
    requires
        bind_fact(scope, fact) is Ok,
        bind_fact(scope, fact).unwrap().layers.len() <= usize::MAX,
        levels_below(scope.names, scope.layers.len() as int),
    ensures
        ({
            let after = bind_fact(scope, fact).unwrap();
            &&& scope.layers.len() <= after.layers.len()
            &&& after.layers.take(scope.layers.len() as int) == scope.layers
            &&& after.names == scope.names.push(
                BindingModel {
                    var: Var::GhostVar(fact.var),
                    ty: fact.ty,
                    start: scope.layers.len() as usize,
                },
            )
        }),
{
    let extended = alias_names(scope.names, fact.aliases, fact.aliases.len()).unwrap();
    lemma_alias_names_below(scope.names, fact.aliases, fact.aliases.len(), scope.layers.len() as int);
    let widened = ScopeModel { names: extended, layers: scope.layers };
    lemma_bind_grows(widened, Var::GhostVar(fact.var), fact.ty);
}

/// In a heap in which no ghost variable is used twice, the name of the
/// ghost variable of an entry is the name of that entry, and the entry of
/// the ghost variable is that entry.
pub proof fn lemma_bound_lookup(heap: Seq<FactModel>, at: int)
    requires
        0 <= at < heap.len(),
        never_reused(heap),
        bind_heap(empty_scope(), heap, heap.len()) is Ok,
        bound(heap, heap.len()).layers.len() <= usize::MAX,
    ensures
        lookup(bound(heap, heap.len()).names, Var::GhostVar(heap[at].var)) == Some(
            bound(heap, heap.len()).names[at],
        ),
        fact_of(heap, heap[at].var) == Some(heap[at]),
{
    lemma_bound_names(heap, heap.len());
    let names = bound(heap, heap.len()).names;
    assert forall|i: int| 0 <= i < names.len() implies (#[trigger] names[i]).var == Var::GhostVar(
        heap[i].var,
    ) by {}
    lemma_lookup_unique(names, at);
    lemma_fact_of_unique(heap, heap.len(), at);
    assert(heap.take(heap.len() as int) =~= heap);
}

/// The one name of a variable in a list is the name that is found for it.
pub proof fn lemma_lookup_unique(names: Seq<BindingModel>, at: int)
    requires
        0 <= at < names.len(),
        forall|i: int| 0 <= i < names.len() && i != at ==> (#[trigger] names[i]).var != names[at].var,
    ensures
        lookup(names, names[at].var) == Some(names[at]),
    decreases names.len(),
{
    if at < names.len() - 1 {
        assert(names[names.len() - 1].var != names[at].var);
        assert(names.drop_last()[at] == names[at]);
        assert forall|i: int| 0 <= i < names.drop_last().len() && i != at implies (
        #[trigger] names.drop_last()[i]).var != names.drop_last()[at].var by {
            assert(names.drop_last()[i] == names[i]);
        }
        lemma_lookup_unique(names.drop_last(), at);
    }
}

/// The one entry of a ghost variable among the first `n` of a heap is the
/// entry that is found for it.
pub proof fn lemma_fact_of_unique(heap: Seq<FactModel>, n: nat, at: int)
    requires
        0 <= at < n <= heap.len(),
        forall|i: int| 0 <= i < heap.len() && i != at ==> (#[trigger] heap[i]).var != heap[at].var,
    ensures
        fact_of(heap.take(n as int), heap[at].var) == Some(heap[at]),
    decreases n,
{
    let part = heap.take(n as int);
    assert(part.last() == heap[n - 1]);
    if at < n - 1 {
        assert(part.drop_last() =~= heap.take(n - 1));
        lemma_fact_of_unique(heap, (n - 1) as nat, at);
    }
}

/// In a heap in which no ghost variable is used twice, the names of the
/// whole heap cover the names of every beginning of it.
pub proof fn lemma_bound_covers(heap: Seq<FactModel>, at: nat)
    requires
        at <= heap.len(),
        never_reused(heap),
        bind_heap(empty_scope(), heap, heap.len()) is Ok,
        bound(heap, heap.len()).layers.len() <= usize::MAX,
    ensures
        bind_heap(empty_scope(), heap, at) is Ok,
        covers(bound(heap, heap.len()).names, bound(heap, at).names),
{
    lemma_bound_names(heap, heap.len());
    let all = bound(heap, heap.len()).names;
    if at == heap.len() {
    } else {
        lemma_bound_prefix_ok(heap, at);
        lemma_bound_names(heap, at);
        let part = bound(heap, at).names;
        assert forall|i: int| 0 <= i < at implies #[trigger] part[i] == all[i] by {
            assert(bound(heap, at).names[i].var == Var::GhostVar(heap[i].var));
        }
        assert forall|var: Var| var != Var::Nu && (#[trigger] lookup(part, var)) is Some implies lookup(
            all,
            var,
        ) == lookup(part, var) by {
            lemma_lookup_is_member(part, var);
            lemma_lookup_var(part, var);
            let i = choose|i: int| 0 <= i < part.len() && part[i] == lookup(part, var).unwrap();
            assert(all[i] == part[i]);
            assert forall|k: int| 0 <= k < all.len() && k != i implies (#[trigger] all[k]).var
                != all[i].var by {
                assert(all[k].var == Var::GhostVar(heap[k].var));
                assert(all[i].var == Var::GhostVar(heap[i].var));
                if k < i {
                    assert(heap[k].var != heap[i].var);
                } else {
                    assert(heap[i].var != heap[k].var);
                }
            }
            lemma_lookup_unique(all, i);
        }
    }
}

/// A heap of which a beginning is bound has every shorter beginning bound,
/// with no more quantifiers.
pub proof fn lemma_bound_prefix_ok(heap: Seq<FactModel>, at: nat)
    requires
        at <= heap.len(),
        bind_heap(empty_scope(), heap, heap.len()) is Ok,
        bound(heap, heap.len()).layers.len() <= usize::MAX,
    ensures
        bind_heap(empty_scope(), heap, at) is Ok,
        bound(heap, at).layers.len() <= bound(heap, heap.len()).layers.len(),
{
    lemma_bound_names(heap, heap.len());
    if at < heap.len() {
        assert(bound(heap, heap.len()).names[at as int].var == Var::GhostVar(heap[at as int].var));
    }
}

/// Every region is contained in itself.
pub proof fn lemma_contained_refl(region: RegionModel)
    ensures
        contained(region, region),
{
    match region {
        RegionModel::Concrete(places) => {
            assert forall|i: int| 0 <= i < places.len() implies places.contains(
                #[trigger] places[i],
            ) by {}
            assert(all_among(places, places));
        },
        _ => {},
    }
}

/// The entry that is found for a ghost variable is an entry of the heap
/// for that ghost variable.
pub proof fn lemma_fact_of_member(heap: Seq<FactModel>, var: GhostVar)
    requires
        fact_of(heap, var) is Some,
    ensures
        exists|i: int| 0 <= i < heap.len() && heap[i] == fact_of(heap, var).unwrap() && heap[i].var
            == var,
    decreases heap.len(),
{
    if heap.last().var == var {
        assert(heap[heap.len() - 1] == fact_of(heap, var).unwrap());
    } else {
        lemma_fact_of_member(heap.drop_last(), var);
        let i = choose|i: int|
            0 <= i < heap.drop_last().len() && heap.drop_last()[i] == fact_of(
                heap.drop_last(),
                var,
            ).unwrap() && heap.drop_last()[i].var == var;
        assert(heap[i] == heap.drop_last()[i]);
    }
}

/// A list that covers another covers it with the same aliases added to
/// both, each resolved in its own list.
pub proof fn lemma_alias_covers(
    big: Seq<BindingModel>,
    small: Seq<BindingModel>,
    aliases: Seq<(GhostVar, GhostVar)>,
    n: nat,
)
    requires
        n <= aliases.len(),
        covers(big, small),
        alias_names(big, aliases, n) is Ok,
        alias_names(small, aliases, n) is Ok,
    ensures
        covers(alias_names(big, aliases, n).unwrap(), alias_names(small, aliases, n).unwrap()),
    decreases n,
{
    if n > 0 {
        let m = (n - 1) as nat;
        lemma_alias_covers(big, small, aliases, m);
        let inner_big = alias_names(big, aliases, m).unwrap();
        let inner_small = alias_names(small, aliases, m).unwrap();
        let to = Var::GhostVar(aliases[n - 1].1);
        assert(lookup(inner_small, to) is Some);
        assert(lookup(inner_big, to) == lookup(inner_small, to));
        let found = lookup(inner_small, to).unwrap();
        lemma_covers_push(
            inner_big,
            inner_small,
            BindingModel { var: Var::GhostVar(aliases[n - 1].0), ty: found.ty, start: found.start },
        );
    }
}

/// Aliases for ghost variables that a list does not resolve hide nothing
/// that the list they are added to covers of it.
pub proof fn lemma_alias_keeps_covers(
    big: Seq<BindingModel>,
    small: Seq<BindingModel>,
    aliases: Seq<(GhostVar, GhostVar)>,
    n: nat,
)
    requires
        n <= aliases.len(),
        covers(big, small),
        alias_names(big, aliases, n) is Ok,
        forall|k: int|
            0 <= k < aliases.len() ==> lookup(small, Var::GhostVar((#[trigger] aliases[k]).0)) is None,
    ensures
        covers(alias_names(big, aliases, n).unwrap(), small),
    decreases n,
{
    if n > 0 {
        let m = (n - 1) as nat;
        lemma_alias_keeps_covers(big, small, aliases, m);
        let inner = alias_names(big, aliases, m).unwrap();
        let found = lookup(inner, Var::GhostVar(aliases[n - 1].1)).unwrap();
        assert(lookup(small, Var::GhostVar(aliases[n - 1].0)) is None);
        lemma_covers_push_fresh(
            inner,
            small,
            BindingModel { var: Var::GhostVar(aliases[n - 1].0), ty: found.ty, start: found.start },
        );
    }
}

/// A variable that a list does not resolve and that no alias stands for is
/// not resolved by the list with the aliases.
pub proof fn lemma_alias_names_absent(
    names: Seq<BindingModel>,
    aliases: Seq<(GhostVar, GhostVar)>,
    n: nat,
    var: Var,
)
    requires
        n <= aliases.len(),
        alias_names(names, aliases, n) is Ok,
        lookup(names, var) is None,
        forall|k: int| 0 <= k < aliases.len() ==> Var::GhostVar((#[trigger] aliases[k]).0) != var,
    ensures
        lookup(alias_names(names, aliases, n).unwrap(), var) is None,
    decreases n,
{
    if n > 0 {
        let m = (n - 1) as nat;
        lemma_alias_names_absent(names, aliases, m, var);
        let inner = alias_names(names, aliases, m).unwrap();
        let after = alias_names(names, aliases, n).unwrap();
        assert(after.drop_last() =~= inner);
        assert(Var::GhostVar(aliases[n - 1].0) != var);
    }
}

/// What holds of the values that a constraint is about, once the heap of
/// the environment is bound: the quantifiers of the heap are the first of
/// all the quantifiers, which are few enough to be counted in a machine
/// word, and the premise of every quantifier holds.
pub open spec fn settled(
    heap: Seq<FactModel>,
    all: Seq<(Sort, PredModel)>,
    vals: Seq<Value>,
    solution: Solution,
) -> bool {
    &&& bind_heap(empty_scope(), heap, heap.len()) is Ok
    &&& all.len() <= usize::MAX
    &&& all.len() <= vals.len()
    &&& bound(heap, heap.len()).layers.len() <= all.len()
    &&& all.take(bound(heap, heap.len()).layers.len() as int) == bound(heap, heap.len()).layers
    &&& premises_hold(all, 0, all.len() as int, vals, solution)
}

/// What the first `n` fields of a tuple owe to themselves are premises
/// that hold: the tuple version of `lemma_owes`.
pub proof fn lemma_fields_owe(
    heap: Seq<FactModel>,
    all: Seq<(Sort, PredModel)>,
    scope: ScopeModel,
    fields: Seq<(Field, TyTree)>,
    n: nat,
    names: Seq<BindingModel>,
    fuel: nat,
    vals: Seq<Value>,
    solution: Solution,
)
    requires
        settled(heap, all, vals, solution),
        fields_ref_free(fields, n) || never_reused(heap),
        n <= fields.len(),
        bind_fields(scope, fields, n) is Ok,
        bind_fields(scope, fields, n).unwrap().layers.len() <= all.len(),
        all.take(bind_fields(scope, fields, n).unwrap().layers.len() as int) == bind_fields(
            scope,
            fields,
            n,
        ).unwrap().layers,
        levels_below(scope.names, scope.layers.len() as int),
        covers(names, scope.names),
        covers(names, bound(heap, heap.len()).names),
        oblige_fields(names, heap, fuel, fields, scope.layers.len() as usize, fields, n) is Ok,
    ensures
        ({
            let after = bind_fields(scope, fields, n).unwrap();
            let owed = oblige_fields(
                names,
                heap,
                fuel,
                fields,
                scope.layers.len() as usize,
                fields,
                n,
            ).unwrap();
            &&& owed.2 == after.layers.len()
            &&& all_hold(owed.1, vals, solution)
            &&& covers(owed.0, after.names)
            &&& covers(owed.0, bound(heap, heap.len()).names)
            &&& levels_below(after.names, after.layers.len() as int)
        }),
    decreases fuel, fields, n,
{
    let start = scope.layers.len() as usize;
    let whole = bound(heap, heap.len()).names;
    if n > 0 {
        let m = (n - 1) as nat;
        let before = bind_fields(scope, fields, m).unwrap();
        let after = bind_fields(scope, fields, n).unwrap();
        let var = Var::Field(fields[n - 1].0);
        let ty = fields[n - 1].1;
        assert(after == bind(before, var, ty).unwrap());
        lemma_bind_no_fewer(before, var, ty);
        lemma_bind_fields_grow(scope, fields, m);
        lemma_bind_grows(before, var, ty);
        assert(all.take(before.layers.len() as int) =~= before.layers) by {
            assert forall|k: int| 0 <= k < before.layers.len() implies #[trigger] all[k]
                == before.layers[k] by {
                assert(all.take(after.layers.len() as int)[k] == all[k]);
                assert(after.layers.take(before.layers.len() as int)[k] == after.layers[k]);
            }
        }
        lemma_fields_owe(heap, all, scope, fields, m, names, fuel, vals, solution);
        let earlier = oblige_fields(names, heap, fuel, fields, start, fields, m).unwrap();
        lemma_owes(heap, all, before, var, ty, earlier.0, fuel, vals, solution);
        let step = oblige(earlier.0, heap, fuel, ty, earlier.2, ty).unwrap();
        let owed = oblige_fields(names, heap, fuel, fields, start, fields, n).unwrap();
        assert(owed.1 == earlier.1 + step.0);
        assert forall|i: int| 0 <= i < owed.1.len() implies (#[trigger] owed.1[i]).holds(
            vals,
            solution,
        ) by {
            if i < earlier.1.len() {
                assert(owed.1[i] == earlier.1[i]);
            } else {
                assert(owed.1[i] == step.0[i - earlier.1.len()]);
            }
        }
        let binding = BindingModel { var, ty, start: before.layers.len() as usize };
        lemma_covers_push(earlier.0, before.names, binding);
        lemma_bound_names(heap, heap.len());
        assert forall|i: int| 0 <= i < whole.len() implies (#[trigger] whole[i]).var != var by {}
        lemma_lookup_absent(whole, var);
        lemma_covers_push_fresh(earlier.0, whole, binding);
    }
}

/// What the pointee of a reference owes to the type of its entry in the
/// heap are premises that hold. The reference is the type `of`, which
/// gives the measure of the induction.
pub proof fn lemma_pointee_owes(
    heap: Seq<FactModel>,
    all: Seq<(Sort, PredModel)>,
    g: GhostVar,
    names: Seq<BindingModel>,
    fuel: nat,
    vals: Seq<Value>,
    solution: Solution,
    of: TyTree,
)
    requires
        settled(heap, all, vals, solution),
        never_reused(heap),
        covers(names, bound(heap, heap.len()).names),
        fuel > 0,
        lookup(names, Var::GhostVar(g)) is Some,
        fact_of(heap, g) is Some,
        alias_names(names, fact_of(heap, g).unwrap().aliases, fact_of(heap, g).unwrap().aliases.len())
            is Ok,
        oblige(
            alias_names(
                names,
                fact_of(heap, g).unwrap().aliases,
                fact_of(heap, g).unwrap().aliases.len(),
            ).unwrap().push(
                BindingModel {
                    var: Var::GhostVar(g),
                    ty: lookup(names, Var::GhostVar(g)).unwrap().ty,
                    start: lookup(names, Var::GhostVar(g)).unwrap().start,
                },
            ),
            heap,
            (fuel - 1) as nat,
            lookup(names, Var::GhostVar(g)).unwrap().ty,
            lookup(names, Var::GhostVar(g)).unwrap().start,
            fact_of(heap, g).unwrap().ty,
        ) is Ok,
    ensures
        all_hold(
            oblige(
                alias_names(
                    names,
                    fact_of(heap, g).unwrap().aliases,
                    fact_of(heap, g).unwrap().aliases.len(),
                ).unwrap().push(
                    BindingModel {
                        var: Var::GhostVar(g),
                        ty: lookup(names, Var::GhostVar(g)).unwrap().ty,
                        start: lookup(names, Var::GhostVar(g)).unwrap().start,
                    },
                ),
                heap,
                (fuel - 1) as nat,
                lookup(names, Var::GhostVar(g)).unwrap().ty,
                lookup(names, Var::GhostVar(g)).unwrap().start,
                fact_of(heap, g).unwrap().ty,
            ).unwrap().0,
            vals,
            solution,
        ),
    decreases fuel, of, 0nat,
{
    let whole = bound(heap, heap.len());
    let pointee = lookup(names, Var::GhostVar(g)).unwrap();
    let fact = fact_of(heap, g).unwrap();
    lemma_fact_of_member(heap, g);
    let at = choose|i: int| 0 <= i < heap.len() && heap[i] == fact && heap[i].var == g;
    lemma_bound_names(heap, heap.len());
    lemma_bound_lookup(heap, at);
    assert(lookup(whole.names, Var::GhostVar(g)) == Some(whole.names[at]));
    assert(pointee == whole.names[at]);
    let earlier = bound(heap, at as nat);
    let read = read_names(heap, at);
    let under = ScopeModel { names: read, layers: earlier.layers };
    let pointee_after = bind(under, Var::GhostVar(g), fact.ty).unwrap();
    assert(bound(heap, (at + 1) as nat) == bind_fact(earlier, heap[at]).unwrap());
    assert(pointee_after.layers == bound(heap, (at + 1) as nat).layers);
    assert(all.take(pointee_after.layers.len() as int) =~= pointee_after.layers) by {
        assert forall|k: int| 0 <= k < pointee_after.layers.len() implies #[trigger] all[k]
            == pointee_after.layers[k] by {
            assert(all.take(whole.layers.len() as int)[k] == all[k]);
            assert(whole.layers.take(pointee_after.layers.len() as int)[k]
                == whole.layers[k]);
        }
    }
    lemma_alias_names_below(
        earlier.names,
        fact.aliases,
        fact.aliases.len(),
        earlier.layers.len() as int,
    );
    let extended = alias_names(names, fact.aliases, fact.aliases.len()).unwrap();
    let alias = BindingModel {
        var: Var::GhostVar(g),
        ty: pointee.ty,
        start: pointee.start,
    };
    assert(alias == whole.names[at]);
    lemma_bound_covers(heap, at as nat);
    lemma_covers_trans(names, whole.names, earlier.names);
    lemma_alias_covers(names, earlier.names, fact.aliases, fact.aliases.len());
    lemma_bound_names(heap, at as nat);
    assert forall|i: int| 0 <= i < earlier.names.len() implies (#[trigger] earlier.names[i]).var
        != Var::GhostVar(g) by {
        assert(earlier.names[i].var == Var::GhostVar(heap[i].var));
        assert(heap[i].var != heap[at].var);
    }
    lemma_lookup_absent(earlier.names, Var::GhostVar(g));
    assert forall|k: int| 0 <= k < fact.aliases.len() implies Var::GhostVar(
        (#[trigger] fact.aliases[k]).0,
    ) != Var::GhostVar(g) by {
        assert(heap[at].aliases[k].0 != heap[at].var);
    }
    lemma_alias_names_absent(
        earlier.names,
        fact.aliases,
        fact.aliases.len(),
        Var::GhostVar(g),
    );
    lemma_covers_push_fresh(extended, read, alias);
    assert forall|k: int| 0 <= k < fact.aliases.len() implies lookup(
        whole.names,
        Var::GhostVar((#[trigger] fact.aliases[k]).0),
    ) is None by {
        assert forall|i: int| 0 <= i < whole.names.len() implies (#[trigger] whole.names[i]).var
            != Var::GhostVar(fact.aliases[k].0) by {
            assert(whole.names[i].var == Var::GhostVar(heap[i].var));
            assert(heap[at].aliases[k].0 != heap[i].var);
        }
        lemma_lookup_absent(whole.names, Var::GhostVar(fact.aliases[k].0));
    }
    lemma_alias_keeps_covers(names, whole.names, fact.aliases, fact.aliases.len());
    lemma_covers_push_same(extended, whole.names, alias);
    lemma_owes(
        heap,
        all,
        under,
        Var::GhostVar(g),
        fact.ty,
        extended.push(alias),
        (fuel - 1) as nat,
        vals,
        solution,
    );
}

/// What a variable owes to the type with which it was bound are premises
/// that hold: where the premise of every quantifier holds, all that it
/// owes holds. Where the type holds a reference, no ghost variable of the
/// heap may be used twice.
pub proof fn lemma_owes(
    heap: Seq<FactModel>,
    all: Seq<(Sort, PredModel)>,
    scope: ScopeModel,
    var: Var,
    ty: TyTree,
    names: Seq<BindingModel>,
    fuel: nat,
    vals: Seq<Value>,
    solution: Solution,
)
    requires
        settled(heap, all, vals, solution),
        ref_free(ty) || never_reused(heap),
        bind(scope, var, ty) is Ok,
        bind(scope, var, ty).unwrap().layers.len() <= all.len(),
        all.take(bind(scope, var, ty).unwrap().layers.len() as int) == bind(
            scope,
            var,
            ty,
        ).unwrap().layers,
        levels_below(scope.names, scope.layers.len() as int),
        covers(names, scope.names),
        covers(names, bound(heap, heap.len()).names),
        oblige(names, heap, fuel, ty, scope.layers.len() as usize, ty) is Ok,
    ensures
        ({
            let after = bind(scope, var, ty).unwrap();
            let owed = oblige(names, heap, fuel, ty, scope.layers.len() as usize, ty).unwrap();
            &&& owed.1 == after.layers.len()
            &&& all_hold(owed.0, vals, solution)
        }),
    decreases fuel, ty, 1nat,
{
    let after = bind(scope, var, ty).unwrap();
    let start = scope.layers.len() as usize;
    lemma_bind_no_fewer(scope, var, ty);
    match ty {
        TyTree::Refined(_, refine) => {
            let premise = compile_refine(scope.names, start, refine).unwrap();
            lemma_covers_refine(names, scope.names, start, refine);
            assert(after.layers[start as int].1 == premise);
            assert(all.take(after.layers.len() as int)[start as int] == all[start as int]);
            assert(all[start as int].1.holds(vals.take(start + 1), solution));
            assert(levels_below(scope.names, start + 1));
            lemma_refine_below(scope.names, start, refine, start + 1);
            lemma_holds_local(premise, vals, start + 1, solution);
        },
        TyTree::Tuple(fields) => {
            lemma_fields_owe(heap, all, scope, fields, fields.len(), names, fuel, vals, solution);
        },
        TyTree::Ref(_, region, g) => {
            lemma_contained_refl(region);
            lemma_pointee_owes(heap, all, g, names, fuel, vals, solution, ty);
        },
        TyTree::Uninit(_) => {},
    }
}

/// Subtyping is reflexive: the constraint of the judgment that a type is a
/// subtype of itself holds whatever the unknown predicates mean. Every
/// obligation of such a constraint is one of its own premises.
///
/// For a type that holds a reference this is so in an environment in
/// which no ghost variable is used twice; for any other type it is so in
/// every environment. The quantifiers of the constraint must be few enough
/// to be counted in a machine word.
pub proof fn lemma_subtype_reflexive(env: EnvModel, ty: TyTree)
    requires
        ref_free(ty) || never_reused(env.heap),
        subtype_constraint(env, ty, ty) is Ok,
        bind(
            bind_heap(empty_scope(), env.heap, env.heap.len()).unwrap(),
            Var::Nu,
            ty,
        ).unwrap().layers.len() <= usize::MAX,
    ensures
        subtype_constraint(env, ty, ty).unwrap().valid(),
{
    let scope = bound(env.heap, env.heap.len());
    let inner = bind(scope, Var::Nu, ty).unwrap();
    let start = scope.layers.len() as usize;
    lemma_bind_no_fewer(scope, Var::Nu, ty);
    lemma_bind_heap_below(empty_scope(), env.heap, env.heap.len());
    lemma_bind_grows(scope, Var::Nu, ty);
    lemma_covers_refl(scope.names);
    lemma_covers_behind_nu(scope.names, scope.names, BindingModel { var: Var::Nu, ty, start });
    let owed = oblige(inner.names, env.heap, env.heap.len(), ty, start, ty).unwrap().0;
    let body = all_of(owed);
    let layers = inner.layers;
    assert(layers.take(layers.len() as int) =~= layers);
    assert forall|solution: Solution|
        subtype_constraint(env, ty, ty).unwrap().holds(Seq::empty(), solution) by {
        assert forall|vals: Seq<Value>| #[trigger]
            fits(layers, 0, Seq::empty(), vals, solution) implies body.holds(vals, solution) by {
            assert(premises_hold(layers, 0, layers.len() as int, vals, solution));
            lemma_owes(
                env.heap,
                layers,
                scope,
                Var::Nu,
                ty,
                inner.names,
                env.heap.len(),
                vals,
                solution,
            );
            lemma_all_of_holds(owed, vals, solution);
        }
        lemma_wrap_holds(layers, 0, body, Seq::empty(), solution);
    }
}

/// Whether every ghost variable that an environment uses, for an entry of
/// its heap or as the name that an alias gives a meaning to, is below
/// `bound`.
pub open spec fn all_below(env: EnvModel, bound: nat) -> bool {
    &&& forall|i: int| 0 <= i < env.heap.len() ==> (#[trigger] env.heap[i]).var.0 < bound
    &&& forall|i: int, k: int|
        0 <= i < env.heap.len() && 0 <= k < env.heap[i].aliases.len() ==> (
        #[trigger] env.heap[i].aliases[k]).0.0 < bound
}

/// A statement never uses a ghost variable twice: in an environment whose
/// ghost variables are all below the first unused one, and none of which is
/// used twice, the environment after the statement is such an environment
/// again, for the first ghost variable that is unused afterwards.
pub proof fn lemma_synth_never_reuses(env: EnvModel, statement: Statement, next: nat)
    requires
        never_reused(env.heap),
        all_below(env, next),
        synth(env, statement, next) is Ok,
    ensures
        never_reused(synth(env, statement, next).unwrap().heap),
        all_below(synth(env, statement, next).unwrap(), next + used(statement)),
{
    let after = synth(env, statement, next).unwrap();
    match statement {
        Statement::Noop => {},
        Statement::Assign(_, _) => {
            let n = env.heap.len() as int;
            assert(after.heap.len() == n + 1);
            assert(after.heap[n].var == crate::ty::GhostVar(next as usize));
            assert(after.heap[n].aliases.len() == 0);
            assert forall|i: int| 0 <= i < n implies #[trigger] after.heap[i] == env.heap[i] by {}
            assert forall|i: int, j: int| 0 <= i < j < after.heap.len() implies (
            #[trigger] after.heap[i]).var != (#[trigger] after.heap[j]).var by {
                if j < n {
                    assert(env.heap[i].var != env.heap[j].var);
                } else {
                    assert(env.heap[i].var.0 < next);
                }
            }
            assert forall|i: int, j: int, k: int|
                0 <= i < after.heap.len() && 0 <= j < after.heap.len() && 0 <= k
                    < after.heap[i].aliases.len() implies (#[trigger] after.heap[i].aliases[k]).0 != (
            #[trigger] after.heap[j]).var by {
                assert(i < n);
                if j < n {
                    assert(env.heap[i].aliases[k].0 != env.heap[j].var);
                } else {
                    assert(env.heap[i].aliases[k].0.0 < next);
                }
            }
            assert forall|i: int| 0 <= i < after.heap.len() implies (#[trigger] after.heap[i]).var.0
                < next + 1 by {
                if i < n {
                    assert(env.heap[i].var.0 < next);
                }
            }
            assert forall|i: int, k: int|
                0 <= i < after.heap.len() && 0 <= k < after.heap[i].aliases.len() implies (
            #[trigger] after.heap[i].aliases[k]).0.0 < next + 1 by {
                assert(i < n);
                assert(env.heap[i].aliases[k].0.0 < next);
            }
        },
    }
}

/// The statements of a block never use a ghost variable twice.
pub proof fn lemma_run_never_reuses(env: EnvModel, statements: Seq<Statement>, next: nat, n: nat)
    requires
        n <= statements.len(),
        never_reused(env.heap),
        all_below(env, next),
        run(env, statements, next, n) is Ok,
    ensures
        never_reused(run(env, statements, next, n).unwrap().0.heap),
        all_below(run(env, statements, next, n).unwrap().0, run(env, statements, next, n).unwrap().1),
    decreases n,
{
    if n > 0 {
        lemma_run_never_reuses(env, statements, next, (n - 1) as nat);
        let before = run(env, statements, next, (n - 1) as nat).unwrap();
        lemma_synth_never_reuses(before.0, statements[n - 1], before.1);
    }
}

} // verus!
