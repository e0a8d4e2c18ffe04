//! Checking: what a basic block owes when it hands control on.

use crate::check::env::{
    fact_of, find_fact, find_typed, ghost_of, heap_model, heap_valid, typed_model, typed_valid,
    BBlockEnv, BBlockTy, Env, EnvModel, Fact, FactModel, FnDeclModel, GlobEnv, TyError, TyResult,
};
use crate::check::subtype::{entail, entailment, trees_of};
use crate::check::synth::{lemma_heap_model_stable, synth, used};
use crate::fixpoint::constraint::Constraint;
use crate::fixpoint::model::{models_of, ConstraintModel};
use crate::mir::{BBlock, BBlockId, Body, FnId, Local, Statement, Terminator};
use crate::ty::context::{is_ty, well_formed, TyCtxt};
use crate::ty::make::{extends, lemma_extends_refl, lemma_extends_trans, lemma_handles_stable};
use crate::ty::rename::rename_pointees;
use crate::ty::tree::{lemma_ty_tree_stable, TyTree};
use crate::ty::{FnDecl, GhostVar, NodeModel, Ty, TyKind, Var};
use vstd::prelude::*;

verus! {

/// Collects the constraints of one function.
pub struct Emitter {
    pub constraints: Vec<Constraint>,
}

impl Emitter {
    /// The constraints emitted so far, as mathematical values.
    pub open spec fn emitted(&self) -> Seq<ConstraintModel> {
        models_of(self.constraints@)
    }

    /// An emitter that has emitted nothing.
    pub fn new() -> (emitter: Emitter)
        ensures
            emitter.emitted() == Seq::<ConstraintModel>::empty(),
    {
        let emitter = Emitter { constraints: Vec::new() };
        assert(emitter.emitted() =~= Seq::<ConstraintModel>::empty());
        emitter
    }

    /// Emits one constraint.
    pub fn emit(&mut self, constraint: Constraint)
        ensures
            final(self).emitted() == old(self).emitted().push(constraint.model()),
    {
        self.constraints.push(constraint);
        assert(self.emitted() =~= old(self).emitted().push(constraint.model()));
    }

    /// All that was emitted, as one constraint.
    pub fn finish(self) -> (all: Constraint)
        ensures
            all.model() == crate::fixpoint::model::all_of(self.emitted()),
    {
        crate::check::subtype::conjoin(self.constraints)
    }
}

/// The entries of a heap for a list of ghost variables with their types.
pub fn facts_of(typed: &Vec<(GhostVar, Ty)>, tcx: &TyCtxt) -> (facts: Vec<Fact>)
    ensures
        heap_model(facts@, tcx@) == typed_model(typed@, tcx@),
        typed_valid(typed@, tcx@) ==> heap_valid(facts@, tcx@),
{
    let mut facts: Vec<Fact> = Vec::new();
    let mut i: usize = 0;
    while i < typed.len()
        invariant
            i <= typed.len(),
            facts@.len() == i,
            forall|k: int|
                0 <= k < i ==> (#[trigger] facts@[k]).var == typed@[k].0 && facts@[k].ty
                    == typed@[k].1 && facts@[k].aliases@ == Seq::<(GhostVar, GhostVar)>::empty(),
        decreases typed.len() - i,
    {
        facts.push(Fact { var: typed[i].0, ty: typed[i].1, aliases: Vec::new() });
        i = i + 1;
    }
    assert(heap_model(facts@, tcx@) =~= typed_model(typed@, tcx@));
    assert(typed_valid(typed@, tcx@) ==> heap_valid(facts@, tcx@)) by {
        if typed_valid(typed@, tcx@) {
            assert forall|k: int| 0 <= k < facts@.len() implies crate::ty::context::is_ty(
                tcx@,
                (#[trigger] facts@[k]).ty,
                tcx@.len() as int,
            ) by {
                assert(facts@[k].ty == typed@[k].1);
            }
        }
    }
    facts
}

/// What the first `n` locals of the input of a block need at the entry of
/// the block: for each, the alias from its ghost variable in the input to
/// its ghost variable in the environment, that ghost variable, and the type
/// that the input gives it.
pub open spec fn entry_parts(env: EnvModel, input: EnvModel, n: nat) -> Result<
    (Seq<(GhostVar, GhostVar)>, Seq<GhostVar>, Seq<TyTree>),
    TyError,
>
    decreases n,
{
    if n == 0 || n > input.locals.len() {
        Ok((Seq::empty(), Seq::empty(), Seq::empty()))
    } else {
        match entry_parts(env, input, (n - 1) as nat) {
            Err(e) => Err(e),
            Ok((aliases, vars, targets)) => {
                let local = input.locals[n - 1].0;
                let expected = input.locals[n - 1].1;
                match ghost_of(env.locals, local) {
                    None => Err(TyError::UnboundLocal(local)),
                    Some(var) => match fact_of(input.heap, expected) {
                        None => Err(TyError::UnboundVar(Var::GhostVar(expected))),
                        Some(fact) => Ok(
                            (aliases.push((expected, var)), vars.push(var), targets.push(fact.ty)),
                        ),
                    },
                }
            },
        }
    }
}

/// The constraint that holds exactly when the environment `env` may enter
/// a block that expects the environment `input`: every local of the input
/// has, in `env`, a type that is a subtype of the one expected.
pub open spec fn enter(env: EnvModel, input: EnvModel, guard: Option<(GhostVar, bool)>) -> Result<
    ConstraintModel,
    TyError,
> {
    match entry_parts(env, input, input.locals.len()) {
        Err(e) => Err(e),
        Ok((aliases, vars, targets)) => entailment(env, aliases, vars, targets, input.heap, guard),
    }
}

/// Once a local fails, the input fails with its error.
pub proof fn lemma_entry_parts_error_stays(env: EnvModel, input: EnvModel, n: int)
    requires
        0 <= n <= input.locals.len(),
        entry_parts(env, input, n as nat) is Err,
    ensures
        entry_parts(env, input, input.locals.len()) == entry_parts(env, input, n as nat),
    decreases input.locals.len() - n,
{
    if n < input.locals.len() {
        lemma_entry_parts_error_stays(env, input, n + 1);
    }
}

impl BBlockEnv {
    /// Whether every type of every block is a type of the table.
    pub open spec fn valid(&self, nodes: Seq<NodeModel>) -> bool {
        forall|i: int|
            0 <= i < self.blocks@.len() ==> (#[trigger] self.blocks@[i]).1.input.valid(nodes)
    }

    /// The input that the environment gives for a block.
    pub open spec fn input_of(&self, id: BBlockId, nodes: Seq<NodeModel>) -> Option<EnvModel> {
        match Self::place_of(self.blocks@, id) {
            Some(at) => if 0 <= at < self.blocks@.len() {
                Some(self.blocks@[at].1.input.model(nodes))
            } else {
                None
            },
            None => None,
        }
    }
}

/// What entering the block `id` from the environment `env` owes.
pub open spec fn enter_block(
    env: EnvModel,
    input: Option<EnvModel>,
    id: BBlockId,
    guard: Option<(GhostVar, bool)>,
) -> Result<ConstraintModel, TyError> {
    match input {
        None => Err(TyError::MissingBlock(id)),
        Some(input) => enter(env, input, guard),
    }
}

/// Compiles the judgment that the environment `env` may enter a block that
/// expects `input`.
pub fn enter_with(tcx: &TyCtxt, env: &Env, input: &Env, guard: Option<(GhostVar, bool)>) -> (compiled:
    Result<Constraint, TyError>)
    requires
        tcx.wf(),
        env.valid(tcx@),
        input.valid(tcx@),
    ensures
        match (compiled, enter(env.model(tcx@), input.model(tcx@), guard)) {
            (Ok(constraint), Ok(expected)) => constraint.model() == expected,
            (Err(e), Err(expected)) => e == expected,
            _ => false,
        },
{
    let ghost from = env.model(tcx@);
    let ghost to = input.model(tcx@);
    let mut aliases: Vec<(GhostVar, GhostVar)> = Vec::new();
    let mut vars: Vec<GhostVar> = Vec::new();
    let mut targets: Vec<Ty> = Vec::new();
    let mut i: usize = 0;
    proof {
        assert(trees_of(targets@, tcx@) =~= Seq::<TyTree>::empty());
    }
    while i < input.locals.len()
        invariant
            i <= input.locals.len(),
            tcx.wf(),
            input.valid(tcx@),
            from == env.model(tcx@),
            to == input.model(tcx@),
            vars@.len() == targets@.len(),
            forall|k: int| 0 <= k < targets@.len() ==> tcx.has_ty(#[trigger] targets@[k]),
            entry_parts(from, to, i as nat) matches Ok((a, v, t)) && a == aliases@ && v == vars@
                && t == trees_of(targets@, tcx@),
        decreases input.locals.len() - i,
    {
        let local = input.locals[i].0;
        let expected = input.locals[i].1;
        let ghost wanted = trees_of(targets@, tcx@);
        let var = match env.ghost_of(local) {
            Some(var) => var,
            None => {
                proof {
                    lemma_entry_parts_error_stays(from, to, i + 1);
                }
                return Err(TyError::UnboundLocal(local));
            },
        };
        let at = match find_fact(&input.heap, expected, tcx) {
            Some(at) => at,
            None => {
                proof {
                    lemma_entry_parts_error_stays(from, to, i + 1);
                }
                return Err(TyError::UnboundVar(Var::GhostVar(expected)));
            },
        };
        let target = input.heap[at].ty;
        aliases.push((expected, var));
        vars.push(var);
        targets.push(target);
        proof {
            assert(trees_of(targets@, tcx@) =~= wanted.push(tcx.ty_tree(target)));
        }
        i = i + 1;
    }
    entail(tcx, env, &aliases, &vars, &targets, &input.heap, guard)
}

impl BBlockId {
    /// Emits what entering this block from the environment `env` owes.
    pub fn check(&self, tcx: &TyCtxt, env: &Env, emitter: &mut Emitter, bb_env: &BBlockEnv) -> (done:
        TyResult)
        requires
            tcx.wf(),
            env.valid(tcx@),
            bb_env.valid(tcx@),
        ensures
            match (
                done,
                enter_block(env.model(tcx@), bb_env.input_of(*self, tcx@), *self, None),
            ) {
                (Ok(()), Ok(expected)) => final(emitter).emitted() == old(emitter).emitted().push(
                    expected,
                ),
                (Err(e), Err(expected)) => e == expected,
                _ => false,
            },
    {
        let bb_ty = match bb_env.get_ty(*self) {
            Ok(bb_ty) => bb_ty,
            Err(e) => {
                return Err(e);
            },
        };
        match enter_with(tcx, env, &bb_ty.input, None) {
            Ok(constraint) => {
                emitter.emit(constraint);
                Ok(())
            },
            Err(e) => Err(e),
        }
    }
}

/// The ghost variable of what the reference in a local points at.
pub open spec fn pointee_of(env: EnvModel, local: Local) -> Result<GhostVar, TyError> {
    match ghost_of(env.locals, local) {
        None => Err(TyError::UnboundLocal(local)),
        Some(var) => match fact_of(env.heap, var) {
            None => Err(TyError::UnboundVar(Var::GhostVar(var))),
            Some(fact) => match fact.ty {
                TyTree::Ref(_, _, pointee) => Ok(pointee),
                _ => Err(TyError::ShapeMismatch),
            },
        },
    }
}

/// What the first `n` outputs of a declaration need at a return: for each,
/// the ghost variable of what the reference in its parameter points at, and
/// the type that the declaration ensures of it. The input at place `i` is
/// the parameter in local `_(i + 1)`.
pub open spec fn output_parts(env: EnvModel, decl: FnDeclModel, n: nat) -> Result<
    (Seq<GhostVar>, Seq<TyTree>),
    TyError,
>
    decreases n,
{
    if n == 0 || n > decl.outputs.len() {
        Ok((Seq::empty(), Seq::empty()))
    } else {
        match output_parts(env, decl, (n - 1) as nat) {
            Err(e) => Err(e),
            Ok((vars, targets)) => {
                let input = decl.outputs[n - 1].0;
                let ensured = decl.outputs[n - 1].1;
                if input >= decl.inputs.len() {
                    Err(TyError::NoSuchInput(input))
                } else {
                    match pointee_of(env, Local((input + 1) as usize)) {
                        Err(e) => Err(e),
                        Ok(pointee) => match fact_of(decl.ensures, ensured) {
                            None => Err(TyError::UnboundVar(Var::GhostVar(ensured))),
                            Some(fact) => Ok((vars.push(pointee), targets.push(fact.ty))),
                        },
                    }
                }
            },
        }
    }
}

/// The constraint that holds exactly when, in the environment `env`, the
/// function may return: the value of local `_0` has the type that the
/// declaration ensures of what the function returns, and what the
/// reference in each parameter with an output points at has the type that
/// the declaration ensures of that output.
pub open spec fn check_return(env: EnvModel, decl: FnDeclModel) -> Result<
    ConstraintModel,
    TyError,
> {
    match ghost_of(env.locals, Local(0)) {
        None => Err(TyError::UnboundLocal(Local(0))),
        Some(var) => match fact_of(decl.ensures, decl.output) {
            None => Err(TyError::UnboundVar(Var::GhostVar(decl.output))),
            Some(fact) => match output_parts(env, decl, decl.outputs.len()) {
                Err(e) => Err(e),
                Ok((vars, targets)) => entailment(
                    env,
                    Seq::empty(),
                    seq![var] + vars,
                    seq![fact.ty] + targets,
                    decl.ensures,
                    None,
                ),
            },
        },
    }
}

/// Once an output fails, the return fails with its error.
pub proof fn lemma_output_parts_error_stays(env: EnvModel, decl: FnDeclModel, n: int)
    requires
        0 <= n <= decl.outputs.len(),
        output_parts(env, decl, n as nat) is Err,
    ensures
        output_parts(env, decl, decl.outputs.len()) == output_parts(env, decl, n as nat),
    decreases decl.outputs.len() - n,
{
    if n < decl.outputs.len() {
        lemma_output_parts_error_stays(env, decl, n + 1);
    }
}

/// What a branch on the boolean local `discr` owes: what entering the
/// first block owes where the local is true, and what entering the second
/// owes where it is false.
pub open spec fn check_switch(
    env: EnvModel,
    discr: Local,
    on_true: Option<EnvModel>,
    first: BBlockId,
    on_false: Option<EnvModel>,
    second: BBlockId,
) -> Result<Seq<ConstraintModel>, TyError> {
    match ghost_of(env.locals, discr) {
        None => Err(TyError::UnboundLocal(discr)),
        Some(var) => match enter_block(env, on_true, first, Some((var, true))) {
            Err(e) => Err(e),
            Ok(taken) => match enter_block(env, on_false, second, Some((var, false))) {
                Err(e) => Err(e),
                Ok(skipped) => Ok(seq![taken, skipped]),
            },
        },
    }
}

/// What the first `n` arguments of a call need: for each, the alias from
/// the ghost variable of the input to the ghost variable of the argument,
/// that ghost variable, and the type that the declaration requires.
pub open spec fn call_parts(env: EnvModel, decl: FnDeclModel, args: Seq<Local>, n: nat) -> Result<
    (Seq<(GhostVar, GhostVar)>, Seq<GhostVar>, Seq<TyTree>),
    TyError,
>
    decreases n,
{
    if n == 0 || n > args.len() || n > decl.inputs.len() {
        Ok((Seq::empty(), Seq::empty(), Seq::empty()))
    } else {
        match call_parts(env, decl, args, (n - 1) as nat) {
            Err(e) => Err(e),
            Ok((aliases, vars, targets)) => match ghost_of(env.locals, args[n - 1]) {
                None => Err(TyError::UnboundLocal(args[n - 1])),
                Some(var) => match fact_of(decl.requires, decl.inputs[n - 1]) {
                    None => Err(TyError::UnboundVar(Var::GhostVar(decl.inputs[n - 1]))),
                    Some(fact) => Ok(
                        (
                            aliases.push((decl.inputs[n - 1], var)),
                            vars.push(var),
                            targets.push(fact.ty),
                        ),
                    ),
                },
            },
        }
    }
}

/// The renaming of a call after the first `n` facts that it ensures: the
/// aliases of its inputs, and for each of those facts its new ghost
/// variable for the one that the declaration uses.
pub open spec fn call_renaming(
    aliases: Seq<(GhostVar, GhostVar)>,
    ensures_: Seq<FactModel>,
    next: nat,
    n: nat,
) -> Seq<(GhostVar, GhostVar)>
    decreases n,
{
    if n == 0 || n > ensures_.len() {
        aliases
    } else {
        call_renaming(aliases, ensures_, next, (n - 1) as nat).push(
            (ensures_[n - 1].var, GhostVar((next + (n - 1)) as usize)),
        )
    }
}

/// The heap and the aliases after the first `n` facts that a call ensures
/// have been added. Each fact gets the next unused ghost variable. Its
/// refinements are read with the inputs standing for the arguments and the
/// ghost variables of the facts before it standing for their new ones; its
/// references point at the ghost variables that `full`, the renaming of
/// the whole call, gives for those of the declaration.
pub open spec fn call_facts(
    heap: Seq<FactModel>,
    aliases: Seq<(GhostVar, GhostVar)>,
    ensures_: Seq<FactModel>,
    full: Seq<(GhostVar, GhostVar)>,
    next: nat,
    n: nat,
) -> Result<(Seq<FactModel>, Seq<(GhostVar, GhostVar)>), TyError>
    decreases n,
{
    if n == 0 || n > ensures_.len() {
        Ok((heap, aliases))
    } else {
        match call_facts(heap, aliases, ensures_, full, next, (n - 1) as nat) {
            Err(e) => Err(e),
            Ok((grown, known)) => if next + (n - 1) >= usize::MAX {
                Err(TyError::Exhausted)
            } else {
                let var = GhostVar((next + (n - 1)) as usize);
                Ok(
                    (
                        grown.push(
                            FactModel {
                                var,
                                ty: rename_pointees(ensures_[n - 1].ty, full),
                                aliases: known,
                            },
                        ),
                        known.push((ensures_[n - 1].var, var)),
                    ),
                )
            },
        }
    }
}

/// The aliases after the first `n` facts of a call are the renaming of the
/// call after those facts.
pub proof fn lemma_call_facts_known(
    heap: Seq<FactModel>,
    aliases: Seq<(GhostVar, GhostVar)>,
    ensures_: Seq<FactModel>,
    full: Seq<(GhostVar, GhostVar)>,
    next: nat,
    n: nat,
)
    requires
        n <= ensures_.len(),
        call_facts(heap, aliases, ensures_, full, next, n) is Ok,
    ensures
        call_facts(heap, aliases, ensures_, full, next, n).unwrap().1 == call_renaming(
            aliases,
            ensures_,
            next,
            n,
        ),
    decreases n,
{
    if n > 0 {
        lemma_call_facts_known(heap, aliases, ensures_, full, next, (n - 1) as nat);
    }
}

/// Where the ghost variables do not suffice for the facts of a call, the
/// call fails for want of them.
pub proof fn lemma_call_facts_exhausted(
    heap: Seq<FactModel>,
    aliases: Seq<(GhostVar, GhostVar)>,
    ensures_: Seq<FactModel>,
    full: Seq<(GhostVar, GhostVar)>,
    next: nat,
    n: nat,
)
    requires
        n <= ensures_.len(),
    ensures
        call_facts(heap, aliases, ensures_, full, next, n) matches Err(e) ==> e
            == TyError::Exhausted,
        n >= 1 && next + (n - 1) >= usize::MAX ==> call_facts(heap, aliases, ensures_, full, next, n)
            is Err,
        next + n <= usize::MAX ==> call_facts(heap, aliases, ensures_, full, next, n) is Ok,
    decreases n,
{
    if n > 0 {
        lemma_call_facts_exhausted(heap, aliases, ensures_, full, next, (n - 1) as nat);
    }
}

/// The place of the last entry for a ghost variable in a heap.
pub open spec fn place_of_fact(heap: Seq<FactModel>, var: GhostVar) -> Option<int>
    decreases heap.len(),
{
    if heap.len() == 0 {
        None
    } else if heap.last().var == var {
        Some(heap.len() - 1)
    } else {
        place_of_fact(heap.drop_last(), var)
    }
}

/// The environment after a call: the facts that the declaration ensures
/// are in the heap under new ghost variables, and the new ghost variable of
/// what the function returns is that of the local `dest`.
pub open spec fn after_call(
    env: EnvModel,
    decl: FnDeclModel,
    aliases: Seq<(GhostVar, GhostVar)>,
    dest: Local,
    next: nat,
) -> Result<EnvModel, TyError> {
    match call_facts(
        env.heap,
        aliases,
        decl.ensures,
        call_renaming(aliases, decl.ensures, next, decl.ensures.len()),
        next,
        decl.ensures.len(),
    ) {
        Err(e) => Err(e),
        Ok((heap, _)) => match place_of_fact(decl.ensures, decl.output) {
            None => Err(TyError::UnboundVar(Var::GhostVar(decl.output))),
            Some(at) => Ok(
                EnvModel {
                    heap,
                    locals: env.locals.push((dest, GhostVar((next + at) as usize))),
                },
            ),
        },
    }
}

/// The environment after the first `n` outputs of a call have been
/// applied: the argument for the input of each output is a reference, and
/// what it points at afterwards is the new ghost variable of the fact that
/// the declaration ensures of that output. The argument gets an unused
/// ghost variable with the type of such a reference. `first` is the ghost
/// variable of the first fact that the call ensured, and `unused` the
/// first one that the call had not used after its facts.
pub open spec fn retyped(
    env: EnvModel,
    decl: FnDeclModel,
    args: Seq<Local>,
    first: nat,
    unused: nat,
    n: nat,
) -> Result<EnvModel, TyError>
    decreases n,
{
    if n == 0 || n > decl.outputs.len() {
        Ok(env)
    } else {
        match retyped(env, decl, args, first, unused, (n - 1) as nat) {
            Err(e) => Err(e),
            Ok(before) => {
                let input = decl.outputs[n - 1].0;
                let ensured = decl.outputs[n - 1].1;
                if input >= args.len() {
                    Err(TyError::NoSuchInput(input))
                } else {
                    retyped_one(before, decl, args[input as int], ensured, first, unused + (n - 1))
                }
            },
        }
    }
}

/// The environment after one output of a call has been applied to the
/// argument in `local`, where `unused` is the ghost variable that has not
/// been used yet.
pub open spec fn retyped_one(
    env: EnvModel,
    decl: FnDeclModel,
    local: Local,
    ensured: GhostVar,
    first: nat,
    unused: int,
) -> Result<EnvModel, TyError> {
    match ghost_of(env.locals, local) {
        None => Err(TyError::UnboundLocal(local)),
        Some(var) => match fact_of(env.heap, var) {
            None => Err(TyError::UnboundVar(Var::GhostVar(var))),
            Some(fact) => match fact.ty {
                TyTree::Ref(kind, region, _) => match place_of_fact(decl.ensures, ensured) {
                    None => Err(TyError::UnboundVar(Var::GhostVar(ensured))),
                    Some(at) => if unused >= usize::MAX {
                        Err(TyError::Exhausted)
                    } else {
                        let made = GhostVar(unused as usize);
                        Ok(
                            EnvModel {
                                heap: env.heap.push(
                                    FactModel {
                                        var: made,
                                        ty: TyTree::Ref(
                                            kind,
                                            region,
                                            GhostVar((first + at) as usize),
                                        ),
                                        aliases: Seq::empty(),
                                    },
                                ),
                                locals: env.locals.push((local, made)),
                            },
                        )
                    },
                },
                _ => Err(TyError::ShapeMismatch),
            },
        },
    }
}

/// Once an output fails, the call fails with its error.
pub proof fn lemma_retyped_error_stays(
    env: EnvModel,
    decl: FnDeclModel,
    args: Seq<Local>,
    first: nat,
    unused: nat,
    n: int,
)
    requires
        0 <= n <= decl.outputs.len(),
        retyped(env, decl, args, first, unused, n as nat) is Err,
    ensures
        retyped(env, decl, args, first, unused, decl.outputs.len()) == retyped(
            env,
            decl,
            args,
            first,
            unused,
            n as nat,
        ),
    decreases decl.outputs.len() - n,
{
    if n < decl.outputs.len() {
        lemma_retyped_error_stays(env, decl, args, first, unused, n + 1);
    }
}

/// What a call owes: that the arguments have the types that the
/// declaration requires, and, with what the declaration ensures taken for
/// granted and its outputs applied, what entering the block after the call
/// owes.
pub open spec fn check_call(
    env: EnvModel,
    decl: Option<FnDeclModel>,
    func: FnId,
    args: Seq<Local>,
    dest: Local,
    input: Option<EnvModel>,
    target: BBlockId,
    next: nat,
) -> Result<Seq<ConstraintModel>, TyError> {
    match decl {
        None => Err(TyError::MissingFn(func)),
        Some(decl) => if args.len() != decl.inputs.len() {
            Err(TyError::ArityMismatch(func))
        } else {
            match call_parts(env, decl, args, args.len()) {
                Err(e) => Err(e),
                Ok((aliases, vars, targets)) => match entailment(
                    env,
                    aliases,
                    vars,
                    targets,
                    decl.requires,
                    None,
                ) {
                    Err(e) => Err(e),
                    Ok(required) => match after_call(env, decl, aliases, dest, next) {
                        Err(e) => Err(e),
                        Ok(ensured) => match retyped(
                            ensured,
                            decl,
                            args,
                            next,
                            next + decl.ensures.len(),
                            decl.outputs.len(),
                        ) {
                            Err(e) => Err(e),
                            Ok(after) => match enter_block(after, input, target, None) {
                                Err(e) => Err(e),
                                Ok(entered) => Ok(seq![required, entered]),
                            },
                        },
                    },
                },
            }
        },
    }
}

impl GlobEnv {
    /// Whether every type of every declaration is a type of the table.
    pub open spec fn valid(&self, nodes: Seq<NodeModel>) -> bool {
        forall|i: int| 0 <= i < self.fns@.len() ==> (#[trigger] self.fns@[i]).1.valid(nodes)
    }

    /// The declaration that the environment gives for a function.
    pub open spec fn decl_of(&self, id: FnId, nodes: Seq<NodeModel>) -> Option<FnDeclModel> {
        match Self::place_of(self.fns@, id) {
            Some(at) => if 0 <= at < self.fns@.len() {
                Some(self.fns@[at].1.model(nodes))
            } else {
                None
            },
            None => None,
        }
    }
}

/// The ghost variables that a terminator uses up: one for each fact that
/// the declaration of a called function ensures and one for each of its
/// outputs, and none otherwise.
pub open spec fn consumed(terminator: &Terminator, glob: &GlobEnv, nodes: Seq<NodeModel>) -> nat {
    match terminator {
        Terminator::Call { func, args, dest, target } => match glob.decl_of(*func, nodes) {
            Some(decl) => decl.ensures.len() + decl.outputs.len(),
            None => 0,
        },
        _ => 0,
    }
}

/// What a terminator owes in the environment `env`, where `next` is the
/// ghost variable that has not been used yet.
pub open spec fn terminate(
    terminator: &Terminator,
    env: EnvModel,
    glob: &GlobEnv,
    bb_env: &BBlockEnv,
    decl: FnDeclModel,
    nodes: Seq<NodeModel>,
    next: nat,
) -> Result<Seq<ConstraintModel>, TyError> {
    match terminator {
        Terminator::Return => match check_return(env, decl) {
            Err(e) => Err(e),
            Ok(returned) => Ok(seq![returned]),
        },
        Terminator::Goto(target) => match enter_block(
            env,
            bb_env.input_of(*target, nodes),
            *target,
            None,
        ) {
            Err(e) => Err(e),
            Ok(entered) => Ok(seq![entered]),
        },
        Terminator::Switch(discr, first, second) => check_switch(
            env,
            *discr,
            bb_env.input_of(*first, nodes),
            *first,
            bb_env.input_of(*second, nodes),
            *second,
        ),
        Terminator::Call { func, args, dest, target } => check_call(
            env,
            glob.decl_of(*func, nodes),
            *func,
            args@,
            *dest,
            bb_env.input_of(*target, nodes),
            *target,
            next,
        ),
    }
}

/// The place of the last entry for a ghost variable in a list of typed
/// ghost variables.
pub fn find_place(typed: &Vec<(GhostVar, Ty)>, var: GhostVar, tcx: &TyCtxt) -> (at: Option<usize>)
    ensures
        match (at, place_of_fact(typed_model(typed@, tcx@), var)) {
            (Some(at), Some(expected)) => at == expected && at < typed.len(),
            (None, None) => true,
            _ => false,
        },
{
    let ghost all = typed_model(typed@, tcx@);
    let mut i: usize = typed.len();
    assert(all.take(i as int) =~= all);
    while i > 0
        invariant
            i <= typed.len(),
            all == typed_model(typed@, tcx@),
            all.len() == typed.len(),
            place_of_fact(all, var) == place_of_fact(all.take(i as int), var),
        decreases i,
    {
        i = i - 1;
        assert(all.take(i + 1).drop_last() =~= all.take(i as int));
        if typed[i].0 == var {
            assert(all.take(i + 1).last().var == var);
            return Some(i);
        }
    }
    None
}

/// A copy of a list of aliases.
pub fn copy_aliases(aliases: &Vec<(GhostVar, GhostVar)>) -> (copy: Vec<(GhostVar, GhostVar)>)
    ensures
        copy@ == aliases@,
{
    let mut copy: Vec<(GhostVar, GhostVar)> = Vec::new();
    let mut i: usize = 0;
    while i < aliases.len()
        invariant
            i <= aliases.len(),
            copy@ == aliases@.take(i as int),
        decreases aliases.len() - i,
    {
        copy.push(aliases[i]);
        assert(aliases@.take(i + 1) =~= aliases@.take(i as int).push(aliases@[i as int]));
        i = i + 1;
    }
    assert(aliases@.take(aliases.len() as int) =~= aliases@);
    copy
}

/// Once an argument fails, the call fails with its error.
pub proof fn lemma_call_parts_error_stays(env: EnvModel, decl: FnDeclModel, args: Seq<Local>, n: int)
    requires
        0 <= n <= args.len(),
        args.len() == decl.inputs.len(),
        call_parts(env, decl, args, n as nat) is Err,
    ensures
        call_parts(env, decl, args, args.len()) == call_parts(env, decl, args, n as nat),
    decreases args.len() - n,
{
    if n < args.len() {
        lemma_call_parts_error_stays(env, decl, args, n + 1);
    }
}

impl Terminator {
    /// The ghost variable of what the reference in a local points at.
    fn pointee(tcx: &TyCtxt, env: &Env, local: Local) -> (found: Result<GhostVar, TyError>)
        requires
            tcx.wf(),
            env.valid(tcx@),
        ensures
            found == pointee_of(env.model(tcx@), local),
    {
        let var = match env.ghost_of(local) {
            Some(var) => var,
            None => {
                return Err(TyError::UnboundLocal(local));
            },
        };
        let at = match find_fact(&env.heap, var, tcx) {
            Some(at) => at,
            None => {
                return Err(TyError::UnboundVar(Var::GhostVar(var)));
            },
        };
        let ty = env.heap[at].ty;
        let node = tcx.ty(ty);
        assert(tcx@[ty.index as int] == NodeModel::Ty(node.kind@));
        match &node.kind {
            TyKind::Ref(_, _, pointee) => Ok(*pointee),
            _ => Err(TyError::ShapeMismatch),
        }
    }

    /// Compiles what returning from the function owes.
    fn on_return(tcx: &TyCtxt, env: &Env, decl: &FnDecl) -> (compiled: Result<Constraint, TyError>)
        requires
            tcx.wf(),
            env.valid(tcx@),
            decl.valid(tcx@),
        ensures
            match (compiled, check_return(env.model(tcx@), decl.model(tcx@))) {
                (Ok(constraint), Ok(expected)) => constraint.model() == expected,
                (Err(e), Err(expected)) => e == expected,
                _ => false,
            },
    {
        let ghost from = env.model(tcx@);
        let ghost model = decl.model(tcx@);
        let var = match env.ghost_of(Local(0)) {
            Some(var) => var,
            None => {
                return Err(TyError::UnboundLocal(Local(0)));
            },
        };
        let at = match find_typed(&decl.ensures, decl.output, tcx) {
            Some(at) => at,
            None => {
                return Err(TyError::UnboundVar(Var::GhostVar(decl.output)));
            },
        };
        let target = decl.ensures[at].1;
        let heap = facts_of(&decl.ensures, tcx);
        let aliases: Vec<(GhostVar, GhostVar)> = Vec::new();
        let mut vars: Vec<GhostVar> = Vec::new();
        vars.push(var);
        let mut targets: Vec<Ty> = Vec::new();
        targets.push(target);
        proof {
            assert(tcx.has_ty(decl.ensures@[at as int].1));
            assert(trees_of(targets@, tcx@) =~= seq![tcx.ty_tree(target)] + Seq::<TyTree>::empty());
            assert(vars@ =~= seq![var] + Seq::<GhostVar>::empty());
            assert(aliases@ =~= Seq::<(GhostVar, GhostVar)>::empty());
        }
        let mut i: usize = 0;
        while i < decl.outputs.len()
            invariant
                i <= decl.outputs.len(),
                tcx.wf(),
                env.valid(tcx@),
                decl.valid(tcx@),
                from == env.model(tcx@),
                model == decl.model(tcx@),
                ghost_of(from.locals, Local(0)) == Some(var),
                fact_of(model.ensures, model.output) is Some,
                vars@.len() == targets@.len(),
                forall|k: int| 0 <= k < targets@.len() ==> tcx.has_ty(#[trigger] targets@[k]),
                output_parts(from, model, i as nat) matches Ok((v, t)) && vars@ == seq![var] + v
                    && trees_of(targets@, tcx@) == seq![tcx.ty_tree(target)] + t,
            decreases decl.outputs.len() - i,
        {
            let input = decl.outputs[i].0;
            let ensured = decl.outputs[i].1;
            let ghost so_far = output_parts(from, model, i as nat).unwrap();
            let ghost wanted = trees_of(targets@, tcx@);
            if input >= decl.inputs.len() {
                proof {
                    lemma_output_parts_error_stays(from, model, i + 1);
                }
                return Err(TyError::NoSuchInput(input));
            }
            let pointee = match Self::pointee(tcx, env, Local(input + 1)) {
                Ok(pointee) => pointee,
                Err(e) => {
                    proof {
                        lemma_output_parts_error_stays(from, model, i + 1);
                    }
                    return Err(e);
                },
            };
            let place = match find_typed(&decl.ensures, ensured, tcx) {
                Some(place) => place,
                None => {
                    proof {
                        lemma_output_parts_error_stays(from, model, i + 1);
                    }
                    return Err(TyError::UnboundVar(Var::GhostVar(ensured)));
                },
            };
            let ty = decl.ensures[place].1;
            proof {
                assert(tcx.has_ty(decl.ensures@[place as int].1));
            }
            vars.push(pointee);
            targets.push(ty);
            proof {
                assert(vars@ =~= seq![var] + so_far.0.push(pointee));
                assert(trees_of(targets@, tcx@) =~= wanted.push(tcx.ty_tree(ty)));
                assert(trees_of(targets@, tcx@) =~= seq![tcx.ty_tree(target)] + so_far.1.push(
                    tcx.ty_tree(ty),
                ));
            }
            i = i + 1;
        }
        entail(tcx, env, &aliases, &vars, &targets, &heap, None)
    }

    /// Compiles what entering the block `id` owes, on one side of a branch
    /// if `guard` names one.
    fn on_entry(
        tcx: &TyCtxt,
        env: &Env,
        bb_env: &BBlockEnv,
        id: BBlockId,
        guard: Option<(GhostVar, bool)>,
    ) -> (compiled: Result<Constraint, TyError>)
        requires
            tcx.wf(),
            env.valid(tcx@),
            bb_env.valid(tcx@),
        ensures
            match (compiled, enter_block(env.model(tcx@), bb_env.input_of(id, tcx@), id, guard)) {
                (Ok(constraint), Ok(expected)) => constraint.model() == expected,
                (Err(e), Err(expected)) => e == expected,
                _ => false,
            },
    {
        let bb_ty = match bb_env.get_ty(id) {
            Ok(bb_ty) => bb_ty,
            Err(e) => {
                return Err(e);
            },
        };
        enter_with(tcx, env, &bb_ty.input, guard)
    }

    /// Emits what the terminator owes in the environment `env`. A call
    /// leaves in `env` what it ensures; every other terminator leaves `env`
    /// as it is.
    pub fn check(
        &self,
        tcx: &mut TyCtxt,
        env: &mut Env,
        emitter: &mut Emitter,
        glob: &GlobEnv,
        bb_env: &BBlockEnv,
        decl: &FnDecl,
    ) -> (done: TyResult)
        requires
            old(tcx).wf(),
            old(env).valid(old(tcx)@),
            glob.valid(old(tcx)@),
            bb_env.valid(old(tcx)@),
            decl.valid(old(tcx)@),
        ensures
            final(tcx).wf(),
            extends(old(tcx)@, final(tcx)@),
            match (
                done,
                terminate(
                    self,
                    old(env).model(old(tcx)@),
                    glob,
                    bb_env,
                    decl.model(old(tcx)@),
                    old(tcx)@,
                    old(tcx).next_ghost(),
                ),
            ) {
                (Ok(()), Ok(owed)) => {
                    &&& final(emitter).emitted() == old(emitter).emitted() + owed
                    &&& final(tcx).next_ghost() == old(tcx).next_ghost() + consumed(
                        self,
                        glob,
                        old(tcx)@,
                    )
                },
                (Err(e), Err(expected)) => e == expected,
                _ => false,
            },
    {
        let ghost emitted = emitter.emitted();
        proof {
            lemma_extends_refl(tcx@);
        }
        match self {
            Terminator::Return => {
                let constraint = match Self::on_return(tcx, env, decl) {
                    Ok(constraint) => constraint,
                    Err(e) => {
                        return Err(e);
                    },
                };
                let ghost model = constraint.model();
                emitter.emit(constraint);
                assert(emitter.emitted() =~= emitted + seq![model]);
                Ok(())
            },
            Terminator::Goto(target) => {
                let constraint = match Self::on_entry(tcx, env, bb_env, *target, None) {
                    Ok(constraint) => constraint,
                    Err(e) => {
                        return Err(e);
                    },
                };
                let ghost model = constraint.model();
                emitter.emit(constraint);
                assert(emitter.emitted() =~= emitted + seq![model]);
                Ok(())
            },
            Terminator::Switch(discr, first, second) => {
                let var = match env.ghost_of(*discr) {
                    Some(var) => var,
                    None => {
                        return Err(TyError::UnboundLocal(*discr));
                    },
                };
                let taken = match Self::on_entry(tcx, env, bb_env, *first, Some((var, true))) {
                    Ok(constraint) => constraint,
                    Err(e) => {
                        return Err(e);
                    },
                };
                let skipped = match Self::on_entry(tcx, env, bb_env, *second, Some((var, false))) {
                    Ok(constraint) => constraint,
                    Err(e) => {
                        return Err(e);
                    },
                };
                let ghost models = seq![taken.model(), skipped.model()];
                emitter.emit(taken);
                emitter.emit(skipped);
                assert(emitter.emitted() =~= emitted + models);
                Ok(())
            },
            Terminator::Call { func, args, dest, target } => Self::on_call(
                tcx,
                env,
                emitter,
                glob,
                bb_env,
                *func,
                args,
                *dest,
                *target,
            ),
        }
    }

    /// The aliases, the ghost variables and the required types of the
    /// arguments of a call.
    fn call_args(tcx: &TyCtxt, env: &Env, callee: &FnDecl, args: &Vec<Local>) -> (parts: Result<
        (Vec<(GhostVar, GhostVar)>, Vec<GhostVar>, Vec<Ty>),
        TyError,
    >)
        requires
            tcx.wf(),
            callee.valid(tcx@),
            args@.len() == callee.inputs@.len(),
        ensures
            match (parts, call_parts(env.model(tcx@), callee.model(tcx@), args@, args@.len())) {
                (Ok((aliases, vars, targets)), Ok((a, v, t))) => {
                    &&& aliases@ == a
                    &&& vars@ == v
                    &&& trees_of(targets@, tcx@) == t
                    &&& vars@.len() == targets@.len()
                    &&& forall|k: int| 0 <= k < targets@.len() ==> tcx.has_ty(#[trigger] targets@[k])
                },
                (Err(e), Err(expected)) => e == expected,
                _ => false,
            },
    {
        let ghost before = env.model(tcx@);
        let ghost decl_model = callee.model(tcx@);
        let mut aliases: Vec<(GhostVar, GhostVar)> = Vec::new();
        let mut vars: Vec<GhostVar> = Vec::new();
        let mut targets: Vec<Ty> = Vec::new();
        let mut i: usize = 0;
        proof {
            assert(trees_of(targets@, tcx@) =~= Seq::<TyTree>::empty());
        }
        while i < args.len()
            invariant
                i <= args.len(),
                args@.len() == callee.inputs@.len(),
                tcx.wf(),
                callee.valid(tcx@),
                before == env.model(tcx@),
                decl_model == callee.model(tcx@),
                vars@.len() == targets@.len(),
                forall|k: int| 0 <= k < targets@.len() ==> tcx.has_ty(#[trigger] targets@[k]),
                call_parts(before, decl_model, args@, i as nat) matches Ok((a, v, t)) && a
                    == aliases@ && v == vars@ && t == trees_of(targets@, tcx@),
            decreases args.len() - i,
        {
            let ghost wanted = trees_of(targets@, tcx@);
            let var = match env.ghost_of(args[i]) {
                Some(var) => var,
                None => {
                    proof {
                        lemma_call_parts_error_stays(before, decl_model, args@, i + 1);
                    }
                    return Err(TyError::UnboundLocal(args[i]));
                },
            };
            let input = callee.inputs[i];
            let at = match find_typed(&callee.requires, input, tcx) {
                Some(at) => at,
                None => {
                    proof {
                        lemma_call_parts_error_stays(before, decl_model, args@, i + 1);
                    }
                    return Err(TyError::UnboundVar(Var::GhostVar(input)));
                },
            };
            let target_ty = callee.requires[at].1;
            proof {
                assert(tcx.has_ty(callee.requires@[at as int].1));
            }
            aliases.push((input, var));
            vars.push(var);
            targets.push(target_ty);
            proof {
                assert(trees_of(targets@, tcx@) =~= wanted.push(tcx.ty_tree(target_ty)));
            }
            i = i + 1;
        }
        Ok((aliases, vars, targets))
    }

    /// The renaming of a whole call: the aliases of its inputs, and for
    /// each fact that it ensures the ghost variable that the fact will get.
    fn call_renaming(
        callee: &FnDecl,
        given: &Vec<(GhostVar, GhostVar)>,
        next: usize,
        tcx: &TyCtxt,
    ) -> (full: Vec<(GhostVar, GhostVar)>)
        requires
            next + callee.ensures@.len() <= usize::MAX,
        ensures
            full@ == call_renaming(
                given@,
                typed_model(callee.ensures@, tcx@),
                next as nat,
                callee.ensures@.len(),
            ),
    {
        let ghost ensured = typed_model(callee.ensures@, tcx@);
        let mut full = copy_aliases(given);
        let mut k: usize = 0;
        while k < callee.ensures.len()
            invariant
                k <= callee.ensures.len(),
                next + callee.ensures@.len() <= usize::MAX,
                ensured == typed_model(callee.ensures@, tcx@),
                full@ == call_renaming(given@, ensured, next as nat, k as nat),
            decreases callee.ensures.len() - k,
        {
            assert(ensured[k as int].var == callee.ensures@[k as int].0);
            full.push((callee.ensures[k].0, GhostVar(next + k)));
            k = k + 1;
        }
        full
    }

    /// Adds to `env` one fact that a call ensures, under an unused ghost
    /// variable.
    fn call_fact(
        tcx: &mut TyCtxt,
        env: &mut Env,
        ty: Ty,
        known: &Vec<(GhostVar, GhostVar)>,
        full: &Vec<(GhostVar, GhostVar)>,
    ) -> (var: GhostVar)
        requires
            old(tcx).wf(),
            old(env).valid(old(tcx)@),
            old(tcx).has_ty(ty),
            old(tcx).next_ghost() < usize::MAX,
        ensures
            final(tcx).wf(),
            extends(old(tcx)@, final(tcx)@),
            final(tcx).next_ghost() == old(tcx).next_ghost() + 1,
            var.0 == old(tcx).next_ghost(),
            final(env).valid(final(tcx)@),
            final(env).locals@ == old(env).locals@,
            final(env).model(final(tcx)@).heap == old(env).model(old(tcx)@).heap.push(
                FactModel {
                    var,
                    ty: rename_pointees(old(tcx).ty_tree(ty), full@),
                    aliases: known@,
                },
            ),
    {
        let ghost t0 = tcx@;
        let var = match tcx.fresh_ghost() {
            Some(var) => var,
            None => {
                proof {
                    assert(false);
                }
                vstd::pervasive::unreached()
            },
        };
        let made = tcx.rename_pointees(ty, full);
        proof {
            lemma_heap_model_stable(env.heap@, t0, tcx@);
        }
        let ghost heap_before = env.heap@;
        let aliases = copy_aliases(known);
        env.heap.push(Fact { var, ty: made, aliases });
        proof {
            assert(heap_model(env.heap@, tcx@) =~= heap_model(heap_before, tcx@).push(
                FactModel { var, ty: tcx.ty_tree(made), aliases: known@ },
            ));
            assert forall|k: int| 0 <= k < env.heap@.len() implies is_ty(
                tcx@,
                (#[trigger] env.heap@[k]).ty,
                tcx@.len() as int,
            ) by {
                if k < heap_before.len() {
                    assert(env.heap@[k] == heap_before[k]);
                }
            }
        }
        var
    }

    /// Adds to `env` what a call ensures, under new ghost variables, and
    /// makes the new ghost variable of what the function returns that of
    /// the local `dest`.
    fn call_ensures(
        tcx: &mut TyCtxt,
        env: &mut Env,
        callee: &FnDecl,
        given: &Vec<(GhostVar, GhostVar)>,
        dest: Local,
    ) -> (done: TyResult)
        requires
            old(tcx).wf(),
            old(env).valid(old(tcx)@),
            callee.valid(old(tcx)@),
        ensures
            final(tcx).wf(),
            extends(old(tcx)@, final(tcx)@),
            match (
                done,
                after_call(
                    old(env).model(old(tcx)@),
                    callee.model(old(tcx)@),
                    given@,
                    dest,
                    old(tcx).next_ghost(),
                ),
            ) {
                (Ok(()), Ok(after)) => {
                    &&& final(env).valid(final(tcx)@)
                    &&& final(env).model(final(tcx)@) == after
                    &&& final(tcx).next_ghost() == old(tcx).next_ghost() + callee.ensures@.len()
                },
                (Err(e), Err(expected)) => e == expected,
                _ => false,
            },
    {
        let ghost t0 = tcx@;
        let ghost before = env.model(t0);
        let ghost ensured = typed_model(callee.ensures@, t0);
        let next: usize = tcx.next();
        let ghost whole = call_renaming(given@, ensured, next as nat, callee.ensures@.len());
        proof {
            lemma_extends_refl(t0);
            lemma_call_facts_exhausted(
                before.heap,
                given@,
                ensured,
                whole,
                next as nat,
                callee.ensures@.len(),
            );
        }
        if callee.ensures.len() > usize::MAX - next {
            return Err(TyError::Exhausted);
        }
        let full = Self::call_renaming(callee, given, next, tcx);
        let mut known = copy_aliases(given);
        let mut fresh: Vec<GhostVar> = Vec::new();
        let mut j: usize = 0;
        while j < callee.ensures.len()
            invariant
                j <= callee.ensures.len(),
                tcx.wf(),
                well_formed(t0),
                t0 == old(tcx)@,
                extends(t0, tcx@),
                env.valid(tcx@),
                callee.valid(t0),
                env.locals@ == old(env).locals@,
                next == old(tcx).next_ghost(),
                next + callee.ensures@.len() <= usize::MAX,
                before == old(env).model(t0),
                ensured == typed_model(callee.ensures@, t0),
                whole == call_renaming(given@, ensured, next as nat, callee.ensures@.len()),
                full@ == whole,
                tcx.next_ghost() == next + j,
                fresh@.len() == j,
                forall|k: int| 0 <= k < j ==> (#[trigger] fresh@[k]).0 == next + k,
                call_facts(before.heap, given@, ensured, whole, next as nat, j as nat) matches Ok(
                    (grown, aliases),
                ) && grown == heap_model(env.heap@, tcx@) && aliases == known@,
            decreases callee.ensures.len() - j,
        {
            let ghost t1 = tcx@;
            let ty = callee.ensures[j].1;
            let name = callee.ensures[j].0;
            proof {
                assert(is_ty(t0, callee.ensures@[j as int].1, t0.len() as int));
                lemma_handles_stable(t0, t1, ty.index as int);
                lemma_ty_tree_stable(t0, t1, ty.index as int);
                assert(ensured[j as int].ty == crate::ty::tree::ty_tree(t0, ty.index as int));
                assert(ensured[j as int].var == name);
            }
            let var = Self::call_fact(tcx, env, ty, &known, &full);
            known.push((name, var));
            fresh.push(var);
            proof {
                lemma_extends_trans(t0, t1, tcx@);
            }
            j = j + 1;
        }
        proof {
            callee.lemma_model_stable(t0, tcx@);
        }
        let at = match find_place(&callee.ensures, callee.output, tcx) {
            Some(at) => at,
            None => {
                return Err(TyError::UnboundVar(Var::GhostVar(callee.output)));
            },
        };
        let returned = fresh[at];
        env.locals.push((dest, returned));
        proof {
            let after = after_call(before, callee.model(t0), given@, dest, next as nat).unwrap();
            assert(returned == GhostVar((next + at) as usize));
            assert(env.model(tcx@).heap =~= after.heap);
            assert(env.model(tcx@).locals =~= after.locals);
        }
        Ok(())
    }

    /// Applies one output of a call to the argument in `local`.
    fn call_output(
        tcx: &mut TyCtxt,
        env: &mut Env,
        callee: &FnDecl,
        local: Local,
        ensured: GhostVar,
        first: usize,
    ) -> (done: TyResult)
        requires
            old(tcx).wf(),
            old(env).valid(old(tcx)@),
            callee.valid(old(tcx)@),
            first + callee.ensures@.len() <= usize::MAX,
        ensures
            final(tcx).wf(),
            extends(old(tcx)@, final(tcx)@),
            match (
                done,
                retyped_one(
                    old(env).model(old(tcx)@),
                    callee.model(old(tcx)@),
                    local,
                    ensured,
                    first as nat,
                    old(tcx).next_ghost() as int,
                ),
            ) {
                (Ok(()), Ok(after)) => {
                    &&& final(env).valid(final(tcx)@)
                    &&& final(env).model(final(tcx)@) == after
                    &&& final(tcx).next_ghost() == old(tcx).next_ghost() + 1
                },
                (Err(e), Err(expected)) => e == expected,
                _ => false,
            },
    {
        let ghost t0 = tcx@;
        let ghost before = env.model(t0);
        proof {
            lemma_extends_refl(t0);
        }
        let var = match env.ghost_of(local) {
            Some(var) => var,
            None => {
                return Err(TyError::UnboundLocal(local));
            },
        };
        let at = match find_fact(&env.heap, var, tcx) {
            Some(at) => at,
            None => {
                return Err(TyError::UnboundVar(Var::GhostVar(var)));
            },
        };
        let ty = env.heap[at].ty;
        let node = tcx.ty(ty);
        assert(tcx@[ty.index as int] == NodeModel::Ty(node.kind@));
        let (kind, region) = match &node.kind {
            TyKind::Ref(kind, region, _) => (*kind, region.duplicate()),
            _ => {
                return Err(TyError::ShapeMismatch);
            },
        };
        let place = match find_place(&callee.ensures, ensured, tcx) {
            Some(place) => place,
            None => {
                return Err(TyError::UnboundVar(Var::GhostVar(ensured)));
            },
        };
        let pointee = GhostVar(first + place);
        let made = match tcx.fresh_ghost() {
            Some(made) => made,
            None => {
                return Err(TyError::Exhausted);
            },
        };
        let ghost shape = region@;
        let new_kind = TyKind::Ref(kind, region, pointee);
        proof {
            crate::ty::context::lemma_interned_extends(tcx@, NodeModel::Ty(new_kind@));
        }
        let new_ty = match tcx.mk_ty(new_kind) {
            Some(new_ty) => new_ty,
            None => {
                proof {
                    assert(false);
                }
                vstd::pervasive::unreached()
            },
        };
        proof {
            lemma_heap_model_stable(env.heap@, t0, tcx@);
            assert(tcx.ty_tree(new_ty) == TyTree::Ref(kind, shape, pointee));
        }
        let ghost heap_before = env.heap@;
        env.heap.push(Fact { var: made, ty: new_ty, aliases: Vec::new() });
        env.locals.push((local, made));
        proof {
            let after = retyped_one(
                before,
                callee.model(t0),
                local,
                ensured,
                first as nat,
                old(tcx).next_ghost() as int,
            ).unwrap();
            assert(heap_model(env.heap@, tcx@) =~= heap_model(heap_before, tcx@).push(
                FactModel { var: made, ty: tcx.ty_tree(new_ty), aliases: Seq::empty() },
            ));
            assert(env.model(tcx@).heap =~= after.heap);
            assert(env.model(tcx@).locals =~= after.locals);
            assert forall|k: int| 0 <= k < env.heap@.len() implies is_ty(
                tcx@,
                (#[trigger] env.heap@[k]).ty,
                tcx@.len() as int,
            ) by {
                if k < heap_before.len() {
                    assert(env.heap@[k] == heap_before[k]);
                }
            }
        }
        Ok(())
    }

    /// Applies the outputs of a call to its arguments.
    fn call_outputs(
        tcx: &mut TyCtxt,
        env: &mut Env,
        callee: &FnDecl,
        args: &Vec<Local>,
        first: usize,
    ) -> (done: TyResult)
        requires
            old(tcx).wf(),
            old(env).valid(old(tcx)@),
            callee.valid(old(tcx)@),
            first + callee.ensures@.len() <= usize::MAX,
        ensures
            final(tcx).wf(),
            extends(old(tcx)@, final(tcx)@),
            match (
                done,
                retyped(
                    old(env).model(old(tcx)@),
                    callee.model(old(tcx)@),
                    args@,
                    first as nat,
                    old(tcx).next_ghost(),
                    callee.outputs@.len(),
                ),
            ) {
                (Ok(()), Ok(after)) => {
                    &&& final(env).valid(final(tcx)@)
                    &&& final(env).model(final(tcx)@) == after
                    &&& final(tcx).next_ghost() == old(tcx).next_ghost() + callee.outputs@.len()
                },
                (Err(e), Err(expected)) => e == expected,
                _ => false,
            },
    {
        let ghost t0 = tcx@;
        let ghost before = env.model(t0);
        let ghost model = callee.model(t0);
        let ghost unused = tcx.next_ghost();
        proof {
            lemma_extends_refl(t0);
        }
        let mut i: usize = 0;
        while i < callee.outputs.len()
            invariant
                i <= callee.outputs.len(),
                tcx.wf(),
                well_formed(t0),
                t0 == old(tcx)@,
                unused == old(tcx).next_ghost(),
                before == old(env).model(t0),
                model == callee.model(t0),
                extends(t0, tcx@),
                env.valid(tcx@),
                callee.valid(t0),
                first + callee.ensures@.len() <= usize::MAX,
                tcx.next_ghost() == unused + i,
                retyped(before, model, args@, first as nat, unused, i as nat) matches Ok(reached)
                    && reached == env.model(tcx@),
            decreases callee.outputs.len() - i,
        {
            let ghost t1 = tcx@;
            let input = callee.outputs[i].0;
            let ensured = callee.outputs[i].1;
            if input >= args.len() {
                proof {
                    lemma_retyped_error_stays(before, model, args@, first as nat, unused, i + 1);
                }
                return Err(TyError::NoSuchInput(input));
            }
            proof {
                callee.lemma_model_stable(t0, t1);
            }
            match Self::call_output(tcx, env, callee, args[input], ensured, first) {
                Ok(()) => {},
                Err(e) => {
                    proof {
                        lemma_extends_trans(t0, t1, tcx@);
                        lemma_retyped_error_stays(before, model, args@, first as nat, unused, i + 1);
                    }
                    return Err(e);
                },
            }
            proof {
                lemma_extends_trans(t0, t1, tcx@);
            }
            i = i + 1;
        }
        Ok(())
    }

    /// Emits what a call owes, and leaves in `env` what it ensures.
    fn on_call(
        tcx: &mut TyCtxt,
        env: &mut Env,
        emitter: &mut Emitter,
        glob: &GlobEnv,
        bb_env: &BBlockEnv,
        func: FnId,
        args: &Vec<Local>,
        dest: Local,
        target: BBlockId,
    ) -> (done: TyResult)
        requires
            old(tcx).wf(),
            old(env).valid(old(tcx)@),
            glob.valid(old(tcx)@),
            bb_env.valid(old(tcx)@),
        ensures
            final(tcx).wf(),
            extends(old(tcx)@, final(tcx)@),
            match (
                done,
                check_call(
                    old(env).model(old(tcx)@),
                    glob.decl_of(func, old(tcx)@),
                    func,
                    args@,
                    dest,
                    bb_env.input_of(target, old(tcx)@),
                    target,
                    old(tcx).next_ghost(),
                ),
            ) {
                (Ok(()), Ok(owed)) => {
                    &&& final(emitter).emitted() == old(emitter).emitted() + owed
                    &&& glob.decl_of(func, old(tcx)@) matches Some(decl) && final(tcx).next_ghost()
                        == old(tcx).next_ghost() + decl.ensures.len() + decl.outputs.len()
                },
                (Err(e), Err(expected)) => e == expected,
                _ => false,
            },
    {
        let ghost emitted = emitter.emitted();
        let ghost t0 = tcx@;
        proof {
            lemma_extends_refl(t0);
        }
        let callee = match glob.get_decl(func) {
            Ok(callee) => callee,
            Err(e) => {
                return Err(e);
            },
        };
        if args.len() != callee.inputs.len() {
            return Err(TyError::ArityMismatch(func));
        }
        let (aliases, vars, targets) = match Self::call_args(tcx, env, callee, args) {
            Ok(parts) => parts,
            Err(e) => {
                return Err(e);
            },
        };
        let required_heap = facts_of(&callee.requires, tcx);
        let required = match entail(tcx, env, &aliases, &vars, &targets, &required_heap, None) {
            Ok(required) => required,
            Err(e) => {
                return Err(e);
            },
        };
        let first: usize = tcx.next();
        match Self::call_ensures(tcx, env, callee, &aliases, dest) {
            Ok(()) => {},
            Err(e) => {
                return Err(e);
            },
        }
        let ghost t1 = tcx@;
        proof {
            callee.lemma_model_stable(t0, t1);
        }
        match Self::call_outputs(tcx, env, callee, args, first) {
            Ok(()) => {},
            Err(e) => {
                proof {
                    lemma_extends_trans(t0, t1, tcx@);
                }
                return Err(e);
            },
        }
        proof {
            lemma_extends_trans(t0, t1, tcx@);
            bb_env.lemma_valid_stable(t0, tcx@);
            bb_env.lemma_input_stable(target, t0, tcx@);
        }
        let entered = match Self::on_entry(tcx, env, bb_env, target, None) {
            Ok(entered) => entered,
            Err(e) => {
                return Err(e);
            },
        };
        let ghost models = seq![required.model(), entered.model()];
        emitter.emit(required);
        emitter.emit(entered);
        assert(emitter.emitted() =~= emitted + models);
        Ok(())
    }
}

/// The environment after the first `n` statements of a block, and the
/// ghost variable that has not been used yet.
pub open spec fn run(env: EnvModel, statements: Seq<Statement>, next: nat, n: nat) -> Result<
    (EnvModel, nat),
    TyError,
>
    decreases n,
{
    if n == 0 || n > statements.len() {
        Ok((env, next))
    } else {
        match run(env, statements, next, (n - 1) as nat) {
            Err(e) => Err(e),
            Ok((before, unused)) => match synth(before, statements[n - 1], unused) {
                Err(e) => Err(e),
                Ok(after) => Ok((after, unused + used(statements[n - 1]))),
            },
        }
    }
}

/// What a basic block owes when it is entered with the environment
/// `input`, and the ghost variable that has not been used after it: the
/// statements move the environment forward, one after the other, and the
/// terminator owes what it owes in the environment that they leave.
pub open spec fn check_block(
    block: &BBlock,
    input: EnvModel,
    glob: &GlobEnv,
    bb_env: &BBlockEnv,
    decl: FnDeclModel,
    nodes: Seq<NodeModel>,
    next: nat,
) -> Result<(Seq<ConstraintModel>, nat), TyError> {
    match run(input, block.statements@, next, block.statements@.len()) {
        Err(e) => Err(e),
        Ok((env, unused)) => match terminate(
            &block.terminator,
            env,
            glob,
            bb_env,
            decl,
            nodes,
            unused,
        ) {
            Err(e) => Err(e),
            Ok(owed) => Ok((owed, unused + consumed(&block.terminator, glob, nodes))),
        },
    }
}

/// Once a statement fails, the block fails with its error.
pub proof fn lemma_run_error_stays(env: EnvModel, statements: Seq<Statement>, next: nat, n: int)
    requires
        0 <= n <= statements.len(),
        run(env, statements, next, n as nat) is Err,
    ensures
        run(env, statements, next, statements.len()) == run(env, statements, next, n as nat),
    decreases statements.len() - n,
{
    if n < statements.len() {
        lemma_run_error_stays(env, statements, next, n + 1);
    }
}

/// What a list of typed ghost variables stands for is the same in every
/// table that begins with one in which it is valid.
pub proof fn lemma_typed_model_stable(
    typed: Seq<(GhostVar, Ty)>,
    nodes: Seq<NodeModel>,
    longer: Seq<NodeModel>,
)
    requires
        well_formed(nodes),
        typed_valid(typed, nodes),
        extends(nodes, longer),
    ensures
        typed_model(typed, longer) == typed_model(typed, nodes),
        typed_valid(typed, longer),
{
    assert forall|i: int| 0 <= i < typed.len() implies #[trigger] typed_model(typed, longer)[i]
        == typed_model(typed, nodes)[i] by {
        assert(is_ty(nodes, typed[i].1, nodes.len() as int));
        lemma_ty_tree_stable(nodes, longer, typed[i].1.index as int);
    }
    assert(typed_model(typed, longer) =~= typed_model(typed, nodes));
    assert forall|i: int| 0 <= i < typed.len() implies is_ty(
        longer,
        (#[trigger] typed[i]).1,
        longer.len() as int,
    ) by {
        assert(is_ty(nodes, typed[i].1, nodes.len() as int));
        lemma_handles_stable(nodes, longer, typed[i].1.index as int);
    }
}

impl FnDecl {
    /// What a declaration stands for is the same in every table that
    /// begins with one in which it is valid.
    pub proof fn lemma_model_stable(&self, nodes: Seq<NodeModel>, longer: Seq<NodeModel>)
        requires
            well_formed(nodes),
            self.valid(nodes),
            extends(nodes, longer),
        ensures
            self.model(longer) == self.model(nodes),
            self.valid(longer),
    {
        lemma_typed_model_stable(self.requires@, nodes, longer);
        lemma_typed_model_stable(self.ensures@, nodes, longer);
    }
}

impl BBlockEnv {
    /// Every type of a valid block environment is a type of every table
    /// that begins with the table.
    pub proof fn lemma_valid_stable(&self, nodes: Seq<NodeModel>, longer: Seq<NodeModel>)
        requires
            well_formed(nodes),
            self.valid(nodes),
            extends(nodes, longer),
        ensures
            self.valid(longer),
    {
        assert forall|i: int| 0 <= i < self.blocks@.len() implies (#[trigger] self.blocks@[i]).1.input.valid(
            longer,
        ) by {
            lemma_heap_model_stable(self.blocks@[i].1.input.heap@, nodes, longer);
        }
    }

    /// The input that a valid block environment gives for a block is the
    /// same in every table that begins with the table.
    pub proof fn lemma_input_stable(
        &self,
        id: BBlockId,
        nodes: Seq<NodeModel>,
        longer: Seq<NodeModel>,
    )
        requires
            well_formed(nodes),
            self.valid(nodes),
            extends(nodes, longer),
        ensures
            self.input_of(id, longer) == self.input_of(id, nodes),
    {
        match Self::place_of(self.blocks@, id) {
            Some(at) => {
                if 0 <= at < self.blocks@.len() {
                    lemma_heap_model_stable(self.blocks@[at].1.input.heap@, nodes, longer);
                }
            },
            None => {},
        }
    }
}

impl GlobEnv {
    /// Every type of a valid global environment is a type of every table
    /// that begins with the table.
    pub proof fn lemma_valid_stable(&self, nodes: Seq<NodeModel>, longer: Seq<NodeModel>)
        requires
            well_formed(nodes),
            self.valid(nodes),
            extends(nodes, longer),
        ensures
            self.valid(longer),
    {
        assert forall|i: int| 0 <= i < self.fns@.len() implies (#[trigger] self.fns@[i]).1.valid(
            longer,
        ) by {
            self.fns@[i].1.lemma_model_stable(nodes, longer);
        }
    }

    /// The declaration that a valid global environment gives for a function
    /// is the same in every table that begins with the table.
    pub proof fn lemma_decl_stable(&self, id: FnId, nodes: Seq<NodeModel>, longer: Seq<NodeModel>)
        requires
            well_formed(nodes),
            self.valid(nodes),
            extends(nodes, longer),
        ensures
            self.decl_of(id, longer) == self.decl_of(id, nodes),
    {
        match Self::place_of(self.fns@, id) {
            Some(at) => {
                if 0 <= at < self.fns@.len() {
                    self.fns@[at].1.lemma_model_stable(nodes, longer);
                }
            },
            None => {},
        }
    }
}

/// What a terminator owes, and the ghost variables that it uses up, are the
/// same in every table that begins with one in which the environments are
/// valid.
pub proof fn lemma_terminate_same(
    terminator: &Terminator,
    env: EnvModel,
    glob: &GlobEnv,
    bb_env: &BBlockEnv,
    decl: FnDeclModel,
    nodes: Seq<NodeModel>,
    longer: Seq<NodeModel>,
    next: nat,
)
    requires
        well_formed(nodes),
        glob.valid(nodes),
        bb_env.valid(nodes),
        extends(nodes, longer),
    ensures
        terminate(terminator, env, glob, bb_env, decl, longer, next) == terminate(
            terminator,
            env,
            glob,
            bb_env,
            decl,
            nodes,
            next,
        ),
        consumed(terminator, glob, longer) == consumed(terminator, glob, nodes),
{
    match terminator {
        Terminator::Return => {},
        Terminator::Goto(target) => {
            bb_env.lemma_input_stable(*target, nodes, longer);
        },
        Terminator::Switch(_, first, second) => {
            bb_env.lemma_input_stable(*first, nodes, longer);
            bb_env.lemma_input_stable(*second, nodes, longer);
        },
        Terminator::Call { func, args, dest, target } => {
            glob.lemma_decl_stable(*func, nodes, longer);
            bb_env.lemma_input_stable(*target, nodes, longer);
        },
    }
}

/// What a block owes is the same in every table that begins with one in
/// which the environments are valid.
pub proof fn lemma_check_block_same(
    block: &BBlock,
    input: EnvModel,
    glob: &GlobEnv,
    bb_env: &BBlockEnv,
    decl: FnDeclModel,
    nodes: Seq<NodeModel>,
    longer: Seq<NodeModel>,
    next: nat,
)
    requires
        well_formed(nodes),
        glob.valid(nodes),
        bb_env.valid(nodes),
        extends(nodes, longer),
    ensures
        check_block(block, input, glob, bb_env, decl, longer, next) == check_block(
            block,
            input,
            glob,
            bb_env,
            decl,
            nodes,
            next,
        ),
{
    match run(input, block.statements@, next, block.statements@.len()) {
        Err(_) => {},
        Ok((env, unused)) => {
            lemma_terminate_same(&block.terminator, env, glob, bb_env, decl, nodes, longer, unused);
        },
    }
}

/// What the blocks of a body owe up to and with the block at place `at`,
/// from what they owe up to it and what that block owes.
pub proof fn lemma_check_blocks_step(
    blocks: Seq<(BBlockId, BBlock)>,
    at: int,
    glob: &GlobEnv,
    bb_env: &BBlockEnv,
    decl: FnDeclModel,
    nodes: Seq<NodeModel>,
    next: nat,
)
    requires
        0 <= at < blocks.len(),
        check_blocks(blocks, at as nat, glob, bb_env, decl, nodes, next) is Ok,
    ensures
        ({
            let before = check_blocks(blocks, at as nat, glob, bb_env, decl, nodes, next).unwrap();
            check_blocks(blocks, (at + 1) as nat, glob, bb_env, decl, nodes, next) == (
            match bb_env.input_of(blocks[at].0, nodes) {
                None => Err::<(Seq<ConstraintModel>, nat), TyError>(
                    TyError::MissingBlock(blocks[at].0),
                ),
                Some(input) => match check_block(
                    &blocks[at].1,
                    input,
                    glob,
                    bb_env,
                    decl,
                    nodes,
                    before.1,
                ) {
                    Err(e) => Err(e),
                    Ok((owed, after)) => Ok((before.0 + owed, after)),
                },
            })
        }),
{
}

impl Env {
    /// A copy of the environment.
    pub fn duplicate(&self) -> (copy: Env)
        ensures
            copy.locals@ == self.locals@,
            copy.heap@.len() == self.heap@.len(),
            forall|i: int|
                0 <= i < self.heap@.len() ==> (#[trigger] copy.heap@[i]).var == self.heap@[i].var
                    && copy.heap@[i].ty == self.heap@[i].ty && copy.heap@[i].aliases@
                    == self.heap@[i].aliases@,
    {
        let mut heap: Vec<Fact> = Vec::new();
        let mut i: usize = 0;
        while i < self.heap.len()
            invariant
                i <= self.heap.len(),
                heap@.len() == i,
                forall|k: int|
                    0 <= k < i ==> (#[trigger] heap@[k]).var == self.heap@[k].var && heap@[k].ty
                        == self.heap@[k].ty && heap@[k].aliases@ == self.heap@[k].aliases@,
            decreases self.heap.len() - i,
        {
            let fact = &self.heap[i];
            heap.push(Fact { var: fact.var, ty: fact.ty, aliases: copy_aliases(&fact.aliases) });
            i = i + 1;
        }
        let mut locals: Vec<(Local, GhostVar)> = Vec::new();
        let mut j: usize = 0;
        while j < self.locals.len()
            invariant
                j <= self.locals.len(),
                locals@ == self.locals@.take(j as int),
            decreases self.locals.len() - j,
        {
            locals.push(self.locals[j]);
            assert(self.locals@.take(j + 1) =~= self.locals@.take(j as int).push(self.locals@[j as int]));
            j = j + 1;
        }
        assert(self.locals@.take(self.locals.len() as int) =~= self.locals@);
        Env { heap, locals }
    }

    /// A copy stands for what the environment it was made from stands for.
    pub proof fn lemma_copy_model(&self, copy: &Env, nodes: Seq<NodeModel>)
        requires
            copy.locals@ == self.locals@,
            copy.heap@.len() == self.heap@.len(),
            forall|i: int|
                0 <= i < self.heap@.len() ==> (#[trigger] copy.heap@[i]).var == self.heap@[i].var
                    && copy.heap@[i].ty == self.heap@[i].ty && copy.heap@[i].aliases@
                    == self.heap@[i].aliases@,
        ensures
            copy.model(nodes) == self.model(nodes),
            self.valid(nodes) ==> copy.valid(nodes),
    {
        assert forall|i: int| 0 <= i < self.heap@.len() implies #[trigger] heap_model(
            copy.heap@,
            nodes,
        )[i] == heap_model(self.heap@, nodes)[i] by {
            assert(copy.heap@[i].var == self.heap@[i].var);
        }
        assert(heap_model(copy.heap@, nodes) =~= heap_model(self.heap@, nodes));
        if self.valid(nodes) {
            assert forall|i: int| 0 <= i < copy.heap@.len() implies is_ty(
                nodes,
                (#[trigger] copy.heap@[i]).ty,
                nodes.len() as int,
            ) by {
                assert(copy.heap@[i].ty == self.heap@[i].ty);
                assert(is_ty(nodes, self.heap@[i].ty, nodes.len() as int));
            }
        }
    }
}

impl BBlock {
    /// Moves the environment past the statements of the block, one after
    /// the other.
    pub fn run(&self, tcx: &mut TyCtxt, env: &mut Env) -> (done: TyResult)
        requires
            old(tcx).wf(),
            old(env).valid(old(tcx)@),
        ensures
            final(tcx).wf(),
            extends(old(tcx)@, final(tcx)@),
            match (
                done,
                run(
                    old(env).model(old(tcx)@),
                    self.statements@,
                    old(tcx).next_ghost(),
                    self.statements@.len(),
                ),
            ) {
                (Ok(()), Ok((reached, unused))) => {
                    &&& final(env).valid(final(tcx)@)
                    &&& final(env).model(final(tcx)@) == reached
                    &&& final(tcx).next_ghost() == unused
                },
                (Err(e), Err(expected)) => e == expected,
                _ => false,
            },
    {
        let ghost t0 = tcx@;
        let ghost next = tcx.next_ghost();
        let ghost input = env.model(t0);
        proof {
            lemma_extends_refl(t0);
        }
        let mut i: usize = 0;
        while i < self.statements.len()
            invariant
                i <= self.statements.len(),
                tcx.wf(),
                t0 == old(tcx)@,
                next == old(tcx).next_ghost(),
                input == old(env).model(t0),
                extends(t0, tcx@),
                env.valid(tcx@),
                run(input, self.statements@, next, i as nat) matches Ok((reached, unused))
                    && reached == env.model(tcx@) && unused == tcx.next_ghost(),
            decreases self.statements.len() - i,
        {
            let ghost t1 = tcx@;
            match self.statements[i].synth(tcx, env) {
                Ok(()) => {},
                Err(e) => {
                    proof {
                        lemma_extends_trans(t0, t1, tcx@);
                        lemma_run_error_stays(input, self.statements@, next, i + 1);
                    }
                    return Err(e);
                },
            }
            proof {
                lemma_extends_trans(t0, t1, tcx@);
            }
            i = i + 1;
        }
        Ok(())
    }

    /// Emits what the block owes when it is entered with the environment
    /// that `ty` expects.
    pub fn check(
        &self,
        tcx: &mut TyCtxt,
        ty: &BBlockTy,
        emitter: &mut Emitter,
        glob: &GlobEnv,
        bb_env: &BBlockEnv,
        decl: &FnDecl,
    ) -> (done: TyResult)
        requires
            old(tcx).wf(),
            ty.input.valid(old(tcx)@),
            glob.valid(old(tcx)@),
            bb_env.valid(old(tcx)@),
            decl.valid(old(tcx)@),
        ensures
            final(tcx).wf(),
            extends(old(tcx)@, final(tcx)@),
            match (
                done,
                check_block(
                    self,
                    ty.input.model(old(tcx)@),
                    glob,
                    bb_env,
                    decl.model(old(tcx)@),
                    old(tcx)@,
                    old(tcx).next_ghost(),
                ),
            ) {
                (Ok(()), Ok((owed, unused))) => {
                    &&& final(emitter).emitted() == old(emitter).emitted() + owed
                    &&& final(tcx).next_ghost() == unused
                },
                (Err(e), Err(expected)) => e == expected,
                _ => false,
            },
    {
        let ghost t0 = tcx@;
        let mut env = ty.input.duplicate();
        proof {
            ty.input.lemma_copy_model(&env, t0);
        }
        match self.run(tcx, &mut env) {
            Ok(()) => {},
            Err(e) => {
                return Err(e);
            },
        }
        let ghost t1 = tcx@;
        proof {
            glob.lemma_valid_stable(t0, t1);
            bb_env.lemma_valid_stable(t0, t1);
            decl.lemma_model_stable(t0, t1);
            lemma_terminate_same(
                &self.terminator,
                env.model(t1),
                glob,
                bb_env,
                decl.model(t0),
                t0,
                t1,
                tcx.next_ghost(),
            );
        }
        let done = self.terminator.check(tcx, &mut env, emitter, glob, bb_env, decl);
        proof {
            lemma_extends_trans(t0, t1, tcx@);
        }
        done
    }
}

/// The environment in which a function is entered, where `n` of its
/// inputs have been given their local: the heap holds what the declaration
/// requires, and the input at place `i` is the ghost variable of local
/// `_(i + 1)`. Local `_0` is for what the function returns.
pub open spec fn entry_locals(inputs: Seq<GhostVar>, n: nat) -> Seq<(Local, GhostVar)>
    decreases n,
{
    if n == 0 || n > inputs.len() || n >= usize::MAX {
        Seq::empty()
    } else {
        entry_locals(inputs, (n - 1) as nat).push((Local(n as usize), inputs[n - 1]))
    }
}

impl FnDecl {
    /// The environment in which the function is entered, or nothing for a
    /// declaration with more inputs than there are locals.
    pub fn entry(&self, tcx: &TyCtxt) -> (env: Option<Env>)
        requires
            self.valid(tcx@),
        ensures
            match env {
                Some(env) => {
                    &&& self.inputs@.len() < usize::MAX
                    &&& env.valid(tcx@)
                    &&& env.model(tcx@).heap == self.model(tcx@).requires
                    &&& env.locals@ == entry_locals(self.inputs@, self.inputs@.len())
                },
                None => self.inputs@.len() >= usize::MAX,
            },
    {
        if self.inputs.len() >= usize::MAX {
            return None;
        }
        let heap = facts_of(&self.requires, tcx);
        let mut locals: Vec<(Local, GhostVar)> = Vec::new();
        let mut i: usize = 0;
        while i < self.inputs.len()
            invariant
                i <= self.inputs.len(),
                self.inputs.len() < usize::MAX,
                locals@ == entry_locals(self.inputs@, i as nat),
            decreases self.inputs.len() - i,
        {
            locals.push((Local(i + 1), self.inputs[i]));
            i = i + 1;
        }
        Some(Env { heap, locals })
    }
}

/// What the first `n` blocks of a body owe, each entered with the
/// environment that the block environment expects for it, and the ghost
/// variable that has not been used after them. The blocks are checked in
/// the order in which the body gives them, and each against its own
/// expected type alone: nothing is merged where blocks meet.
pub open spec fn check_blocks(
    blocks: Seq<(BBlockId, BBlock)>,
    n: nat,
    glob: &GlobEnv,
    bb_env: &BBlockEnv,
    decl: FnDeclModel,
    nodes: Seq<NodeModel>,
    next: nat,
) -> Result<(Seq<ConstraintModel>, nat), TyError>
    decreases n,
{
    if n == 0 || n > blocks.len() {
        Ok((Seq::empty(), next))
    } else {
        match check_blocks(blocks, (n - 1) as nat, glob, bb_env, decl, nodes, next) {
            Err(e) => Err(e),
            Ok((before, unused)) => match bb_env.input_of(blocks[n - 1].0, nodes) {
                None => Err(TyError::MissingBlock(blocks[n - 1].0)),
                Some(input) => match check_block(
                    &blocks[n - 1].1,
                    input,
                    glob,
                    bb_env,
                    decl,
                    nodes,
                    unused,
                ) {
                    Err(e) => Err(e),
                    Ok((owed, after)) => Ok((before + owed, after)),
                },
            },
        }
    }
}

/// Once a block fails, the body fails with its error.
pub proof fn lemma_check_blocks_error_stays(
    blocks: Seq<(BBlockId, BBlock)>,
    n: int,
    glob: &GlobEnv,
    bb_env: &BBlockEnv,
    decl: FnDeclModel,
    nodes: Seq<NodeModel>,
    next: nat,
)
    requires
        0 <= n <= blocks.len(),
        check_blocks(blocks, n as nat, glob, bb_env, decl, nodes, next) is Err,
    ensures
        check_blocks(blocks, blocks.len(), glob, bb_env, decl, nodes, next) == check_blocks(
            blocks,
            n as nat,
            glob,
            bb_env,
            decl,
            nodes,
            next,
        ),
    decreases blocks.len() - n,
{
    if n < blocks.len() {
        lemma_check_blocks_error_stays(blocks, n + 1, glob, bb_env, decl, nodes, next);
    }
}

impl Body {
    /// Emits what every block of the body owes, in the order of the body.
    /// What was emitted before an error stays emitted.
    pub fn check_blocks(
        &self,
        tcx: &mut TyCtxt,
        emitter: &mut Emitter,
        glob: &GlobEnv,
        bb_env: &BBlockEnv,
        decl: &FnDecl,
    ) -> (done: TyResult)
        requires
            old(tcx).wf(),
            glob.valid(old(tcx)@),
            bb_env.valid(old(tcx)@),
            decl.valid(old(tcx)@),
        ensures
            final(tcx).wf(),
            extends(old(tcx)@, final(tcx)@),
            match (
                done,
                check_blocks(
                    self.blocks@,
                    self.blocks@.len(),
                    glob,
                    bb_env,
                    decl.model(old(tcx)@),
                    old(tcx)@,
                    old(tcx).next_ghost(),
                ),
            ) {
                (Ok(()), Ok((owed, unused))) => {
                    &&& final(emitter).emitted() == old(emitter).emitted() + owed
                    &&& final(tcx).next_ghost() == unused
                },
                (Err(e), Err(expected)) => e == expected,
                _ => false,
            },
    {
        let ghost t0 = tcx@;
        let ghost next = tcx.next_ghost();
        let ghost model = decl.model(t0);
        let ghost emitted = emitter.emitted();
        proof {
            lemma_extends_refl(t0);
            assert(emitted + Seq::<ConstraintModel>::empty() =~= emitted);
        }
        let mut i: usize = 0;
        while i < self.blocks.len()
            invariant
                i <= self.blocks.len(),
                tcx.wf(),
                well_formed(t0),
                t0 == old(tcx)@,
                next == old(tcx).next_ghost(),
                model == decl.model(t0),
                emitted == old(emitter).emitted(),
                extends(t0, tcx@),
                glob.valid(t0),
                bb_env.valid(t0),
                decl.valid(t0),
                check_blocks(self.blocks@, i as nat, glob, bb_env, model, t0, next) matches Ok(
                    (owed, unused),
                ) && emitter.emitted() == emitted + owed && unused == tcx.next_ghost(),
            decreases self.blocks.len() - i,
        {
            let ghost t1 = tcx@;
            let ghost so_far = check_blocks(
                self.blocks@,
                i as nat,
                glob,
                bb_env,
                model,
                t0,
                next,
            ).unwrap();
            let id = self.blocks[i].0;
            proof {
                lemma_check_blocks_step(self.blocks@, i as int, glob, bb_env, model, t0, next);
                glob.lemma_valid_stable(t0, t1);
                bb_env.lemma_valid_stable(t0, t1);
                bb_env.lemma_input_stable(id, t0, t1);
                decl.lemma_model_stable(t0, t1);
            }
            let ty = match bb_env.get_ty(id) {
                Ok(ty) => ty,
                Err(e) => {
                    proof {
                        lemma_check_blocks_error_stays(
                            self.blocks@,
                            i + 1,
                            glob,
                            bb_env,
                            model,
                            t0,
                            next,
                        );
                    }
                    return Err(e);
                },
            };
            let ghost input = ty.input.model(t1);
            proof {
                assert(bb_env.input_of(id, t0) == Some(input));
                lemma_check_block_same(
                    &self.blocks@[i as int].1,
                    input,
                    glob,
                    bb_env,
                    model,
                    t0,
                    t1,
                    so_far.1,
                );
            }
            match self.blocks[i].1.check(tcx, ty, emitter, glob, bb_env, decl) {
                Ok(()) => {},
                Err(e) => {
                    proof {
                        lemma_extends_trans(t0, t1, tcx@);
                        lemma_check_blocks_error_stays(
                            self.blocks@,
                            i + 1,
                            glob,
                            bb_env,
                            model,
                            t0,
                            next,
                        );
                    }
                    return Err(e);
                },
            }
            proof {
                lemma_extends_trans(t0, t1, tcx@);
                let step = check_block(
                    &self.blocks@[i as int].1,
                    input,
                    glob,
                    bb_env,
                    model,
                    t0,
                    so_far.1,
                ).unwrap();
                assert(emitted + (so_far.0 + step.0) =~= (emitted + so_far.0) + step.0);
            }
            i = i + 1;
        }
        Ok(())
    }
}

/// The environment in which a function with the given declaration is
/// entered, or nothing for a declaration with more inputs than there are
/// locals.
pub open spec fn entry_model(decl: FnDeclModel) -> Option<EnvModel> {
    if decl.inputs.len() >= usize::MAX {
        None
    } else {
        Some(
            EnvModel {
                heap: decl.requires,
                locals: entry_locals(decl.inputs, decl.inputs.len()),
            },
        )
    }
}

/// What the body of a function owes, and the ghost variable that has not
/// been used after it: that the environment in which the function is
/// entered may enter the first block, and what every block owes. A body
/// without blocks owes nothing.
pub open spec fn check_body(
    body: &Body,
    glob: &GlobEnv,
    bb_env: &BBlockEnv,
    decl: FnDeclModel,
    nodes: Seq<NodeModel>,
    next: nat,
) -> Result<(Seq<ConstraintModel>, nat), TyError> {
    if body.blocks@.len() == 0 {
        Ok((Seq::empty(), next))
    } else {
        match entry_model(decl) {
            None => Err(TyError::TooManyInputs),
            Some(entry) => match enter_block(
                entry,
                bb_env.input_of(body.blocks@[0].0, nodes),
                body.blocks@[0].0,
                None,
            ) {
                Err(e) => Err(e),
                Ok(entered) => match check_blocks(
                    body.blocks@,
                    body.blocks@.len(),
                    glob,
                    bb_env,
                    decl,
                    nodes,
                    next,
                ) {
                    Err(e) => Err(e),
                    Ok((owed, unused)) => Ok((seq![entered] + owed, unused)),
                },
            },
        }
    }
}

impl Body {
    /// Emits what the body of a function owes. A body either yields all
    /// its constraints or an error: where it is an error, nothing is
    /// emitted, and the table still is what it was for every handle.
    pub fn check(
        &self,
        tcx: &mut TyCtxt,
        emitter: &mut Emitter,
        glob: &GlobEnv,
        bb_env: &BBlockEnv,
        decl: &FnDecl,
    ) -> (done: TyResult)
        requires
            old(tcx).wf(),
            glob.valid(old(tcx)@),
            bb_env.valid(old(tcx)@),
            decl.valid(old(tcx)@),
        ensures
            final(tcx).wf(),
            extends(old(tcx)@, final(tcx)@),
            match (
                done,
                check_body(
                    self,
                    glob,
                    bb_env,
                    decl.model(old(tcx)@),
                    old(tcx)@,
                    old(tcx).next_ghost(),
                ),
            ) {
                (Ok(()), Ok((owed, unused))) => {
                    &&& final(emitter).emitted() == old(emitter).emitted() + owed
                    &&& final(tcx).next_ghost() == unused
                },
                (Err(e), Err(expected)) => e == expected && *final(emitter) == *old(emitter),
                _ => false,
            },
    {
        let ghost t0 = tcx@;
        proof {
            lemma_extends_refl(t0);
        }
        if self.blocks.len() == 0 {
            proof {
                assert(emitter.emitted() + Seq::<ConstraintModel>::empty() =~= emitter.emitted());
            }
            return Ok(());
        }
        let entry = match decl.entry(tcx) {
            Some(entry) => entry,
            None => {
                return Err(TyError::TooManyInputs);
            },
        };
        let mut collected = Emitter::new();
        match self.blocks[0].0.check(tcx, &entry, &mut collected, bb_env) {
            Ok(()) => {},
            Err(e) => {
                return Err(e);
            },
        }
        let ghost entered = collected.emitted();
        match self.check_blocks(tcx, &mut collected, glob, bb_env, decl) {
            Ok(()) => {},
            Err(e) => {
                return Err(e);
            },
        }
        let ghost before = emitter.constraints@;
        let ghost added = collected.constraints@;
        emitter.constraints.append(&mut collected.constraints);
        proof {
            assert(models_of(before + added) =~= models_of(before) + models_of(added));
            let owed = check_body(self, glob, bb_env, decl.model(t0), t0, old(tcx).next_ghost()).unwrap();
            assert(models_of(added) =~= owed.0);
        }
        Ok(())
    }
}

} // verus!
