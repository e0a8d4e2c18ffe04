//! Typing environments and the errors of the engine.

use crate::mir::{BBlockId, FnId, Local};
use crate::ty::context::{is_ty, TyCtxt};
use crate::ty::tree::{ty_tree, TyTree};
use crate::ty::{FnDecl, GhostVar, NodeModel, Ty, Var};
use vstd::prelude::*;

verus! {

/// Why the engine could not produce a constraint. None of these says that
/// the program is ill-typed: that is for the solver to find. Each says that
/// what the engine was given is not what the earlier passes promise.
#[derive(Clone, Copy, PartialEq, Eq, Structural, Debug)]
pub enum TyError {
    /// A local that the environment has no ghost variable for.
    UnboundLocal(Local),
    /// A variable that is not in scope.
    UnboundVar(Var),
    /// A variable that is used as a value but is no integer or boolean.
    NotAValue(Var),
    /// A path whose projections do not lead to a part of the type of its
    /// variable: one is not into a tuple or is past the last field.
    Projection(Var),
    /// A block that the block environment has no type for.
    MissingBlock(BBlockId),
    /// A function that the global environment has no declaration for.
    MissingFn(FnId),
    /// A call with another number of arguments than the declaration has
    /// inputs.
    ArityMismatch(FnId),
    /// An output of a declaration for an input that the declaration does
    /// not have.
    NoSuchInput(usize),
    /// A declaration with more inputs than there are locals.
    TooManyInputs,
    /// Two types of different shape where the same shape is promised.
    ShapeMismatch,
    /// References that lead through more ghost variables than there are.
    Cyclic,
    /// No ghost variable is left.
    Exhausted,
}

/// What the engine returns where it returns nothing else.
pub type TyResult = Result<(), TyError>;

/// One entry of a heap: a ghost variable and its type. Where the type was
/// written in another scope, `aliases` gives, for each ghost variable that
/// it names there, the ghost variable that stands for it here.
pub struct Fact {
    pub var: GhostVar,
    pub ty: Ty,
    pub aliases: Vec<(GhostVar, GhostVar)>,
}

/// The type of an environment: the ghost variables with their types in the
/// order in which they were made, and the current ghost variable of each
/// local.
pub struct Env {
    pub heap: Vec<Fact>,
    pub locals: Vec<(Local, GhostVar)>,
}

/// The type of a basic block: the environment that it expects on entry.
pub struct BBlockTy {
    pub input: Env,
}

/// The expected type of every basic block of a function. It is filled
/// before checking starts and only read afterwards.
pub struct BBlockEnv {
    pub blocks: Vec<(BBlockId, BBlockTy)>,
}

/// The declaration of every function that a body may call.
pub struct GlobEnv {
    pub fns: Vec<(FnId, FnDecl)>,
}

/// A heap entry as a mathematical value.
pub struct FactModel {
    pub var: GhostVar,
    pub ty: TyTree,
    pub aliases: Seq<(GhostVar, GhostVar)>,
}

/// An environment as a mathematical value.
pub struct EnvModel {
    pub heap: Seq<FactModel>,
    pub locals: Seq<(Local, GhostVar)>,
}

/// A function declaration as a mathematical value.
pub struct FnDeclModel {
    pub requires: Seq<FactModel>,
    pub inputs: Seq<GhostVar>,
    pub ensures: Seq<FactModel>,
    pub outputs: Seq<(usize, GhostVar)>,
    pub output: GhostVar,
}

impl Fact {
    pub open spec fn model(&self, nodes: Seq<NodeModel>) -> FactModel {
        FactModel { var: self.var, ty: ty_tree(nodes, self.ty.index as int), aliases: self.aliases@ }
    }
}

/// The models of the entries of a heap.
pub open spec fn heap_model(heap: Seq<Fact>, nodes: Seq<NodeModel>) -> Seq<FactModel> {
    Seq::new(heap.len(), |i: int| heap[i].model(nodes))
}

/// Whether every type of a heap is a type of the table.
pub open spec fn heap_valid(heap: Seq<Fact>, nodes: Seq<NodeModel>) -> bool {
    forall|i: int| 0 <= i < heap.len() ==> is_ty(nodes, (#[trigger] heap[i]).ty, nodes.len() as int)
}

/// The models of a list of ghost variables with their types, none of which
/// has aliases.
pub open spec fn typed_model(typed: Seq<(GhostVar, Ty)>, nodes: Seq<NodeModel>) -> Seq<FactModel> {
    Seq::new(
        typed.len(),
        |i: int|
            FactModel {
                var: typed[i].0,
                ty: ty_tree(nodes, typed[i].1.index as int),
                aliases: Seq::empty(),
            },
    )
}

/// Whether every type of a list is a type of the table.
pub open spec fn typed_valid(typed: Seq<(GhostVar, Ty)>, nodes: Seq<NodeModel>) -> bool {
    forall|i: int|
        0 <= i < typed.len() ==> is_ty(nodes, (#[trigger] typed[i]).1, nodes.len() as int)
}

impl Env {
    pub open spec fn model(&self, nodes: Seq<NodeModel>) -> EnvModel {
        EnvModel { heap: heap_model(self.heap@, nodes), locals: self.locals@ }
    }

    /// Whether every type of the environment is a type of the table.
    pub open spec fn valid(&self, nodes: Seq<NodeModel>) -> bool {
        heap_valid(self.heap@, nodes)
    }
}

impl FnDecl {
    pub open spec fn model(&self, nodes: Seq<NodeModel>) -> FnDeclModel {
        FnDeclModel {
            requires: typed_model(self.requires@, nodes),
            inputs: self.inputs@,
            ensures: typed_model(self.ensures@, nodes),
            outputs: self.outputs@,
            output: self.output,
        }
    }

    /// Whether every type of the declaration is a type of the table.
    pub open spec fn valid(&self, nodes: Seq<NodeModel>) -> bool {
        typed_valid(self.requires@, nodes) && typed_valid(self.ensures@, nodes)
    }
}

/// The ghost variable of a local: the last entry for it.
pub open spec fn ghost_of(locals: Seq<(Local, GhostVar)>, local: Local) -> Option<GhostVar>
    decreases locals.len(),
{
    if locals.len() == 0 {
        None
    } else if locals.last().0 == local {
        Some(locals.last().1)
    } else {
        ghost_of(locals.drop_last(), local)
    }
}

/// The entry of a ghost variable in a heap: the last one for it.
pub open spec fn fact_of(heap: Seq<FactModel>, var: GhostVar) -> Option<FactModel>
    decreases heap.len(),
{
    if heap.len() == 0 {
        None
    } else if heap.last().var == var {
        Some(heap.last())
    } else {
        fact_of(heap.drop_last(), var)
    }
}

impl Env {
    /// The ghost variable of a local.
    pub fn ghost_of(&self, local: Local) -> (var: Option<GhostVar>)
        ensures
            var == ghost_of(self.locals@, local),
    {
        let mut i: usize = self.locals.len();
        assert(self.locals@.take(i as int) =~= self.locals@);
        while i > 0
            invariant
                i <= self.locals.len(),
                ghost_of(self.locals@, local) == ghost_of(self.locals@.take(i as int), local),
            decreases i,
        {
            i = i - 1;
            assert(self.locals@.take(i + 1).drop_last() =~= self.locals@.take(i as int));
            if self.locals[i].0 == local {
                return Some(self.locals[i].1);
            }
        }
        None
    }
}

/// The place of the last entry for a ghost variable in a heap.
pub fn find_fact(heap: &Vec<Fact>, var: GhostVar, tcx: &TyCtxt) -> (at: Option<usize>)
    ensures
        match at {
            Some(at) => at < heap.len() && fact_of(heap_model(heap@, tcx@), var) == Some(
                heap@[at as int].model(tcx@),
            ),
            None => fact_of(heap_model(heap@, tcx@), var) is None,
        },
{
    let ghost nodes = tcx@;
    let ghost all = heap_model(heap@, nodes);
    let mut i: usize = heap.len();
    assert(all.take(i as int) =~= all);
    while i > 0
        invariant
            i <= heap.len(),
            nodes == tcx@,
            all == heap_model(heap@, nodes),
            fact_of(all, var) == fact_of(all.take(i as int), var),
        decreases i,
    {
        i = i - 1;
        assert(all.take(i + 1).drop_last() =~= all.take(i as int));
        if heap[i].var == var {
            return Some(i);
        }
    }
    None
}

/// The place of the last entry for a ghost variable in a list of typed
/// ghost variables.
pub fn find_typed(typed: &Vec<(GhostVar, Ty)>, var: GhostVar, tcx: &TyCtxt) -> (at: Option<usize>)
    ensures
        match at {
            Some(at) => at < typed.len() && fact_of(typed_model(typed@, tcx@), var) == Some(
                typed_model(typed@, tcx@)[at as int],
            ),
            None => fact_of(typed_model(typed@, tcx@), var) is None,
        },
{
    let ghost nodes = tcx@;
    let ghost all = typed_model(typed@, nodes);
    let mut i: usize = typed.len();
    assert(all.take(i as int) =~= all);
    while i > 0
        invariant
            i <= typed.len(),
            nodes == tcx@,
            all == typed_model(typed@, nodes),
            fact_of(all, var) == fact_of(all.take(i as int), var),
        decreases i,
    {
        i = i - 1;
        assert(all.take(i + 1).drop_last() =~= all.take(i as int));
        if typed[i].0 == var {
            return Some(i);
        }
    }
    None
}

impl BBlockEnv {
    /// The place of the last entry for a block.
    pub open spec fn place_of(blocks: Seq<(BBlockId, BBlockTy)>, id: BBlockId) -> Option<int>
        decreases blocks.len(),
    {
        if blocks.len() == 0 {
            None
        } else if blocks.last().0 == id {
            Some(blocks.len() - 1)
        } else {
            Self::place_of(blocks.drop_last(), id)
        }
    }

    /// The expected type of a block, or the error of a block without one.
    pub fn get_ty(&self, id: BBlockId) -> (ty: Result<&BBlockTy, TyError>)
        ensures
            match ty {
                Ok(ty) => Self::place_of(self.blocks@, id) matches Some(at) && 0 <= at
                    < self.blocks.len() && *ty == self.blocks@[at].1,
                Err(e) => Self::place_of(self.blocks@, id) is None && e == TyError::MissingBlock(id),
            },
    {
        let mut i: usize = self.blocks.len();
        assert(self.blocks@.take(i as int) =~= self.blocks@);
        while i > 0
            invariant
                i <= self.blocks.len(),
                Self::place_of(self.blocks@, id) == Self::place_of(self.blocks@.take(i as int), id),
            decreases i,
        {
            i = i - 1;
            assert(self.blocks@.take(i + 1).drop_last() =~= self.blocks@.take(i as int));
            if self.blocks[i].0 == id {
                return Ok(&self.blocks[i].1);
            }
        }
        Err(TyError::MissingBlock(id))
    }
}

impl GlobEnv {
    /// The place of the last entry for a function.
    pub open spec fn place_of(fns: Seq<(FnId, FnDecl)>, id: FnId) -> Option<int>
        decreases fns.len(),
    {
        if fns.len() == 0 {
            None
        } else if fns.last().0 == id {
            Some(fns.len() - 1)
        } else {
            Self::place_of(fns.drop_last(), id)
        }
    }

    /// The declaration of a function, or the error of a function without
    /// one.
    pub fn get_decl(&self, id: FnId) -> (decl: Result<&FnDecl, TyError>)
        ensures
            match decl {
                Ok(decl) => Self::place_of(self.fns@, id) matches Some(at) && 0 <= at
                    < self.fns.len() && *decl == self.fns@[at].1,
                Err(e) => Self::place_of(self.fns@, id) is None && e == TyError::MissingFn(id),
            },
    {
        let mut i: usize = self.fns.len();
        assert(self.fns@.take(i as int) =~= self.fns@);
        while i > 0
            invariant
                i <= self.fns.len(),
                Self::place_of(self.fns@, id) == Self::place_of(self.fns@.take(i as int), id),
            decreases i,
        {
            i = i - 1;
            assert(self.fns@.take(i + 1).drop_last() =~= self.fns@.take(i as int));
            if self.fns[i].0 == id {
                return Ok(&self.fns[i].1);
            }
        }
        Err(TyError::MissingFn(id))
    }
}

} // verus!
