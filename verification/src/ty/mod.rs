//! Refinement types and the predicates that refine them.
//!
//! Types and predicates are interned: a [`Ty`] or a [`Pred`] is a small
//! handle into the table of a [`context::TyCtxt`], and two handles of one
//! table are equal exactly when what they stand for has the same structure.

pub mod make;
pub mod rename;
pub mod context;
pub mod display;
pub mod same;
pub mod table;
pub mod tree;
pub mod tuple;

use crate::fixpoint::constraint::KVid;
use crate::mir::{Constant, Place, PlaceModel};
use vstd::prelude::*;

verus! {

/// A ghost variable: the type of one memory location at one program point.
/// A new one is made whenever the type of a location changes, and none is
/// ever reused, so a refinement can speak of earlier values.
#[derive(Clone, Copy, PartialEq, Eq, Structural, Hash, Debug)]
pub struct GhostVar(pub usize);

/// The stable name of a field of a dependent tuple.
#[derive(Clone, Copy, PartialEq, Eq, Structural, Hash, Debug)]
pub struct Field(pub usize);

/// A region that is still to be inferred.
#[derive(Clone, Copy, PartialEq, Eq, Structural, Hash, Debug)]
pub struct RegionVid(pub usize);

/// A universally quantified region, the `'a` of `fn foo<'a>(n: &'a int)`.
#[derive(Clone, Copy, PartialEq, Eq, Structural, Hash, Debug)]
pub struct UniversalRegion(pub usize);

/// The handle of an interned type.
#[derive(Clone, Copy, PartialEq, Eq, Structural, Hash, Debug)]
pub struct Ty {
    pub index: usize,
}

/// The handle of an interned predicate.
#[derive(Clone, Copy, PartialEq, Eq, Structural, Hash, Debug)]
pub struct Pred {
    pub index: usize,
}

/// A function type declaration.
pub struct FnDecl {
    /// What the caller must establish: each ghost variable with the type
    /// that its actual counterpart must have. To the callee they are
    /// universally quantified.
    pub requires: Vec<(GhostVar, Ty)>,
    /// The ghost variable of each formal parameter, bound in `requires`.
    pub inputs: Vec<GhostVar>,
    /// What the caller may assume after the call: each ghost variable with
    /// its type. To the caller they are existentially quantified.
    pub ensures: Vec<(GhostVar, Ty)>,
    /// For arguments passed by reference, the position of the argument in
    /// `inputs` and the ghost variable, bound in `ensures`, that describes
    /// it after the call.
    pub outputs: Vec<(usize, GhostVar)>,
    /// The ghost variable of the returned value, bound in `ensures`.
    pub output: GhostVar,
}

/// An interned type.
#[derive(Clone, PartialEq, Eq, Hash, Debug)]
pub struct TyS {
    pub kind: TyKind,
}

/// A refined type.
#[derive(Clone, PartialEq, Eq, Hash, Debug)]
pub enum TyKind {
    /// A refined base type: `{B | p}`.
    Refined(BaseTy, Refine),
    /// A dependent tuple: `(x: int, y: {int | x > v})`.
    Tuple(Tuple),
    /// A borrowed reference into a region, whose pointee had the type of
    /// the ghost variable when the borrow was made.
    Ref(BorrowKind, Region, GhostVar),
    /// Uninitialized memory of the given size.
    Uninit(usize),
}

/// The fields of a dependent tuple, in order, each with its stable name.
#[derive(Clone, PartialEq, Eq, Hash, Debug)]
pub struct Tuple(pub Vec<(Field, Ty)>);

/// What refines a base type.
#[derive(Clone, PartialEq, Eq, Hash, Debug)]
pub enum Refine {
    /// A refinement that is still to be inferred.
    Infer(Kvar),
    /// A known predicate.
    Pred(Pred),
}

/// An interned predicate.
#[derive(Clone, PartialEq, Eq, Hash, Debug)]
pub struct PredS {
    pub kind: PredKind,
}

/// A refinement predicate.
#[derive(Clone, PartialEq, Eq, Hash, Debug)]
pub enum PredKind {
    /// A path to a value.
    Path(Path),
    /// A binary operation between predicates.
    BinaryOp(BinOp, Pred, Pred),
    /// A unary operation applied to a predicate.
    UnaryOp(UnOp, Pred),
    /// A constant value.
    Const(Constant),
}

/// A path to a value: a variable and field projections, never a
/// dereference.
#[derive(Clone, PartialEq, Eq, Hash, Debug)]
pub struct Path {
    pub base: Var,
    pub projs: Vec<usize>,
}

/// A variable that a refinement predicate can name. The three kinds never
/// stand for one another.
#[derive(Clone, Copy, PartialEq, Eq, Structural, Hash, Debug)]
pub enum Var {
    /// The value that the refinement is about, the `v` of `{v: int | v > 0}`.
    Nu,
    /// A ghost variable.
    GhostVar(GhostVar),
    /// A field of the enclosing dependent tuple.
    Field(Field),
}

/// A primitive binary operator.
#[derive(Clone, Copy, PartialEq, Eq, Structural, Hash, Debug)]
pub enum BinOp {
    /// Integer addition.
    Add,
    /// Integer subtraction.
    Sub,
    /// Integer multiplication.
    Mul,
    /// Integer division.
    Div,
    /// Integer remainder.
    Rem,
    /// Equality at a base type.
    Eq(BaseTy),
    /// Disequality at a base type.
    Neq(BaseTy),
    /// Less than.
    Lt,
    /// Greater than.
    Gt,
    /// Less than or equal.
    Lte,
    /// Greater than or equal.
    Gte,
    /// Boolean conjunction.
    And,
    /// Boolean disjunction.
    Or,
}

/// A primitive unary operator.
#[derive(Clone, Copy, PartialEq, Eq, Structural, Hash, Debug)]
pub enum UnOp {
    /// Boolean negation.
    Not,
    /// Integer negation.
    Neg,
}

/// A base type that can be refined.
#[derive(Clone, Copy, PartialEq, Eq, Structural, Hash, Debug)]
pub enum BaseTy {
    Int,
    Bool,
}

/// An approximate set of the places that a reference may point into.
#[derive(Clone, PartialEq, Eq, Hash, Debug)]
pub enum Region {
    /// A concrete set of places.
    Concrete(Vec<Place>),
    /// A universally quantified region.
    Abstract(UniversalRegion),
    /// A region that is still to be inferred.
    Infer(RegionVid),
}

/// Whether a borrow is shared or mutable.
#[derive(Clone, Copy, PartialEq, Eq, Structural, Hash, Debug)]
pub enum BorrowKind {
    Shared,
    Mut,
}

/// An unknown refinement: its name and the variables it may depend on, as
/// they were in scope where it was made.
#[derive(Clone, PartialEq, Eq, Hash, Debug)]
pub struct Kvar {
    pub id: KVid,
    pub vars: Vec<Var>,
}

/// What the table interns: a type or a predicate.
#[derive(Clone, PartialEq, Eq, Hash, Debug)]
pub enum Node {
    Ty(TyS),
    Pred(PredS),
}

/// A path as a mathematical value.
pub struct PathModel {
    pub base: Var,
    pub projs: Seq<usize>,
}

/// An unknown refinement as a mathematical value.
pub struct KvarModel {
    pub id: KVid,
    pub vars: Seq<Var>,
}

/// A refinement as a mathematical value.
pub enum RefineModel {
    Infer(KvarModel),
    Pred(Pred),
}

/// A region as a mathematical value. The places of a concrete region are
/// kept in the order in which they were given.
pub enum RegionModel {
    Concrete(Seq<PlaceModel>),
    Abstract(UniversalRegion),
    Infer(RegionVid),
}

/// The structure of a type: what two types must share to be the same type.
pub enum TyModel {
    Refined(BaseTy, RefineModel),
    Tuple(Seq<(Field, Ty)>),
    Ref(BorrowKind, RegionModel, GhostVar),
    Uninit(usize),
}

/// The structure of a predicate.
pub enum PredModel {
    Path(PathModel),
    BinaryOp(BinOp, Pred, Pred),
    UnaryOp(UnOp, Pred),
    Const(Constant),
}

/// The structure of an interned node.
pub enum NodeModel {
    Ty(TyModel),
    Pred(PredModel),
}

impl View for Node {
    type V = NodeModel;

    open spec fn view(&self) -> NodeModel {
        match self {
            Node::Ty(ty) => NodeModel::Ty(ty@),
            Node::Pred(pred) => NodeModel::Pred(pred@),
        }
    }
}

impl View for Path {
    type V = PathModel;

    open spec fn view(&self) -> PathModel {
        PathModel { base: self.base, projs: self.projs@ }
    }
}

impl View for Kvar {
    type V = KvarModel;

    open spec fn view(&self) -> KvarModel {
        KvarModel { id: self.id, vars: self.vars@ }
    }
}

impl View for Refine {
    type V = RefineModel;

    open spec fn view(&self) -> RefineModel {
        match self {
            Refine::Infer(kvar) => RefineModel::Infer(kvar@),
            Refine::Pred(pred) => RefineModel::Pred(*pred),
        }
    }
}

impl View for Region {
    type V = RegionModel;

    open spec fn view(&self) -> RegionModel {
        match self {
            Region::Concrete(places) => RegionModel::Concrete(
                Seq::new(places.len() as nat, |i: int| places[i]@),
            ),
            Region::Abstract(region) => RegionModel::Abstract(*region),
            Region::Infer(region) => RegionModel::Infer(*region),
        }
    }
}

impl View for Tuple {
    type V = Seq<(Field, Ty)>;

    open spec fn view(&self) -> Seq<(Field, Ty)> {
        self.0@
    }
}

impl View for TyKind {
    type V = TyModel;

    open spec fn view(&self) -> TyModel {
        match self {
            TyKind::Refined(base, refine) => TyModel::Refined(*base, refine@),
            TyKind::Tuple(tuple) => TyModel::Tuple(tuple@),
            TyKind::Ref(kind, region, pointee) => TyModel::Ref(*kind, region@, *pointee),
            TyKind::Uninit(size) => TyModel::Uninit(*size),
        }
    }
}

impl View for TyS {
    type V = TyModel;

    open spec fn view(&self) -> TyModel {
        self.kind@
    }
}

impl View for PredKind {
    type V = PredModel;

    open spec fn view(&self) -> PredModel {
        match self {
            PredKind::Path(path) => PredModel::Path(path@),
            PredKind::BinaryOp(op, left, right) => PredModel::BinaryOp(*op, *left, *right),
            PredKind::UnaryOp(op, operand) => PredModel::UnaryOp(*op, *operand),
            PredKind::Const(constant) => PredModel::Const(*constant),
        }
    }
}

impl View for PredS {
    type V = PredModel;

    open spec fn view(&self) -> PredModel {
        self.kind@
    }
}

impl TyS {
    pub fn kind(&self) -> (kind: &TyKind)
        ensures
            kind == self.kind,
    {
        &self.kind
    }
}

impl PredS {
    pub fn kind(&self) -> (kind: &PredKind)
        ensures
            kind == self.kind,
    {
        &self.kind
    }
}

impl Path {
    pub fn new(base: Var, projs: Vec<usize>) -> (path: Path)
        ensures
            path == (Path { base, projs }),
    {
        Path { base, projs }
    }

    /// The path one field further in.
    pub fn extend(&self, n: usize) -> (path: Path)
        ensures
            path.base == self.base,
            path.projs@ == self.projs@.push(n),
    {
        let mut projs: Vec<usize> = Vec::new();
        let mut i: usize = 0;
        while i < self.projs.len()
            invariant
                i <= self.projs.len(),
                projs@ == self.projs@.take(i as int),
            decreases self.projs.len() - i,
        {
            projs.push(self.projs[i]);
            assert(self.projs@.take(i + 1) =~= self.projs@.take(i as int).push(self.projs@[i as int]));
            i = i + 1;
        }
        assert(self.projs@.take(self.projs.len() as int) =~= self.projs@);
        projs.push(n);
        Path::new(self.base, projs)
    }
}

} // verus!
