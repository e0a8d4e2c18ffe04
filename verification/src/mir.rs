//! The control-flow-graph form of a function body that the engine reads.

use crate::ty::{BinOp, UnOp};
use vstd::prelude::*;

verus! {

/// A local variable of a function body.
#[derive(Clone, Copy, PartialEq, Eq, Structural, Hash, Debug)]
pub struct Local(pub usize);

/// The name of a basic block.
#[derive(Clone, Copy, PartialEq, Eq, Structural, Hash, Debug)]
pub struct BBlockId(pub usize);

/// The name of a function.
#[derive(Clone, Copy, PartialEq, Eq, Structural, Hash, Debug)]
pub struct FnId(pub usize);

/// One step from a memory location to a part of it.
#[derive(Clone, Copy, PartialEq, Eq, Structural, Hash, Debug)]
pub enum PlaceElem {
    /// The field at the given position.
    Field(usize),
    /// What a reference points at.
    Deref,
}

/// A memory location: a local and a way into it.
#[derive(Clone, PartialEq, Eq, Hash, Debug)]
pub struct Place {
    pub local: Local,
    pub projs: Vec<PlaceElem>,
}

/// A memory location as a mathematical value.
pub struct PlaceModel {
    pub local: Local,
    pub projs: Seq<PlaceElem>,
}

impl View for Place {
    type V = PlaceModel;

    open spec fn view(&self) -> PlaceModel {
        PlaceModel { local: self.local, projs: self.projs@ }
    }
}

/// A literal of the program.
#[derive(Clone, Copy, PartialEq, Eq, Structural, Hash, Debug)]
pub enum Constant {
    Bool(bool),
    Int(u128),
}

impl Constant {
    pub open spec fn spec_is_true(&self) -> bool {
        *self == Constant::Bool(true)
    }

    /// Whether the literal is the boolean `true`.
    #[verifier::when_used_as_spec(spec_is_true)]
    pub fn is_true(&self) -> (b: bool)
        ensures
            b == self.spec_is_true(),
    {
        match self {
            Constant::Bool(b) => *b,
            Constant::Int(_) => false,
        }
    }
}

impl Place {
    /// A copy of the place.
    pub fn duplicate(&self) -> (copy: Place)
        ensures
            copy@ == self@,
    {
        let mut projs: Vec<PlaceElem> = Vec::new();
        let mut i: usize = 0;
        while i < self.projs.len()
            invariant
                i <= self.projs.len(),
                projs@ == self.projs@.take(i as int),
            decreases self.projs.len() - i,
        {
            projs.push(self.projs[i]);
            assert(self.projs@.take(i + 1) =~= self.projs@.take(i as int).push(self.projs@[i as int]));
            i = i + 1;
        }
        assert(self.projs@.take(self.projs.len() as int) =~= self.projs@);
        Place { local: self.local, projs }
    }

    /// Whether two places are the same location.
    pub fn same(&self, other: &Place) -> (same: bool)
        ensures
            same == (self@ == other@),
    {
        if self.local != other.local || self.projs.len() != other.projs.len() {
            return false;
        }
        let mut i: usize = 0;
        while i < self.projs.len()
            invariant
                i <= self.projs.len(),
                self.projs.len() == other.projs.len(),
                self.local == other.local,
                self.projs@.take(i as int) == other.projs@.take(i as int),
            decreases self.projs.len() - i,
        {
            if self.projs[i] != other.projs[i] {
                assert(self.projs@[i as int] != other.projs@[i as int]);
                return false;
            }
            assert(self.projs@.take(i + 1) =~= self.projs@.take(i as int).push(self.projs@[i as int]));
            assert(other.projs@.take(i + 1) =~= other.projs@.take(i as int).push(
                other.projs@[i as int],
            ));
            i = i + 1;
        }
        assert(self.projs@.take(self.projs.len() as int) =~= self.projs@);
        assert(other.projs@.take(other.projs.len() as int) =~= other.projs@);
        true
    }
}

/// What an instruction reads: a local or a literal.
#[derive(Clone, Copy, PartialEq, Eq, Structural, Debug)]
pub enum Operand {
    Local(Local),
    Literal(Constant),
}

/// What an assignment computes.
#[derive(Clone, Copy, PartialEq, Eq, Structural, Debug)]
pub enum Rvalue {
    /// The operand itself.
    Use(Operand),
    /// A binary operation on two operands.
    BinaryOp(BinOp, Operand, Operand),
    /// A unary operation on an operand.
    UnaryOp(UnOp, Operand),
}

/// A statement of a basic block.
#[derive(Clone, Copy, PartialEq, Eq, Structural, Debug)]
pub enum Statement {
    /// Nothing.
    Noop,
    /// Stores the value of the right-hand side in the local.
    Assign(Local, Rvalue),
}

/// How a basic block ends.
pub enum Terminator {
    /// Returns the value of local `_0` to the caller.
    Return,
    /// Continues with the given block.
    Goto(BBlockId),
    /// Continues with the first block if the boolean local is true, and
    /// with the second if it is false.
    Switch(Local, BBlockId, BBlockId),
    /// Calls the function on the values of the given locals, stores what it
    /// returns in `dest`, and continues with the block `target`.
    Call { func: FnId, args: Vec<Local>, dest: Local, target: BBlockId },
}

/// A basic block: statements, then a terminator.
pub struct BBlock {
    pub statements: Vec<Statement>,
    pub terminator: Terminator,
}

impl BBlock {
    pub fn statements(&self) -> (statements: &Vec<Statement>)
        ensures
            statements == self.statements,
    {
        &self.statements
    }

    pub fn terminator(&self) -> (terminator: &Terminator)
        ensures
            terminator == self.terminator,
    {
        &self.terminator
    }
}

/// The body of a function: its basic blocks, in the order in which they
/// are to be checked. The first is the entry.
pub struct Body {
    pub blocks: Vec<(BBlockId, BBlock)>,
}

} // verus!
