//! Types and predicates as shown to a reader.
//!
//! This is the notation of diagnostics. It is not the notation of the
//! solver: boolean negation, for one, is `!` here and `~` there.

use crate::mir::{Constant, Local, Operand, Place, PlaceElem, PlaceModel};
use crate::text::{decimal, lemma_append, push_decimal};
use crate::ty::context::{children_below, TyCtxt};
use crate::ty::tree::{pred_tree, refine_tree, ty_tree, PredTree, RefineTree, TyTree};
use crate::ty::{
    BaseTy, BinOp, BorrowKind, Field, GhostVar, Kvar, KvarModel, NodeModel, Path, PathModel, Pred,
    PredKind, Refine, Region, RegionModel, RegionVid, Ty, TyKind, UnOp, UniversalRegion, Var,
};
use vstd::prelude::*;
use vstd::string::*;

verus! {

impl Local {
    /// `_` and the number of the local.
    pub open spec fn text(self) -> Seq<char> {
        "_"@ + decimal(self.0 as nat)
    }

    /// Appends the local to `w`.
    pub fn write(&self, w: &mut String)
        ensures
            final(w)@ == old(w)@ + self.text(),
    {
        let ghost base = w@;
        w.append("_");
        push_decimal(w, self.0 as u128);
        proof {
            lemma_append(base, "_"@, decimal(self.0 as nat));
        }
    }
}

impl GhostVar {
    /// `g` and the number of the ghost variable.
    pub open spec fn text(self) -> Seq<char> {
        "g"@ + decimal(self.0 as nat)
    }

    /// Appends the ghost variable to `w`.
    pub fn write(&self, w: &mut String)
        ensures
            final(w)@ == old(w)@ + self.text(),
    {
        let ghost base = w@;
        w.append("g");
        push_decimal(w, self.0 as u128);
        proof {
            lemma_append(base, "g"@, decimal(self.0 as nat));
        }
    }

    pub fn to_string(&self) -> (s: String)
        ensures
            s@ == self.text(),
    {
        let mut s = String::new();
        self.write(&mut s);
        assert(s@ =~= self.text());
        s
    }
}

impl Field {
    /// `@` and the index of the field.
    pub open spec fn text(self) -> Seq<char> {
        "@"@ + decimal(self.0 as nat)
    }

    /// Appends the field to `w`.
    pub fn write(&self, w: &mut String)
        ensures
            final(w)@ == old(w)@ + self.text(),
    {
        let ghost base = w@;
        w.append("@");
        push_decimal(w, self.0 as u128);
        proof {
            lemma_append(base, "@"@, decimal(self.0 as nat));
        }
    }

    pub fn to_string(&self) -> (s: String)
        ensures
            s@ == self.text(),
    {
        let mut s = String::new();
        self.write(&mut s);
        assert(s@ =~= self.text());
        s
    }
}

impl RegionVid {
    /// `$r` and the number of the region variable.
    pub open spec fn text(self) -> Seq<char> {
        "$r"@ + decimal(self.0 as nat)
    }

    /// Appends the region variable to `w`.
    pub fn write(&self, w: &mut String)
        ensures
            final(w)@ == old(w)@ + self.text(),
    {
        let ghost base = w@;
        w.append("$r");
        push_decimal(w, self.0 as u128);
        proof {
            lemma_append(base, "$r"@, decimal(self.0 as nat));
        }
    }

    pub fn to_string(&self) -> (s: String)
        ensures
            s@ == self.text(),
    {
        let mut s = String::new();
        self.write(&mut s);
        assert(s@ =~= self.text());
        s
    }
}

impl UniversalRegion {
    /// `'` and the number of the region.
    pub open spec fn text(self) -> Seq<char> {
        "'"@ + decimal(self.0 as nat)
    }

    /// Appends the region to `w`.
    pub fn write(&self, w: &mut String)
        ensures
            final(w)@ == old(w)@ + self.text(),
    {
        let ghost base = w@;
        w.append("'");
        push_decimal(w, self.0 as u128);
        proof {
            lemma_append(base, "'"@, decimal(self.0 as nat));
        }
    }

    pub fn to_string(&self) -> (s: String)
        ensures
            s@ == self.text(),
    {
        let mut s = String::new();
        self.write(&mut s);
        assert(s@ =~= self.text());
        s
    }
}

impl Var {
    /// `v` for the refined value itself, and the name of a ghost variable
    /// or of a field.
    pub open spec fn text(self) -> Seq<char> {
        match self {
            Var::Nu => "v"@,
            Var::GhostVar(var) => var.text(),
            Var::Field(field) => field.text(),
        }
    }

    /// Appends the variable to `w`.
    pub fn write(&self, w: &mut String)
        ensures
            final(w)@ == old(w)@ + self.text(),
    {
        match self {
            Var::Nu => w.append("v"),
            Var::GhostVar(var) => var.write(w),
            Var::Field(field) => field.write(w),
        }
    }

    pub fn to_string(&self) -> (s: String)
        ensures
            s@ == self.text(),
    {
        let mut s = String::new();
        self.write(&mut s);
        assert(s@ =~= self.text());
        s
    }
}

/// Field projections, each as `.` and the position.
pub open spec fn projs_text(projs: Seq<usize>) -> Seq<char>
    decreases projs.len(),
{
    if projs.len() == 0 {
        Seq::empty()
    } else {
        projs_text(projs.drop_last()) + "."@ + decimal(projs.last() as nat)
    }
}

impl PathModel {
    /// The base variable followed by the projections.
    pub open spec fn text(self) -> Seq<char> {
        self.base.text() + projs_text(self.projs)
    }
}

impl Path {
    /// Appends the path to `w`.
    pub fn write(&self, w: &mut String)
        ensures
            final(w)@ == old(w)@ + self@.text(),
    {
        let ghost base = w@;
        self.base.write(w);
        let mut i: usize = 0;
        proof {
            assert(self.projs@.take(0) =~= Seq::<usize>::empty());
            assert(self.base.text() + projs_text(self.projs@.take(0)) =~= self.base.text());
        }
        while i < self.projs.len()
            invariant
                i <= self.projs.len(),
                w@ == base + (self.base.text() + projs_text(self.projs@.take(i as int))),
            decreases self.projs.len() - i,
        {
            let ghost done = projs_text(self.projs@.take(i as int));
            let ghost head = self.base.text();
            w.append(".");
            proof {
                lemma_append(base, head + done, "."@);
            }
            push_decimal(w, self.projs[i] as u128);
            proof {
                let numeral = decimal(self.projs@[i as int] as nat);
                lemma_append(base, head + done + "."@, numeral);
                lemma_append(head, done, "."@);
                lemma_append(head, done + "."@, numeral);
                let next = self.projs@.take(i + 1);
                assert(next.drop_last() =~= self.projs@.take(i as int));
                assert(next.last() == self.projs@[i as int]);
            }
            i = i + 1;
        }
        assert(self.projs@.take(self.projs.len() as int) =~= self.projs@);
    }

    pub fn to_string(&self) -> (s: String)
        ensures
            s@ == self@.text(),
    {
        let mut s = String::new();
        self.write(&mut s);
        assert(s@ =~= self@.text());
        s
    }
}

impl BaseTy {
    /// `int` or `bool`.
    pub open spec fn text(self) -> Seq<char> {
        match self {
            BaseTy::Int => "int"@,
            BaseTy::Bool => "bool"@,
        }
    }

    pub fn as_str(&self) -> (s: &'static str)
        ensures
            s@ == self.text(),
    {
        match self {
            BaseTy::Int => "int",
            BaseTy::Bool => "bool",
        }
    }

    pub fn to_string(&self) -> (s: String)
        ensures
            s@ == self.text(),
    {
        String::from_str(self.as_str())
    }
}

impl BinOp {
    /// The symbol of the operator; `==` and `!=` whatever the base type.
    pub open spec fn text(self) -> Seq<char> {
        match self {
            BinOp::Add => "+"@,
            BinOp::Sub => "-"@,
            BinOp::Mul => "*"@,
            BinOp::Div => "/"@,
            BinOp::Rem => "%"@,
            BinOp::And => "&&"@,
            BinOp::Or => "||"@,
            BinOp::Eq(_) => "=="@,
            BinOp::Neq(_) => "!="@,
            BinOp::Lt => "<"@,
            BinOp::Gt => ">"@,
            BinOp::Lte => "<="@,
            BinOp::Gte => ">="@,
        }
    }

    pub fn as_str(&self) -> (s: &'static str)
        ensures
            s@ == self.text(),
    {
        match self {
            BinOp::Add => "+",
            BinOp::Sub => "-",
            BinOp::Mul => "*",
            BinOp::Div => "/",
            BinOp::Rem => "%",
            BinOp::And => "&&",
            BinOp::Or => "||",
            BinOp::Eq(_) => "==",
            BinOp::Neq(_) => "!=",
            BinOp::Lt => "<",
            BinOp::Gt => ">",
            BinOp::Lte => "<=",
            BinOp::Gte => ">=",
        }
    }

    pub fn to_string(&self) -> (s: String)
        ensures
            s@ == self.text(),
    {
        String::from_str(self.as_str())
    }
}

impl UnOp {
    /// `!` or `-`.
    pub open spec fn text(self) -> Seq<char> {
        match self {
            UnOp::Not => "!"@,
            UnOp::Neg => "-"@,
        }
    }

    pub fn as_str(&self) -> (s: &'static str)
        ensures
            s@ == self.text(),
    {
        match self {
            UnOp::Not => "!",
            UnOp::Neg => "-",
        }
    }

    pub fn to_string(&self) -> (s: String)
        ensures
            s@ == self.text(),
    {
        String::from_str(self.as_str())
    }
}

impl Constant {
    /// `true`, `false`, or the decimal numeral of an integer.
    pub open spec fn text(self) -> Seq<char> {
        match self {
            Constant::Bool(b) => if b {
                "true"@
            } else {
                "false"@
            },
            Constant::Int(n) => decimal(n as nat),
        }
    }

    /// Appends the literal to `w`.
    pub fn write(&self, w: &mut String)
        ensures
            final(w)@ == old(w)@ + self.text(),
    {
        match self {
            Constant::Bool(b) => {
                if *b {
                    w.append("true");
                } else {
                    w.append("false");
                }
            },
            Constant::Int(n) => {
                push_decimal(w, *n);
            },
        }
    }

    pub fn to_string(&self) -> (s: String)
        ensures
            s@ == self.text(),
    {
        let mut s = String::new();
        self.write(&mut s);
        assert(s@ =~= self.text());
        s
    }
}

impl Operand {
    /// A local or a literal, as it is.
    pub open spec fn text(self) -> Seq<char> {
        match self {
            Operand::Local(local) => local.text(),
            Operand::Literal(constant) => constant.text(),
        }
    }

    /// Appends the operand to `w`.
    pub fn write(&self, w: &mut String)
        ensures
            final(w)@ == old(w)@ + self.text(),
    {
        match self {
            Operand::Local(local) => local.write(w),
            Operand::Literal(constant) => constant.write(w),
        }
    }

    pub fn to_string(&self) -> (s: String)
        ensures
            s@ == self.text(),
    {
        let mut s = String::new();
        self.write(&mut s);
        assert(s@ =~= self.text());
        s
    }
}

/// The steps of a place: `.` and the position for a field, `.*` for a
/// dereference.
pub open spec fn elems_text(projs: Seq<PlaceElem>) -> Seq<char>
    decreases projs.len(),
{
    if projs.len() == 0 {
        Seq::empty()
    } else {
        elems_text(projs.drop_last()) + match projs.last() {
            PlaceElem::Field(n) => "."@ + decimal(n as nat),
            PlaceElem::Deref => ".*"@,
        }
    }
}

impl PlaceElem {
    /// One step of a place.
    pub open spec fn text(self) -> Seq<char> {
        match self {
            PlaceElem::Field(n) => "."@ + decimal(n as nat),
            PlaceElem::Deref => ".*"@,
        }
    }

    /// Appends the step to `w`.
    pub fn write(&self, w: &mut String)
        ensures
            final(w)@ == old(w)@ + self.text(),
    {
        match self {
            PlaceElem::Field(n) => {
                let ghost base = w@;
                w.append(".");
                push_decimal(w, *n as u128);
                proof {
                    lemma_append(base, "."@, decimal(*n as nat));
                }
            },
            PlaceElem::Deref => w.append(".*"),
        }
    }
}

impl PlaceModel {
    /// The local followed by the steps into it.
    pub open spec fn text(self) -> Seq<char> {
        self.local.text() + elems_text(self.projs)
    }
}

impl Place {
    /// Appends the place to `w`.
    pub fn write(&self, w: &mut String)
        ensures
            final(w)@ == old(w)@ + self@.text(),
    {
        let ghost base = w@;
        self.local.write(w);
        let mut i: usize = 0;
        proof {
            assert(self.projs@.take(0) =~= Seq::<PlaceElem>::empty());
            assert(self.local.text() + elems_text(self.projs@.take(0)) =~= self.local.text());
        }
        while i < self.projs.len()
            invariant
                i <= self.projs.len(),
                w@ == base + (self.local.text() + elems_text(self.projs@.take(i as int))),
            decreases self.projs.len() - i,
        {
            let ghost done = elems_text(self.projs@.take(i as int));
            let ghost head = self.local.text();
            self.projs[i].write(w);
            proof {
                let step = self.projs@[i as int].text();
                lemma_append(base, head + done, step);
                lemma_append(head, done, step);
                let next = self.projs@.take(i + 1);
                assert(next.drop_last() =~= self.projs@.take(i as int));
                assert(next.last() == self.projs@[i as int]);
            }
            i = i + 1;
        }
        assert(self.projs@.take(self.projs.len() as int) =~= self.projs@);
    }

    pub fn to_string(&self) -> (s: String)
        ensures
            s@ == self@.text(),
    {
        let mut s = String::new();
        self.write(&mut s);
        assert(s@ =~= self@.text());
        s
    }
}

/// Variables separated by `, `.
pub open spec fn vars_text(vars: Seq<Var>) -> Seq<char>
    decreases vars.len(),
{
    if vars.len() == 0 {
        Seq::empty()
    } else if vars.len() == 1 {
        vars[0].text()
    } else {
        vars_text(vars.drop_last()) + ", "@ + vars.last().text()
    }
}

impl KvarModel {
    /// The name of the unknown refinement and, in square brackets, the
    /// variables it may depend on.
    pub open spec fn text(self) -> Seq<char> {
        self.id.text() + "["@ + vars_text(self.vars) + "]"@
    }
}

impl Kvar {
    /// Appends the unknown refinement to `w`.
    pub fn write(&self, w: &mut String)
        ensures
            final(w)@ == old(w)@ + self@.text(),
    {
        let ghost base = w@;
        self.id.emit(w);
        w.append("[");
        let ghost head = self.id.text() + "["@;
        proof {
            lemma_append(base, self.id.text(), "["@);
            assert(self.vars@.take(0) =~= Seq::<Var>::empty());
            assert(head + vars_text(self.vars@.take(0)) =~= head);
        }
        let mut i: usize = 0;
        while i < self.vars.len()
            invariant
                i <= self.vars.len(),
                w@ == base + (head + vars_text(self.vars@.take(i as int))),
            decreases self.vars.len() - i,
        {
            let ghost done = vars_text(self.vars@.take(i as int));
            let ghost item = self.vars@[i as int].text();
            if i > 0 {
                w.append(", ");
                proof {
                    lemma_append(base, head + done, ", "@);
                }
            }
            self.vars[i].write(w);
            proof {
                let next = self.vars@.take(i + 1);
                assert(next.drop_last() =~= self.vars@.take(i as int));
                assert(next.last() == self.vars@[i as int]);
                if i > 0 {
                    lemma_append(base, head + done + ", "@, item);
                    lemma_append(head, done, ", "@);
                    lemma_append(head, done + ", "@, item);
                } else {
                    assert(done =~= Seq::<char>::empty());
                    assert(head + done =~= head);
                    lemma_append(base, head, item);
                    assert(next.len() == 1);
                }
            }
            i = i + 1;
        }
        assert(self.vars@.take(self.vars.len() as int) =~= self.vars@);
        w.append("]");
        proof {
            lemma_append(base, head + vars_text(self.vars@), "]"@);
        }
    }

    pub fn to_string(&self) -> (s: String)
        ensures
            s@ == self@.text(),
    {
        let mut s = String::new();
        self.write(&mut s);
        assert(s@ =~= self@.text());
        s
    }
}

/// Places separated by `, `.
pub open spec fn places_text(places: Seq<PlaceModel>) -> Seq<char>
    decreases places.len(),
{
    if places.len() == 0 {
        Seq::empty()
    } else if places.len() == 1 {
        places[0].text()
    } else {
        places_text(places.drop_last()) + ", "@ + places.last().text()
    }
}

impl RegionModel {
    /// A concrete region as its places between `{ ` and ` }`, and the name
    /// of an abstract region or of a region variable.
    pub open spec fn text(self) -> Seq<char> {
        match self {
            RegionModel::Concrete(places) => "{ "@ + places_text(places) + " }"@,
            RegionModel::Abstract(region) => region.text(),
            RegionModel::Infer(region) => region.text(),
        }
    }
}

impl Region {
    /// Appends the region to `w`.
    pub fn write(&self, w: &mut String)
        ensures
            final(w)@ == old(w)@ + self@.text(),
    {
        match self {
            Region::Concrete(places) => {
                let ghost base = w@;
                let ghost all = self@->Concrete_0;
                w.append("{ ");
                let ghost head = "{ "@;
                proof {
                    assert(all.take(0) =~= Seq::<PlaceModel>::empty());
                    assert(head + places_text(all.take(0)) =~= head);
                }
                let mut i: usize = 0;
                while i < places.len()
                    invariant
                        i <= places.len(),
                        all.len() == places.len(),
                        forall|k: int| 0 <= k < places.len() ==> all[k] == places[k]@,
                        w@ == base + (head + places_text(all.take(i as int))),
                    decreases places.len() - i,
                {
                    let ghost done = places_text(all.take(i as int));
                    let ghost item = all[i as int].text();
                    if i > 0 {
                        w.append(", ");
                        proof {
                            lemma_append(base, head + done, ", "@);
                        }
                    }
                    places[i].write(w);
                    proof {
                        let next = all.take(i + 1);
                        assert(next.drop_last() =~= all.take(i as int));
                        assert(next.last() == all[i as int]);
                        if i > 0 {
                            lemma_append(base, head + done + ", "@, item);
                            lemma_append(head, done, ", "@);
                            lemma_append(head, done + ", "@, item);
                        } else {
                            assert(done =~= Seq::<char>::empty());
                            assert(head + done =~= head);
                            lemma_append(base, head, item);
                            assert(next.len() == 1);
                        }
                    }
                    i = i + 1;
                }
                assert(all.take(places.len() as int) =~= all);
                w.append(" }");
                proof {
                    lemma_append(base, head + places_text(all), " }"@);
                }
            },
            Region::Abstract(region) => region.write(w),
            Region::Infer(region) => region.write(w),
        }
    }

    pub fn to_string(&self) -> (s: String)
        ensures
            s@ == self@.text(),
    {
        let mut s = String::new();
        self.write(&mut s);
        assert(s@ =~= self@.text());
        s
    }
}

impl PredTree {
    /// A path as it is, a binary operation in parentheses with single
    /// spaces around the operator, a unary operator directly before its
    /// operand, and a literal as it is.
    pub open spec fn text(self) -> Seq<char>
        decreases self,
    {
        match self {
            PredTree::Path(path) => path.text(),
            PredTree::BinaryOp(op, left, right) => "("@ + left.text() + " "@ + op.text() + " "@
                + right.text() + ")"@,
            PredTree::UnaryOp(op, operand) => op.text() + operand.text(),
            PredTree::Const(constant) => constant.text(),
        }
    }

    /// Whether the predicate is the literal `true`.
    pub open spec fn is_true(self) -> bool {
        self == PredTree::Const(Constant::Bool(true))
    }
}

impl TyTree {
    /// The first `n` fields of a tuple, each as `@`, its name, `: ` and its
    /// type, separated by `, `.
    pub open spec fn fields_text(fields: Seq<(Field, TyTree)>, n: nat) -> Seq<char>
        decreases fields, n,
    {
        if n == 0 || n > fields.len() {
            Seq::empty()
        } else if n == 1 {
            "@"@ + fields[0].0.text() + ": "@ + fields[0].1.text()
        } else {
            Self::fields_text(fields, (n - 1) as nat) + ", "@ + "@"@ + fields[n - 1].0.text()
                + ": "@ + fields[n - 1].1.text()
        }
    }

    /// The type as shown to a reader.
    ///
    /// A reference is `&`, its region, `mut` if it is mutable, and the
    /// ghost variable of its pointee. A tuple is its fields in parentheses.
    /// Uninitialized memory is `uninit(size)`. A base type refined by the
    /// literal `true` is the base type alone; any other refinement `p` of a
    /// base type `B` is `{ B | p }`.
    pub open spec fn text(self) -> Seq<char>
        decreases self, 0nat,
    {
        match self {
            TyTree::Ref(BorrowKind::Shared, region, pointee) => "&"@ + region.text() + " "@
                + pointee.text(),
            TyTree::Ref(BorrowKind::Mut, region, pointee) => "&"@ + region.text() + " mut "@
                + pointee.text(),
            TyTree::Tuple(fields) => "("@ + Self::fields_text(fields, fields.len()) + ")"@,
            TyTree::Uninit(size) => "uninit("@ + decimal(size as nat) + ")"@,
            TyTree::Refined(base, RefineTree::Infer(kvar)) => "{ "@ + base.text() + " | "@
                + kvar.text() + " }"@,
            TyTree::Refined(base, RefineTree::Pred(pred)) => if pred.is_true() {
                base.text()
            } else {
                "{ "@ + base.text() + " | "@ + pred.text() + " }"@
            },
        }
    }
}

impl TyCtxt {
    /// The predicate that a handle stands for, written out in full.
    pub open spec fn pred_tree(&self, pred: Pred) -> PredTree {
        pred_tree(self@, pred.index as int)
    }

    /// The type that a handle stands for, written out in full.
    pub open spec fn ty_tree(&self, ty: Ty) -> TyTree {
        ty_tree(self@, ty.index as int)
    }

    /// Appends the predicate behind a handle to `w`.
    pub fn write_pred(&self, pred: Pred, w: &mut String)
        requires
            self.wf(),
            self.has_pred(pred),
        ensures
            final(w)@ == old(w)@ + self.pred_tree(pred).text(),
        decreases pred.index,
    {
        assert(children_below(self@, self@[pred.index as int], pred.index as int));
        let node = self.pred(pred);
        assert(self@[pred.index as int] == NodeModel::Pred(node.kind@));
        let ghost base = w@;
        match &node.kind {
            PredKind::Path(path) => path.write(w),
            PredKind::BinaryOp(op, left, right) => {
                let ghost l = self.pred_tree(*left).text();
                let ghost r = self.pred_tree(*right).text();
                w.append("(");
                self.write_pred(*left, w);
                proof {
                    lemma_append(base, "("@, l);
                }
                w.append(" ");
                proof {
                    lemma_append(base, "("@ + l, " "@);
                }
                w.append(op.as_str());
                proof {
                    lemma_append(base, "("@ + l + " "@, op.text());
                }
                w.append(" ");
                proof {
                    lemma_append(base, "("@ + l + " "@ + op.text(), " "@);
                }
                self.write_pred(*right, w);
                proof {
                    lemma_append(base, "("@ + l + " "@ + op.text() + " "@, r);
                }
                w.append(")");
                proof {
                    lemma_append(base, "("@ + l + " "@ + op.text() + " "@ + r, ")"@);
                }
            },
            PredKind::UnaryOp(op, operand) => {
                w.append(op.as_str());
                self.write_pred(*operand, w);
                proof {
                    lemma_append(base, op.text(), self.pred_tree(*operand).text());
                }
            },
            PredKind::Const(constant) => constant.write(w),
        }
    }

    /// The predicate behind a handle as a string.
    pub fn pred_to_string(&self, pred: Pred) -> (s: String)
        requires
            self.wf(),
            self.has_pred(pred),
        ensures
            s@ == self.pred_tree(pred).text(),
    {
        let mut s = String::new();
        self.write_pred(pred, &mut s);
        assert(s@ =~= self.pred_tree(pred).text());
        s
    }

    /// Whether the predicate behind a handle is the literal `true`.
    pub fn pred_is_true(&self, pred: Pred) -> (b: bool)
        requires
            self.wf(),
            self.has_pred(pred),
        ensures
            b == self.pred_tree(pred).is_true(),
    {
        assert(children_below(self@, self@[pred.index as int], pred.index as int));
        let node = self.pred(pred);
        assert(self@[pred.index as int] == NodeModel::Pred(node.kind@));
        match &node.kind {
            PredKind::Const(constant) => constant.is_true(),
            _ => false,
        }
    }

    /// Appends the type behind a handle to `w`.
    pub fn write_ty(&self, ty: Ty, w: &mut String)
        requires
            self.wf(),
            self.has_ty(ty),
        ensures
            final(w)@ == old(w)@ + self.ty_tree(ty).text(),
        decreases ty.index,
    {
        assert(children_below(self@, self@[ty.index as int], ty.index as int));
        let node = self.ty(ty);
        assert(self@[ty.index as int] == NodeModel::Ty(node.kind@));
        let ghost base = w@;
        match &node.kind {
            TyKind::Ref(kind, region, pointee) => {
                w.append("&");
                region.write(w);
                proof {
                    lemma_append(base, "&"@, region@.text());
                }
                match kind {
                    BorrowKind::Shared => {
                        w.append(" ");
                        proof {
                            lemma_append(base, "&"@ + region@.text(), " "@);
                        }
                        pointee.write(w);
                        proof {
                            lemma_append(base, "&"@ + region@.text() + " "@, pointee.text());
                        }
                    },
                    BorrowKind::Mut => {
                        w.append(" mut ");
                        proof {
                            lemma_append(base, "&"@ + region@.text(), " mut "@);
                        }
                        pointee.write(w);
                        proof {
                            lemma_append(base, "&"@ + region@.text() + " mut "@, pointee.text());
                        }
                    },
                }
            },
            TyKind::Tuple(tuple) => {
                let ghost fields = self.ty_tree(ty)->Tuple_0;
                w.append("(");
                let ghost head = "("@;
                proof {
                    assert(head + TyTree::fields_text(fields, 0) =~= head);
                }
                let mut i: usize = 0;
                while i < tuple.0.len()
                    invariant
                        i <= tuple.0.len(),
                        self.wf(),
                        fields.len() == tuple.0.len(),
                        forall|k: int|
                            0 <= k < tuple.0.len() ==> (#[trigger] tuple.0@[k]).1.index < ty.index
                                && self.has_ty(tuple.0@[k].1) && fields[k] == (
                                tuple.0@[k].0,
                                self.ty_tree(tuple.0@[k].1),
                            ),
                        w@ == base + (head + TyTree::fields_text(fields, i as nat)),
                    decreases tuple.0.len() - i,
                {
                    let ghost done = TyTree::fields_text(fields, i as nat);
                    let field = tuple.0[i].0;
                    let inner = tuple.0[i].1;
                    assert(fields[i as int] == (field, self.ty_tree(inner)));
                    let ghost mut acc = head + done;
                    if i > 0 {
                        w.append(", ");
                        proof {
                            lemma_append(base, acc, ", "@);
                            acc = acc + ", "@;
                        }
                    }
                    w.append("@");
                    proof {
                        lemma_append(base, acc, "@"@);
                        acc = acc + "@"@;
                    }
                    field.write(w);
                    proof {
                        lemma_append(base, acc, field.text());
                        acc = acc + field.text();
                    }
                    w.append(": ");
                    proof {
                        lemma_append(base, acc, ": "@);
                        acc = acc + ": "@;
                    }
                    self.write_ty(inner, w);
                    proof {
                        let item = self.ty_tree(inner).text();
                        lemma_append(base, acc, item);
                        if i > 0 {
                            lemma_append(head, done, ", "@);
                            lemma_append(head, done + ", "@, "@"@);
                            lemma_append(head, done + ", "@ + "@"@, field.text());
                            lemma_append(head, done + ", "@ + "@"@ + field.text(), ": "@);
                            lemma_append(head, done + ", "@ + "@"@ + field.text() + ": "@, item);
                        } else {
                            assert(done =~= Seq::<char>::empty());
                            assert(head + done =~= head);
                            lemma_append(head, "@"@, field.text());
                            lemma_append(head, "@"@ + field.text(), ": "@);
                            lemma_append(head, "@"@ + field.text() + ": "@, item);
                        }
                    }
                    i = i + 1;
                }
                w.append(")");
                proof {
                    lemma_append(base, head + TyTree::fields_text(fields, fields.len()), ")"@);
                }
            },
            TyKind::Uninit(size) => {
                w.append("uninit(");
                push_decimal(w, *size as u128);
                proof {
                    lemma_append(base, "uninit("@, decimal(*size as nat));
                }
                w.append(")");
                proof {
                    lemma_append(base, "uninit("@ + decimal(*size as nat), ")"@);
                }
            },
            TyKind::Refined(bty, Refine::Infer(kvar)) => {
                w.append("{ ");
                w.append(bty.as_str());
                proof {
                    lemma_append(base, "{ "@, bty.text());
                }
                w.append(" | ");
                proof {
                    lemma_append(base, "{ "@ + bty.text(), " | "@);
                }
                kvar.write(w);
                proof {
                    lemma_append(base, "{ "@ + bty.text() + " | "@, kvar@.text());
                }
                w.append(" }");
                proof {
                    lemma_append(base, "{ "@ + bty.text() + " | "@ + kvar@.text(), " }"@);
                }
            },
            TyKind::Refined(bty, Refine::Pred(pred)) => {
                if self.pred_is_true(*pred) {
                    w.append(bty.as_str());
                } else {
                    let ghost p = self.pred_tree(*pred).text();
                    w.append("{ ");
                    w.append(bty.as_str());
                    proof {
                        lemma_append(base, "{ "@, bty.text());
                    }
                    w.append(" | ");
                    proof {
                        lemma_append(base, "{ "@ + bty.text(), " | "@);
                    }
                    self.write_pred(*pred, w);
                    proof {
                        lemma_append(base, "{ "@ + bty.text() + " | "@, p);
                    }
                    w.append(" }");
                    proof {
                        lemma_append(base, "{ "@ + bty.text() + " | "@ + p, " }"@);
                    }
                }
            },
        }
    }

    /// The type behind a handle as a string.
    pub fn ty_to_string(&self, ty: Ty) -> (s: String)
        requires
            self.wf(),
            self.has_ty(ty),
        ensures
            s@ == self.ty_tree(ty).text(),
    {
        let mut s = String::new();
        self.write_ty(ty, &mut s);
        assert(s@ =~= self.ty_tree(ty).text());
        s
    }
}

} // verus!
