//! The textual form of constraints that the solver reads.

use crate::fixpoint::constraint::{BinOp, Constant, Constraint, Expr, KVar, KVid, Pred, Qualifier, Sort, UnOp};
use crate::text::{decimal, lemma_append, lemma_decimal_injective, push_decimal};
use vstd::prelude::*;
use vstd::string::*;

verus! {

/// The name of the variable bound at nesting level `level`: `v` and the
/// level.
pub open spec fn var_name(level: nat) -> Seq<char> {
    "v"@ + decimal(level)
}

/// Appends the name of the variable bound at `level` to `w`.
pub fn emit_var(level: usize, w: &mut String)
    ensures
        final(w)@ == old(w)@ + var_name(level as nat),
{
    w.append("v");
    push_decimal(w, level as u128);
    assert(w@ =~= old(w)@ + var_name(level as nat));
}

/// Variables bound at different levels have different names.
pub proof fn lemma_var_name_injective(a: nat, b: nat)
    requires
        var_name(a) == var_name(b),
    ensures
        a == b,
{
    reveal_strlit("v");
    assert(var_name(a).subrange(1, var_name(a).len() as int) =~= decimal(a));
    assert(var_name(b).subrange(1, var_name(b).len() as int) =~= decimal(b));
    lemma_decimal_injective(a, b);
}

impl Sort {
    /// The solver's name of the sort.
    pub open spec fn text(self) -> Seq<char> {
        match self {
            Sort::Int => "int"@,
            Sort::Bool => "bool"@,
        }
    }

    pub fn as_str(&self) -> (s: &'static str)
        ensures
            s@ == self.text(),
    {
        match self {
            Sort::Int => "int",
            Sort::Bool => "bool",
        }
    }

    pub fn to_string(&self) -> (s: String)
        ensures
            s@ == self.text(),
    {
        String::from_str(self.as_str())
    }

    /// Appends the sort's name to `w`.
    pub fn emit(&self, w: &mut String)
        ensures
            final(w)@ == old(w)@ + self.text(),
    {
        w.append(self.as_str());
    }
}

impl KVid {
    /// The name of the unknown predicate: `$k` and its number.
    pub open spec fn text(self) -> Seq<char> {
        "$k"@ + decimal(self.0 as nat)
    }

    pub fn to_string(&self) -> (s: String)
        ensures
            s@ == self.text(),
    {
        let mut s = String::new();
        self.emit(&mut s);
        s
    }

    /// Appends the name to `w`.
    pub fn emit(&self, w: &mut String)
        ensures
            final(w)@ == old(w)@ + self.text(),
    {
        w.append("$k");
        push_decimal(w, self.0 as u128);
        assert(w@ =~= old(w)@ + self.text());
    }
}

impl Constant {
    /// `true`, `false`, or the decimal numeral of an integer.
    pub open spec fn text(self) -> Seq<char> {
        match self {
            Constant::Bool(b) => if b {
                "true"@
            } else {
                "false"@
            },
            Constant::Int(n) => decimal(n as nat),
        }
    }

    pub fn to_string(&self) -> (s: String)
        ensures
            s@ == self.text(),
    {
        let mut s = String::new();
        self.emit(&mut s);
        s
    }

    /// Appends the literal to `w`.
    pub fn emit(&self, w: &mut String)
        ensures
            final(w)@ == old(w)@ + self.text(),
    {
        match self {
            Constant::Bool(b) => {
                if *b {
                    w.append("true");
                } else {
                    w.append("false");
                }
            },
            Constant::Int(n) => {
                push_decimal(w, *n);
            },
        }
    }
}

impl BinOp {
    /// The operator as shown to a reader.
    pub open spec fn display_text(self) -> Seq<char> {
        match self {
            BinOp::Eq => "="@,
            BinOp::Add => "+"@,
            BinOp::Sub => "-"@,
            BinOp::Mul => "*"@,
            BinOp::Div => "/"@,
            BinOp::Rem => "%"@,
            BinOp::Neq => "!="@,
            BinOp::Lt => "<"@,
            BinOp::Gt => ">"@,
            BinOp::Lte => "<="@,
            BinOp::Gte => ">="@,
            BinOp::And => "&&"@,
            BinOp::Or => "||"@,
        }
    }

    /// The operator as the solver reads it: its symbol, but `mod` for the
    /// remainder.
    pub open spec fn text(self) -> Seq<char> {
        match self {
            BinOp::Rem => "mod"@,
            _ => self.display_text(),
        }
    }

    pub fn as_str(&self) -> (s: &'static str)
        ensures
            s@ == self.display_text(),
    {
        match self {
            BinOp::Eq => "=",
            BinOp::Add => "+",
            BinOp::Sub => "-",
            BinOp::Mul => "*",
            BinOp::Div => "/",
            BinOp::Rem => "%",
            BinOp::Neq => "!=",
            BinOp::Lt => "<",
            BinOp::Gt => ">",
            BinOp::Lte => "<=",
            BinOp::Gte => ">=",
            BinOp::And => "&&",
            BinOp::Or => "||",
        }
    }

    pub fn to_string(&self) -> (s: String)
        ensures
            s@ == self.display_text(),
    {
        String::from_str(self.as_str())
    }

    /// Appends the solver's form of the operator to `w`.
    pub fn emit(&self, w: &mut String)
        ensures
            final(w)@ == old(w)@ + self.text(),
    {
        match self {
            BinOp::Rem => w.append("mod"),
            _ => w.append(self.as_str()),
        }
    }
}

impl UnOp {
    /// The operator as shown to a reader: `!` and `-`.
    pub open spec fn display_text(self) -> Seq<char> {
        match self {
            UnOp::Not => "!"@,
            UnOp::Neg => "-"@,
        }
    }

    /// The operator as the solver reads it: `~` and `-`.
    pub open spec fn text(self) -> Seq<char> {
        match self {
            UnOp::Not => "~"@,
            UnOp::Neg => "-"@,
        }
    }

    pub fn as_str(&self) -> (s: &'static str)
        ensures
            s@ == self.display_text(),
    {
        match self {
            UnOp::Not => "!",
            UnOp::Neg => "-",
        }
    }

    pub fn to_string(&self) -> (s: String)
        ensures
            s@ == self.display_text(),
    {
        String::from_str(self.as_str())
    }

    /// Appends the solver's form of the operator to `w`.
    pub fn emit(&self, w: &mut String)
        ensures
            final(w)@ == old(w)@ + self.text(),
    {
        match self {
            UnOp::Not => w.append("~"),
            UnOp::Neg => w.append("-"),
        }
    }
}

impl Expr {
    /// Whether an operand of `bin_op` needs parentheses: when it is itself a
    /// binary operation that binds less tightly, or equally tightly where
    /// chaining is not allowed.
    pub open spec fn spec_should_parenthesize(bin_op: BinOp, child: &Expr) -> bool {
        match child {
            Expr::BinaryOp(child_op, _, _) => child_op.precedence() < bin_op.precedence() || (
            child_op.precedence() == bin_op.precedence() && !BinOp::associative(
                bin_op.precedence(),
            )),
            _ => false,
        }
    }

    #[verifier::when_used_as_spec(spec_should_parenthesize)]
    pub fn should_parenthesize(bin_op: BinOp, child: &Expr) -> (p: bool)
        ensures
            p == Self::spec_should_parenthesize(bin_op, child),
    {
        match child {
            Expr::BinaryOp(child_op, _, _) => child_op.precedence() < bin_op.precedence() || (
            child_op.precedence() == bin_op.precedence() && !BinOp::associative(
                bin_op.precedence(),
            )),
            _ => false,
        }
    }

    /// Whether the expression is a variable or a literal.
    pub open spec fn is_atom(&self) -> bool {
        self is Variable || self is Constant
    }

    /// An operand of `bin_op`, in parentheses where `should_parenthesize`
    /// asks for them.
    pub open spec fn operand_text(bin_op: BinOp, child: &Expr) -> Seq<char>
        decreases child, 1nat,
    {
        if Self::should_parenthesize(bin_op, child) {
            "("@ + child.text() + ")"@
        } else {
            child.text()
        }
    }

    /// The expression as the solver reads it: a variable as `v` and its
    /// level, a binary operation with single spaces around the operator, and
    /// the operand of a unary operator in parentheses unless it is a
    /// variable or a literal.
    pub open spec fn text(&self) -> Seq<char>
        decreases self, 0nat,
    {
        match self {
            Expr::Variable(index) => var_name(*index as nat),
            Expr::Constant(constant) => constant.text(),
            Expr::BinaryOp(bin_op, op1, op2) => Self::operand_text(*bin_op, op1) + " "@
                + bin_op.text() + " "@ + Self::operand_text(*bin_op, op2),
            Expr::UnaryOp(un_op, op) => if op.is_atom() {
                un_op.text() + op.text()
            } else {
                un_op.text() + "("@ + op.text() + ")"@
            },
        }
    }

    /// Appends an operand of `bin_op` to `w`.
    pub fn emit_operand(bin_op: BinOp, child: &Expr, w: &mut String)
        ensures
            final(w)@ == old(w)@ + Self::operand_text(bin_op, child),
        decreases child, 1nat,
    {
        if Self::should_parenthesize(bin_op, child) {
            w.append("(");
            child.emit(w);
            w.append(")");
            assert(w@ =~= old(w)@ + Self::operand_text(bin_op, child));
        } else {
            child.emit(w);
        }
    }

    /// Appends the expression to `w`.
    pub fn emit(&self, w: &mut String)
        ensures
            final(w)@ == old(w)@ + self.text(),
        decreases self, 0nat,
    {
        match self {
            Expr::Variable(index) => {
                emit_var(*index, w);
            },
            Expr::Constant(constant) => {
                constant.emit(w);
            },
            Expr::BinaryOp(bin_op, op1, op2) => {
                Self::emit_operand(*bin_op, op1, w);
                w.append(" ");
                bin_op.emit(w);
                w.append(" ");
                Self::emit_operand(*bin_op, op2, w);
                assert(w@ =~= old(w)@ + self.text());
            },
            Expr::UnaryOp(un_op, op) => {
                let atom: bool = match &**op {
                    Expr::Variable(_) => true,
                    Expr::Constant(_) => true,
                    _ => false,
                };
                un_op.emit(w);
                if atom {
                    op.emit(w);
                } else {
                    w.append("(");
                    op.emit(w);
                    w.append(")");
                }
                assert(w@ =~= old(w)@ + self.text());
            },
        }
    }
}

/// The arguments of an unknown predicate: the name of each variable,
/// separated by single spaces.
pub open spec fn args_text(args: Seq<usize>) -> Seq<char>
    decreases args.len(),
{
    if args.len() == 0 {
        Seq::empty()
    } else if args.len() == 1 {
        var_name(args[0] as nat)
    } else {
        args_text(args.drop_last()) + " "@ + var_name(args.last() as nat)
    }
}

/// Appends the argument list of an unknown predicate to `w`.
pub fn emit_args(args: &Vec<usize>, w: &mut String)
    ensures
        final(w)@ == old(w)@ + args_text(args@),
{
    let mut i: usize = 0;
    assert(args@.take(0) =~= Seq::<usize>::empty());
    assert(w@ =~= old(w)@ + args_text(args@.take(0)));
    while i < args.len()
        invariant
            i <= args.len(),
            w@ == old(w)@ + args_text(args@.take(i as int)),
        decreases args.len() - i,
    {
        let ghost before = w@;
        if i > 0 {
            w.append(" ");
        }
        emit_var(args[i], w);
        proof {
            let next = args@.take(i + 1);
            assert(next.drop_last() =~= args@.take(i as int));
            assert(next.last() == args@[i as int]);
            assert(w@ =~= old(w)@ + args_text(next));
        }
        i = i + 1;
    }
    assert(args@.take(args.len() as int) =~= args@);
}

impl Pred {
    /// The first `n` members of a conjunction, each behind a space.
    pub open spec fn and_text(preds: &Vec<Pred>, n: nat) -> Seq<char>
        decreases preds, n,
    {
        if n == 0 || n > preds.len() {
            Seq::empty()
        } else {
            Self::and_text(preds, (n - 1) as nat) + " "@ + preds[n - 1].text()
        }
    }

    /// The predicate as the solver reads it: `(and p ...)` for a
    /// conjunction, `($kN v_a v_b ...)` for an unknown predicate applied to
    /// its arguments, and a primitive expression in parentheses.
    pub open spec fn text(&self) -> Seq<char>
        decreases self, 0nat,
    {
        match self {
            Pred::KVar(kvid, args) => "("@ + kvid.text() + " "@ + args_text(args@) + ")"@,
            Pred::And(preds) => "(and"@ + Self::and_text(preds, preds.len() as nat) + ")"@,
            Pred::Expr(expr) => "("@ + expr.text() + ")"@,
        }
    }

    /// Appends the predicate to `w`.
    pub fn emit(&self, w: &mut String)
        ensures
            final(w)@ == old(w)@ + self.text(),
        decreases self,
    {
        match self {
            Pred::KVar(kvid, args) => {
                w.append("(");
                kvid.emit(w);
                w.append(" ");
                emit_args(args, w);
                w.append(")");
                assert(w@ =~= old(w)@ + self.text());
            },
            Pred::And(preds) => {
                w.append("(and");
                let mut i: usize = 0;
                assert(w@ =~= old(w)@ + "(and"@ + Self::and_text(preds, 0));
                while i < preds.len()
                    invariant
                        i <= preds.len(),
                        self is And,
                        self->And_0 == *preds,
                        w@ == old(w)@ + "(and"@ + Self::and_text(preds, i as nat),
                    decreases preds.len() - i,
                {
                    assert(decreases_to!(*preds => preds[i as int]));
                    w.append(" ");
                    preds[i].emit(w);
                    i = i + 1;
                    assert(w@ =~= old(w)@ + "(and"@ + Self::and_text(preds, i as nat));
                }
                w.append(")");
                assert(w@ =~= old(w)@ + self.text());
            },
            Pred::Expr(expr) => {
                w.append("(");
                expr.emit(w);
                w.append(")");
                assert(w@ =~= old(w)@ + self.text());
            },
        }
    }
}

impl Constraint {
    /// The deepest nesting of quantifiers over the first `n` members of a
    /// conjunction.
    pub open spec fn conj_depth(constraints: &Vec<Constraint>, n: nat) -> nat
        decreases constraints, n,
    {
        if n == 0 || n > constraints.len() {
            0
        } else {
            let rest = Self::conj_depth(constraints, (n - 1) as nat);
            let last = constraints[n - 1].depth();
            if rest >= last {
                rest
            } else {
                last
            }
        }
    }

    /// The deepest nesting of variable-binding quantifiers in the
    /// constraint. A guard binds nothing and adds no level.
    pub open spec fn depth(&self) -> nat
        decreases self, 0nat,
    {
        match self {
            Constraint::Pred(_) => 0,
            Constraint::Conj(constraints) => Self::conj_depth(
                constraints,
                constraints.len() as nat,
            ),
            Constraint::Guard(_, conclusion) => conclusion.depth(),
            Constraint::ForAll(_, _, conclusion) => 1 + conclusion.depth(),
        }
    }

    /// The first `n` members of a conjunction, each behind a space, all
    /// rendered at nesting level `ctx`.
    pub open spec fn conj_text(constraints: &Vec<Constraint>, n: nat, ctx: nat) -> Seq<char>
        decreases constraints, n,
    {
        if n == 0 || n > constraints.len() {
            Seq::empty()
        } else {
            Self::conj_text(constraints, (n - 1) as nat, ctx) + " "@ + constraints[n - 1].text(ctx)
        }
    }

    /// The constraint as the solver reads it, rendered inside `ctx`
    /// enclosing quantifiers. A quantifier names its variable `v` and the
    /// current level, and renders premise and conclusion one level deeper;
    /// a guard renders as a quantifier over `_` and keeps the level.
    pub open spec fn text(&self, ctx: nat) -> Seq<char>
        decreases self, 0nat,
    {
        match self {
            Constraint::Pred(pred) => "("@ + pred.text() + ")"@,
            Constraint::Conj(constraints) => "(and"@ + Self::conj_text(
                constraints,
                constraints.len() as nat,
                ctx,
            ) + ")"@,
            Constraint::ForAll(sort, premise, conclusion) => "(forall (("@ + var_name(ctx) + " "@
                + sort.text() + ") "@ + premise.text() + ") "@ + conclusion.text(ctx + 1) + ")"@,
            Constraint::Guard(premise, conclusion) => "(forall ((_ int) "@ + premise.text() + ") "@
                + conclusion.text(ctx) + ")"@,
        }
    }

    /// Appends the constraint to `w`, rendered inside `ctx` enclosing
    /// quantifiers. The levels of all binders must fit in `usize`.
    pub fn emit(&self, w: &mut String, ctx: usize)
        requires
            ctx + self.depth() <= usize::MAX,
        ensures
            final(w)@ == old(w)@ + self.text(ctx as nat),
        decreases self,
    {
        match self {
            Constraint::Pred(pred) => {
                let ghost base = w@;
                w.append("(");
                pred.emit(w);
                proof {
                    lemma_append(base, "("@, pred.text());
                }
                w.append(")");
                proof {
                    lemma_append(base, "("@ + pred.text(), ")"@);
                }
            },
            Constraint::Conj(constraints) => {
                let ghost base = w@;
                w.append("(and");
                let mut i: usize = 0;
                proof {
                    assert("(and"@ + Self::conj_text(constraints, 0, ctx as nat) =~= "(and"@);
                }
                while i < constraints.len()
                    invariant
                        i <= constraints.len(),
                        self is Conj,
                        self->Conj_0 == *constraints,
                        ctx + Self::conj_depth(constraints, constraints.len() as nat)
                            <= usize::MAX,
                        w@ == base + ("(and"@ + Self::conj_text(constraints, i as nat, ctx as nat)),
                    decreases constraints.len() - i,
                {
                    proof {
                        Self::lemma_conj_depth_bounds(constraints, constraints.len() as nat, i as int);
                    }
                    assert(decreases_to!(*constraints => constraints[i as int]));
                    let ghost done = Self::conj_text(constraints, i as nat, ctx as nat);
                    let ghost item = constraints[i as int].text(ctx as nat);
                    w.append(" ");
                    proof {
                        lemma_append(base, "(and"@ + done, " "@);
                    }
                    constraints[i].emit(w, ctx);
                    proof {
                        lemma_append(base, "(and"@ + done + " "@, item);
                        lemma_append("(and"@, done, " "@);
                        lemma_append("(and"@, done + " "@, item);
                    }
                    i = i + 1;
                }
                w.append(")");
                proof {
                    lemma_append(
                        base,
                        "(and"@ + Self::conj_text(constraints, constraints.len() as nat, ctx as nat),
                        ")"@,
                    );
                }
            },
            Constraint::ForAll(sort, premise, conclusion) => {
                let ghost base = w@;
                w.append("(forall ((");
                let ghost mut acc = "(forall (("@;
                emit_var(ctx, w);
                proof {
                    lemma_append(base, acc, var_name(ctx as nat));
                    acc = acc + var_name(ctx as nat);
                }
                w.append(" ");
                proof {
                    lemma_append(base, acc, " "@);
                    acc = acc + " "@;
                }
                sort.emit(w);
                proof {
                    lemma_append(base, acc, sort.text());
                    acc = acc + sort.text();
                }
                w.append(") ");
                proof {
                    lemma_append(base, acc, ") "@);
                    acc = acc + ") "@;
                }
                premise.emit(w);
                proof {
                    lemma_append(base, acc, premise.text());
                    acc = acc + premise.text();
                }
                w.append(") ");
                proof {
                    lemma_append(base, acc, ") "@);
                    acc = acc + ") "@;
                }
                conclusion.emit(w, ctx + 1);
                proof {
                    lemma_append(base, acc, conclusion.text((ctx + 1) as nat));
                    acc = acc + conclusion.text((ctx + 1) as nat);
                }
                w.append(")");
                proof {
                    lemma_append(base, acc, ")"@);
                }
            },
            Constraint::Guard(premise, conclusion) => {
                let ghost base = w@;
                w.append("(forall ((_ int) ");
                let ghost mut acc = "(forall ((_ int) "@;
                premise.emit(w);
                proof {
                    lemma_append(base, acc, premise.text());
                    acc = acc + premise.text();
                }
                w.append(") ");
                proof {
                    lemma_append(base, acc, ") "@);
                    acc = acc + ") "@;
                }
                conclusion.emit(w, ctx);
                proof {
                    lemma_append(base, acc, conclusion.text(ctx as nat));
                    acc = acc + conclusion.text(ctx as nat);
                }
                w.append(")");
                proof {
                    lemma_append(base, acc, ")"@);
                }
            },
        }
    }

    /// The levels at which the first `n` members of a conjunction bind a
    /// variable when rendered at level `ctx`.
    pub open spec fn conj_binders(constraints: &Vec<Constraint>, n: nat, ctx: nat) -> Set<nat>
        decreases constraints, n,
    {
        if n == 0 || n > constraints.len() {
            Set::empty()
        } else {
            Self::conj_binders(constraints, (n - 1) as nat, ctx).union(
                constraints[n - 1].binders(ctx),
            )
        }
    }

    /// The levels at which the constraint binds a variable when rendered at
    /// level `ctx`: the `N` of every `vN` that a quantifier of its text
    /// introduces.
    pub open spec fn binders(&self, ctx: nat) -> Set<nat>
        decreases self, 0nat,
    {
        match self {
            Constraint::Pred(_) => Set::empty(),
            Constraint::Conj(constraints) => Self::conj_binders(
                constraints,
                constraints.len() as nat,
                ctx,
            ),
            Constraint::Guard(_, conclusion) => conclusion.binders(ctx),
            Constraint::ForAll(_, _, conclusion) => conclusion.binders(ctx + 1).insert(ctx),
        }
    }

    /// The binders of the first `n` members of a conjunction fill the levels
    /// from `ctx` up to the deepest nesting among them.
    pub proof fn lemma_conj_binders_contiguous(constraints: &Vec<Constraint>, n: nat, ctx: nat)
        requires
            n <= constraints.len(),
        ensures
            Self::conj_binders(constraints, n, ctx) == Set::new(
                |level: nat| ctx <= level < ctx + Self::conj_depth(constraints, n),
            ),
        decreases constraints, n,
    {
        if n > 0 {
            Self::lemma_conj_binders_contiguous(constraints, (n - 1) as nat, ctx);
            constraints[n - 1].lemma_binders_contiguous(ctx);
        }
        assert(Self::conj_binders(constraints, n, ctx) =~= Set::new(
            |level: nat| ctx <= level < ctx + Self::conj_depth(constraints, n),
        ));
    }

    /// A constraint whose quantifiers nest `d` deep, rendered at level
    /// `ctx`, binds exactly the levels `ctx`, ..., `ctx + d - 1`: none is
    /// skipped, whatever the nesting of sibling branches. Rendered from
    /// level `0` the variables are `v0`, ..., `v(d-1)`.
    pub proof fn lemma_binders_contiguous(&self, ctx: nat)
        ensures
            self.binders(ctx) == Set::new(|level: nat| ctx <= level < ctx + self.depth()),
        decreases self, 0nat,
    {
        match self {
            Constraint::Pred(_) => {},
            Constraint::Conj(constraints) => {
                Self::lemma_conj_binders_contiguous(constraints, constraints.len() as nat, ctx);
            },
            Constraint::Guard(_, conclusion) => {
                conclusion.lemma_binders_contiguous(ctx);
            },
            Constraint::ForAll(_, _, conclusion) => {
                conclusion.lemma_binders_contiguous(ctx + 1);
            },
        }
        assert(self.binders(ctx) =~= Set::new(
            |level: nat| ctx <= level < ctx + self.depth(),
        ));
    }

    /// A quantifier's own level is bound by none of the quantifiers inside
    /// it, so no name is introduced twice along a path of the tree.
    pub proof fn lemma_binders_fresh(&self, ctx: nat)
        requires
            self is ForAll,
        ensures
            !self->ForAll_2.binders(ctx + 1).contains(ctx),
            forall|level: nat| #[trigger]
                self->ForAll_2.binders(ctx + 1).contains(level) ==> var_name(level) != var_name(
                    ctx,
                ),
    {
        self->ForAll_2.lemma_binders_contiguous(ctx + 1);
        assert forall|level: nat| #[trigger]
            self->ForAll_2.binders(ctx + 1).contains(level) implies var_name(level) != var_name(
            ctx,
        ) by {
            if var_name(level) == var_name(ctx) {
                lemma_var_name_injective(level, ctx);
            }
        }
    }

    /// Whether the quantifiers of the constraint nest at most `room` deep.
    /// A constraint may be emitted at level `ctx` exactly when it nests
    /// within `usize::MAX - ctx`.
    pub fn nests_within(&self, room: usize) -> (ok: bool)
        ensures
            ok == (self.depth() <= room),
        decreases self,
    {
        match self {
            Constraint::Pred(_) => true,
            Constraint::Conj(constraints) => {
                let mut i: usize = 0;
                while i < constraints.len()
                    invariant
                        i <= constraints.len(),
                        self is Conj,
                        self->Conj_0 == *constraints,
                        Self::conj_depth(constraints, i as nat) <= room,
                    decreases constraints.len() - i,
                {
                    assert(decreases_to!(*constraints => constraints[i as int]));
                    if !constraints[i].nests_within(room) {
                        proof {
                            Self::lemma_conj_depth_bounds(
                                constraints,
                                constraints.len() as nat,
                                i as int,
                            );
                        }
                        return false;
                    }
                    i = i + 1;
                }
                true
            },
            Constraint::Guard(_, conclusion) => conclusion.nests_within(room),
            Constraint::ForAll(_, _, conclusion) => room > 0 && conclusion.nests_within(room - 1),
        }
    }

    /// No member of a conjunction nests deeper than the conjunction.
    pub proof fn lemma_conj_depth_bounds(constraints: &Vec<Constraint>, n: nat, i: int)
        requires
            0 <= i < n <= constraints.len(),
        ensures
            constraints[i].depth() <= Self::conj_depth(constraints, n),
        decreases n,
    {
        if i < n - 1 {
            Self::lemma_conj_depth_bounds(constraints, (n - 1) as nat, i);
        }
    }
}

/// The first `n` sorts of a signature, each in parentheses, separated by
/// single spaces.
pub open spec fn sorts_text(sorts: Seq<Sort>) -> Seq<char>
    decreases sorts.len(),
{
    if sorts.len() == 0 {
        Seq::empty()
    } else if sorts.len() == 1 {
        "("@ + sorts[0].text() + ")"@
    } else {
        sorts_text(sorts.drop_last()) + " "@ + "("@ + sorts.last().text() + ")"@
    }
}

/// The parameters of a qualifier: each `(vI sort)` with `I` counting from
/// `0`, separated by single spaces.
pub open spec fn params_text(sorts: Seq<Sort>) -> Seq<char>
    decreases sorts.len(),
{
    if sorts.len() == 0 {
        Seq::empty()
    } else if sorts.len() == 1 {
        "("@ + var_name(0) + " "@ + sorts[0].text() + ")"@
    } else {
        params_text(sorts.drop_last()) + " "@ + "("@ + var_name((sorts.len() - 1) as nat) + " "@
            + sorts.last().text() + ")"@
    }
}

/// The declaration of an unknown predicate with the given sorts:
/// `(declare $kN ((sortA) (sortB) ...))`.
pub open spec fn declaration_text(id: KVid, sorts: Seq<Sort>) -> Seq<char> {
    "(declare "@ + id.text() + " ("@ + sorts_text(sorts) + "))"@
}

impl KVar {
    /// The declaration of the unknown predicate.
    pub open spec fn text(&self) -> Seq<char> {
        declaration_text(self.id, self.sorts@)
    }

    /// Appends the declaration to `w`.
    pub fn emit(&self, w: &mut String)
        ensures
            final(w)@ == old(w)@ + self.text(),
    {
        w.append("(declare ");
        self.id.emit(w);
        w.append(" (");
        let ghost head = w@;
        let mut i: usize = 0;
        assert(self.sorts@.take(0) =~= Seq::<Sort>::empty());
        assert(w@ =~= head + sorts_text(self.sorts@.take(0)));
        while i < self.sorts.len()
            invariant
                i <= self.sorts.len(),
                w@ == head + sorts_text(self.sorts@.take(i as int)),
            decreases self.sorts.len() - i,
        {
            if i > 0 {
                w.append(" ");
            }
            w.append("(");
            self.sorts[i].emit(w);
            w.append(")");
            proof {
                let next = self.sorts@.take(i + 1);
                assert(next.drop_last() =~= self.sorts@.take(i as int));
                assert(next.last() == self.sorts@[i as int]);
                assert(w@ =~= head + sorts_text(next));
            }
            i = i + 1;
        }
        assert(self.sorts@.take(self.sorts.len() as int) =~= self.sorts@);
        w.append("))");
        assert(w@ =~= old(w)@ + self.text());
    }
}

impl Qualifier {
    /// The qualifier as the solver reads it:
    /// `(qualif name ((v0 sort) ...) (pred))`.
    pub open spec fn text(&self) -> Seq<char> {
        "(qualif "@ + self.name@ + " ("@ + params_text(self.vars@) + ") ("@ + self.pred.text()
            + "))"@
    }

    /// Appends the qualifier to `w`.
    pub fn emit(&self, w: &mut String)
        ensures
            final(w)@ == old(w)@ + self.text(),
    {
        w.append("(qualif ");
        w.append(self.name.as_str());
        w.append(" (");
        let ghost head = w@;
        let mut i: usize = 0;
        assert(self.vars@.take(0) =~= Seq::<Sort>::empty());
        assert(w@ =~= head + params_text(self.vars@.take(0)));
        while i < self.vars.len()
            invariant
                i <= self.vars.len(),
                w@ == head + params_text(self.vars@.take(i as int)),
            decreases self.vars.len() - i,
        {
            if i > 0 {
                w.append(" ");
            }
            w.append("(");
            emit_var(i, w);
            w.append(" ");
            self.vars[i].emit(w);
            w.append(")");
            proof {
                let next = self.vars@.take(i + 1);
                assert(next.drop_last() =~= self.vars@.take(i as int));
                assert(next.last() == self.vars@[i as int]);
                assert(w@ =~= head + params_text(next));
            }
            i = i + 1;
        }
        assert(self.vars@.take(self.vars.len() as int) =~= self.vars@);
        w.append(") (");
        self.pred.emit(w);
        w.append("))");
        assert(w@ =~= old(w)@ + self.text());
    }
}

} // verus!
