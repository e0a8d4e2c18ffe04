//! Discovery of the argument sorts of every unknown predicate in a
//! constraint.
//!
//! The pass walks the tree with the stack of sorts bound by the enclosing
//! quantifiers. The first occurrence of an unknown predicate fixes its
//! signature: each argument names a level of that stack. Every later
//! occurrence must resolve to the same sorts.

use crate::fixpoint::constraint::{Constraint, KVar, KVid, Pred, Sort};
use std::collections::HashMap;
use vstd::prelude::*;

verus! {

/// Why a constraint has no consistent set of signatures.
#[derive(Clone, Copy, PartialEq, Eq, Structural, Debug)]
pub enum GatherError {
    /// An argument of the unknown predicate names a level at which no
    /// quantifier is open.
    Unbound(KVid, usize),
    /// The unknown predicate occurs a second time with sorts that differ
    /// from those of its first occurrence.
    Inconsistent(KVid),
}

/// Signatures in the order in which their predicates first occur.
pub type Signatures = Seq<(KVid, Seq<Sort>)>;

/// The sorts of the given arguments in `scope`, or the first argument that
/// names no level of it.
pub open spec fn resolve(scope: Seq<Sort>, args: Seq<usize>) -> Result<Seq<Sort>, usize>
    decreases args.len(),
{
    if args.len() == 0 {
        Ok(Seq::empty())
    } else {
        match resolve(scope, args.drop_last()) {
            Err(arg) => Err(arg),
            Ok(sorts) => if args.last() < scope.len() {
                Ok(sorts.push(scope[args.last() as int]))
            } else {
                Err(args.last())
            },
        }
    }
}

/// Whether `known` holds a signature for `id`.
pub open spec fn declared(known: Signatures, id: KVid) -> bool {
    exists|i: int| 0 <= i < known.len() && (#[trigger] known[i]).0 == id
}

/// The place of the signature of `id` in `known`.
pub open spec fn position(known: Signatures, id: KVid) -> int {
    choose|i: int| 0 <= i < known.len() && (#[trigger] known[i]).0 == id
}

/// No predicate has two signatures in `known`.
pub open spec fn distinct(known: Signatures) -> bool {
    forall|i: int, j: int|
        0 <= i < known.len() && 0 <= j < known.len() && (#[trigger] known[i]).0 == (
        #[trigger] known[j]).0 ==> i == j
}

/// The signatures after one occurrence of `id` applied to `args` in `scope`:
/// a new last entry if `id` had none, and `known` unchanged if the entry of
/// `id` agrees with this occurrence.
pub open spec fn record(scope: Seq<Sort>, known: Signatures, id: KVid, args: Seq<usize>) -> Result<
    Signatures,
    GatherError,
> {
    match resolve(scope, args) {
        Err(arg) => Err(GatherError::Unbound(id, arg)),
        Ok(sorts) => if !declared(known, id) {
            Ok(known.push((id, sorts)))
        } else if known[position(known, id)].1 == sorts {
            Ok(known)
        } else {
            Err(GatherError::Inconsistent(id))
        },
    }
}

impl Pred {
    /// The signatures after the first `n` members of a conjunction.
    pub open spec fn and_signatures(
        preds: &Vec<Pred>,
        n: nat,
        scope: Seq<Sort>,
        known: Signatures,
    ) -> Result<Signatures, GatherError>
        decreases preds, n,
    {
        if n == 0 || n > preds.len() {
            Ok(known)
        } else {
            match Self::and_signatures(preds, (n - 1) as nat, scope, known) {
                Err(e) => Err(e),
                Ok(found) => preds[n - 1].signatures(scope, found),
            }
        }
    }

    /// The signatures after a left-to-right walk of the predicate that
    /// starts from `known`, or the first error on the way.
    pub open spec fn signatures(&self, scope: Seq<Sort>, known: Signatures) -> Result<
        Signatures,
        GatherError,
    >
        decreases self, 0nat,
    {
        match self {
            Pred::And(preds) => Self::and_signatures(preds, preds.len() as nat, scope, known),
            Pred::KVar(id, args) => record(scope, known, *id, args@),
            Pred::Expr(_) => Ok(known),
        }
    }
}

impl Constraint {
    /// The signatures after the first `n` members of a conjunction.
    pub open spec fn conj_signatures(
        constraints: &Vec<Constraint>,
        n: nat,
        scope: Seq<Sort>,
        known: Signatures,
    ) -> Result<Signatures, GatherError>
        decreases constraints, n,
    {
        if n == 0 || n > constraints.len() {
            Ok(known)
        } else {
            match Self::conj_signatures(constraints, (n - 1) as nat, scope, known) {
                Err(e) => Err(e),
                Ok(found) => constraints[n - 1].signatures(scope, found),
            }
        }
    }

    /// The signatures after a left-to-right walk of the constraint that
    /// starts from `known`, or the first error on the way. A quantifier
    /// opens a level of its sort for its premise and its conclusion; a guard
    /// opens none.
    pub open spec fn signatures(&self, scope: Seq<Sort>, known: Signatures) -> Result<
        Signatures,
        GatherError,
    >
        decreases self, 0nat,
    {
        match self {
            Constraint::Pred(pred) => pred.signatures(scope, known),
            Constraint::Conj(constraints) => Self::conj_signatures(
                constraints,
                constraints.len() as nat,
                scope,
                known,
            ),
            Constraint::Guard(premise, conclusion) => match premise.signatures(scope, known) {
                Err(e) => Err(e),
                Ok(found) => conclusion.signatures(scope, found),
            },
            Constraint::ForAll(sort, premise, conclusion) => match premise.signatures(
                scope.push(*sort),
                known,
            ) {
                Err(e) => Err(e),
                Ok(found) => conclusion.signatures(scope.push(*sort), found),
            },
        }
    }
}

/// The signatures that a list of declarations stands for.
pub open spec fn signatures_of(kvars: Seq<KVar>) -> Signatures {
    Seq::new(kvars.len(), |i: int| (kvars[i].id, kvars[i].sorts@))
}

/// Whether two lists of sorts are equal.
pub fn same_sorts(a: &Vec<Sort>, b: &Vec<Sort>) -> (same: bool)
    ensures
        same == (a@ == b@),
{
    if a.len() != b.len() {
        return false;
    }
    let mut i: usize = 0;
    while i < a.len()
        invariant
            i <= a.len(),
            a.len() == b.len(),
            a@.take(i as int) == b@.take(i as int),
        decreases a.len() - i,
    {
        if a[i] != b[i] {
            assert(a@[i as int] != b@[i as int]);
            return false;
        }
        assert(a@.take(i + 1) =~= a@.take(i as int).push(a@[i as int]));
        assert(b@.take(i + 1) =~= b@.take(i as int).push(b@[i as int]));
        i = i + 1;
    }
    assert(a@.take(a.len() as int) =~= a@);
    assert(b@.take(b.len() as int) =~= b@);
    true
}

/// The state of one gathering pass.
pub struct KVarGatherCtx {
    /// The sorts bound by the quantifiers that are open, outermost first.
    scope: Vec<Sort>,
    /// The signatures found, in order of first occurrence.
    kvars: Vec<KVar>,
    /// The place in `kvars` of each predicate that has a signature.
    index: HashMap<usize, usize>,
}

impl KVarGatherCtx {
    /// The sorts of the open quantifiers.
    pub closed spec fn scope(&self) -> Seq<Sort> {
        self.scope@
    }

    /// The signatures found so far.
    pub closed spec fn found(&self) -> Signatures {
        signatures_of(self.kvars@)
    }

    /// The index knows exactly the predicates that have a signature, and
    /// where.
    pub closed spec fn wf(&self) -> bool {
        &&& forall|i: int|
            0 <= i < self.kvars@.len() ==> self.index@.contains_key(
                (#[trigger] self.kvars@[i]).id.0,
            ) && self.index@[self.kvars@[i].id.0] == i
        &&& forall|k: usize| #[trigger]
            self.index@.contains_key(k) ==> self.index@[k] < self.kvars@.len()
                && self.kvars@[self.index@[k] as int].id.0 == k
    }

    /// A pass that has seen nothing yet.
    pub fn new() -> (cx: Self)
        ensures
            cx.wf(),
            cx.scope() == Seq::<Sort>::empty(),
            cx.found() == Seq::<(KVid, Seq<Sort>)>::empty(),
    {
        let cx = KVarGatherCtx { scope: Vec::new(), kvars: Vec::new(), index: HashMap::new() };
        assert(cx.found() =~= Seq::empty());
        cx
    }

    /// The signatures of all unknown predicates of `constraint`, in the
    /// order of their first occurrence in a left-to-right walk, or the first
    /// error that the walk meets.
    pub fn gather_kvars(constraint: &Constraint) -> (gathered: Result<Vec<KVar>, GatherError>)
        ensures
            match (gathered, constraint.signatures(Seq::empty(), Seq::empty())) {
                (Ok(kvars), Ok(found)) => signatures_of(kvars@) == found,
                (Err(e), Err(expected)) => e == expected,
                _ => false,
            },
    {
        let mut cx = KVarGatherCtx::new();
        match constraint.gather_kvars(&mut cx) {
            Ok(()) => Ok(cx.kvars),
            Err(e) => Err(e),
        }
    }

    /// The sorts of `args` in the current scope.
    fn resolve_args(&self, id: KVid, args: &Vec<usize>) -> (sorts: Result<Vec<Sort>, GatherError>)
        ensures
            match (sorts, resolve(self.scope(), args@)) {
                (Ok(sorts), Ok(expected)) => sorts@ == expected,
                (Err(e), Err(arg)) => e == GatherError::Unbound(id, arg),
                _ => false,
            },
    {
        let mut sorts: Vec<Sort> = Vec::new();
        let mut i: usize = 0;
        assert(args@.take(0) =~= Seq::<usize>::empty());
        while i < args.len()
            invariant
                i <= args.len(),
                resolve(self.scope@, args@.take(i as int)) matches Ok(so_far) && so_far == sorts@,
            decreases args.len() - i,
        {
            let arg: usize = args[i];
            proof {
                assert(args@.take(i + 1).drop_last() =~= args@.take(i as int));
                assert(args@.take(i + 1).last() == arg);
            }
            if arg >= self.scope.len() {
                proof {
                    lemma_resolve_error_stays(self.scope@, args@, i + 1);
                }
                return Err(GatherError::Unbound(id, arg));
            }
            sorts.push(self.scope[arg]);
            i = i + 1;
        }
        assert(args@.take(args.len() as int) =~= args@);
        Ok(sorts)
    }

    /// Takes note of one occurrence of `id` applied to `args`.
    fn record(&mut self, id: KVid, args: &Vec<usize>) -> (done: Result<(), GatherError>)
        requires
            old(self).wf(),
        ensures
            match (done, record(old(self).scope(), old(self).found(), id, args@)) {
                (Ok(()), Ok(found)) => final(self).wf() && final(self).scope() == old(self).scope()
                    && final(self).found() == found,
                (Err(e), Err(expected)) => e == expected,
                _ => false,
            },
    {
        let sorts = match self.resolve_args(id, args) {
            Ok(sorts) => sorts,
            Err(e) => {
                return Err(e);
            },
        };
        let ghost known = self.found();
        let key: usize = id.0;
        match self.index.get(&key) {
            Some(at) => {
                let at: usize = *at;
                proof {
                    assert(known[at as int].0 == id);
                    assert(declared(known, id));
                    let p = position(known, id);
                    assert(self.kvars@[p].id.0 == key);
                    assert(p == at);
                }
                if same_sorts(&self.kvars[at].sorts, &sorts) {
                    Ok(())
                } else {
                    Err(GatherError::Inconsistent(id))
                }
            },
            None => {
                proof {
                    if declared(known, id) {
                        let p = position(known, id);
                        assert(self.kvars@[p].id.0 == key);
                        assert(false);
                    }
                }
                let at: usize = self.kvars.len();
                let ghost before = self.kvars@;
                self.index.insert(key, at);
                self.kvars.push(KVar { id, sorts });
                proof {
                    assert(self.found() =~= known.push((id, sorts@)));
                    assert forall|i: int| 0 <= i < self.kvars@.len() implies self.index@.contains_key(
                        (#[trigger] self.kvars@[i]).id.0,
                    ) && self.index@[self.kvars@[i].id.0] == i by {
                        if i < before.len() {
                            assert(self.kvars@[i] == before[i]);
                            assert(before[i].id.0 != key);
                        }
                    }
                    assert forall|k: usize| #[trigger] self.index@.contains_key(k) implies self.index@[k]
                        < self.kvars@.len() && self.kvars@[self.index@[k] as int].id.0 == k by {
                        if k != key {
                            assert(old(self).index@.contains_key(k));
                            assert(self.kvars@[self.index@[k] as int] == before[self.index@[k] as int]);
                        }
                    }
                }
                Ok(())
            },
        }
    }
}

/// Once an argument fails to resolve, the whole list fails on that argument.
pub proof fn lemma_resolve_error_stays(scope: Seq<Sort>, args: Seq<usize>, n: int)
    requires
        0 <= n <= args.len(),
        resolve(scope, args.take(n)) is Err,
    ensures
        resolve(scope, args) == resolve(scope, args.take(n)),
    decreases args.len() - n,
{
    if n == args.len() {
        assert(args.take(n) =~= args);
    } else {
        assert(args.take(n + 1).drop_last() =~= args.take(n));
        lemma_resolve_error_stays(scope, args, n + 1);
    }
}

impl Pred {
    /// Takes note of every unknown predicate of `self`, from left to right.
    pub fn gather_kvars(&self, cx: &mut KVarGatherCtx) -> (done: Result<(), GatherError>)
        requires
            old(cx).wf(),
        ensures
            match (done, self.signatures(old(cx).scope(), old(cx).found())) {
                (Ok(()), Ok(found)) => final(cx).wf() && final(cx).scope() == old(cx).scope()
                    && final(cx).found() == found,
                (Err(e), Err(expected)) => e == expected,
                _ => false,
            },
        decreases self,
    {
        match self {
            Pred::And(preds) => {
                let mut i: usize = 0;
                while i < preds.len()
                    invariant
                        i <= preds.len(),
                        self is And,
                        self->And_0 == *preds,
                        cx.wf(),
                        cx.scope() == old(cx).scope(),
                        Self::and_signatures(preds, i as nat, old(cx).scope(), old(cx).found())
                            matches Ok(found) && found == cx.found(),
                    decreases preds.len() - i,
                {
                    assert(decreases_to!(*preds => preds[i as int]));
                    match preds[i].gather_kvars(cx) {
                        Ok(()) => {},
                        Err(e) => {
                            proof {
                                Self::lemma_and_error_stays(
                                    preds,
                                    i + 1,
                                    old(cx).scope(),
                                    old(cx).found(),
                                );
                            }
                            return Err(e);
                        },
                    }
                    i = i + 1;
                }
                Ok(())
            },
            Pred::KVar(id, args) => cx.record(*id, args),
            Pred::Expr(_) => Ok(()),
        }
    }

    /// Once a member of a conjunction fails, the conjunction fails with the
    /// same error.
    pub proof fn lemma_and_error_stays(
        preds: &Vec<Pred>,
        n: int,
        scope: Seq<Sort>,
        known: Signatures,
    )
        requires
            0 <= n <= preds.len(),
            Self::and_signatures(preds, n as nat, scope, known) is Err,
        ensures
            Self::and_signatures(preds, preds.len() as nat, scope, known) == Self::and_signatures(
                preds,
                n as nat,
                scope,
                known,
            ),
        decreases preds.len() - n,
    {
        if n < preds.len() {
            Self::lemma_and_error_stays(preds, n + 1, scope, known);
        }
    }
}

impl Constraint {
    /// Takes note of every unknown predicate of `self`, from left to right.
    /// The scope is the same after the walk as before it.
    pub fn gather_kvars(&self, cx: &mut KVarGatherCtx) -> (done: Result<(), GatherError>)
        requires
            old(cx).wf(),
        ensures
            match (done, self.signatures(old(cx).scope(), old(cx).found())) {
                (Ok(()), Ok(found)) => final(cx).wf() && final(cx).scope() == old(cx).scope()
                    && final(cx).found() == found,
                (Err(e), Err(expected)) => e == expected,
                _ => false,
            },
        decreases self,
    {
        match self {
            Constraint::Pred(pred) => pred.gather_kvars(cx),
            Constraint::Conj(constraints) => {
                let mut i: usize = 0;
                while i < constraints.len()
                    invariant
                        i <= constraints.len(),
                        self is Conj,
                        self->Conj_0 == *constraints,
                        cx.wf(),
                        cx.scope() == old(cx).scope(),
                        Self::conj_signatures(
                            constraints,
                            i as nat,
                            old(cx).scope(),
                            old(cx).found(),
                        ) matches Ok(found) && found == cx.found(),
                    decreases constraints.len() - i,
                {
                    assert(decreases_to!(*constraints => constraints[i as int]));
                    match constraints[i].gather_kvars(cx) {
                        Ok(()) => {},
                        Err(e) => {
                            proof {
                                Self::lemma_conj_error_stays(
                                    constraints,
                                    i + 1,
                                    old(cx).scope(),
                                    old(cx).found(),
                                );
                            }
                            return Err(e);
                        },
                    }
                    i = i + 1;
                }
                Ok(())
            },
            Constraint::Guard(premise, conclusion) => {
                match premise.gather_kvars(cx) {
                    Ok(()) => {},
                    Err(e) => {
                        return Err(e);
                    },
                }
                conclusion.gather_kvars(cx)
            },
            Constraint::ForAll(sort, premise, conclusion) => {
                cx.push_scope(*sort);
                match premise.gather_kvars(cx) {
                    Ok(()) => {},
                    Err(e) => {
                        return Err(e);
                    },
                }
                match conclusion.gather_kvars(cx) {
                    Ok(()) => {},
                    Err(e) => {
                        return Err(e);
                    },
                }
                cx.pop_scope();
                assert(cx.scope() =~= old(cx).scope());
                Ok(())
            },
        }
    }

    /// Once a member of a conjunction fails, the conjunction fails with the
    /// same error.
    pub proof fn lemma_conj_error_stays(
        constraints: &Vec<Constraint>,
        n: int,
        scope: Seq<Sort>,
        known: Signatures,
    )
        requires
            0 <= n <= constraints.len(),
            Self::conj_signatures(constraints, n as nat, scope, known) is Err,
        ensures
            Self::conj_signatures(constraints, constraints.len() as nat, scope, known)
                == Self::conj_signatures(constraints, n as nat, scope, known),
        decreases constraints.len() - n,
    {
        if n < constraints.len() {
            Self::lemma_conj_error_stays(constraints, n + 1, scope, known);
        }
    }
}

impl KVarGatherCtx {
    /// Opens a level of the given sort.
    fn push_scope(&mut self, sort: Sort)
        requires
            old(self).wf(),
        ensures
            final(self).wf(),
            final(self).scope() == old(self).scope().push(sort),
            final(self).found() == old(self).found(),
    {
        self.scope.push(sort);
    }

    /// Closes the innermost level.
    fn pop_scope(&mut self)
        requires
            old(self).wf(),
            old(self).scope().len() > 0,
        ensures
            final(self).wf(),
            final(self).scope() == old(self).scope().drop_last(),
            final(self).found() == old(self).found(),
    {
        self.scope.pop();
    }
}

/// Whether `known` is the beginning of `out`.
pub open spec fn extends(out: Signatures, known: Signatures) -> bool {
    known.len() <= out.len() && out.take(known.len() as int) == known
}

/// One occurrence of an unknown predicate leaves every signature found
/// before it as it was, adds at most the one of its own predicate, and
/// afterwards that predicate is declared with exactly the sorts to which
/// this occurrence resolves.
pub proof fn lemma_record(scope: Seq<Sort>, known: Signatures, id: KVid, args: Seq<usize>)
    requires
        distinct(known),
        record(scope, known, id, args) is Ok,
    ensures
        ({
            let out = record(scope, known, id, args).unwrap();
            &&& extends(out, known)
            &&& distinct(out)
            &&& declared(out, id)
            &&& resolve(scope, args) matches Ok(sorts) && sorts == out[position(out, id)].1
        }),
{
    let out = record(scope, known, id, args).unwrap();
    let sorts = resolve(scope, args).unwrap();
    if !declared(known, id) {
        assert(out == known.push((id, sorts)));
        assert(out.take(known.len() as int) =~= known);
        assert(out[known.len() as int].0 == id);
        assert forall|i: int, j: int|
            0 <= i < out.len() && 0 <= j < out.len() && (#[trigger] out[i]).0 == (
            #[trigger] out[j]).0 implies i == j by {
            if i < known.len() && j < known.len() {
                assert(known[i].0 == known[j].0);
            } else if i < known.len() {
                assert(known[i].0 == id);
            } else if j < known.len() {
                assert(known[j].0 == id);
            }
        }
        assert(position(out, id) == known.len());
    } else {
        assert(out == known);
        assert(out.take(known.len() as int) =~= known);
    }
}

impl Pred {
    /// Gathering over the first `n` members of a conjunction only ever adds
    /// signatures behind those it started from, and keeps them distinct.
    pub proof fn lemma_and_signatures_extend(
        preds: &Vec<Pred>,
        n: nat,
        scope: Seq<Sort>,
        known: Signatures,
    )
        requires
            distinct(known),
            n <= preds.len(),
            Self::and_signatures(preds, n, scope, known) is Ok,
        ensures
            extends(Self::and_signatures(preds, n, scope, known).unwrap(), known),
            distinct(Self::and_signatures(preds, n, scope, known).unwrap()),
        decreases preds, n,
    {
        if n == 0 {
            assert(known.take(known.len() as int) =~= known);
        } else {
            Self::lemma_and_signatures_extend(preds, (n - 1) as nat, scope, known);
            let mid = Self::and_signatures(preds, (n - 1) as nat, scope, known).unwrap();
            preds[n - 1].lemma_signatures_extend(scope, mid);
            let out = preds[n - 1].signatures(scope, mid).unwrap();
            assert(out.take(known.len() as int) =~= mid.take(known.len() as int));
        }
    }

    /// Gathering only ever adds signatures behind those it started from,
    /// and never a second one for the same predicate: the first occurrence
    /// of a predicate fixes its signature for the rest of the walk.
    pub proof fn lemma_signatures_extend(&self, scope: Seq<Sort>, known: Signatures)
        requires
            distinct(known),
            self.signatures(scope, known) is Ok,
        ensures
            extends(self.signatures(scope, known).unwrap(), known),
            distinct(self.signatures(scope, known).unwrap()),
        decreases self, 0nat,
    {
        match self {
            Pred::And(preds) => {
                Self::lemma_and_signatures_extend(preds, preds.len() as nat, scope, known);
            },
            Pred::KVar(id, args) => {
                lemma_record(scope, known, *id, args@);
            },
            Pred::Expr(_) => {
                assert(known.take(known.len() as int) =~= known);
            },
        }
    }
}

impl Constraint {
    /// Gathering over the first `n` members of a conjunction only ever adds
    /// signatures behind those it started from, and keeps them distinct.
    pub proof fn lemma_conj_signatures_extend(
        constraints: &Vec<Constraint>,
        n: nat,
        scope: Seq<Sort>,
        known: Signatures,
    )
        requires
            distinct(known),
            n <= constraints.len(),
            Self::conj_signatures(constraints, n, scope, known) is Ok,
        ensures
            extends(Self::conj_signatures(constraints, n, scope, known).unwrap(), known),
            distinct(Self::conj_signatures(constraints, n, scope, known).unwrap()),
        decreases constraints, n,
    {
        if n == 0 {
            assert(known.take(known.len() as int) =~= known);
        } else {
            Self::lemma_conj_signatures_extend(constraints, (n - 1) as nat, scope, known);
            let mid = Self::conj_signatures(constraints, (n - 1) as nat, scope, known).unwrap();
            constraints[n - 1].lemma_signatures_extend(scope, mid);
            let out = constraints[n - 1].signatures(scope, mid).unwrap();
            assert(out.take(known.len() as int) =~= mid.take(known.len() as int));
        }
    }

    /// Gathering only ever adds signatures behind those it started from,
    /// and never a second one for the same predicate. So a predicate that
    /// occurs at several points of a constraint gets exactly one signature,
    /// the one to which its first occurrence resolves.
    pub proof fn lemma_signatures_extend(&self, scope: Seq<Sort>, known: Signatures)
        requires
            distinct(known),
            self.signatures(scope, known) is Ok,
        ensures
            extends(self.signatures(scope, known).unwrap(), known),
            distinct(self.signatures(scope, known).unwrap()),
        decreases self, 0nat,
    {
        match self {
            Constraint::Pred(pred) => {
                pred.lemma_signatures_extend(scope, known);
            },
            Constraint::Conj(constraints) => {
                Self::lemma_conj_signatures_extend(
                    constraints,
                    constraints.len() as nat,
                    scope,
                    known,
                );
            },
            Constraint::Guard(premise, conclusion) => {
                premise.lemma_signatures_extend(scope, known);
                let mid = premise.signatures(scope, known).unwrap();
                conclusion.lemma_signatures_extend(scope, mid);
                let out = conclusion.signatures(scope, mid).unwrap();
                assert(out.take(known.len() as int) =~= mid.take(known.len() as int));
            },
            Constraint::ForAll(sort, premise, conclusion) => {
                let inner = scope.push(*sort);
                premise.lemma_signatures_extend(inner, known);
                let mid = premise.signatures(inner, known).unwrap();
                conclusion.lemma_signatures_extend(inner, mid);
                let out = conclusion.signatures(inner, mid).unwrap();
                assert(out.take(known.len() as int) =~= mid.take(known.len() as int));
            },
        }
    }

    /// The declarations gathered from a whole constraint name each unknown
    /// predicate once.
    pub proof fn lemma_gathered_once(&self)
        requires
            self.signatures(Seq::empty(), Seq::empty()) is Ok,
        ensures
            distinct(self.signatures(Seq::empty(), Seq::empty()).unwrap()),
    {
        self.lemma_signatures_extend(Seq::empty(), Seq::empty());
    }
}

} // verus!
