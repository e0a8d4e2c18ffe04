//! The query that the solver reads for one function: the declaration of
//! every unknown predicate, the qualifiers, and the constraint.

use crate::fixpoint::constraint::{Constraint, KVar, Qualifier};
use crate::fixpoint::emit::declaration_text;
use crate::fixpoint::gather::{signatures_of, GatherError, KVarGatherCtx, Signatures};
use crate::text::lemma_append;
use vstd::prelude::*;
use vstd::string::*;

verus! {

/// The declarations of the first `n` signatures, each on a line of its
/// own.
pub open spec fn declarations_text(signatures: Signatures, n: nat) -> Seq<char>
    decreases n,
{
    if n == 0 || n > signatures.len() {
        Seq::empty()
    } else {
        declarations_text(signatures, (n - 1) as nat) + declaration_text(
            signatures[n - 1].0,
            signatures[n - 1].1,
        ) + "\n"@
    }
}

/// The first `n` qualifiers, each on a line of its own.
pub open spec fn qualifiers_text(qualifiers: Seq<Qualifier>, n: nat) -> Seq<char>
    decreases n,
{
    if n == 0 || n > qualifiers.len() {
        Seq::empty()
    } else {
        qualifiers_text(qualifiers, (n - 1) as nat) + qualifiers[n - 1].text() + "\n"@
    }
}

/// The query: the declarations, the qualifiers as they were given, and the
/// constraint rendered at the outermost level, each on a line of its own.
pub open spec fn query_text(
    signatures: Signatures,
    qualifiers: Seq<Qualifier>,
    constraint: &Constraint,
) -> Seq<char> {
    declarations_text(signatures, signatures.len()) + qualifiers_text(
        qualifiers,
        qualifiers.len(),
    ) + constraint.text(0) + "\n"@
}

/// Appends the declarations to `w`.
pub fn emit_declarations(kvars: &Vec<KVar>, w: &mut String)
    ensures
        final(w)@ == old(w)@ + declarations_text(signatures_of(kvars@), kvars@.len()),
{
    let ghost base = w@;
    let ghost all = signatures_of(kvars@);
    let mut i: usize = 0;
    assert(base + declarations_text(all, 0) =~= base);
    while i < kvars.len()
        invariant
            i <= kvars.len(),
            all == signatures_of(kvars@),
            w@ == base + declarations_text(all, i as nat),
        decreases kvars.len() - i,
    {
        let ghost done = declarations_text(all, i as nat);
        assert(all[i as int] == (kvars@[i as int].id, kvars@[i as int].sorts@));
        kvars[i].emit(w);
        proof {
            lemma_append(base, done, kvars@[i as int].text());
        }
        w.append("\n");
        proof {
            lemma_append(base, done + kvars@[i as int].text(), "\n"@);
        }
        i = i + 1;
    }
}

/// Appends the qualifiers to `w`.
pub fn emit_qualifiers(qualifiers: &Vec<Qualifier>, w: &mut String)
    ensures
        final(w)@ == old(w)@ + qualifiers_text(qualifiers@, qualifiers@.len()),
{
    let ghost base = w@;
    let mut i: usize = 0;
    assert(base + qualifiers_text(qualifiers@, 0) =~= base);
    while i < qualifiers.len()
        invariant
            i <= qualifiers.len(),
            w@ == base + qualifiers_text(qualifiers@, i as nat),
        decreases qualifiers.len() - i,
    {
        let ghost done = qualifiers_text(qualifiers@, i as nat);
        qualifiers[i].emit(w);
        proof {
            lemma_append(base, done, qualifiers@[i as int].text());
        }
        w.append("\n");
        proof {
            lemma_append(base, done + qualifiers@[i as int].text(), "\n"@);
        }
        i = i + 1;
    }
}

/// Why no query could be written.
#[derive(Clone, Copy, PartialEq, Eq, Structural, Debug)]
pub enum QueryError {
    /// The unknown predicates of the constraint have no consistent
    /// signatures.
    Gather(GatherError),
    /// The quantifiers of the constraint nest too deep to be numbered.
    TooDeep,
}

/// Appends to `w` the query for a constraint: the declaration of each of
/// its unknown predicates in the order of first occurrence, the qualifiers
/// as they are, and the constraint. Nothing is appended where there is no
/// query.
pub fn emit_query(w: &mut String, qualifiers: &Vec<Qualifier>, constraint: &Constraint) -> (done:
    Result<(), QueryError>)
    ensures
        match constraint.signatures(Seq::empty(), Seq::empty()) {
            Err(e) => done == Err::<(), QueryError>(QueryError::Gather(e)) && final(w)@ == old(w)@,
            Ok(found) => if constraint.depth() > usize::MAX {
                done == Err::<(), QueryError>(QueryError::TooDeep) && final(w)@ == old(w)@
            } else {
                done is Ok && final(w)@ == old(w)@ + query_text(found, qualifiers@, constraint)
            },
        },
{
    let kvars = match KVarGatherCtx::gather_kvars(constraint) {
        Ok(kvars) => kvars,
        Err(e) => {
            return Err(QueryError::Gather(e));
        },
    };
    if !constraint.nests_within(usize::MAX) {
        return Err(QueryError::TooDeep);
    }
    let ghost base = w@;
    let ghost found = signatures_of(kvars@);
    emit_declarations(&kvars, w);
    let ghost declared = declarations_text(found, found.len());
    emit_qualifiers(qualifiers, w);
    let ghost hinted = qualifiers_text(qualifiers@, qualifiers@.len());
    proof {
        lemma_append(base, declared, hinted);
    }
    constraint.emit(w, 0);
    proof {
        lemma_append(base, declared + hinted, constraint.text(0));
    }
    w.append("\n");
    proof {
        lemma_append(base, declared + hinted + constraint.text(0), "\n"@);
    }
    Ok(())
}

} // verus!
