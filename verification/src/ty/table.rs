//! The hash-consing table of the `hashconsing` crate, as far as the
//! interner relies on it. Nothing in this file is proved: each contract
//! states what the crate's source shows.

use crate::ty::{Node, NodeModel};
use hashconsing::{HConsed, HConsign, HashConsign};
use std::hash::Hash;
use vstd::prelude::*;

verus! {

/// A handle of `hashconsing`. As long as one is held, the table that made
/// it keeps finding the element.
#[verifier::external_type_specification]
#[verifier::external_body]
#[verifier::reject_recursive_types(T)]
pub struct ExHConsed<T>(HConsed<T>);

/// The table of `hashconsing`.
#[verifier::external_type_specification]
#[verifier::external_body]
#[verifier::reject_recursive_types(T)]
#[verifier::reject_recursive_types(S)]
pub struct ExHConsign<T: Hash + Eq + Clone, S>(HConsign<T, S>);

/// The entries of the table: the identifier under which each node was last
/// entered. An entry stays when the last handle of its node is dropped.
///
/// The table keys its entries by the nodes themselves, compared and hashed
/// by the impls that `derive` wrote for `Node`. The entries are given here
/// by structure, which takes for granted that those impls compare and hash
/// by structure.
pub uninterp spec fn table_entries(table: HConsign<Node>) -> Map<NodeModel, u64>;

/// The identifier that the table gives to the next new element.
pub uninterp spec fn table_count(table: HConsign<Node>) -> u64;

/// `HConsign::empty`: a table with no entry that counts from zero.
#[verifier::external_body]
pub(crate) fn table_new() -> (table: HConsign<Node>)
    ensures
        table_entries(table) == (Map::<NodeModel, u64>::empty()),
        table_count(table) == 0,
{
    HConsign::empty()
}

/// `HConsign::contains`: whether the table has an entry for the node, live
/// or not.
#[verifier::external_body]
pub(crate) fn table_contains(table: &HConsign<Node>, node: &Node) -> (known: bool)
    ensures
        known == table_entries(*table).contains_key(node@),
{
    table.contains(node)
}

/// `HashConsign::mk_is_new` on a copy of the node, and `HConsed::uid` of
/// the handle that it returns: the handle, its identifier, and whether the
/// element is new.
///
/// A new element gets the table's count as its identifier, the count goes
/// up by one, and the node's entry is set to that identifier. Otherwise the
/// node had an entry, the identifier is the one entered, and the table is
/// unchanged. Which of the two happens for a node that has an entry depends
/// on whether a handle of it is still held, and is left open here. The
/// count must not be at its maximum, where the crate's increment overflows.
#[verifier::external_body]
pub(crate) fn table_mk(table: &mut HConsign<Node>, node: &Node) -> (made: (
    HConsed<Node>,
    u64,
    bool,
))
    requires
        table_count(*old(table)) < u64::MAX,
    ensures
        made.2 ==> made.1 == table_count(*old(table)) && table_count(*final(table)) == made.1 + 1
            && table_entries(*final(table)) == table_entries(*old(table)).insert(node@, made.1),
        !made.2 ==> table_entries(*old(table)).contains_key(node@) && made.1 == table_entries(
            *old(table),
        )[node@] && table_entries(*final(table)) == table_entries(*old(table)) && table_count(
            *final(table),
        ) == table_count(*old(table)),
{
    let (handle, fresh) = table.mk_is_new(node.clone());
    let uid = handle.uid();
    (handle, uid, fresh)
}

} // verus!
