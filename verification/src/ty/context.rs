//! The table of interned types and predicates.
//!
//! Every type and predicate is kept once. A handle is the place of its node
//! in the table, a node only refers to nodes made before it, and nothing is
//! ever changed or removed: what a handle stands for stays what it was.

use crate::ty::table::{table_contains, table_count, table_entries, table_mk, table_new};
use crate::ty::{
    Field, GhostVar, Node, NodeModel, Pred, PredKind, PredModel, PredS, Refine, RefineModel, Ty,
    TyKind, TyModel, TyS, Var,
};
use hashconsing::{HConsed, HConsign};
use vstd::prelude::*;

verus! {

/// Whether `pred` is the handle of a predicate among the first `bound`
/// nodes.
pub open spec fn is_pred(nodes: Seq<NodeModel>, pred: Pred, bound: int) -> bool {
    pred.index < bound <= nodes.len() && nodes[pred.index as int] is Pred
}

/// Whether `ty` is the handle of a type among the first `bound` nodes.
pub open spec fn is_ty(nodes: Seq<NodeModel>, ty: Ty, bound: int) -> bool {
    ty.index < bound <= nodes.len() && nodes[ty.index as int] is Ty
}

/// Whether every handle inside `node` is one of the right kind among the
/// first `bound` nodes.
pub open spec fn children_below(nodes: Seq<NodeModel>, node: NodeModel, bound: int) -> bool {
    match node {
        NodeModel::Pred(PredModel::BinaryOp(_, left, right)) => is_pred(nodes, left, bound)
            && is_pred(nodes, right, bound),
        NodeModel::Pred(PredModel::UnaryOp(_, operand)) => is_pred(nodes, operand, bound),
        NodeModel::Pred(_) => true,
        NodeModel::Ty(TyModel::Refined(_, RefineModel::Pred(pred))) => is_pred(nodes, pred, bound),
        NodeModel::Ty(TyModel::Tuple(fields)) => forall|k: int|
            0 <= k < fields.len() ==> is_ty(nodes, (#[trigger] fields[k]).1, bound),
        NodeModel::Ty(_) => true,
    }
}

/// The tuple fields that the predicate at place `at` names.
pub open spec fn pred_fields(nodes: Seq<NodeModel>, at: int) -> Set<Field>
    decreases at,
{
    if 0 <= at < nodes.len() {
        match nodes[at] {
            NodeModel::Pred(PredModel::Path(path)) => match path.base {
                Var::Field(field) => set![field],
                _ => Set::empty(),
            },
            NodeModel::Pred(PredModel::BinaryOp(_, left, right)) => {
                let of_left = if left.index < at {
                    pred_fields(nodes, left.index as int)
                } else {
                    Set::empty()
                };
                let of_right = if right.index < at {
                    pred_fields(nodes, right.index as int)
                } else {
                    Set::empty()
                };
                of_left.union(of_right)
            },
            NodeModel::Pred(PredModel::UnaryOp(_, operand)) => if operand.index < at {
                pred_fields(nodes, operand.index as int)
            } else {
                Set::empty()
            },
            _ => Set::empty(),
        }
    } else {
        Set::empty()
    }
}

/// The tuple fields that a refinement names.
pub open spec fn refine_fields(nodes: Seq<NodeModel>, refine: RefineModel) -> Set<Field> {
    match refine {
        RefineModel::Pred(pred) => pred_fields(nodes, pred.index as int),
        RefineModel::Infer(kvar) => Set::new(|field: Field| kvar.vars.contains(Var::Field(field))),
    }
}

/// The tuple fields that the refinement of the type `ty` names, if `ty` is
/// a refined base type.
pub open spec fn field_refs(nodes: Seq<NodeModel>, ty: Ty) -> Set<Field> {
    if ty.index < nodes.len() {
        match nodes[ty.index as int] {
            NodeModel::Ty(TyModel::Refined(_, refine)) => refine_fields(nodes, refine),
            _ => Set::empty(),
        }
    } else {
        Set::empty()
    }
}

/// The refinement of every field names only fields with a strictly smaller
/// index than that field's own.
pub open spec fn acyclic(nodes: Seq<NodeModel>, fields: Seq<(Field, Ty)>) -> bool {
    forall|k: int, field: Field|
        0 <= k < fields.len() && #[trigger] field_refs(nodes, fields[k].1).contains(field)
            ==> field.0 < fields[k].0.0
}

/// Whether the table may take `node`: its handles are handles of the table
/// and, if it is a tuple, its fields depend on one another without a cycle.
pub open spec fn admits(nodes: Seq<NodeModel>, node: NodeModel) -> bool {
    &&& children_below(nodes, node, nodes.len() as int)
    &&& node matches NodeModel::Ty(TyModel::Tuple(fields)) ==> acyclic(nodes, fields)
}

/// What holds of every table: no structure is kept twice, a node refers
/// only to nodes before it, and every tuple is acyclic.
pub open spec fn well_formed(nodes: Seq<NodeModel>) -> bool {
    &&& forall|i: int, j: int|
        0 <= i < nodes.len() && 0 <= j < nodes.len() && #[trigger] nodes[i] == #[trigger] nodes[j]
            ==> i == j
    &&& forall|i: int| 0 <= i < nodes.len() ==> children_below(nodes, #[trigger] nodes[i], i)
    &&& forall|i: int|
        0 <= i < nodes.len() ==> (#[trigger] nodes[i] matches NodeModel::Ty(TyModel::Tuple(fields))
            ==> acyclic(nodes, fields))
}

/// The place of `node` in `nodes`, if it is there.
pub open spec fn place_of(nodes: Seq<NodeModel>, node: NodeModel) -> Option<int> {
    if exists|i: int| 0 <= i < nodes.len() && nodes[i] == node {
        Some(choose|i: int| 0 <= i < nodes.len() && nodes[i] == node)
    } else {
        None
    }
}

/// The table after interning `node`: unchanged if the structure is there,
/// and one node longer if it is not.
pub open spec fn interned(nodes: Seq<NodeModel>, node: NodeModel) -> Seq<NodeModel> {
    if place_of(nodes, node) is Some {
        nodes
    } else {
        nodes.push(node)
    }
}

/// The handle that interning `node` gives: the place of the structure if it
/// is there, and the next free place if it is not.
pub open spec fn handle_of(nodes: Seq<NodeModel>, node: NodeModel) -> int {
    match place_of(nodes, node) {
        Some(at) => at,
        None => nodes.len() as int,
    }
}

/// The table of interned types and predicates.
pub struct TyCtxt {
    /// The node of each handle.
    nodes: Vec<Node>,
    /// The handle of each identifier that `table` has given out.
    slots: Vec<usize>,
    /// The identifier of each node.
    table: HConsign<Node>,
    /// One handle of `table` for each identifier, held so that its entry
    /// stays live.
    roots: Vec<HConsed<Node>>,
    /// The next ghost variable.
    next_ghost: usize,
}

impl View for TyCtxt {
    type V = Seq<NodeModel>;

    closed spec fn view(&self) -> Seq<NodeModel> {
        Seq::new(self.nodes@.len(), |i: int| self.nodes@[i]@)
    }
}

impl TyCtxt {
    /// `table` knows exactly the nodes of the table, each under an
    /// identifier whose slot holds the node's handle.
    pub closed spec fn indexed(&self) -> bool {
        &&& table_count(self.table) == self.slots@.len()
        &&& forall|node: NodeModel| #[trigger]
            table_entries(self.table).contains_key(node) ==> {
                let uid = table_entries(self.table)[node];
                &&& uid < self.slots@.len()
                &&& self.slots@[uid as int] < self@.len()
                &&& self@[self.slots@[uid as int] as int] == node
            }
        &&& forall|i: int|
            0 <= i < self@.len() ==> table_entries(self.table).contains_key(#[trigger] self@[i])
    }

    /// The invariant of the table.
    pub open spec fn wf(&self) -> bool {
        well_formed(self@) && self.indexed()
    }

    /// The ghost variable that `fresh_ghost` hands out next.
    pub closed spec fn next_ghost(&self) -> nat {
        self.next_ghost as nat
    }

    /// An empty table.
    pub fn new() -> (tcx: TyCtxt)
        ensures
            tcx.wf(),
            tcx@ == Seq::<NodeModel>::empty(),
            tcx.next_ghost() == 0,
    {
        let tcx = TyCtxt {
            nodes: Vec::new(),
            slots: Vec::new(),
            table: table_new(),
            roots: Vec::new(),
            next_ghost: 0,
        };
        assert(tcx@ =~= Seq::<NodeModel>::empty());
        tcx
    }

    /// The number of nodes.
    pub fn len(&self) -> (n: usize)
        ensures
            n == self@.len(),
    {
        self.nodes.len()
    }

    /// The place of a node with the structure of `node`, found by looking
    /// at every node in turn.
    fn find(&self, node: &Node) -> (at: Option<usize>)
        ensures
            match at {
                Some(at) => at < self@.len() && self@[at as int] == node@,
                None => forall|i: int| 0 <= i < self@.len() ==> self@[i] != node@,
            },
    {
        let mut i: usize = 0;
        while i < self.nodes.len()
            invariant
                i <= self.nodes.len(),
                self@.len() == self.nodes@.len(),
                forall|k: int| 0 <= k < i ==> self@[k] != node@,
            decreases self.nodes.len() - i,
        {
            if self.nodes[i].same(node) {
                return Some(i);
            }
            i = i + 1;
        }
        None
    }

    /// Interns `node` and returns its handle.
    fn intern(&mut self, node: Node) -> (at: usize)
        requires
            old(self).wf(),
            admits(old(self)@, node@),
        ensures
            final(self).wf(),
            final(self)@ == interned(old(self)@, node@),
            at == handle_of(old(self)@, node@),
            at < final(self)@.len(),
            final(self)@[at as int] == node@,
            final(self).next_ghost() == old(self).next_ghost(),
    {
        let ghost before = self@;
        if table_contains(&self.table, &node) {
            let ghost uid = table_entries(self.table)[node@];
            let ghost here = self.slots@[uid as int] as int;
            proof {
                assert(before[here] == node@);
                lemma_place_of(before, node@, here);
            }
            if self.slots.len() < usize::MAX {
                let made = table_mk(&mut self.table, &node);
                assert(self@ == before);
                if made.2 {
                    let at = match self.find(&node) {
                        Some(at) => at,
                        None => {
                            proof {
                                assert(false);
                            }
                            vstd::pervasive::unreached()
                        },
                    };
                    self.slots.push(at);
                    self.roots.push(made.0);
                    at
                } else {
                    self.slots[made.1 as usize]
                }
            } else {
                match self.find(&node) {
                    Some(at) => at,
                    None => {
                        proof {
                            assert(false);
                        }
                        vstd::pervasive::unreached()
                    },
                }
            }
        } else {
            proof {
                if place_of(before, node@) is Some {
                    let at = place_of(before, node@).unwrap();
                    assert(table_entries(self.table).contains_key(before[at]));
                    assert(false);
                }
            }
            let at: usize = self.nodes.len();
            self.slots.push(at);
            assert(table_count(self.table) == old(self).slots@.len());
            assert(self.slots.len() == self.slots@.len());
            let made = table_mk(&mut self.table, &node);
            self.roots.push(made.0);
            self.nodes.push(node);
            proof {
                assert(self@ =~= before.push(node@));
                lemma_well_formed_push(before, node@);
            }
            at
        }
    }
}

impl TyCtxt {
    /// Whether `ty` is the handle of a type of this table.
    pub open spec fn has_ty(&self, ty: Ty) -> bool {
        is_ty(self@, ty, self@.len() as int)
    }

    /// Whether `pred` is the handle of a predicate of this table.
    pub open spec fn has_pred(&self, pred: Pred) -> bool {
        is_pred(self@, pred, self@.len() as int)
    }

    /// The structure of the type behind a handle.
    pub open spec fn ty_model(&self, ty: Ty) -> TyModel {
        self@[ty.index as int]->Ty_0
    }

    /// The structure of the predicate behind a handle.
    pub open spec fn pred_model(&self, pred: Pred) -> PredModel {
        self@[pred.index as int]->Pred_0
    }

    /// Whether `ty` is the handle of a type of this table.
    pub fn contains_ty(&self, ty: Ty) -> (known: bool)
        ensures
            known == self.has_ty(ty),
    {
        ty.index < self.nodes.len() && match &self.nodes[ty.index] {
            Node::Ty(_) => true,
            Node::Pred(_) => false,
        }
    }

    /// Whether `pred` is the handle of a predicate of this table.
    pub fn contains_pred(&self, pred: Pred) -> (known: bool)
        ensures
            known == self.has_pred(pred),
    {
        pred.index < self.nodes.len() && match &self.nodes[pred.index] {
            Node::Pred(_) => true,
            Node::Ty(_) => false,
        }
    }

    /// The type behind a handle.
    pub fn ty(&self, ty: Ty) -> (node: &TyS)
        requires
            self.has_ty(ty),
        ensures
            node@ == self.ty_model(ty),
    {
        match &self.nodes[ty.index] {
            Node::Ty(node) => node,
            Node::Pred(_) => {
                proof {
                    assert(false);
                }
                vstd::pervasive::unreached()
            },
        }
    }

    /// The predicate behind a handle.
    pub fn pred(&self, pred: Pred) -> (node: &PredS)
        requires
            self.has_pred(pred),
        ensures
            node@ == self.pred_model(pred),
    {
        match &self.nodes[pred.index] {
            Node::Pred(node) => node,
            Node::Ty(_) => {
                proof {
                    assert(false);
                }
                vstd::pervasive::unreached()
            },
        }
    }

    /// The largest index among the tuple fields that a predicate names.
    pub fn pred_max_field(&self, pred: Pred) -> (max: Option<usize>)
        requires
            self.wf(),
            self.has_pred(pred),
        ensures
            match max {
                Some(max) => pred_fields(self@, pred.index as int).contains(Field(max)) && forall|
                    field: Field,
                |
                    pred_fields(self@, pred.index as int).contains(field) ==> field.0 <= max,
                None => forall|field: Field| !pred_fields(self@, pred.index as int).contains(field),
            },
        decreases pred.index,
    {
        assert(children_below(self@, self@[pred.index as int], pred.index as int));
        let node = self.pred(pred);
        assert(self@[pred.index as int] == NodeModel::Pred(node.kind@));
        match &node.kind {
            PredKind::Path(path) => match path.base {
                Var::Field(field) => {
                    assert(pred_fields(self@, pred.index as int) =~= set![field]);
                    Some(field.0)
                },
                _ => None,
            },
            PredKind::BinaryOp(_, left, right) => {
                let of_left = self.pred_max_field(*left);
                let of_right = self.pred_max_field(*right);
                assert(pred_fields(self@, pred.index as int) =~= pred_fields(
                    self@,
                    left.index as int,
                ).union(pred_fields(self@, right.index as int)));
                match (of_left, of_right) {
                    (Some(a), Some(b)) => if a >= b {
                        Some(a)
                    } else {
                        Some(b)
                    },
                    (Some(a), None) => Some(a),
                    (None, other) => other,
                }
            },
            PredKind::UnaryOp(_, operand) => {
                assert(pred_fields(self@, pred.index as int) == pred_fields(
                    self@,
                    operand.index as int,
                ));
                self.pred_max_field(*operand)
            },
            PredKind::Const(_) => None,
        }
    }

    /// Whether the refinement of the type `ty` names only tuple fields with
    /// an index below `own`.
    pub fn refers_below(&self, ty: Ty, own: usize) -> (below: bool)
        requires
            self.wf(),
            self.has_ty(ty),
        ensures
            below == (forall|field: Field|
                field_refs(self@, ty).contains(field) ==> field.0 < own),
    {
        assert(children_below(self@, self@[ty.index as int], ty.index as int));
        let node = self.ty(ty);
        assert(self@[ty.index as int] == NodeModel::Ty(node.kind@));
        match &node.kind {
            TyKind::Refined(_, Refine::Pred(pred)) => match self.pred_max_field(*pred) {
                Some(max) => {
                    assert(field_refs(self@, ty).contains(Field(max)));
                    max < own
                },
                None => true,
            },
            TyKind::Refined(base, Refine::Infer(kvar)) => {
                let mut i: usize = 0;
                while i < kvar.vars.len()
                    invariant
                        i <= kvar.vars.len(),
                        ty.index < self@.len(),
                        self@[ty.index as int] == NodeModel::Ty(
                            TyModel::Refined(*base, RefineModel::Infer(kvar@)),
                        ),
                        forall|k: int|
                            0 <= k < i ==> (#[trigger] kvar.vars@[k] matches Var::Field(field)
                                ==> field.0 < own),
                    decreases kvar.vars.len() - i,
                {
                    match kvar.vars[i] {
                        Var::Field(field) => {
                            if field.0 >= own {
                                proof {
                                    assert(kvar.vars@.contains(Var::Field(field)));
                                    assert(field_refs(self@, ty).contains(field));
                                }
                                return false;
                            }
                        },
                        _ => {},
                    }
                    i = i + 1;
                }
                proof {
                    assert forall|field: Field| field_refs(self@, ty).contains(field) implies field.0
                        < own by {
                        let k = choose|k: int|
                            0 <= k < kvar.vars@.len() && kvar.vars@[k] == Var::Field(field);
                        assert(kvar.vars@[k] == Var::Field(field));
                    }
                }
                true
            },
            _ => true,
        }
    }

    /// Whether the table may take a tuple of the given fields.
    fn admits_fields(&self, fields: &Vec<(Field, Ty)>) -> (ok: bool)
        requires
            self.wf(),
        ensures
            ok == admits(self@, NodeModel::Ty(TyModel::Tuple(fields@))),
    {
        let mut i: usize = 0;
        while i < fields.len()
            invariant
                i <= fields.len(),
                self.wf(),
                forall|k: int| 0 <= k < i ==> is_ty(self@, (#[trigger] fields@[k]).1, self@.len() as int),
                forall|k: int, field: Field|
                    0 <= k < i && #[trigger] field_refs(self@, fields@[k].1).contains(field)
                        ==> field.0 < fields@[k].0.0,
            decreases fields.len() - i,
        {
            let ty = fields[i].1;
            if !self.contains_ty(ty) {
                assert(!is_ty(self@, fields@[i as int].1, self@.len() as int));
                return false;
            }
            if !self.refers_below(ty, fields[i].0.0) {
                proof {
                    let field = choose|field: Field|
                        field_refs(self@, ty).contains(field) && !(field.0 < fields@[i as int].0.0);
                    assert(field_refs(self@, fields@[i as int].1).contains(field));
                }
                return false;
            }
            i = i + 1;
        }
        true
    }

    /// Whether the table may take a predicate of the given structure: the
    /// handles in it must be predicates of this table.
    pub fn admits_pred(&self, kind: &PredKind) -> (ok: bool)
        requires
            self.wf(),
        ensures
            ok == admits(self@, NodeModel::Pred(kind@)),
    {
        match kind {
            PredKind::BinaryOp(_, left, right) => self.contains_pred(*left) && self.contains_pred(
                *right,
            ),
            PredKind::UnaryOp(_, operand) => self.contains_pred(*operand),
            _ => true,
        }
    }

    /// Whether the table may take a type of the given structure: the
    /// handles in it must be handles of this table, and the refinement of a
    /// tuple's field may only name fields with a strictly smaller index
    /// than the field's own.
    pub fn admits_ty(&self, kind: &TyKind) -> (ok: bool)
        requires
            self.wf(),
        ensures
            ok == admits(self@, NodeModel::Ty(kind@)),
    {
        match kind {
            TyKind::Refined(_, Refine::Pred(pred)) => self.contains_pred(*pred),
            TyKind::Tuple(tuple) => self.admits_fields(&tuple.0),
            _ => true,
        }
    }

    /// Interns a predicate. The same structure always gets the same handle;
    /// a structure that holds a handle unknown to the table is refused.
    pub fn mk_pred(&mut self, kind: PredKind) -> (made: Option<Pred>)
        requires
            old(self).wf(),
        ensures
            final(self).wf(),
            final(self).next_ghost() == old(self).next_ghost(),
            match made {
                Some(pred) => {
                    &&& admits(old(self)@, NodeModel::Pred(kind@))
                    &&& final(self)@ == interned(old(self)@, NodeModel::Pred(kind@))
                    &&& pred.index == handle_of(old(self)@, NodeModel::Pred(kind@))
                    &&& final(self).has_pred(pred)
                    &&& final(self).pred_model(pred) == kind@
                },
                None => !admits(old(self)@, NodeModel::Pred(kind@)) && final(self)@ == old(self)@,
            },
    {
        if !self.admits_pred(&kind) {
            return None;
        }
        let index = self.intern(Node::Pred(PredS { kind }));
        Some(Pred { index })
    }

    /// Interns a type. The same structure always gets the same handle; a
    /// structure that holds a handle unknown to the table, or a tuple whose
    /// fields depend on one another in a cycle, is refused.
    pub fn mk_ty(&mut self, kind: TyKind) -> (made: Option<Ty>)
        requires
            old(self).wf(),
        ensures
            final(self).wf(),
            final(self).next_ghost() == old(self).next_ghost(),
            match made {
                Some(ty) => {
                    &&& admits(old(self)@, NodeModel::Ty(kind@))
                    &&& final(self)@ == interned(old(self)@, NodeModel::Ty(kind@))
                    &&& ty.index == handle_of(old(self)@, NodeModel::Ty(kind@))
                    &&& final(self).has_ty(ty)
                    &&& final(self).ty_model(ty) == kind@
                },
                None => !admits(old(self)@, NodeModel::Ty(kind@)) && final(self)@ == old(self)@,
            },
    {
        if !self.admits_ty(&kind) {
            return None;
        }
        let index = self.intern(Node::Ty(TyS { kind }));
        Some(Ty { index })
    }

    /// The index of the ghost variable that `fresh_ghost` hands out next.
    pub fn next(&self) -> (next: usize)
        ensures
            next == self.next_ghost(),
    {
        self.next_ghost
    }

    /// A ghost variable that this table has not handed out before, or
    /// nothing when all have been.
    pub fn fresh_ghost(&mut self) -> (made: Option<GhostVar>)
        requires
            old(self).wf(),
        ensures
            final(self).wf(),
            final(self)@ == old(self)@,
            match made {
                Some(var) => var.0 == old(self).next_ghost() && old(self).next_ghost()
                    < usize::MAX && final(self).next_ghost() == old(self).next_ghost() + 1,
                None => old(self).next_ghost() == usize::MAX && final(self).next_ghost() == old(
                    self,
                ).next_ghost(),
            },
    {
        if self.next_ghost == usize::MAX {
            return None;
        }
        let var = GhostVar(self.next_ghost);
        self.next_ghost = self.next_ghost + 1;
        Some(var)
    }
}

/// Interning never changes or removes a node: the table before is the
/// beginning of the table after, so every handle keeps its meaning.
pub proof fn lemma_interned_extends(nodes: Seq<NodeModel>, node: NodeModel)
    ensures
        nodes.len() <= interned(nodes, node).len(),
        interned(nodes, node).take(nodes.len() as int) == nodes,
{
    assert(interned(nodes, node).take(nodes.len() as int) =~= nodes);
}

/// Interning the same structure twice gives the same handle, and the second
/// time leaves the table as it is.
pub proof fn lemma_intern_idempotent(nodes: Seq<NodeModel>, node: NodeModel)
    requires
        well_formed(nodes),
        admits(nodes, node),
    ensures
        interned(interned(nodes, node), node) == interned(nodes, node),
        handle_of(interned(nodes, node), node) == handle_of(nodes, node),
{
    let once = interned(nodes, node);
    let at = handle_of(nodes, node);
    if place_of(nodes, node) is None {
        lemma_well_formed_push(nodes, node);
    }
    assert(once[at] == node);
    lemma_place_of(once, node, at);
}

/// Two handles of a well-formed table stand for the same structure exactly
/// when they are the same handle.
pub proof fn lemma_same_structure_same_handle(nodes: Seq<NodeModel>, a: int, b: int)
    requires
        well_formed(nodes),
        0 <= a < nodes.len(),
        0 <= b < nodes.len(),
    ensures
        nodes[a] == nodes[b] <==> a == b,
{
}

/// In a table that keeps no structure twice, the place of a node is the
/// one place where it stands.
pub proof fn lemma_place_of(nodes: Seq<NodeModel>, node: NodeModel, at: int)
    requires
        well_formed(nodes),
        0 <= at < nodes.len(),
        nodes[at] == node,
    ensures
        place_of(nodes, node) == Some(at),
{
    let chosen = choose|i: int| 0 <= i < nodes.len() && nodes[i] == node;
    assert(nodes[chosen] == nodes[at]);
}

/// The fields that a predicate names are the same in every table that
/// begins with the nodes up to it.
pub proof fn lemma_pred_fields_stable(nodes: Seq<NodeModel>, longer: Seq<NodeModel>, at: int)
    requires
        nodes.len() <= longer.len(),
        longer.take(nodes.len() as int) == nodes,
        0 <= at < nodes.len(),
    ensures
        pred_fields(longer, at) == pred_fields(nodes, at),
    decreases at,
{
    assert(longer[at] == longer.take(nodes.len() as int)[at]);
    match nodes[at] {
        NodeModel::Pred(PredModel::BinaryOp(_, left, right)) => {
            if left.index < at {
                lemma_pred_fields_stable(nodes, longer, left.index as int);
            }
            if right.index < at {
                lemma_pred_fields_stable(nodes, longer, right.index as int);
            }
        },
        NodeModel::Pred(PredModel::UnaryOp(_, operand)) => {
            if operand.index < at {
                lemma_pred_fields_stable(nodes, longer, operand.index as int);
            }
        },
        _ => {},
    }
}

/// A tuple that is acyclic in a table is acyclic in every table that begins
/// with it.
pub proof fn lemma_acyclic_stable(
    nodes: Seq<NodeModel>,
    longer: Seq<NodeModel>,
    fields: Seq<(Field, Ty)>,
)
    requires
        well_formed(nodes),
        nodes.len() <= longer.len(),
        longer.take(nodes.len() as int) == nodes,
        forall|k: int| 0 <= k < fields.len() ==> (#[trigger] fields[k]).1.index < nodes.len(),
        acyclic(nodes, fields),
    ensures
        acyclic(longer, fields),
{
    assert forall|k: int, field: Field|
        0 <= k < fields.len() && #[trigger] field_refs(longer, fields[k].1).contains(
            field,
        ) implies field.0 < fields[k].0.0 by {
        let ty = fields[k].1;
        assert(fields[k].1.index < nodes.len());
        assert(longer[ty.index as int] == longer.take(nodes.len() as int)[ty.index as int]);
        assert(children_below(nodes, nodes[ty.index as int], ty.index as int));
        match nodes[ty.index as int] {
            NodeModel::Ty(TyModel::Refined(_, RefineModel::Pred(pred))) => {
                lemma_pred_fields_stable(nodes, longer, pred.index as int);
            },
            _ => {},
        }
        assert(field_refs(nodes, fields[k].1).contains(field));
    }
}

/// Adding a node that the table admits, and that it does not hold yet,
/// keeps the table well formed.
pub proof fn lemma_well_formed_push(nodes: Seq<NodeModel>, node: NodeModel)
    requires
        well_formed(nodes),
        admits(nodes, node),
        place_of(nodes, node) is None,
    ensures
        well_formed(nodes.push(node)),
{
    let longer = nodes.push(node);
    assert(longer.take(nodes.len() as int) =~= nodes);
    assert forall|i: int, j: int|
        0 <= i < longer.len() && 0 <= j < longer.len() && #[trigger] longer[i]
            == #[trigger] longer[j] implies i == j by {
        if i < nodes.len() && j < nodes.len() {
            assert(nodes[i] == nodes[j]);
        } else if i < nodes.len() {
            assert(nodes[i] == node);
        } else if j < nodes.len() {
            assert(nodes[j] == node);
        }
    }
    assert forall|i: int| 0 <= i < longer.len() implies children_below(
        longer,
        #[trigger] longer[i],
        i,
    ) by {
        if i < nodes.len() {
            assert(children_below(nodes, nodes[i], i));
            lemma_children_stable(nodes, longer, nodes[i], i);
        } else {
            lemma_children_stable(nodes, longer, node, nodes.len() as int);
        }
    }
    assert forall|i: int| 0 <= i < longer.len() implies (#[trigger] longer[i] matches NodeModel::Ty(
        TyModel::Tuple(fields),
    ) ==> acyclic(longer, fields)) by {
        if let NodeModel::Ty(TyModel::Tuple(fields)) = longer[i] {
            if i < nodes.len() {
                assert(children_below(nodes, nodes[i], i));
                assert(nodes[i] matches NodeModel::Ty(TyModel::Tuple(fs)) ==> acyclic(nodes, fs));
            }
            lemma_acyclic_stable(nodes, longer, fields);
        }
    }
}

/// Handles that are good in a table are good in every table that begins
/// with it.
pub proof fn lemma_children_stable(
    nodes: Seq<NodeModel>,
    longer: Seq<NodeModel>,
    node: NodeModel,
    bound: int,
)
    requires
        nodes.len() <= longer.len(),
        longer.take(nodes.len() as int) == nodes,
        children_below(nodes, node, bound),
    ensures
        children_below(longer, node, bound),
{
    assert forall|i: int| 0 <= i < nodes.len() implies longer[i] == nodes[i] by {
        assert(longer[i] == longer.take(nodes.len() as int)[i]);
    }
    match node {
        NodeModel::Ty(TyModel::Tuple(fields)) => {
            assert forall|k: int| 0 <= k < fields.len() implies is_ty(
                longer,
                (#[trigger] fields[k]).1,
                bound,
            ) by {
                assert(is_ty(nodes, fields[k].1, bound));
            }
        },
        _ => {},
    }
}

} // verus!
