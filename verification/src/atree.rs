//! The A-Tree: expressions stored as a DAG with shared sub-expressions. What
//! holds of the tree at all times is stated here; inserting, deleting and
//! searching each have a file of their own.
use crate::arena::{
    arena_replace, arena_with_capacity, ATreeNode, entries, Entry, ExpressionId, LNode,
    no_entries, NodeId, RNode,
};
use crate::ast::{Operator, OptimizedNode};
use crate::dag::{
    agree, counted, lemma_level_is_bounded, lemma_node, lemma_pending, lemma_refs_witness,
    lemma_results_kept, Nodes, part_of, preserved, removed, result_of, same_core, stands_for,
    structure, subscribed, touched,
};
use crate::error::ATreeError;
use crate::events::{
    AttributeDefinition, AttributeTable, AttributeValue, Event, EventBuilder, EventError,
    repeats,
};
use crate::strings::StringTable;
use slab::Slab;
use std::collections::HashMap;
use vstd::multiset::Multiset;
use vstd::prelude::*;

pub mod delete;
pub mod insert;
pub mod laws;
pub mod search;
pub mod summary;

pub use crate::atree::search::Report;
pub use crate::atree::summary::NodeSummary;

verus! {

broadcast use vstd::std_specs::hash::group_hash_axioms;

/// The A-Tree: the expressions that were inserted, each under the id of its
/// subscriber, as a DAG in which equal sub-expressions are one node.
pub struct ATree {
    nodes: Slab<Entry>,
    strings: StringTable,
    attributes: AttributeTable,
    roots: Vec<NodeId>,
    max_level: usize,
    predicates: Vec<NodeId>,
    expression_to_node: HashMap<ExpressionId, NodeId>,
    nodes_by_ids: HashMap<u64, NodeId>,
    key_bound: usize,
    meanings: Ghost<Map<NodeId, OptimizedNode>>,
}

const DEFAULT_PREDICATES: usize = 1000;

const DEFAULT_NODES: usize = 2000;

const DEFAULT_ROOTS: usize = 50;

impl ATree {
    /// The nodes of the DAG, by key.
    pub closed spec fn nodes(&self) -> Nodes {
        entries(self.nodes)
    }

    /// The root set: the nodes that have subscribers.
    pub closed spec fn roots(&self) -> Seq<NodeId> {
        self.roots@
    }

    /// The predicate entry set: the leaves that every search evaluates first.
    pub closed spec fn entry_set(&self) -> Seq<NodeId> {
        self.predicates@
    }

    /// The node of each expression id.
    pub closed spec fn expressions(&self) -> Map<ExpressionId, NodeId> {
        self.expression_to_node@
    }

    /// The node that each subscriber was last attached to.
    pub closed spec fn subscribers(&self) -> Map<u64, NodeId> {
        self.nodes_by_ids@
    }

    /// The attributes that the expressions speak of.
    pub closed spec fn attributes(&self) -> &AttributeTable {
        &self.attributes
    }

    /// The strings that the expressions mention.
    pub closed spec fn strings(&self) -> &StringTable {
        &self.strings
    }

    /// A level that no node is above.
    pub closed spec fn max_level(&self) -> usize {
        self.max_level
    }

    /// A bound that every key is below.
    pub closed spec fn key_bound(&self) -> usize {
        self.key_bound
    }

    /// An expression for each node, of which the node has the id and the
    /// result: the one that the node was made for, its operands taken as
    /// what their nodes stand for.
    pub closed spec fn meanings(&self) -> Map<NodeId, OptimizedNode> {
        self.meanings@
    }

    /// Every node has the id of its expression, and its result on every
    /// event.
    #[verifier::opaque]
    pub open spec fn meant(&self) -> bool {
        forall|key: NodeId| #[trigger]
            self.nodes().contains_key(key) ==> self.meanings().contains_key(key)
                && self.meanings()[key].spec_id() == self.nodes()[key].id && stands_for(
                self.nodes(),
                key,
                self.meanings()[key],
            )
    }

    /// What holds of the tables beside the nodes. Every expression id leads to
    /// a node with that id, every subscriber to a node that it is attached
    /// to. The root set holds the nodes with subscribers, each once. The entry
    /// set holds, each once, the leaves that have a parent or a subscriber.
    /// No node is above the highest level, and every predicate is valid for
    /// the attributes.
    #[verifier::opaque]
    pub open spec fn indexed(&self) -> bool {
        let nodes = self.nodes();
        &&& forall|id: ExpressionId| #[trigger]
            self.expressions().contains_key(id) ==> nodes.contains_key(self.expressions()[id])
                && nodes[self.expressions()[id]].id == id
        &&& forall|subscriber: u64| #[trigger]
            self.subscribers().contains_key(subscriber) ==> nodes.contains_key(
                self.subscribers()[subscriber],
            ) && nodes[self.subscribers()[subscriber]].subscription_ids@.contains(subscriber)
        &&& self.roots().no_duplicates()
        &&& forall|i: int|
            0 <= i < self.roots().len() ==> nodes.contains_key(#[trigger] self.roots()[i])
                && nodes[self.roots()[i]].subscription_ids@.len() > 0
        &&& forall|key: NodeId| #[trigger]
            nodes.contains_key(key) && nodes[key].subscription_ids@.len() > 0
                ==> self.roots().contains(key)
        &&& self.entry_set().no_duplicates()
        &&& forall|i: int|
            0 <= i < self.entry_set().len() ==> nodes.contains_key(#[trigger] self.entry_set()[i])
                && evaluated_first(nodes[self.entry_set()[i]])
        &&& forall|key: NodeId| #[trigger]
            nodes.contains_key(key) && evaluated_first(nodes[key]) ==> self.entry_set().contains(
                key,
            )
        &&& forall|key: NodeId| #[trigger]
            nodes.contains_key(key) ==> nodes[key].node.spec_level() <= self.max_level() && (
            nodes[key].node matches ATreeNode::LNode(leaf) ==> leaf.predicate.valid_for(
                self.attributes().kinds(),
            ))
    }

    /// What holds of the tree while an operation has the uses `pending`.
    pub open spec fn inv(&self, pending: Multiset<NodeId>) -> bool {
        &&& structure(self.nodes(), self.key_bound() as nat)
        &&& counted(self.nodes(), self.key_bound() as nat, pending)
        &&& self.indexed()
        &&& self.max_level() >= 1
        &&& self.key_bound() <= isize::MAX + 1
        &&& self.attributes().wf()
        &&& self.strings().wf()
    }

    /// Whether the highest level is that of a node of the root set, or 1 if
    /// none is above it.
    pub open spec fn leveled(&self) -> bool {
        self.max_level() == 1 || exists|i: int|
            0 <= i < self.roots().len() && self.nodes()[#[trigger] self.roots()[i]].node.spec_level()
                == self.max_level()
    }

    /// What holds of the tree between operations.
    pub open spec fn wf(&self) -> bool {
        self.inv(Multiset::empty()) && self.meant() && self.leveled()
    }

    /// Create a new [`ATree`] with the attributes that the inserted
    /// expressions can speak of, along with their types.
    ///
    /// A name that is defined twice is refused.
    pub fn new(definitions: &[AttributeDefinition]) -> (result: Result<Self, ATreeError>)
        ensures
            match result {
                Ok(tree) => {
                    &&& tree.wf()
                    &&& tree.nodes() == no_entries()
                    &&& tree.roots().len() == 0
                    &&& tree.entry_set().len() == 0
                    &&& tree.attributes().holds(definitions@)
                    &&& forall|i: int|
                        0 <= i < definitions.len() ==> !crate::events::repeats(definitions@, i)
                },
                Err(ATreeError::Event(crate::events::EventError::AlreadyPresent(name))) => exists|
                    index: int,
                |
                    0 <= index < definitions.len() && #[trigger] crate::events::repeats(
                        definitions@,
                        index,
                    ) && name@ == definitions[index].spec_name() && forall|i: int|
                        0 <= i < index ==> !crate::events::repeats(definitions@, i),
                Err(_) => false,
            },
    {
        let attributes = match AttributeTable::new(definitions) {
            Ok(attributes) => attributes,
            Err(error) => {
                return Err(ATreeError::Event(error));
            },
        };
        let strings = StringTable::new();
        let tree = Self {
            attributes,
            strings,
            max_level: 1,
            roots: Vec::with_capacity(DEFAULT_ROOTS),
            predicates: Vec::with_capacity(DEFAULT_PREDICATES),
            nodes: arena_with_capacity(DEFAULT_NODES),
            expression_to_node: HashMap::new(),
            nodes_by_ids: HashMap::new(),
            key_bound: 0,
            meanings: Ghost(Map::empty()),
        };
        proof {
            reveal(ATree::indexed);
            reveal(ATree::meant);
            reveal(structure);
            reveal(counted);
        }
        Ok(tree)
    }

    /// Create a new [`EventBuilder`] for an [`Event`] that can be searched
    /// for in this [`ATree`].
    #[inline]
    pub fn make_event(&self) -> (builder: EventBuilder<'_>)
        requires
            self.wf(),
        ensures
            builder.wf(),
            builder.attributes() == self.attributes(),
            builder.strings() == self.strings(),
            forall|i: int|
                0 <= i < builder.values().len() ==> #[trigger] builder.values()[i]
                    == AttributeValue::Undefined,
    {
        EventBuilder::new(&self.attributes, &self.strings)
    }
}

/// Whether a search evaluates the node first: it has a parent to hand its
/// result to, or a subscriber.
pub open spec fn evaluated_first(entry: Entry) -> bool {
    entry.leaf() && (entry.node.spec_parents().len() > 0 || entry.subscription_ids@.len() > 0)
}

/// The subscribers of a new node: the one it was made for, if any.
pub open spec fn first_subscribers(subscription_id: Option<u64>) -> Seq<u64> {
    match subscription_id {
        Some(subscription_id) => seq![subscription_id],
        None => Seq::<u64>::empty(),
    }
}

/// The list with the key, if the key is not yet in it.
pub open spec fn with_key(list: Seq<NodeId>, key: NodeId) -> Seq<NodeId> {
    if list.contains(key) {
        list
    } else {
        list.push(key)
    }
}

/// The entry set with the node, if the node is a leaf that is not yet in it.
pub open spec fn with_leaf(list: Seq<NodeId>, nodes: Nodes, key: NodeId) -> Seq<NodeId> {
    if nodes[key].leaf() && !list.contains(key) {
        list.push(key)
    } else {
        list
    }
}

/// The expression with that operator and those operands.
pub open spec fn joined(operator: Operator, left: OptimizedNode, right: OptimizedNode) -> OptimizedNode {
    match operator {
        Operator::And => OptimizedNode::And(Box::new(left), Box::new(right)),
        Operator::Or => OptimizedNode::Or(Box::new(left), Box::new(right)),
    }
}

/// The children in the order in which a node keeps them: the cheaper first,
/// the left one first if they cost the same.
pub open spec fn in_order(nodes: Nodes, left: NodeId, right: NodeId) -> (NodeId, NodeId) {
    if nodes[left].cost > nodes[right].cost {
        (right, left)
    } else {
        (left, right)
    }
}

impl ATree {
    /// Whether an expression with that id would share the node that has the
    /// id: there is one, and it can take one more use.
    pub open spec fn shares(&self, id: ExpressionId) -> bool {
        self.expressions().contains_key(id) && self.nodes().contains_key(self.expressions()[id])
            && self.nodes()[self.expressions()[id]].use_count < u32::MAX
    }

    /// Whether the expressions that meet in an insertion of `whole` can be told
    /// apart by their ids: two parts of `whole` with one id have the same
    /// result on every event, and so have a part of `whole` and a node of the
    /// tree with its id.
    pub open spec fn unambiguous(&self, whole: OptimizedNode) -> bool {
        &&& forall|one: OptimizedNode, other: OptimizedNode|
            #![trigger part_of(one, whole), part_of(other, whole)]
            part_of(one, whole) && part_of(other, whole) && one.spec_id() == other.spec_id()
                ==> agree(one, other)
        &&& forall|part: OptimizedNode, key: NodeId|
            #![trigger part_of(part, whole), self.nodes().contains_key(key)]
            part_of(part, whole) && self.nodes().contains_key(key) && self.nodes()[key].id
                == part.spec_id() ==> agree(self.meanings()[key], part)
    }

    /// Whether `self` has the nodes and the tables of `before`, whatever
    /// strings were interned since.
    pub open spec fn same_nodes(&self, before: &ATree) -> bool {
        &&& self.nodes() == before.nodes()
        &&& self.roots() == before.roots()
        &&& self.entry_set() == before.entry_set()
        &&& self.expressions() == before.expressions()
        &&& self.subscribers() == before.subscribers()
    }

    /// Whether `self` is `before` after an expression with that id was
    /// inserted for the subscriber: the subscriber is attached to a node with
    /// the id, every node is still there with the subscribers that it had,
    /// and the expression shares the node that had its id, if that can take
    /// one more use.
    pub open spec fn inserted(&self, before: &ATree, subscriber: u64, id: ExpressionId) -> bool {
        &&& self.subscribers().contains_key(subscriber)
        &&& self.subscribers() == before.subscribers().insert(
            subscriber,
            self.subscribers()[subscriber],
        )
        &&& self.nodes().contains_key(self.subscribers()[subscriber])
        &&& self.nodes()[self.subscribers()[subscriber]].id == id
        &&& preserved(before.nodes(), self.nodes())
        &&& subscribed(before.nodes(), self.nodes(), self.subscribers()[subscriber], subscriber)
        &&& self.expressions().contains_key(id)
        &&& self.expressions()[id] == self.subscribers()[subscriber]
        &&& (before.shares(id) ==> self.subscribers()[subscriber] == before.expressions()[id]
            && self.shared(before, before.expressions()[id]))
    }

    /// Whether `self` is `before` but for one more subscriber and one more
    /// use of the node `target`: no node is new, and the node is in the root
    /// set, and in the entry set if it is a leaf.
    pub open spec fn shared(&self, before: &ATree, target: NodeId) -> bool {
        &&& self.nodes().dom() == before.nodes().dom()
        &&& forall|other: NodeId|
            other != target && #[trigger] before.nodes().contains_key(other)
                ==> self.nodes()[other] == before.nodes()[other]
        &&& same_core(before.nodes()[target], self.nodes()[target])
        &&& self.nodes()[target].node.spec_parents() == before.nodes()[target].node.spec_parents()
        &&& self.nodes()[target].use_count == before.nodes()[target].use_count + 1
        &&& self.expressions() == before.expressions()
        &&& self.roots() == with_key(before.roots(), target)
        &&& self.entry_set() == with_leaf(before.entry_set(), self.nodes(), target)
        &&& self.max_level() == before.max_level()
        &&& self.key_bound() == before.key_bound()
    }
}

/// Whether the subscriber stands at `index` in the list, and nowhere behind.
pub open spec fn last_at(list: Seq<u64>, subscriber: u64, index: int) -> bool {
    &&& 0 <= index < list.len()
    &&& list[index] == subscriber
    &&& forall|k: int| index < k < list.len() ==> list[k] != subscriber
}

/// Whether the nodes of `after` were in `before`, each the same node with
/// the same subscribers, and the nodes with subscribers are all still there.
pub open spec fn released(before: Nodes, after: Nodes) -> bool {
    &&& forall|key: NodeId| #[trigger]
        after.contains_key(key) ==> before.contains_key(key) && same_core(before[key], after[key])
            && after[key].subscription_ids == before[key].subscription_ids
    &&& forall|key: NodeId| #[trigger]
        before.contains_key(key) && before[key].subscription_ids@.len() > 0
            ==> after.contains_key(key)
}

/// Whether `after` is what a deletion of `subscriber` leaves of `before`: the
/// node `target` has lost the last mention of the subscriber, every node
/// that is left is the same node with the same subscribers, and the nodes
/// that still have subscribers are all left.
pub open spec fn unsubscribed(before: Nodes, after: Nodes, target: NodeId, subscriber: u64) -> bool {
    &&& before.contains_key(target)
    &&& forall|key: NodeId| #[trigger]
        after.contains_key(key) ==> before.contains_key(key) && same_core(before[key], after[key])
            && if key == target {
            exists|index: int|
                last_at(before[key].subscription_ids@, subscriber, index)
                    && after[key].subscription_ids@ == before[key].subscription_ids@.remove(index)
        } else {
            after[key].subscription_ids@ == before[key].subscription_ids@
        }
    &&& forall|key: NodeId| #[trigger]
        before.contains_key(key) && before[key].subscription_ids@.len() > (if key == target {
            1nat
        } else {
            0nat
        }) ==> after.contains_key(key)
}

impl ATree {
    /// Whether the subscriber is attached to a node.
    pub open spec fn attached(&self, subscriber: u64) -> bool {
        exists|key: NodeId|
            self.nodes().contains_key(key) && #[trigger] self.nodes()[key].subscription_ids@.contains(
                subscriber,
            )
    }

    /// Whether `self` is what a deletion of the subscriber leaves of
    /// `before`. A subscriber that is attached to no node changes nothing.
    /// Otherwise the node that it was last attached to loses the last
    /// mention of it and one use; a node without a use is taken out, and so
    /// on through its children.
    pub open spec fn deleted(&self, before: &ATree, subscriber: u64) -> bool {
        &&& !before.attached(subscriber) ==> self.same_as(before)
        &&& before.attached(subscriber) ==> exists|target: NodeId|
            #[trigger] self.took(before, target, subscriber)
    }

    /// Whether `self` is `before` after the node `target` has lost the last
    /// mention of the subscriber.
    pub open spec fn took(&self, before: &ATree, target: NodeId, subscriber: u64) -> bool {
        &&& before.nodes().contains_key(target)
        &&& before.nodes()[target].subscription_ids@.contains(subscriber)
        &&& (before.subscribers().contains_key(subscriber) ==> target
            == before.subscribers()[subscriber])
        &&& unsubscribed(before.nodes(), self.nodes(), target, subscriber)
        &&& self.subscribers() == if self.nodes().contains_key(target)
            && self.nodes()[target].subscription_ids@.contains(subscriber) {
            before.subscribers()
        } else {
            before.subscribers().remove(subscriber)
        }
        &&& (before.nodes()[target].use_count > 1 ==> self.unlinked(before, target))
    }

    /// Whether `self` is `before` but for one subscriber and one use less of
    /// the node `target`, which is still there: it has left the root set if
    /// it has no subscriber left, and the entry set if it is a leaf that no
    /// search evaluates first any more.
    pub open spec fn unlinked(&self, before: &ATree, target: NodeId) -> bool {
        &&& self.nodes().dom() == before.nodes().dom()
        &&& forall|other: NodeId|
            other != target && #[trigger] before.nodes().contains_key(other)
                ==> self.nodes()[other] == before.nodes()[other]
        &&& same_core(before.nodes()[target], self.nodes()[target])
        &&& self.nodes()[target].node.spec_parents() == before.nodes()[target].node.spec_parents()
        &&& self.nodes()[target].use_count == before.nodes()[target].use_count - 1
        &&& self.expressions() == before.expressions()
        &&& if self.nodes()[target].subscription_ids@.len() == 0 {
            removed(before.roots(), self.roots(), target)
        } else {
            self.roots() == before.roots()
        }
        &&& if self.nodes()[target].leaf() && !evaluated_first(self.nodes()[target]) {
            removed(before.entry_set(), self.entry_set(), target)
        } else {
            self.entry_set() == before.entry_set()
        }
        &&& self.key_bound() == before.key_bound()
    }

    /// Whether two trees are in the same state: they hold the same nodes, the
    /// same root set and entry set, and the same tables.
    pub open spec fn same_as(&self, other: &ATree) -> bool {
        &&& self.nodes() == other.nodes()
        &&& self.roots() == other.roots()
        &&& self.entry_set() == other.entry_set()
        &&& self.expressions() == other.expressions()
        &&& self.subscribers() == other.subscribers()
        &&& self.attributes() == other.attributes()
        &&& self.strings() == other.strings()
        &&& self.max_level() == other.max_level()
        &&& self.key_bound() == other.key_bound()
    }

    /// Whether `self` and `before` differ in their nodes alone.
    spec fn same_tables(&self, before: &ATree) -> bool {
        &&& self.attributes == before.attributes
        &&& self.strings == before.strings
        &&& self.expression_to_node@ == before.expression_to_node@
        &&& self.nodes_by_ids@ == before.nodes_by_ids@
        &&& self.roots@ == before.roots@
        &&& self.predicates@ == before.predicates@
        &&& self.max_level == before.max_level
        &&& self.key_bound == before.key_bound
        &&& self.meanings@ == before.meanings@
    }

    /// The tables of a well-formed tree are well formed.
    proof fn lemma_tables(&self)
        requires
            self.wf(),
        ensures
            self.attributes.wf(),
            self.strings.wf(),
    {
    }

    /// Every expression id leads to a node with that id.
    proof fn lemma_expressions(&self)
        requires
            self.indexed(),
        ensures
            forall|id: ExpressionId| #[trigger]
                self.expression_to_node@.contains_key(id) ==> self.nodes().contains_key(
                    self.expression_to_node@[id],
                ) && self.nodes()[self.expression_to_node@[id]].id == id,
    {
        reveal(ATree::indexed);
    }

    /// Every subscriber leads to a node that it is attached to.
    proof fn lemma_subscribers(&self)
        requires
            self.indexed(),
        ensures
            forall|subscriber: u64| #[trigger]
                self.nodes_by_ids@.contains_key(subscriber) ==> self.nodes().contains_key(
                    self.nodes_by_ids@[subscriber],
                ) && self.nodes()[self.nodes_by_ids@[subscriber]].subscription_ids@.contains(
                    subscriber,
                ),
    {
        reveal(ATree::indexed);
    }

    /// Neither the root set nor the entry set holds a node twice.
    proof fn lemma_lists(&self)
        requires
            self.indexed(),
        ensures
            self.roots@.no_duplicates(),
            self.predicates@.no_duplicates(),
    {
        reveal(ATree::indexed);
    }

    /// The items of the root set are nodes.
    proof fn lemma_roots(&self, i: int)
        requires
            self.indexed(),
            0 <= i < self.roots@.len(),
        ensures
            self.nodes().contains_key(self.roots@[i]),
    {
        reveal(ATree::indexed);
        assert(self.nodes().contains_key(self.roots()[i]));
    }

    /// Every node with a subscriber is in the root set.
    proof fn lemma_root_set_holds(&self, key: NodeId)
        requires
            self.indexed(),
            self.nodes().contains_key(key),
            self.nodes()[key].subscription_ids@.len() > 0,
        ensures
            self.roots@.contains(key),
    {
        reveal(ATree::indexed);
    }

    /// The items of the entry set are leaves of the DAG that have a parent or
    /// a subscriber, each is in the entry set once, and every such leaf is in
    /// it.
    proof fn lemma_entry_set(&self, i: int)
        requires
            self.indexed(),
            0 <= i < self.predicates@.len(),
        ensures
            self.nodes().contains_key(self.predicates@[i]),
            evaluated_first(self.nodes()[self.predicates@[i]]),
            self.predicates@.no_duplicates(),
            forall|key: NodeId| #[trigger]
                self.nodes().contains_key(key) && evaluated_first(self.nodes()[key])
                    ==> self.predicates@.contains(key),
    {
        reveal(ATree::indexed);
        assert(self.nodes().contains_key(self.entry_set()[i]));
    }

    /// Every leaf that has a parent or a subscriber is in the entry set.
    proof fn lemma_entry_set_holds(&self)
        requires
            self.indexed(),
        ensures
            forall|key: NodeId| #[trigger]
                self.nodes().contains_key(key) && evaluated_first(self.nodes()[key])
                    ==> self.predicates@.contains(key),
    {
        reveal(ATree::indexed);
    }

    /// The items of the entry set are leaves.
    proof fn lemma_entry_set_leaf(&self, before: &ATree, item: NodeId)
        requires
            before.indexed(),
            before.predicates@.contains(item),
            self.nodes().contains_key(item),
            same_core(before.nodes()[item], self.nodes()[item]),
        ensures
            self.nodes()[item].leaf(),
    {
        reveal(ATree::indexed);
        let i = choose|i: int| 0 <= i < before.predicates@.len() && before.predicates@[i] == item;
        assert(evaluated_first(before.nodes()[before.entry_set()[i]]));
    }

    /// A leaf has a predicate that is valid for the attributes, and no node is
    /// above the highest level.
    proof fn lemma_levels(&self, key: NodeId)
        requires
            self.indexed(),
            self.nodes().contains_key(key),
        ensures
            self.nodes()[key].node.spec_level() <= self.max_level,
            self.nodes()[key].node matches ATreeNode::LNode(leaf) ==> leaf.predicate.valid_for(
                self.attributes.kinds(),
            ),
    {
        reveal(ATree::indexed);
    }

    /// The highest level stays that of a node of the root set when this
    /// grows and no level changes.
    proof fn lemma_leveled_kept(&self, before: &ATree)
        requires
            before.indexed(),
            before.leveled(),
            preserved(before.nodes(), self.nodes()),
            self.max_level == before.max_level,
            before.roots@.len() <= self.roots@.len(),
            forall|i: int| 0 <= i < before.roots@.len() ==> #[trigger] self.roots@[i] == before.roots@[i],
        ensures
            self.leveled(),
    {
        if before.max_level() != 1 {
            let i = choose|i: int|
                0 <= i < before.roots().len() && before.nodes()[#[trigger] before.roots()[i]].node.spec_level()
                    == before.max_level();
            before.lemma_roots(i);
            assert(self.roots()[i] == before.roots()[i]);
        }
    }

    proof fn lemma_touched_indexed(&self, before: &ATree, key: NodeId)
        requires
            before.indexed(),
            self.same_tables(before),
            touched(before.nodes(), self.nodes(), key),
            same_core(before.nodes()[key], self.nodes()[key]),
            self.nodes()[key].node.spec_parents() == before.nodes()[key].node.spec_parents(),
            self.nodes()[key].subscription_ids == before.nodes()[key].subscription_ids,
        ensures
            self.indexed(),
    {
        reveal(ATree::indexed);
        let nodes = self.nodes();
        let old_nodes = before.nodes();
        assert forall|node: NodeId| #[trigger] nodes.contains_key(node) implies old_nodes.contains_key(
            node,
        ) && same_core(old_nodes[node], nodes[node]) && nodes[node].subscription_ids
            == old_nodes[node].subscription_ids && nodes[node].node.spec_parents()
            == old_nodes[node].node.spec_parents() by {
            assert(old_nodes.contains_key(node));
        }
        assert forall|id: ExpressionId| #[trigger]
            self.expressions().contains_key(id) implies nodes.contains_key(self.expressions()[id])
            && nodes[self.expressions()[id]].id == id by {
            assert(before.expressions().contains_key(id));
            assert(nodes.contains_key(before.expressions()[id]));
        }
        assert forall|subscriber: u64| #[trigger]
            self.subscribers().contains_key(subscriber) implies nodes.contains_key(
            self.subscribers()[subscriber],
        ) && nodes[self.subscribers()[subscriber]].subscription_ids@.contains(subscriber) by {
            assert(before.subscribers().contains_key(subscriber));
            assert(nodes.contains_key(before.subscribers()[subscriber]));
        }
        assert forall|i: int| 0 <= i < self.roots().len() implies nodes.contains_key(
            #[trigger] self.roots()[i],
        ) && nodes[self.roots()[i]].subscription_ids@.len() > 0 by {
            assert(old_nodes.contains_key(before.roots()[i]));
            assert(nodes.contains_key(before.roots()[i]));
        }
        assert forall|i: int| 0 <= i < self.entry_set().len() implies nodes.contains_key(
            #[trigger] self.entry_set()[i],
        ) && evaluated_first(nodes[self.entry_set()[i]]) by {
            assert(old_nodes.contains_key(before.entry_set()[i]));
            assert(nodes.contains_key(before.entry_set()[i]));
        }
    }

    /// The nodes keep their meanings when none is added or taken out and
    /// each stays the same node but for its parents, its subscribers and its
    /// use count.
    proof fn lemma_meant_kept(&self, before: &ATree)
        requires
            before.meant(),
            structure(before.nodes(), before.key_bound as nat),
            self.meanings@ == before.meanings@,
            self.nodes().dom() == before.nodes().dom(),
            preserved(before.nodes(), self.nodes()),
        ensures
            self.meant(),
    {
        reveal(ATree::meant);
        let nodes = self.nodes();
        let start = before.nodes();
        assert forall|key: NodeId| #[trigger] nodes.contains_key(key) implies stands_for(
            nodes,
            key,
            self.meanings()[key],
        ) && self.meanings()[key].spec_id() == nodes[key].id by {
            assert(start.contains_key(key));
            assert forall|values: Seq<AttributeValue>| #[trigger]
                result_of(nodes, key, values) == self.meanings()[key].holds(values) by {
                lemma_results_kept(start, nodes, before.key_bound as nat, key, values);
            }
        }
    }

    /// The nodes that are left keep their meanings when nodes are taken out
    /// and each of the others stays the same node but for its parents, its
    /// subscribers and its use count.
    proof fn lemma_meant_released(&self, before: &ATree)
        requires
            before.meant(),
            structure(self.nodes(), self.key_bound as nat),
            self.meanings@ == before.meanings@,
            released(before.nodes(), self.nodes()),
        ensures
            self.meant(),
    {
        reveal(ATree::meant);
        let nodes = self.nodes();
        let start = before.nodes();
        assert forall|key: NodeId| #[trigger] nodes.contains_key(key) implies stands_for(
            nodes,
            key,
            self.meanings()[key],
        ) && self.meanings()[key].spec_id() == nodes[key].id by {
            assert(start.contains_key(key));
            assert forall|values: Seq<AttributeValue>| #[trigger]
                result_of(nodes, key, values) == self.meanings()[key].holds(values) by {
                lemma_results_kept(nodes, start, self.key_bound as nat, key, values);
            }
        }
    }
}

/// Every node is used for a subscriber: it has one, or a node above it has.
proof fn lemma_used(nodes: Nodes, bound: nat, key: NodeId) -> (above: NodeId)
    requires
        structure(nodes, bound),
        counted(nodes, bound, Multiset::empty()),
        nodes.contains_key(key),
    ensures
        nodes.contains_key(above),
        nodes[above].subscription_ids@.len() > 0,
        nodes[above].node.spec_level() >= nodes[key].node.spec_level(),
    decreases bound - nodes[key].node.spec_level(),
{
    lemma_node(nodes, bound, key);
    lemma_pending(nodes, bound, Multiset::empty(), key);
    lemma_level_is_bounded(nodes, bound, key);
    if nodes[key].subscription_ids@.len() > 0 {
        key
    } else {
        let parent = lemma_refs_witness(nodes, key, bound);
        lemma_node(nodes, bound, parent);
        lemma_level_is_bounded(nodes, bound, parent);
        lemma_used(nodes, bound, parent)
    }
}

/// The position of `key` in the list, if it is in it.
fn index_of(list: &Vec<NodeId>, key: NodeId) -> (position: Option<usize>)
    ensures
        match position {
            Some(index) => index < list.len() && list[index as int] == key,
            None => !list@.contains(key),
        },
{
    let mut i: usize = 0;
    while i < list.len()
        invariant
            i <= list.len(),
            forall|k: int| 0 <= k < i ==> list[k] != key,
        decreases list.len() - i,
    {
        if list[i] == key {
            return Some(i);
        }
        i += 1;
    }
    None
}

/// Takes the node out of the arena to change it; something else stands in
/// its place until it is put back.
fn take(nodes: &mut Slab<Entry>, key: NodeId) -> (entry: Entry)
    requires
        entries(*old(nodes)).contains_key(key),
    ensures
        entry == entries(*old(nodes))[key],
        touched(entries(*old(nodes)), entries(*final(nodes)), key),
{
    let hole = Entry {
        id: 0,
        subscription_ids: Vec::new(),
        node: ATreeNode::RNode(RNode { children: Vec::new(), level: 0, operator: Operator::And }),
        use_count: 0,
        cost: 0,
    };
    let entry = arena_replace(nodes, key, hole);
    assert(entries(*nodes).dom() =~= entries(*old(nodes)).dom());
    entry
}

/// Puts a node back in its place in the arena.
fn put(nodes: &mut Slab<Entry>, key: NodeId, entry: Entry)
    requires
        entries(*old(nodes)).contains_key(key),
    ensures
        entries(*final(nodes)) == entries(*old(nodes)).insert(key, entry),
        touched(entries(*old(nodes)), entries(*final(nodes)), key),
        entries(*final(nodes))[key] == entry,
{
    let _ = arena_replace(nodes, key, entry);
    assert(entries(*nodes).dom() =~= entries(*old(nodes)).dom());
}

fn copy_keys(keys: &Vec<NodeId>) -> (copy: Vec<NodeId>)
    ensures
        copy@ == keys@,
{
    let mut copy: Vec<NodeId> = Vec::with_capacity(keys.len());
    let mut i: usize = 0;
    while i < keys.len()
        invariant
            i <= keys.len(),
            copy.len() == i,
            forall|k: int| 0 <= k < i ==> copy[k] == keys[k],
        decreases keys.len() - i,
    {
        copy.push(keys[i]);
        i += 1;
    }
    assert(copy@ =~= keys@);
    copy
}

} // verus!
