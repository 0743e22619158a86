//! The nodes of the DAG and the arena that holds them: a `slab::Slab`, in
//! which a node keeps its key for as long as it lives.
use crate::ast::Operator;
use crate::events::Event;
use crate::predicates::Predicate;
use slab::Slab;
use vstd::prelude::*;

verus! {

/// The key of a node in the arena.
pub type NodeId = usize;

/// The id of an expression: equal expressions have equal ids.
pub type ExpressionId = u64;

/// A leaf: it evaluates a predicate.
#[derive(Debug)]
pub struct LNode {
    pub parents: Vec<NodeId>,
    pub level: usize,
    pub predicate: Predicate,
}

/// An inner node: it combines the results of its children and hands its own
/// on to its parents.
#[derive(Debug)]
pub struct INode {
    pub parents: Vec<NodeId>,
    pub children: Vec<NodeId>,
    pub level: usize,
    pub operator: Operator,
}

/// A root: the top of an expression that is part of no other.
#[derive(Debug)]
pub struct RNode {
    pub children: Vec<NodeId>,
    pub level: usize,
    pub operator: Operator,
}

/// What a node is: a leaf, an inner node or a root.
#[derive(Debug)]
pub enum ATreeNode {
    LNode(LNode),
    INode(INode),
    RNode(RNode),
}

/// A node of the DAG with what is kept of every node: the id of its
/// expression, its subscribers, the number of its uses and its cost.
#[derive(Debug)]
pub struct Entry {
    pub id: ExpressionId,
    pub subscription_ids: Vec<u64>,
    pub node: ATreeNode,
    pub use_count: u32,
    pub cost: u64,
}

/// `slab::Slab`, the arena of the nodes. Nothing is seen of what is in it
/// but through the functions below.
#[verifier::external_type_specification]
#[verifier::external_body]
#[verifier::reject_recursive_types(T)]
pub struct ExSlab<T>(Slab<T>);

/// The nodes that an arena holds, by key.
pub uninterp spec fn entries(nodes: Slab<Entry>) -> Map<NodeId, Entry>;

/// The nodes of an empty arena: none.
pub open spec fn no_entries() -> Map<NodeId, Entry> {
    Map::empty()
}

/// An empty arena, made by `Slab::with_capacity`.
#[verifier::external_body]
pub(crate) fn arena_with_capacity(capacity: usize) -> (arena: Slab<Entry>)
    ensures
        entries(arena) == no_entries(),
{
    Slab::with_capacity(capacity)
}

/// Stores a node with `Slab::insert`, which gives it a key that no node of
/// the arena has and leaves the other nodes as they are. A key is a position
/// in a vector, so it is at most `isize::MAX`.
#[verifier::external_body]
pub(crate) fn arena_insert(nodes: &mut Slab<Entry>, entry: Entry) -> (key: NodeId)
    ensures
        !entries(*old(nodes)).contains_key(key),
        entries(*final(nodes)) == entries(*old(nodes)).insert(key, entry),
        key <= isize::MAX,
{
    nodes.insert(entry)
}

/// Takes a node out with `Slab::remove`, which leaves the other nodes as they
/// are.
#[verifier::external_body]
pub(crate) fn arena_remove(nodes: &mut Slab<Entry>, key: NodeId) -> (entry: Entry)
    requires
        entries(*old(nodes)).contains_key(key),
    ensures
        entry == entries(*old(nodes))[key],
        entries(*final(nodes)) == entries(*old(nodes)).remove(key),
{
    nodes.remove(key)
}

/// The node with that key, by the index operator of `Slab`.
#[verifier::external_body]
pub(crate) fn arena_get(nodes: &Slab<Entry>, key: NodeId) -> (entry: &Entry)
    requires
        entries(*nodes).contains_key(key),
    ensures
        *entry == entries(*nodes)[key],
{
    &nodes[key]
}

/// Puts a node in the place of the one with that key, through the mutable
/// index operator of `Slab`, and hands the old one out.
#[verifier::external_body]
pub(crate) fn arena_replace(nodes: &mut Slab<Entry>, key: NodeId, entry: Entry) -> (previous: Entry)
    requires
        entries(*old(nodes)).contains_key(key),
    ensures
        previous == entries(*old(nodes))[key],
        entries(*final(nodes)) == entries(*old(nodes)).insert(key, entry),
{
    std::mem::replace(&mut nodes[key], entry)
}

/// The keys of the nodes, by `Slab::iter`, which goes through the places
/// that hold a node in ascending order.
#[verifier::external_body]
pub(crate) fn arena_keys(nodes: &Slab<Entry>) -> (keys: Vec<NodeId>)
    ensures
        forall|key: NodeId| keys@.contains(key) == #[trigger] entries(*nodes).contains_key(key),
        forall|i: int, j: int| 0 <= i < j < keys@.len() ==> keys@[i] < keys@[j],
{
    nodes.iter().map(|(key, _)| key).collect()
}

impl ATreeNode {
    /// A leaf for the predicate, without parents.
    #[inline]
    pub fn lnode(predicate: Predicate) -> (node: Self)
        ensures
            node == ATreeNode::LNode(LNode { level: 1, parents: node->LNode_0.parents, predicate }),
            node->LNode_0.parents@ == Seq::<NodeId>::empty(),
    {
        Self::LNode(LNode { level: 1, parents: Vec::new(), predicate })
    }

    /// The level of the node.
    pub open spec fn spec_level(&self) -> usize {
        match self {
            ATreeNode::RNode(node) => node.level,
            ATreeNode::LNode(node) => node.level,
            ATreeNode::INode(node) => node.level,
        }
    }

    /// The parents of the node; a root has none.
    pub open spec fn spec_parents(&self) -> Seq<NodeId> {
        match self {
            ATreeNode::RNode(_) => Seq::empty(),
            ATreeNode::LNode(node) => node.parents@,
            ATreeNode::INode(node) => node.parents@,
        }
    }

    /// The children of the node; a leaf has none.
    pub open spec fn spec_children(&self) -> Seq<NodeId> {
        match self {
            ATreeNode::RNode(node) => node.children@,
            ATreeNode::LNode(_) => Seq::empty(),
            ATreeNode::INode(node) => node.children@,
        }
    }

    /// The operator of a node that is no leaf.
    pub open spec fn spec_operator(&self) -> Operator {
        match self {
            ATreeNode::RNode(node) => node.operator,
            ATreeNode::LNode(_) => Operator::And,
            ATreeNode::INode(node) => node.operator,
        }
    }

    #[inline]
    pub fn level(&self) -> (level: usize)
        ensures
            level == self.spec_level(),
    {
        match self {
            Self::RNode(node) => node.level,
            Self::LNode(node) => node.level,
            Self::INode(node) => node.level,
        }
    }

    /// The result of the predicate of a leaf on an event.
    #[inline]
    pub fn evaluate(&self, event: &Event) -> (result: Option<bool>)
        requires
            self is LNode,
            self->LNode_0.predicate.wf(),
            self->LNode_0.predicate.attribute()@ < event.values().len(),
            event.values()[self->LNode_0.predicate.attribute()@ as int].wf(),
        ensures
            result == self->LNode_0.predicate.holds(event.values()),
    {
        match self {
            Self::LNode(node) => node.predicate.evaluate(event),
            _ => None,
        }
    }

    /// The operator of the node.
    #[inline]
    pub fn operator(&self) -> (operator: Operator)
        requires
            !(self is LNode),
        ensures
            operator == self.spec_operator(),
    {
        match self {
            Self::LNode(_) => Operator::And,
            Self::RNode(node) => node.operator,
            Self::INode(node) => node.operator,
        }
    }

    /// The children of the node.
    #[inline]
    pub fn children(&self) -> (children: &Vec<NodeId>)
        requires
            !(self is LNode),
        ensures
            children@ == self.spec_children(),
    {
        match self {
            Self::INode(node) => &node.children,
            Self::RNode(node) => &node.children,
            Self::LNode(node) => &node.parents,
        }
    }

    /// The parents of the node.
    #[inline]
    pub fn parents(&self) -> (parents: &Vec<NodeId>)
        requires
            !(self is RNode),
        ensures
            parents@ == self.spec_parents(),
    {
        match self {
            Self::INode(node) => &node.parents,
            Self::LNode(node) => &node.parents,
            Self::RNode(node) => &node.children,
        }
    }

    /// Makes `parent_id` a parent of the node.
    #[inline]
    pub fn add_parent(&mut self, parent_id: NodeId)
        requires
            !(*old(self) is RNode),
        ensures
            final(self).spec_parents() == old(self).spec_parents().push(parent_id),
            final(self).spec_children() == old(self).spec_children(),
            final(self).spec_level() == old(self).spec_level(),
            final(self).spec_operator() == old(self).spec_operator(),
            (*final(self) is LNode) == (*old(self) is LNode),
            !(*final(self) is RNode),
            *old(self) is LNode ==> final(self)->LNode_0.predicate == old(self)->LNode_0.predicate,
    {
        match self {
            ATreeNode::INode(node) => {
                node.parents.push(parent_id);
            },
            ATreeNode::LNode(node) => {
                node.parents.push(parent_id);
            },
            ATreeNode::RNode(_) => {},
        }
    }
}

impl Entry {
    /// A node that is used once, with the subscriber that it is made for, if
    /// there is one.
    pub fn new(id: ExpressionId, node: ATreeNode, subscription_id: Option<u64>, cost: u64) -> (entry:
        Self)
        ensures
            entry.id == id,
            entry.node == node,
            entry.use_count == 1,
            entry.cost == cost,
            entry.subscription_ids@ == match subscription_id {
                Some(subscription_id) => seq![subscription_id],
                None => Seq::<u64>::empty(),
            },
    {
        let mut subscription_ids: Vec<u64> = Vec::new();
        if let Some(subscription_id) = subscription_id {
            subscription_ids.push(subscription_id);
        }
        Self { id, node, use_count: 1, subscription_ids, cost }
    }

    /// Whether the node is a leaf.
    pub open spec fn leaf(&self) -> bool {
        self.node is LNode
    }

    #[inline]
    pub fn is_leaf(&self) -> (result: bool)
        ensures
            result == self.leaf(),
    {
        matches!(self.node, ATreeNode::LNode(_))
    }

    #[inline]
    pub fn is_root(&self) -> (result: bool)
        ensures
            result == (self.node is RNode),
    {
        matches!(self.node, ATreeNode::RNode(_))
    }

    #[inline]
    pub fn level(&self) -> (level: usize)
        ensures
            level == self.node.spec_level(),
    {
        self.node.level()
    }

    /// The result of the predicate of a leaf on an event.
    #[inline]
    pub fn evaluate(&self, event: &Event) -> (result: Option<bool>)
        requires
            self.leaf(),
            self.node->LNode_0.predicate.wf(),
            self.node->LNode_0.predicate.attribute()@ < event.values().len(),
            event.values()[self.node->LNode_0.predicate.attribute()@ as int].wf(),
        ensures
            result == self.node->LNode_0.predicate.holds(event.values()),
    {
        self.node.evaluate(event)
    }

    #[inline]
    pub fn operator(&self) -> (operator: Operator)
        requires
            !self.leaf(),
        ensures
            operator == self.node.spec_operator(),
    {
        self.node.operator()
    }

    #[inline]
    pub fn children(&self) -> (children: &Vec<NodeId>)
        requires
            !self.leaf(),
        ensures
            children@ == self.node.spec_children(),
    {
        self.node.children()
    }

    #[inline]
    pub fn parents(&self) -> (parents: &Vec<NodeId>)
        requires
            !(self.node is RNode),
        ensures
            parents@ == self.node.spec_parents(),
    {
        self.node.parents()
    }
}

} // verus!
