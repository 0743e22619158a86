//! A look at the nodes of a tree.
use crate::arena::{
    arena_get, arena_keys, ATreeNode, Entry, ExpressionId, INode, LNode, NodeId, RNode,
};
use crate::ast::Operator;
use crate::atree::{ATree, copy_keys, index_of};
use crate::predicates::Predicate;
use vstd::prelude::*;

verus! {

/// What there is to see of a node.
#[derive(Debug)]
pub struct NodeSummary<'a> {
    pub key: NodeId,
    pub id: ExpressionId,
    pub level: usize,
    pub cost: u64,
    pub use_count: u32,
    pub subscription_ids: Vec<u64>,
    pub parents: Vec<NodeId>,
    pub children: Vec<NodeId>,
    /// The operator of a node that is no leaf.
    pub operator: Option<Operator>,
    /// The predicate of a leaf.
    pub predicate: Option<&'a Predicate>,
    /// Whether the node was made as the top of an expression and is part of
    /// no other.
    pub root: bool,
    /// Whether the node is in the entry set.
    pub evaluated_first: bool,
}

impl<'a> NodeSummary<'a> {
    /// Whether the summary is that of the node.
    pub open spec fn describes(&self, entry: Entry) -> bool {
        &&& self.id == entry.id
        &&& self.level == entry.node.spec_level()
        &&& self.cost == entry.cost
        &&& self.use_count == entry.use_count
        &&& self.subscription_ids@ == entry.subscription_ids@
        &&& self.parents@ == entry.node.spec_parents()
        &&& self.children@ == entry.node.spec_children()
        &&& self.operator == if entry.leaf() {
            None
        } else {
            Some(entry.node.spec_operator())
        }
        &&& self.predicate == match entry.node {
            ATreeNode::LNode(leaf) => Some(&leaf.predicate),
            _ => None,
        }
        &&& self.root == (entry.node is RNode)
    }
}

fn copy_subscribers(subscribers: &Vec<u64>) -> (copy: Vec<u64>)
    ensures
        copy@ == subscribers@,
{
    let mut copy: Vec<u64> = Vec::with_capacity(subscribers.len());
    let mut i: usize = 0;
    while i < subscribers.len()
        invariant
            i <= subscribers.len(),
            copy.len() == i,
            forall|k: int| 0 <= k < i ==> copy[k] == subscribers[k],
        decreases subscribers.len() - i,
    {
        copy.push(subscribers[i]);
        i += 1;
    }
    assert(copy@ =~= subscribers@);
    copy
}

impl ATree {
    /// The nodes of the DAG, in the order of their keys: one summary for
    /// each node.
    pub fn summary(&self) -> (summaries: Vec<NodeSummary<'_>>)
        requires
            self.wf(),
        ensures
            forall|i: int|
                0 <= i < summaries.len() ==> self.nodes().contains_key(
                    (#[trigger] summaries[i]).key,
                ) && summaries[i].describes(self.nodes()[summaries[i].key])
                    && summaries[i].evaluated_first == self.entry_set().contains(summaries[i].key),
            forall|i: int, j: int|
                0 <= i < j < summaries.len() ==> summaries[i].key < summaries[j].key,
            forall|key: NodeId| #[trigger]
                self.nodes().contains_key(key) ==> exists|i: int|
                    0 <= i < summaries.len() && (#[trigger] summaries[i]).key == key,
    {
        let keys = arena_keys(&self.nodes);
        let mut summaries: Vec<NodeSummary<'_>> = Vec::with_capacity(keys.len());
        let mut i: usize = 0;
        while i < keys.len()
            invariant
                i <= keys.len(),
                summaries.len() == i,
                forall|key: NodeId| keys@.contains(key) == #[trigger] self.nodes().contains_key(key),
                forall|a: int, b: int| 0 <= a < b < keys@.len() ==> keys@[a] < keys@[b],
                forall|k: int|
                    0 <= k < i ==> (#[trigger] summaries[k]).key == keys[k]
                        && summaries[k].describes(self.nodes()[keys[k]])
                        && summaries[k].evaluated_first == self.entry_set().contains(keys[k]),
            decreases keys.len() - i,
        {
            let key = keys[i];
            assert(keys@.contains(key));
            assert(self.nodes().contains_key(key));
            let entry = arena_get(&self.nodes, key);
            let (parents, children, operator, predicate) = match &entry.node {
                ATreeNode::LNode(leaf) => (
                    copy_keys(&leaf.parents),
                    Vec::new(),
                    None,
                    Some(&leaf.predicate),
                ),
                ATreeNode::INode(inner) => (
                    copy_keys(&inner.parents),
                    copy_keys(&inner.children),
                    Some(inner.operator),
                    None,
                ),
                ATreeNode::RNode(root) => (
                    Vec::new(),
                    copy_keys(&root.children),
                    Some(root.operator),
                    None,
                ),
            };
            summaries.push(
                NodeSummary {
                    key,
                    id: entry.id,
                    level: entry.level(),
                    cost: entry.cost,
                    use_count: entry.use_count,
                    subscription_ids: copy_subscribers(&entry.subscription_ids),
                    parents,
                    children,
                    operator,
                    predicate,
                    root: entry.is_root(),
                    evaluated_first: index_of(&self.predicates, key).is_some(),
                },
            );
            i += 1;
        }
        proof {
            assert forall|key: NodeId| #[trigger] self.nodes().contains_key(key) implies exists|
                i: int,
            |
                0 <= i < summaries.len() && (#[trigger] summaries[i]).key == key by {
                assert(keys@.contains(key));
                let i = choose|i: int| 0 <= i < keys@.len() && keys@[i] == key;
                assert(summaries[i].key == key);
            }
        }
        summaries
    }

    /// The root set: the keys of the nodes that have subscribers.
    pub fn root_set(&self) -> (roots: Vec<NodeId>)
        ensures
            roots@ == self.roots(),
    {
        copy_keys(&self.roots)
    }

    /// The predicate entry set: the keys of the leaves that every search
    /// evaluates first.
    pub fn predicate_entry_set(&self) -> (entry_set: Vec<NodeId>)
        ensures
            entry_set@ == self.entry_set(),
    {
        copy_keys(&self.predicates)
    }
}

} // verus!
