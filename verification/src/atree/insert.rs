//! Inserting an expression: its nodes are shared with those that the tree
//! has, or stored above the nodes of its operands.
use crate::arena::{
    arena_get, arena_insert, ATreeNode, entries, Entry, ExpressionId, INode, LNode, NodeId,
    RNode,
};
use crate::ast::{lemma_suppression_keeps_validity, Node, Operator, OptimizedNode};
use crate::atree::{
    ATree, evaluated_first, first_subscribers, in_order, index_of, joined, put, take, with_key,
    with_leaf,
};
use crate::dag::{
    adopted, agree, attached, echoes, higher, kept_subscribers, lemma_attached_counted,
    lemma_attached_preserved, lemma_attached_structure, lemma_level_is_bounded,
    lemma_part_of_part, lemma_pending, lemma_planted, lemma_preserved_trans, lemma_push,
    lemma_result_of, lemma_results_kept, lemma_touched_counted, lemma_touched_structure,
    lemma_wired, part_of, planted, points, preserved, result_of, same_core, stands_for,
    structure, subscribed, touched,
};
use crate::error::ATreeError;
use crate::events::AttributeValue;
use crate::parser::{extends, parse, parsed};
use crate::predicates::Predicate;
use slab::Slab;
use vstd::multiset::Multiset;
use vstd::prelude::*;

verus! {

broadcast use vstd::std_specs::hash::group_hash_axioms;

/// Makes `node_id` a parent of the node `child`.
#[inline]
fn add_parent(nodes: &mut Slab<Entry>, child: NodeId, node_id: NodeId)
    requires
        entries(*old(nodes)).contains_key(child),
        !(entries(*old(nodes))[child].node is RNode),
    ensures
        touched(entries(*old(nodes)), entries(*final(nodes)), child),
        adopted(entries(*old(nodes))[child], entries(*final(nodes))[child], node_id),
        entries(*final(nodes))[child].node.spec_parents() == entries(
            *old(nodes),
        )[child].node.spec_parents().push(node_id),
{
    let mut entry = take(nodes, child);
    entry.node.add_parent(node_id);
    put(nodes, child, entry);
}

/// Counts one more use of the node.
#[inline]
fn increment_use_count(node_id: NodeId, nodes: &mut Slab<Entry>)
    requires
        entries(*old(nodes)).contains_key(node_id),
        entries(*old(nodes))[node_id].use_count < u32::MAX,
    ensures
        touched(entries(*old(nodes)), entries(*final(nodes)), node_id),
        entries(*final(nodes))[node_id] == (Entry {
            use_count: (entries(*old(nodes))[node_id].use_count + 1) as u32,
            ..entries(*old(nodes))[node_id]
        }),
{
    let mut entry = take(nodes, node_id);
    entry.use_count = entry.use_count + 1;
    put(nodes, node_id, entry);
}

/// Makes a root an inner node, so that it can have parents. Its subscribers
/// stay with it.
#[inline]
fn change_rnode_to_inode(node_id: NodeId, nodes: &mut Slab<Entry>)
    requires
        entries(*old(nodes)).contains_key(node_id),
    ensures
        touched(entries(*old(nodes)), entries(*final(nodes)), node_id),
        same_core(entries(*old(nodes))[node_id], entries(*final(nodes))[node_id]),
        !(entries(*final(nodes))[node_id].node is RNode),
        entries(*final(nodes))[node_id].node.spec_parents() == entries(
            *old(nodes),
        )[node_id].node.spec_parents(),
        entries(*final(nodes))[node_id].subscription_ids == entries(
            *old(nodes),
        )[node_id].subscription_ids,
        entries(*final(nodes))[node_id].use_count == entries(*old(nodes))[node_id].use_count,
{
    let entry = take(nodes, node_id);
    let Entry { id, subscription_ids, node, use_count, cost } = entry;
    let node = match node {
        ATreeNode::RNode(RNode { children, level, operator }) => ATreeNode::INode(
            INode { parents: Vec::new(), children, level, operator },
        ),
        other => other,
    };
    put(nodes, node_id, Entry { id, subscription_ids, node, use_count, cost });
}

impl ATree {
    /// Whether the tables of `self` are those of `before` after the new node
    /// `node_id` was stored under its expression id, as a root if it was made
    /// for a subscriber.
    spec fn registered(
        &self,
        before: &ATree,
        node_id: NodeId,
        subscription_id: Option<u64>,
    ) -> bool {
        &&& self.attributes == before.attributes
        &&& self.strings == before.strings
        &&& self.expression_to_node@ == before.expression_to_node@.insert(
            self.nodes()[node_id].id,
            node_id,
        )
        &&& self.nodes()[node_id].subscription_ids@ == first_subscribers(subscription_id)
        &&& match subscription_id {
            Some(subscription_id) => self.nodes_by_ids@ == before.nodes_by_ids@.insert(
                subscription_id,
                node_id,
            ) && self.roots@ == before.roots@.push(node_id),
            None => self.nodes_by_ids@ == before.nodes_by_ids@ && self.roots@ == before.roots@,
        }
        &&& self.key_bound == if node_id >= before.key_bound {
            (node_id + 1) as usize
        } else {
            before.key_bound
        }
        &&& node_id <= isize::MAX
    }

    proof fn lemma_planted_indexed(&self, before: &ATree, node_id: NodeId, subscription_id: Option<u64>)
        requires
            before.indexed(),
            planted(before.nodes(), self.nodes(), node_id),
            self.registered(before, node_id, subscription_id),
            self.nodes()[node_id].node->LNode_0.predicate.valid_for(before.attributes().kinds()),
            self.max_level == before.max_level,
            self.max_level >= 1,
            self.predicates@ == if subscription_id is Some {
                before.predicates@.push(node_id)
            } else {
                before.predicates@
            },
        ensures
            self.indexed(),
    {
        reveal(ATree::indexed);
        let nodes = self.nodes();
        let old_nodes = before.nodes();
        lemma_push(before.roots@, node_id);
        lemma_push(before.predicates@, node_id);
        assert forall|id: ExpressionId| #[trigger]
            self.expressions().contains_key(id) implies nodes.contains_key(self.expressions()[id])
            && nodes[self.expressions()[id]].id == id by {
            if id != nodes[node_id].id {
                assert(before.expressions().contains_key(id));
            }
        }
        assert forall|subscriber: u64| #[trigger]
            self.subscribers().contains_key(subscriber) implies nodes.contains_key(
            self.subscribers()[subscriber],
        ) && nodes[self.subscribers()[subscriber]].subscription_ids@.contains(subscriber) by {
            if subscription_id == Some(subscriber) {
                assert(nodes[node_id].subscription_ids@[0] == subscriber);
            } else {
                assert(before.subscribers().contains_key(subscriber));
            }
        }
        assert forall|i: int| 0 <= i < self.roots().len() implies nodes.contains_key(
            #[trigger] self.roots()[i],
        ) && nodes[self.roots()[i]].subscription_ids@.len() > 0 by {
            if i < before.roots().len() {
                assert(old_nodes.contains_key(before.roots()[i]));
            }
        }
        assert forall|i: int| 0 <= i < self.entry_set().len() implies nodes.contains_key(
            #[trigger] self.entry_set()[i],
        ) && evaluated_first(nodes[self.entry_set()[i]]) by {
            if i < before.entry_set().len() {
                assert(old_nodes.contains_key(before.entry_set()[i]));
            }
        }
        if before.roots@.contains(node_id) {
            let i = choose|i: int| 0 <= i < before.roots@.len() && before.roots@[i] == node_id;
            assert(old_nodes.contains_key(before.roots()[i]));
        }
        if before.predicates@.contains(node_id) {
            let i = choose|i: int|
                0 <= i < before.predicates@.len() && before.predicates@[i] == node_id;
            assert(old_nodes.contains_key(before.entry_set()[i]));
        }
        assert forall|key: NodeId| #[trigger]
            nodes.contains_key(key) && nodes[key].subscription_ids@.len() > 0
            implies self.roots().contains(key) by {
            if key != node_id {
                assert(old_nodes.contains_key(key));
            }
        }
        assert forall|key: NodeId| #[trigger]
            nodes.contains_key(key) && evaluated_first(nodes[key]) implies self.entry_set().contains(
            key,
        ) by {
            if key != node_id {
                assert(old_nodes.contains_key(key));
            }
        }
        assert forall|key: NodeId| #[trigger] nodes.contains_key(key) implies nodes[key].node.spec_level()
            <= self.max_level() && (nodes[key].node matches ATreeNode::LNode(leaf)
            ==> leaf.predicate.valid_for(self.attributes().kinds())) by {
            if key != node_id {
                assert(old_nodes.contains_key(key));
            }
        }
    }

    /// Stores a new leaf for the predicate; with a subscriber, it is a root
    /// and in the entry set.
    fn plant(
        &mut self,
        predicate: Predicate,
        expression_id: ExpressionId,
        subscription_id: Option<u64>,
        cost: u64,
        Ghost(pending): Ghost<Multiset<NodeId>>,
    ) -> (node_id: NodeId)
        requires
            old(self).inv(pending),
            old(self).meant(),
            predicate.valid_for(old(self).attributes().kinds()),
            expression_id == predicate.spec_id(),
        ensures
            final(self).meant(),
            final(self).meanings() == old(self).meanings().insert(
                node_id,
                OptimizedNode::Value(predicate),
            ),
            final(self).inv(
                if subscription_id is Some {
                    pending
                } else {
                    pending.insert(node_id)
                },
            ),
            planted(old(self).nodes(), final(self).nodes(), node_id),
            preserved(old(self).nodes(), final(self).nodes()),
            final(self).registered(old(self), node_id, subscription_id),
            final(self).nodes()[node_id].id == expression_id,
            final(self).nodes()[node_id].cost == cost,
            final(self).nodes()[node_id].node->LNode_0.predicate == predicate,
            final(self).max_level() == old(self).max_level(),
    {
        let ghost meaning = OptimizedNode::Value(predicate);
        let lnode = ATreeNode::lnode(predicate);
        let entry = Entry::new(expression_id, lnode, subscription_id, cost);
        let node_id = arena_insert(&mut self.nodes, entry);
        proof {
            self.meanings = Ghost(self.meanings@.insert(node_id, meaning));
        }
        if node_id >= self.key_bound {
            self.key_bound = node_id + 1;
        }
        self.expression_to_node.insert(expression_id, node_id);
        if let Some(subscriber) = subscription_id {
            self.nodes_by_ids.insert(subscriber, node_id);
            self.roots.push(node_id);
            self.predicates.push(node_id);
        }
        proof {
            let now_pending = if subscription_id is Some {
                pending
            } else {
                pending.insert(node_id)
            };
            lemma_pending(old(self).nodes(), old(self).key_bound as nat, pending, node_id);
            lemma_planted(
                old(self).nodes(),
                self.nodes(),
                node_id,
                old(self).key_bound as nat,
                self.key_bound as nat,
                pending,
                now_pending,
            );
            self.lemma_planted_indexed(old(self), node_id, subscription_id);
            self.lemma_meant_planted(old(self), node_id);
        }
        node_id
    }
}

/// Puts the node in the entry set if it is a leaf that is not yet in it.
#[inline]
fn add_predicate(node_id: NodeId, nodes: &Slab<Entry>, predicates: &mut Vec<NodeId>)
    requires
        entries(*nodes).contains_key(node_id),
    ensures
        final(predicates)@ == with_leaf(old(predicates)@, entries(*nodes), node_id),
{
    let entry = arena_get(nodes, node_id);
    if entry.is_leaf() && index_of(predicates, node_id).is_none() {
        predicates.push(node_id);
    }
}

/// Expressions with one operator have the same results if their operands
/// have.
proof fn lemma_agree_joined(
    operator: Operator,
    one: OptimizedNode,
    other: OptimizedNode,
    left: OptimizedNode,
    right: OptimizedNode,
)
    requires
        agree(one, left),
        agree(other, right),
    ensures
        agree(joined(operator, one, other), joined(operator, left, right)),
{
    assert forall|values: Seq<AttributeValue>| #[trigger]
        joined(operator, one, other).holds(values) == joined(operator, left, right).holds(
            values,
        ) by {
        assert(one.holds(values) == left.holds(values));
        assert(other.holds(values) == right.holds(values));
        match operator {
            Operator::And => {},
            Operator::Or => {},
        }
    }
}

impl ATree {
    proof fn lemma_meant_planted(&self, before: &ATree, node_id: NodeId)
        requires
            before.meant(),
            structure(before.nodes(), before.key_bound as nat),
            structure(self.nodes(), self.key_bound as nat),
            planted(before.nodes(), self.nodes(), node_id),
            self.meanings@ == before.meanings@.insert(
                node_id,
                OptimizedNode::Value(self.nodes()[node_id].node->LNode_0.predicate),
            ),
            self.nodes()[node_id].id == self.nodes()[node_id].node->LNode_0.predicate.spec_id(),
        ensures
            self.meant(),
    {
        reveal(ATree::meant);
        let nodes = self.nodes();
        let start = before.nodes();
        assert forall|key: NodeId| #[trigger] nodes.contains_key(key) implies stands_for(
            nodes,
            key,
            self.meanings()[key],
        ) && self.meanings()[key].spec_id() == nodes[key].id by {
            assert forall|values: Seq<AttributeValue>| #[trigger]
                result_of(nodes, key, values) == self.meanings()[key].holds(values) by {
                if key == node_id {
                    lemma_result_of(nodes, self.key_bound as nat, key, values);
                } else {
                    assert(start.contains_key(key));
                    lemma_results_kept(start, nodes, before.key_bound as nat, key, values);
                }
            }
        }
    }

    proof fn lemma_meant_attached(
        &self,
        before: &ATree,
        node_id: NodeId,
        first: NodeId,
        second: NodeId,
        left: NodeId,
        right: NodeId,
    )
        requires
            before.meant(),
            structure(before.nodes(), before.key_bound as nat),
            structure(self.nodes(), self.key_bound as nat),
            attached(before.nodes(), self.nodes(), node_id, first, second),
            (first == left && second == right) || (first == right && second == left),
            self.meanings@ == before.meanings@.insert(
                node_id,
                joined(
                    self.nodes()[node_id].node.spec_operator(),
                    before.meanings@[left],
                    before.meanings@[right],
                ),
            ),
            self.nodes()[node_id].id == self.nodes()[node_id].node.spec_operator().combine_ids(
                before.nodes()[left].id,
                before.nodes()[right].id,
            ),
        ensures
            self.meant(),
    {
        reveal(ATree::meant);
        let nodes = self.nodes();
        let start = before.nodes();
        lemma_attached_preserved(start, nodes, node_id, first, second);
        assert(start.contains_key(left) && start.contains_key(right));
        assert forall|key: NodeId| #[trigger] nodes.contains_key(key) implies stands_for(
            nodes,
            key,
            self.meanings()[key],
        ) && self.meanings()[key].spec_id() == nodes[key].id by {
            assert forall|values: Seq<AttributeValue>| #[trigger]
                result_of(nodes, key, values) == self.meanings()[key].holds(values) by {
                if key == node_id {
                    lemma_result_of(nodes, self.key_bound as nat, key, values);
                    lemma_results_kept(start, nodes, before.key_bound as nat, left, values);
                    lemma_results_kept(start, nodes, before.key_bound as nat, right, values);
                    assert(nodes[key].node.spec_children()[0] == first);
                    assert(nodes[key].node.spec_children()[1] == second);
                    assert(result_of(start, left, values) == before.meanings()[left].holds(values));
                    assert(result_of(start, right, values) == before.meanings()[right].holds(
                        values,
                    ));
                } else {
                    assert(start.contains_key(key));
                    lemma_results_kept(start, nodes, before.key_bound as nat, key, values);
                }
            }
            if key == node_id {
                assert(before.meanings()[left].spec_id() == start[left].id);
                assert(before.meanings()[right].spec_id() == start[right].id);
            } else {
                assert(start.contains_key(key));
            }
        }
    }

    proof fn lemma_attached_indexed(
        &self,
        before: &ATree,
        node_id: NodeId,
        first: NodeId,
        second: NodeId,
        subscription_id: Option<u64>,
    )
        requires
            before.indexed(),
            attached(before.nodes(), self.nodes(), node_id, first, second),
            self.registered(before, node_id, subscription_id),
            self.max_level >= before.max_level,
            self.max_level >= self.nodes()[node_id].node.spec_level(),
            self.predicates@ == if self.nodes()[node_id].node.spec_operator() == Operator::Or {
                with_leaf(
                    with_leaf(before.predicates@, self.nodes(), first),
                    self.nodes(),
                    second,
                )
            } else {
                with_leaf(before.predicates@, self.nodes(), first)
            },
        ensures
            self.indexed(),
    {
        reveal(ATree::indexed);
        let nodes = self.nodes();
        let old_nodes = before.nodes();
        let is_or = nodes[node_id].node.spec_operator() == Operator::Or;
        let middle = with_leaf(before.predicates@, nodes, first);
        lemma_push(before.roots@, node_id);
        lemma_push(before.predicates@, first);
        lemma_push(middle, second);
        lemma_attached_preserved(old_nodes, nodes, node_id, first, second);
        assert forall|id: ExpressionId| #[trigger]
            self.expressions().contains_key(id) implies nodes.contains_key(self.expressions()[id])
            && nodes[self.expressions()[id]].id == id by {
            if id != nodes[node_id].id {
                assert(before.expressions().contains_key(id));
                assert(old_nodes.contains_key(before.expressions()[id]));
            }
        }
        assert forall|key: NodeId| #[trigger] old_nodes.contains_key(key)
            implies nodes[key].subscription_ids == old_nodes[key].subscription_ids
            && old_nodes[key].node.spec_parents().len() <= nodes[key].node.spec_parents().len() by {
            if key != first && key != second {
                assert(nodes[key] == old_nodes[key]);
            }
        }
        assert forall|subscriber: u64| #[trigger]
            self.subscribers().contains_key(subscriber) implies nodes.contains_key(
            self.subscribers()[subscriber],
        ) && nodes[self.subscribers()[subscriber]].subscription_ids@.contains(subscriber) by {
            if subscription_id == Some(subscriber) {
                assert(nodes[node_id].subscription_ids@[0] == subscriber);
            } else {
                assert(before.subscribers().contains_key(subscriber));
                assert(old_nodes.contains_key(before.subscribers()[subscriber]));
            }
        }
        assert forall|i: int| 0 <= i < self.roots().len() implies nodes.contains_key(
            #[trigger] self.roots()[i],
        ) && nodes[self.roots()[i]].subscription_ids@.len() > 0 by {
            if i < before.roots().len() {
                assert(old_nodes.contains_key(before.roots()[i]));
            }
        }
        if before.roots@.contains(node_id) {
            let i = choose|i: int| 0 <= i < before.roots@.len() && before.roots@[i] == node_id;
            assert(old_nodes.contains_key(before.roots()[i]));
        }
        assert forall|key: NodeId| #[trigger]
            nodes.contains_key(key) && nodes[key].subscription_ids@.len() > 0
            implies self.roots().contains(key) by {
            if key != node_id {
                assert(old_nodes.contains_key(key));
                assert(before.roots().contains(key));
            }
        }
        assert forall|i: int| 0 <= i < self.entry_set().len() implies nodes.contains_key(
            #[trigger] self.entry_set()[i],
        ) && evaluated_first(nodes[self.entry_set()[i]]) by {
            let key = self.entry_set()[i];
            if i < before.entry_set().len() {
                assert(key == before.entry_set()[i]);
                assert(old_nodes.contains_key(key));
            } else if i < middle.len() {
                assert(key == first);
            } else {
                assert(key == second || key == first);
            }
        }
        assert forall|key: NodeId| #[trigger]
            nodes.contains_key(key) && evaluated_first(nodes[key]) implies self.entry_set().contains(
            key,
        ) by {
            if key == first || (key == second && is_or) {
            } else {
                assert(old_nodes.contains_key(key));
                if key != second {
                    assert(nodes[key] == old_nodes[key]);
                }
                assert(evaluated_first(old_nodes[key]));
                assert(before.entry_set().contains(key));
                assert(middle.contains(key));
            }
        }
        assert forall|key: NodeId| #[trigger] nodes.contains_key(key) implies nodes[key].node.spec_level()
            <= self.max_level() && (nodes[key].node matches ATreeNode::LNode(leaf)
            ==> leaf.predicate.valid_for(self.attributes().kinds())) by {
            if key != node_id {
                assert(old_nodes.contains_key(key));
            }
        }
    }

    /// Stores a new node with that operator above the two children, the
    /// cheaper first. The node becomes a parent of its first child and, if it
    /// is an `or`, of its second child: these hand their results on to it, and
    /// are in the entry set if they are leaves.
    fn attach(
        &mut self,
        operator: Operator,
        left_id: NodeId,
        right_id: NodeId,
        expression_id: ExpressionId,
        subscription_id: Option<u64>,
        cost: u64,
        Ghost(pending): Ghost<Multiset<NodeId>>,
    ) -> (node_id: NodeId)
        requires
            old(self).inv(pending),
            pending.count(left_id) >= 1,
            pending.count(right_id) >= 1,
            left_id == right_id ==> pending.count(left_id) >= 2,
            !(old(self).nodes()[left_id].node is RNode),
            !(old(self).nodes()[right_id].node is RNode),
            old(self).meant(),
            expression_id == operator.combine_ids(
                old(self).nodes()[left_id].id,
                old(self).nodes()[right_id].id,
            ),
        ensures
            final(self).meant(),
            final(self).meanings() == old(self).meanings().insert(
                node_id,
                joined(operator, old(self).meanings()[left_id], old(self).meanings()[right_id]),
            ),
            final(self).inv(
                if subscription_id is Some {
                    pending.remove(left_id).remove(right_id)
                } else {
                    pending.remove(left_id).remove(right_id).insert(node_id)
                },
            ),
            attached(
                old(self).nodes(),
                final(self).nodes(),
                node_id,
                in_order(old(self).nodes(), left_id, right_id).0,
                in_order(old(self).nodes(), left_id, right_id).1,
            ),
            preserved(old(self).nodes(), final(self).nodes()),
            final(self).registered(old(self), node_id, subscription_id),
            final(self).nodes()[node_id].id == expression_id,
            final(self).nodes()[node_id].cost == cost,
            final(self).nodes()[node_id].node.spec_operator() == operator,
            (final(self).nodes()[node_id].node is RNode) == (subscription_id is Some),
            final(self).max_level() == higher(
                old(self).max_level(),
                final(self).nodes()[node_id].node.spec_level(),
            ),
    {
        proof {
            lemma_pending(old(self).nodes(), old(self).key_bound as nat, pending, left_id);
            lemma_pending(old(self).nodes(), old(self).key_bound as nat, pending, right_id);
            lemma_level_is_bounded(old(self).nodes(), old(self).key_bound as nat, left_id);
            lemma_level_is_bounded(old(self).nodes(), old(self).key_bound as nat, right_id);
        }
        let left_entry = arena_get(&self.nodes, left_id);
        let right_entry = arena_get(&self.nodes, right_id);
        let left_level = left_entry.level();
        let right_level = right_entry.level();
        let level = 1 + if left_level >= right_level {
            left_level
        } else {
            right_level
        };
        let (first, second) = if left_entry.cost > right_entry.cost {
            (right_id, left_id)
        } else {
            (left_id, right_id)
        };
        let mut children: Vec<NodeId> = Vec::with_capacity(2);
        children.push(first);
        children.push(second);
        assert(children@ =~= seq![first, second]);
        let node = if subscription_id.is_some() {
            ATreeNode::RNode(RNode { children, level, operator })
        } else {
            ATreeNode::INode(INode { parents: Vec::new(), children, level, operator })
        };
        let entry = Entry::new(expression_id, node, subscription_id, cost);
        let node_id = arena_insert(&mut self.nodes, entry);
        if node_id >= self.key_bound {
            self.key_bound = node_id + 1;
        }
        self.expression_to_node.insert(expression_id, node_id);
        proof {
            self.meanings = Ghost(
                self.meanings@.insert(
                    node_id,
                    joined(operator, self.meanings@[left_id], self.meanings@[right_id]),
                ),
            );
        }
        let ghost stored = self.nodes();
        add_parent(&mut self.nodes, first, node_id);
        let ghost adopted_first = self.nodes();
        proof {
            assert(stored.contains_key(second));
            if second != first {
                assert(adopted_first[second] == stored[second]);
            }
        }
        match operator {
            Operator::Or => {
                add_parent(&mut self.nodes, second, node_id);
            },
            Operator::And => {},
        }
        proof {
            lemma_wired(
                old(self).nodes(),
                stored,
                adopted_first,
                self.nodes(),
                node_id,
                first,
                second,
            );
        }
        add_predicate(first, &self.nodes, &mut self.predicates);
        match operator {
            Operator::Or => {
                add_predicate(second, &self.nodes, &mut self.predicates);
            },
            Operator::And => {},
        }
        if let Some(subscriber) = subscription_id {
            self.nodes_by_ids.insert(subscriber, node_id);
            self.roots.push(node_id);
        }
        if level > self.max_level {
            self.max_level = level;
        }
        proof {
            let before = old(self).nodes();
            let after = self.nodes();
            let now_pending = if subscription_id is Some {
                pending.remove(left_id).remove(right_id)
            } else {
                pending.remove(left_id).remove(right_id).insert(node_id)
            };
            lemma_attached_structure(
                before,
                after,
                node_id,
                first,
                second,
                old(self).key_bound as nat,
                self.key_bound as nat,
            );
            lemma_pending(before, old(self).key_bound as nat, pending, node_id);
            assert forall|node: NodeId| node != node_id implies #[trigger] now_pending.count(
                node,
            ) + points(after[node_id], node) == pending.count(node) by {}
            lemma_attached_counted(
                before,
                after,
                node_id,
                first,
                second,
                old(self).key_bound as nat,
                self.key_bound as nat,
                pending,
                now_pending,
            );
            lemma_attached_preserved(before, after, node_id, first, second);
            self.lemma_attached_indexed(old(self), node_id, first, second, subscription_id);
            self.lemma_meant_attached(old(self), node_id, first, second, left_id, right_id);
        }
        node_id
    }

    /// Uses the node once more, as the child of a node to come. A root
    /// becomes an inner node by it, and keeps its subscribers.
    fn share(&mut self, node_id: NodeId, Ghost(pending): Ghost<Multiset<NodeId>>)
        requires
            old(self).inv(pending),
            old(self).meant(),
            old(self).nodes().contains_key(node_id),
            old(self).nodes()[node_id].use_count < u32::MAX,
        ensures
            final(self).inv(pending.insert(node_id)),
            final(self).meant(),
            final(self).same_tables(old(self)),
            preserved(old(self).nodes(), final(self).nodes()),
            kept_subscribers(old(self).nodes(), final(self).nodes()),
            final(self).nodes().dom() == old(self).nodes().dom(),
            !(final(self).nodes()[node_id].node is RNode),
    {
        change_rnode_to_inode(node_id, &mut self.nodes);
        let ghost changed = self.nodes();
        increment_use_count(node_id, &mut self.nodes);
        proof {
            let before = old(self).nodes();
            let after = self.nodes();
            assert(touched(before, after, node_id)) by {
                assert forall|other: NodeId|
                    other != node_id && #[trigger] before.contains_key(other) implies after[other]
                    == before[other] by {
                    assert(changed.contains_key(other));
                }
            }
            lemma_touched_structure(before, after, node_id, self.key_bound as nat);
            lemma_touched_counted(
                before,
                after,
                node_id,
                self.key_bound as nat,
                pending,
                pending.insert(node_id),
            );
            self.lemma_touched_indexed(old(self), node_id);
            assert forall|key: NodeId| #[trigger] before.contains_key(key) implies after.contains_key(
                key,
            ) && same_core(before[key], after[key]) && (!(before[key].node is RNode) ==> !(
            after[key].node is RNode)) by {}
            self.lemma_meant_kept(old(self));
            assert forall|key: NodeId| #[trigger] after.contains_key(key)
                implies after[key].subscription_ids@ == if before.contains_key(key) {
                before[key].subscription_ids@
            } else {
                Seq::<u64>::empty()
            } by {
                assert(before.contains_key(key));
            }
        }
    }

    /// Whether every node is a node of `origin` with the meaning and the id
    /// that it had there, or has the id and the results of a part of `whole`.
    spec fn known(&self, origin: &ATree, whole: OptimizedNode) -> bool {
        forall|key: NodeId| #[trigger]
            self.nodes().contains_key(key) ==> (origin.nodes().contains_key(key)
                && self.meanings()[key] == origin.meanings()[key] && self.nodes()[key].id
                == origin.nodes()[key].id) || echoes(
                self.meanings()[key],
                self.nodes()[key].id,
                whole,
            )
    }

    /// Whether an insertion of `node` as a part of `whole` into a tree that
    /// grew out of `origin` meets no two expressions with one id and
    /// different results.
    spec fn clear(&self, origin: &ATree, whole: OptimizedNode, node: OptimizedNode) -> bool {
        origin.unambiguous(whole) && self.known(origin, whole) && part_of(node, whole)
    }

    /// Whether the meanings of the nodes of `before` are still theirs.
    spec fn kept_meanings(&self, before: &ATree) -> bool {
        forall|key: NodeId| #[trigger]
            before.nodes().contains_key(key) ==> self.meanings()[key] == before.meanings()[key]
    }

    /// A node that is found by the id of a part of `whole` has its results.
    proof fn lemma_found(&self, origin: &ATree, whole: OptimizedNode, node: OptimizedNode, found: NodeId)
        requires
            self.clear(origin, whole, node),
            self.nodes().contains_key(found),
            self.nodes()[found].id == node.spec_id(),
        ensures
            agree(self.meanings()[found], node),
    {
        if origin.nodes().contains_key(found) && self.meanings()[found] == origin.meanings()[found]
            && self.nodes()[found].id == origin.nodes()[found].id {
        } else {
            let part = choose|part: OptimizedNode| #[trigger]
                part_of(part, whole) && part.spec_id() == self.nodes()[found].id && agree(
                    self.meanings()[found],
                    part,
                );
            assert(agree(part, node));
        }
    }

    /// The nodes stay known when none is added and each keeps its id and its
    /// meaning.
    proof fn lemma_known_kept(&self, before: &ATree, origin: &ATree, whole: OptimizedNode)
        requires
            before.known(origin, whole),
            self.meanings() == before.meanings(),
            self.nodes().dom() == before.nodes().dom(),
            preserved(before.nodes(), self.nodes()),
        ensures
            self.known(origin, whole),
    {
        assert forall|key: NodeId| #[trigger] self.nodes().contains_key(key) implies (
        origin.nodes().contains_key(key) && self.meanings()[key] == origin.meanings()[key]
            && self.nodes()[key].id == origin.nodes()[key].id) || echoes(
            self.meanings()[key],
            self.nodes()[key].id,
            whole,
        ) by {
            assert(before.nodes().contains_key(key));
        }
    }

    /// The nodes stay known when a node is added that has the id and the
    /// results of a part of `whole`.
    proof fn lemma_known_grown(
        &self,
        before: &ATree,
        origin: &ATree,
        whole: OptimizedNode,
        node: OptimizedNode,
        node_id: NodeId,
    )
        requires
            before.known(origin, whole),
            self.meanings() == before.meanings().insert(node_id, self.meanings()[node_id]),
            self.nodes().dom() == before.nodes().dom().insert(node_id),
            !before.nodes().contains_key(node_id),
            preserved(before.nodes(), self.nodes()),
            part_of(node, whole),
            self.nodes()[node_id].id == node.spec_id(),
            agree(self.meanings()[node_id], node),
        ensures
            self.known(origin, whole),
    {
        assert forall|key: NodeId| #[trigger] self.nodes().contains_key(key) implies (
        origin.nodes().contains_key(key) && self.meanings()[key] == origin.meanings()[key]
            && self.nodes()[key].id == origin.nodes()[key].id) || echoes(
            self.meanings()[key],
            self.nodes()[key].id,
            whole,
        ) by {
            if key != node_id {
                assert(before.nodes().contains_key(key));
            } else {
                assert(part_of(node, whole) && node.spec_id() == self.nodes()[key].id && agree(
                    self.meanings()[key],
                    node,
                ));
            }
        }
    }

    /// Inserts an expression as the child of a node to come, and gives the
    /// key of its node: the node that has the id of the expression, if there
    /// is one that can take one more use, and a new node above the nodes of
    /// the operands otherwise.
    fn insert_node(
        &mut self,
        node: OptimizedNode,
        Ghost(pending): Ghost<Multiset<NodeId>>,
        Ghost(whole): Ghost<OptimizedNode>,
        Ghost(origin): Ghost<ATree>,
    ) -> (node_id: NodeId)
        requires
            old(self).inv(pending),
            old(self).meant(),
            node.valid_for(old(self).attributes().kinds()),
        ensures
            final(self).inv(pending.insert(node_id)),
            final(self).meant(),
            final(self).nodes().contains_key(node_id),
            !(final(self).nodes()[node_id].node is RNode),
            final(self).nodes()[node_id].id == node.spec_id(),
            preserved(old(self).nodes(), final(self).nodes()),
            kept_subscribers(old(self).nodes(), final(self).nodes()),
            final(self).kept_meanings(old(self)),
            old(self).max_level() <= final(self).max_level() <= higher(
                old(self).max_level(),
                final(self).nodes()[node_id].node.spec_level(),
            ),
            final(self).attributes == old(self).attributes,
            final(self).strings == old(self).strings,
            final(self).nodes_by_ids@ == old(self).nodes_by_ids@,
            final(self).roots@ == old(self).roots@,
            old(self).clear(&origin, whole, node) ==> final(self).known(&origin, whole) && agree(
                final(self).meanings()[node_id],
                node,
            ),
        decreases node, 1nat,
    {
        let expression_id = node.id();
        let found = match self.expression_to_node.get(&expression_id) {
            Some(found) => Some(*found),
            None => None,
        };
        proof {
            self.lemma_expressions();
        }
        if let Some(found) = found {
            if arena_get(&self.nodes, found).use_count < u32::MAX {
                self.share(found, Ghost(pending));
                proof {
                    if old(self).clear(&origin, whole, node) {
                        old(self).lemma_found(&origin, whole, node, found);
                        self.lemma_known_kept(old(self), &origin, whole);
                    }
                }
                return found;
            }
        }
        let cost = node.cost();
        match node {
            OptimizedNode::And(left, right) => self.join(
                Operator::And,
                *left,
                *right,
                expression_id,
                None,
                cost,
                Ghost(pending),
                Ghost(whole),
                Ghost(origin),
            ),
            OptimizedNode::Or(left, right) => self.join(
                Operator::Or,
                *left,
                *right,
                expression_id,
                None,
                cost,
                Ghost(pending),
                Ghost(whole),
                Ghost(origin),
            ),
            OptimizedNode::Value(predicate) => {
                let node_id = self.plant(predicate, expression_id, None, cost, Ghost(pending));
                proof {
                    let before = old(self).nodes();
                    let after = self.nodes();
                    assert forall|key: NodeId| #[trigger] after.contains_key(key)
                        implies after[key].subscription_ids@ == if before.contains_key(key) {
                        before[key].subscription_ids@
                    } else {
                        Seq::<u64>::empty()
                    } by {}
                    assert(after.dom() =~= before.dom().insert(node_id));
                    if old(self).clear(&origin, whole, node) {
                        self.lemma_known_grown(old(self), &origin, whole, node, node_id);
                    }
                }
                node_id
            },
        }
    }

    /// Inserts the two operands of an expression and stores a new node above
    /// their nodes, as a root if it is made for a subscriber.
    fn join(
        &mut self,
        operator: Operator,
        left: OptimizedNode,
        right: OptimizedNode,
        expression_id: ExpressionId,
        subscription_id: Option<u64>,
        cost: u64,
        Ghost(pending): Ghost<Multiset<NodeId>>,
        Ghost(whole): Ghost<OptimizedNode>,
        Ghost(origin): Ghost<ATree>,
    ) -> (node_id: NodeId)
        requires
            old(self).inv(pending),
            old(self).meant(),
            left.valid_for(old(self).attributes().kinds()),
            right.valid_for(old(self).attributes().kinds()),
            expression_id == joined(operator, left, right).spec_id(),
        ensures
            final(self).inv(
                if subscription_id is Some {
                    pending
                } else {
                    pending.insert(node_id)
                },
            ),
            final(self).meant(),
            final(self).nodes().contains_key(node_id),
            !old(self).nodes().contains_key(node_id),
            (final(self).nodes()[node_id].node is RNode) == (subscription_id is Some),
            final(self).nodes()[node_id].id == expression_id,
            final(self).nodes()[node_id].subscription_ids@ == first_subscribers(subscription_id),
            preserved(old(self).nodes(), final(self).nodes()),
            forall|key: NodeId|
                key != node_id && #[trigger] final(self).nodes().contains_key(key) ==> final(self).nodes()[key].subscription_ids@ == if old(self).nodes().contains_key(key) {
                    old(self).nodes()[key].subscription_ids@
                } else {
                    Seq::<u64>::empty()
                },
            final(self).kept_meanings(old(self)),
            old(self).max_level() <= final(self).max_level() <= higher(
                old(self).max_level(),
                final(self).nodes()[node_id].node.spec_level(),
            ),
            final(self).attributes == old(self).attributes,
            final(self).strings == old(self).strings,
            final(self).expression_to_node@.contains_key(expression_id),
            final(self).expression_to_node@[expression_id] == node_id,
            match subscription_id {
                Some(subscriber) => final(self).nodes_by_ids@ == old(self).nodes_by_ids@.insert(
                    subscriber,
                    node_id,
                ) && final(self).roots@ == old(self).roots@.push(node_id),
                None => final(self).nodes_by_ids@ == old(self).nodes_by_ids@ && final(self).roots@
                    == old(self).roots@,
            },
            old(self).clear(&origin, whole, joined(operator, left, right)) ==> final(self).known(
                &origin,
                whole,
            ) && agree(final(self).meanings()[node_id], joined(operator, left, right)),
            final(self).max_level() == higher(
                old(self).max_level(),
                final(self).nodes()[node_id].node.spec_level(),
            ),
        decreases joined(operator, left, right), 0nat,
    {
        let ghost node = joined(operator, left, right);
        let ghost first_part = left;
        let ghost second_part = right;
        let left_id = self.insert_node(left, Ghost(pending), Ghost(whole), Ghost(origin));
        let ghost with_left = *self;
        let right_id = self.insert_node(
            right,
            Ghost(pending.insert(left_id)),
            Ghost(whole),
            Ghost(origin),
        );
        let ghost with_both = *self;
        proof {
            assert(with_left.nodes().contains_key(left_id));
            lemma_preserved_trans(old(self).nodes(), with_left.nodes(), self.nodes());
        }
        let node_id = self.attach(
            operator,
            left_id,
            right_id,
            expression_id,
            subscription_id,
            cost,
            Ghost(pending.insert(left_id).insert(right_id)),
        );
        proof {
            lemma_preserved_trans(old(self).nodes(), with_both.nodes(), self.nodes());
            assert(pending.insert(left_id).insert(right_id).remove(left_id).remove(right_id)
                =~= pending);
            self.lemma_joined(old(self), &with_left, &with_both, node_id);
            assert(with_both.nodes().contains_key(left_id));
            assert(with_both.nodes()[left_id].node.spec_level()
                == with_left.nodes()[left_id].node.spec_level());
            assert(self.meanings()[node_id] == joined(
                operator,
                with_both.meanings()[left_id],
                with_both.meanings()[right_id],
            ));
            if old(self).clear(&origin, whole, node) {
                assert(part_of(first_part, first_part) && part_of(second_part, second_part));
                assert(part_of(first_part, node) && part_of(second_part, node)) by {
                    match operator {
                        Operator::And => {},
                        Operator::Or => {},
                    }
                }
                lemma_part_of_part(first_part, node, whole);
                lemma_part_of_part(second_part, node, whole);
                assert(with_left.clear(&origin, whole, second_part));
                assert(with_both.meanings()[left_id] == with_left.meanings()[left_id]);
                assert(agree(with_both.meanings()[left_id], first_part));
                assert(agree(with_both.meanings()[right_id], second_part));
                lemma_agree_joined(
                    operator,
                    with_both.meanings()[left_id],
                    with_both.meanings()[right_id],
                    first_part,
                    second_part,
                );
                assert(self.nodes().dom() =~= with_both.nodes().dom().insert(node_id));
                self.lemma_known_grown(&with_both, &origin, whole, node, node_id);
            }
        }
        node_id
    }

    /// The subscribers and the meanings are kept over the insertion of two
    /// operands and of the node above them.
    proof fn lemma_joined(&self, before: &ATree, with_left: &ATree, with_both: &ATree, node_id: NodeId)
        requires
            kept_subscribers(before.nodes(), with_left.nodes()),
            kept_subscribers(with_left.nodes(), with_both.nodes()),
            preserved(before.nodes(), with_left.nodes()),
            preserved(with_left.nodes(), with_both.nodes()),
            preserved(with_both.nodes(), self.nodes()),
            with_left.kept_meanings(before),
            with_both.kept_meanings(with_left),
            self.meanings() == with_both.meanings().insert(node_id, self.meanings()[node_id]),
            exists|first: NodeId, second: NodeId|
                attached(with_both.nodes(), self.nodes(), node_id, first, second),
        ensures
            forall|key: NodeId|
                key != node_id && #[trigger] self.nodes().contains_key(key)
                    ==> self.nodes()[key].subscription_ids@ == if before.nodes().contains_key(key) {
                    before.nodes()[key].subscription_ids@
                } else {
                    Seq::<u64>::empty()
                },
            self.kept_meanings(before),
            !before.nodes().contains_key(node_id),
    {
        let (first, second) = choose|first: NodeId, second: NodeId|
            attached(with_both.nodes(), self.nodes(), node_id, first, second);
        let after = self.nodes();
        let start = before.nodes();
        if start.contains_key(node_id) {
            assert(with_left.nodes().contains_key(node_id));
            assert(with_both.nodes().contains_key(node_id));
        }
        assert forall|key: NodeId| key != node_id && #[trigger] after.contains_key(key)
            implies after[key].subscription_ids@ == if start.contains_key(key) {
            start[key].subscription_ids@
        } else {
            Seq::<u64>::empty()
        } by {
            assert(with_both.nodes().contains_key(key));
            if key != first && key != second {
                assert(after[key] == with_both.nodes()[key]);
            }
            if !with_left.nodes().contains_key(key) {
                if start.contains_key(key) {
                    assert(with_left.nodes().contains_key(key));
                }
            }
        }
        assert forall|key: NodeId| #[trigger] start.contains_key(key) implies self.meanings()[key]
            == before.meanings()[key] by {
            assert(with_left.nodes().contains_key(key));
            assert(with_both.nodes().contains_key(key));
        }
    }

    proof fn lemma_subscribed_indexed(&self, before: &ATree, key: NodeId, subscriber: u64)
        requires
            before.indexed(),
            touched(before.nodes(), self.nodes(), key),
            same_core(before.nodes()[key], self.nodes()[key]),
            self.nodes()[key].node.spec_parents() == before.nodes()[key].node.spec_parents(),
            self.nodes()[key].subscription_ids@ == before.nodes()[key].subscription_ids@.push(
                subscriber,
            ),
            self.attributes == before.attributes,
            self.strings == before.strings,
            self.expression_to_node@ == before.expression_to_node@,
            self.nodes_by_ids@ == before.nodes_by_ids@.insert(subscriber, key),
            self.roots@ == with_key(before.roots@, key),
            self.predicates@ == with_leaf(before.predicates@, self.nodes(), key),
            self.max_level == before.max_level,
        ensures
            self.indexed(),
    {
        reveal(ATree::indexed);
        let nodes = self.nodes();
        let old_nodes = before.nodes();
        lemma_push(before.roots@, key);
        lemma_push(before.predicates@, key);
        assert forall|node: NodeId| #[trigger] nodes.contains_key(node) implies old_nodes.contains_key(
            node,
        ) && same_core(old_nodes[node], nodes[node]) && nodes[node].node.spec_parents()
            == old_nodes[node].node.spec_parents() && (node != key ==> nodes[node]
            == old_nodes[node]) by {
            assert(old_nodes.contains_key(node));
        }
        assert forall|id: ExpressionId| #[trigger]
            self.expressions().contains_key(id) implies nodes.contains_key(self.expressions()[id])
            && nodes[self.expressions()[id]].id == id by {
            assert(before.expressions().contains_key(id));
            assert(nodes.contains_key(before.expressions()[id]));
        }
        let subscribers = nodes[key].subscription_ids@;
        assert(subscribers[subscribers.len() - 1] == subscriber);
        assert forall|other: u64| #[trigger] self.subscribers().contains_key(other)
            implies nodes.contains_key(self.subscribers()[other])
            && nodes[self.subscribers()[other]].subscription_ids@.contains(other) by {
            if other != subscriber {
                assert(before.subscribers().contains_key(other));
                let node = before.subscribers()[other];
                assert(nodes.contains_key(node));
                if node == key {
                    let kept = old_nodes[key].subscription_ids@;
                    let i = choose|i: int| 0 <= i < kept.len() && kept[i] == other;
                    assert(subscribers[i] == other);
                }
            }
        }
        assert forall|i: int| 0 <= i < self.roots().len() implies nodes.contains_key(
            #[trigger] self.roots()[i],
        ) && nodes[self.roots()[i]].subscription_ids@.len() > 0 by {
            if i < before.roots().len() {
                assert(old_nodes.contains_key(before.roots()[i]));
                assert(nodes.contains_key(before.roots()[i]));
            }
        }
        assert forall|node: NodeId| #[trigger]
            nodes.contains_key(node) && nodes[node].subscription_ids@.len() > 0
            implies self.roots().contains(node) by {
            if node != key {
                assert(before.roots().contains(node));
            }
        }
        assert forall|i: int| 0 <= i < self.entry_set().len() implies nodes.contains_key(
            #[trigger] self.entry_set()[i],
        ) && evaluated_first(nodes[self.entry_set()[i]]) by {
            if i < before.entry_set().len() {
                assert(old_nodes.contains_key(before.entry_set()[i]));
                assert(nodes.contains_key(before.entry_set()[i]));
            }
        }
        assert forall|node: NodeId| #[trigger]
            nodes.contains_key(node) && evaluated_first(nodes[node])
            implies self.entry_set().contains(node) by {
            if node != key {
                assert(before.entry_set().contains(node));
            }
        }
    }

    /// Attaches the subscriber to a node of the DAG, which counts one more
    /// use. The node is in the root set from then on and, if it is a leaf, in
    /// the entry set.
    fn subscribe(&mut self, subscription_id: u64, node_id: NodeId)
        requires
            old(self).wf(),
            old(self).nodes().contains_key(node_id),
            old(self).nodes()[node_id].use_count < u32::MAX,
        ensures
            final(self).wf(),
            final(self).nodes().dom() == old(self).nodes().dom(),
            preserved(old(self).nodes(), final(self).nodes()),
            subscribed(old(self).nodes(), final(self).nodes(), node_id, subscription_id),
            final(self).attributes == old(self).attributes,
            final(self).strings == old(self).strings,
            final(self).expression_to_node@ == old(self).expression_to_node@,
            final(self).nodes_by_ids@ == old(self).nodes_by_ids@.insert(subscription_id, node_id),
            final(self).shared(old(self), node_id),
            final(self).meanings() == old(self).meanings(),
    {
        let mut entry = take(&mut self.nodes, node_id);
        entry.subscription_ids.push(subscription_id);
        entry.use_count = entry.use_count + 1;
        put(&mut self.nodes, node_id, entry);
        self.nodes_by_ids.insert(subscription_id, node_id);
        if index_of(&self.roots, node_id).is_none() {
            self.roots.push(node_id);
        }
        add_predicate(node_id, &self.nodes, &mut self.predicates);
        proof {
            let before = old(self).nodes();
            let after = self.nodes();
            let pending = Multiset::<NodeId>::empty();
            assert(touched(before, after, node_id));
            lemma_touched_structure(before, after, node_id, self.key_bound as nat);
            lemma_touched_counted(before, after, node_id, self.key_bound as nat, pending, pending);
            self.lemma_subscribed_indexed(old(self), node_id, subscription_id);
            lemma_push(old(self).roots@, node_id);
            self.lemma_leveled_kept(old(self));
            assert(preserved(before, after)) by {
                assert forall|key: NodeId| #[trigger] before.contains_key(key)
                    implies after.contains_key(key) && same_core(before[key], after[key]) && (!(
                before[key].node is RNode) ==> !(after[key].node is RNode)) by {}
            }
            self.lemma_meant_kept(old(self));
            assert forall|key: NodeId| #[trigger] before.contains_key(key) implies after.contains_key(
                key,
            ) && same_core(before[key], after[key]) && (!(before[key].node is RNode) ==> !(
            after[key].node is RNode)) by {}
            assert forall|key: NodeId| #[trigger] after.contains_key(key) implies before.contains_key(
                key,
            ) by {}
        }
    }

    /// Inserts an expression for a subscriber. The subscriber is attached to
    /// the node that has the id of the expression, if there is one that can
    /// take one more use; otherwise to a new root above the nodes of the
    /// operands, which are shared in the same way. The node has the result of
    /// the expression on every event, unless two expressions that meet in
    /// the insertion have one id and different results.
    pub fn insert_root(&mut self, subscription_id: u64, root: OptimizedNode)
        requires
            old(self).wf(),
            root.valid_for(old(self).attributes().kinds()),
        ensures
            final(self).wf(),
            final(self).attributes() == old(self).attributes(),
            final(self).strings() == old(self).strings(),
            final(self).inserted(old(self), subscription_id, root.spec_id()),
            old(self).unambiguous(root) ==> stands_for(
                final(self).nodes(),
                final(self).subscribers()[subscription_id],
                root,
            ),
    {
        let expression_id = root.id();
        let found = match self.expression_to_node.get(&expression_id) {
            Some(found) => Some(*found),
            None => None,
        };
        proof {
            self.lemma_expressions();
        }
        if let Some(found) = found {
            if arena_get(&self.nodes, found).use_count < u32::MAX {
                self.subscribe(subscription_id, found);
                proof {
                    reveal(ATree::meant);
                    if old(self).unambiguous(root) {
                        assert(part_of(root, root));
                        assert(agree(old(self).meanings()[found], root));
                        assert(stands_for(self.nodes(), found, self.meanings()[found]));
                    }
                }
                return ;
            }
        }
        let cost = root.cost();
        let ghost pending = Multiset::<NodeId>::empty();
        let ghost origin = *self;
        let ghost whole = root;
        proof {
            assert(self.known(&origin, whole));
        }
        let node_id = match root {
            OptimizedNode::And(left, right) => self.join(
                Operator::And,
                *left,
                *right,
                expression_id,
                Some(subscription_id),
                cost,
                Ghost(pending),
                Ghost(whole),
                Ghost(origin),
            ),
            OptimizedNode::Or(left, right) => self.join(
                Operator::Or,
                *left,
                *right,
                expression_id,
                Some(subscription_id),
                cost,
                Ghost(pending),
                Ghost(whole),
                Ghost(origin),
            ),
            OptimizedNode::Value(predicate) => {
                let node_id = self.plant(
                    predicate,
                    expression_id,
                    Some(subscription_id),
                    cost,
                    Ghost(pending),
                );
                proof {
                    let before = old(self).nodes();
                    let after = self.nodes();
                    assert forall|key: NodeId| key != node_id && #[trigger] after.contains_key(key)
                        implies after[key].subscription_ids@ == if before.contains_key(key) {
                        before[key].subscription_ids@
                    } else {
                        Seq::<u64>::empty()
                    } by {}
                }
                node_id
            },
        };
        proof {
            let before = old(self).nodes();
            let after = self.nodes();
            reveal(ATree::meant);
            assert(Seq::<u64>::empty().push(subscription_id) =~= seq![subscription_id]);
            assert(!before.contains_key(node_id));
            assert forall|key: NodeId| #[trigger] after.contains_key(key)
                implies after[key].subscription_ids@ == {
                let kept = if before.contains_key(key) {
                    before[key].subscription_ids@
                } else {
                    Seq::<u64>::empty()
                };
                if key == node_id {
                    kept.push(subscription_id)
                } else {
                    kept
                }
            } by {}
            if old(self).unambiguous(root) {
                assert(part_of(root, root));
                assert(agree(self.meanings()[node_id], root));
                assert(stands_for(after, node_id, self.meanings()[node_id]));
            }
            if self.max_level == old(self).max_level {
                self.lemma_leveled_kept(old(self));
            } else {
                assert(self.roots()[self.roots().len() - 1] == node_id);
            }
        }
    }

    /// Insert an arbitrary boolean expression inside the [`ATree`], for a
    /// subscriber. The text is parsed and optimized, and the subscriber is
    /// attached to the node of the expression. A text that is refused leaves
    /// the nodes as they are; the strings that were read up to the error stay
    /// interned.
    #[inline]
    pub fn insert(&mut self, subscription_id: u64, expression: &str) -> (result: Result<
        (),
        ATreeError,
    >)
        requires
            old(self).wf(),
        ensures
            final(self).wf(),
            final(self).attributes() == old(self).attributes(),
            final(self).strings().wf(),
            extends(old(self).strings()@, final(self).strings()@),
            match result {
                Ok(()) => exists|ast: Node|
                    #![trigger ast.suppressed(false)]
                    parsed(Ok(ast), expression@, old(self).attributes(), final(self).strings()@)
                        && final(self).inserted(
                        old(self),
                        subscription_id,
                        ast.suppressed(false).spec_id(),
                    ) && (old(self).unambiguous(ast.suppressed(false)) ==> stands_for(
                        final(self).nodes(),
                        final(self).subscribers()[subscription_id],
                        ast.suppressed(false),
                    )),
                Err(ATreeError::ParseError(error)) => parsed(
                    Err(error),
                    expression@,
                    old(self).attributes(),
                    final(self).strings()@,
                ) && final(self).same_nodes(old(self)),
                Err(_) => false,
            },
    {
        proof {
            self.lemma_tables();
        }
        let ast = match parse(expression, &self.attributes, &mut self.strings) {
            Ok(ast) => ast,
            Err(error) => {
                proof {
                    reveal(ATree::indexed);
                    reveal(ATree::meant);
                }
                return Err(ATreeError::ParseError(error));
            },
        };
        proof {
            reveal(ATree::indexed);
            reveal(ATree::meant);
            lemma_suppression_keeps_validity(ast, false, self.attributes.kinds());
        }
        let ghost written = ast;
        let ghost before = *self;
        let ast = ast.optimize();
        self.insert_root(subscription_id, ast);
        proof {
            assert(self.inserted(old(self), subscription_id, written.suppressed(false).spec_id()));
            assert(before.unambiguous(written.suppressed(false)) == old(self).unambiguous(
                written.suppressed(false),
            ));
        }
        Ok(())
    }
}

} // verus!
