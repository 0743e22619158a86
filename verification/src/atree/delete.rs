//! Deleting an expression: its node gives up a use, and a node without a
//! use is taken out with the uses that it made of its children.
use crate::arena::{
    arena_get, arena_remove, ATreeNode, entries, Entry, ExpressionId, INode, LNode, NodeId,
    RNode,
};
use crate::atree::{ATree, evaluated_first, last_at, lemma_used, put, released, take};
use crate::dag::{
    detached, lemma_detached_counted, lemma_detached_structure, lemma_node, lemma_pending,
    lemma_touched_counted, lemma_touched_structure, node_wf, Nodes, orphaned, parent_of, points,
    preserved, removed, same_core, touched, without,
};
use slab::Slab;
use vstd::multiset::Multiset;
use vstd::prelude::*;

verus! {

broadcast use vstd::std_specs::hash::group_hash_axioms;

/// The highest level of the nodes of the root set, or 1 if none is above it.
#[inline]
fn get_max_level(roots: &Vec<NodeId>, nodes: &Slab<Entry>) -> (level: usize)
    requires
        forall|i: int| 0 <= i < roots.len() ==> entries(*nodes).contains_key(#[trigger] roots[i]),
    ensures
        level >= 1,
        forall|i: int|
            0 <= i < roots.len() ==> entries(*nodes)[#[trigger] roots[i]].node.spec_level() <= level,
        level == 1 || exists|i: int|
            0 <= i < roots.len() && entries(*nodes)[#[trigger] roots[i]].node.spec_level() == level,
{
    let mut level: usize = 1;
    let mut i: usize = 0;
    while i < roots.len()
        invariant
            i <= roots.len(),
            level >= 1,
            forall|k: int|
                0 <= k < roots.len() ==> entries(*nodes).contains_key(#[trigger] roots[k]),
            forall|k: int|
                0 <= k < i ==> entries(*nodes)[#[trigger] roots[k]].node.spec_level() <= level,
            level == 1 || exists|k: int|
                0 <= k < i && entries(*nodes)[#[trigger] roots[k]].node.spec_level() == level,
        decreases roots.len() - i,
    {
        let root_level = arena_get(nodes, roots[i]).level();
        if root_level > level {
            level = root_level;
        }
        i += 1;
    }
    level
}

/// The last position of a subscriber in the list, if it is in it.
fn position_of(list: &Vec<u64>, subscriber: u64) -> (position: Option<usize>)
    ensures
        match position {
            Some(index) => last_at(list@, subscriber, index as int),
            None => !list@.contains(subscriber),
        },
{
    let mut i: usize = list.len();
    while i > 0
        invariant
            i <= list.len(),
            forall|k: int| i <= k < list.len() ==> list[k] != subscriber,
        decreases i,
    {
        i -= 1;
        if list[i] == subscriber {
            return Some(i);
        }
    }
    None
}

/// Takes the key out of the list, wherever it stands in it; the other items
/// keep their order.
fn without_key(list: &mut Vec<NodeId>, key: NodeId)
    ensures
        removed(old(list)@, final(list)@, key),
{
    let mut kept: Vec<NodeId> = Vec::with_capacity(list.len());
    let mut i: usize = 0;
    while i < list.len()
        invariant
            i <= list.len(),
            forall|k: int| 0 <= k < kept.len() ==> #[trigger] kept[k] != key && exists|j: int|
                0 <= j < i && list[j] == kept[k],
            forall|j: int| 0 <= j < i && list[j] != key ==> kept@.contains(#[trigger] list[j]),
            list@.no_duplicates() ==> kept@.no_duplicates(),
            kept@ == without(list@.take(i as int), key),
        decreases list.len() - i,
    {
        let item = list[i];
        proof {
            assert(list@.take(i + 1).drop_last() =~= list@.take(i as int));
            assert(list@.take(i + 1).last() == item);
        }
        if item != key {
            proof {
                let ghost before = kept@;
                assert forall|j: int| 0 <= j < i + 1 && list[j] != key implies before.push(
                    item,
                ).contains(#[trigger] list[j]) by {
                    if j < i {
                        let k = choose|k: int| 0 <= k < before.len() && before[k] == list[j];
                        assert(before.push(item)[k] == list[j]);
                    } else {
                        assert(before.push(item)[before.len() as int] == item);
                    }
                }
                if list@.no_duplicates() {
                    assert forall|a: int, b: int|
                        0 <= a < before.len() + 1 && 0 <= b < before.len() + 1 && a
                            != b implies before.push(item)[a] != before.push(item)[b] by {
                        if a == before.len() {
                            let j = choose|j: int| 0 <= j < i && list[j] == before[b];
                        } else if b == before.len() {
                            let j = choose|j: int| 0 <= j < i && list[j] == before[a];
                        }
                    }
                }
            }
            kept.push(item);
        }
        i += 1;
    }
    proof {
        assert(list@.take(list.len() as int) =~= list@);
        assert forall|item: NodeId| #[trigger]
            kept@.contains(item) == (list@.contains(item) && item != key) by {
            if kept@.contains(item) {
                let k = choose|k: int| 0 <= k < kept.len() && kept[k] == item;
                assert(kept[k] != key);
            }
            if list@.contains(item) && item != key {
                let j = choose|j: int| 0 <= j < list.len() && list[j] == item;
                assert(kept@.contains(list[j]));
            }
        }
    }
    *list = kept;
}

/// Takes `node_id` out of the parents of the node `child`.
fn drop_parent(nodes: &mut Slab<Entry>, child: NodeId, node_id: NodeId)
    requires
        entries(*old(nodes)).contains_key(child),
    ensures
        touched(entries(*old(nodes)), entries(*final(nodes)), child),
        orphaned(entries(*old(nodes))[child], entries(*final(nodes))[child], node_id),
{
    let entry = take(nodes, child);
    let Entry { id, subscription_ids, node, use_count, cost } = entry;
    let node = match node {
        ATreeNode::LNode(LNode { parents, level, predicate }) => {
            let mut parents = parents;
            without_key(&mut parents, node_id);
            ATreeNode::LNode(LNode { parents, level, predicate })
        },
        ATreeNode::INode(INode { parents, children, level, operator }) => {
            let mut parents = parents;
            without_key(&mut parents, node_id);
            ATreeNode::INode(INode { parents, children, level, operator })
        },
        ATreeNode::RNode(root) => {
            assert(!Seq::<NodeId>::empty().contains(node_id));
            ATreeNode::RNode(root)
        },
    };
    put(nodes, child, Entry { id, subscription_ids, node, use_count, cost });
}

/// Counts one use less of a node that keeps another.
fn decrement_use_count(node_id: NodeId, nodes: &mut Slab<Entry>)
    requires
        entries(*old(nodes)).contains_key(node_id),
        entries(*old(nodes))[node_id].use_count > 1,
    ensures
        touched(entries(*old(nodes)), entries(*final(nodes)), node_id),
        entries(*final(nodes))[node_id] == (Entry {
            use_count: (entries(*old(nodes))[node_id].use_count - 1) as u32,
            ..entries(*old(nodes))[node_id]
        }),
{
    let mut entry = take(nodes, node_id);
    entry.use_count = entry.use_count - 1;
    put(nodes, node_id, entry);
}

/// Takes the node out of the entry set if nothing asks for its result first
/// any more.
fn unlist(node_id: NodeId, nodes: &Slab<Entry>, predicates: &mut Vec<NodeId>)
    requires
        entries(*nodes).contains_key(node_id),
    ensures
        if entries(*nodes)[node_id].leaf() && !evaluated_first(entries(*nodes)[node_id]) {
            removed(old(predicates)@, final(predicates)@, node_id)
        } else {
            final(predicates)@ == old(predicates)@
        },
{
    let entry = arena_get(nodes, node_id);
    if entry.is_leaf() && entry.parents().len() == 0 && entry.subscription_ids.len() == 0 {
        without_key(predicates, node_id);
    }
}

impl ATree {
    proof fn lemma_detached_indexed(&self, before: &ATree, key: NodeId)
        requires
            before.indexed(),
            detached(before.nodes(), self.nodes(), key),
            before.nodes()[key].subscription_ids@.len() == 0,
            self.attributes == before.attributes,
            self.strings == before.strings,
            self.nodes_by_ids@ == before.nodes_by_ids@,
            self.roots@ == before.roots@,
            self.max_level == before.max_level,
            forall|id: ExpressionId| #[trigger]
                self.expression_to_node@.contains_key(id) ==> before.expression_to_node@.contains_key(
                    id,
                ) && before.expression_to_node@[id] != key && self.expression_to_node@[id]
                    == before.expression_to_node@[id],
            self.predicates@.no_duplicates(),
            forall|item: NodeId| #[trigger]
                self.predicates@.contains(item) ==> before.predicates@.contains(item) && item
                    != key && (!before.nodes()[key].leaf() && (item
                    == before.nodes()[key].node.spec_children()[0] || item
                    == before.nodes()[key].node.spec_children()[1]) ==> evaluated_first(
                    self.nodes()[item],
                )),
            forall|item: NodeId|
                before.predicates@.contains(item) && item != key && evaluated_first(
                    self.nodes()[item],
                ) ==> #[trigger] self.predicates@.contains(item),
        ensures
            self.indexed(),
    {
        reveal(ATree::indexed);
        let nodes = self.nodes();
        let old_nodes = before.nodes();
        assert forall|node: NodeId| #[trigger] nodes.contains_key(node) implies old_nodes.contains_key(
            node,
        ) && node != key && same_core(old_nodes[node], nodes[node]) && nodes[node].subscription_ids
            == old_nodes[node].subscription_ids && (evaluated_first(nodes[node])
            ==> evaluated_first(old_nodes[node])) && (!(!old_nodes[key].leaf() && (node
            == old_nodes[key].node.spec_children()[0] || node
            == old_nodes[key].node.spec_children()[1])) ==> nodes[node] == old_nodes[node]) by {
            if nodes[node].node.spec_parents().len() > 0 {
                let parent = nodes[node].node.spec_parents()[0];
                assert(nodes[node].node.spec_parents().contains(parent));
            }
        }
        assert forall|id: ExpressionId| #[trigger]
            self.expressions().contains_key(id) implies nodes.contains_key(self.expressions()[id])
            && nodes[self.expressions()[id]].id == id by {
            assert(before.expressions().contains_key(id));
            assert(nodes.contains_key(before.expressions()[id]));
        }
        assert forall|subscriber: u64| #[trigger]
            self.subscribers().contains_key(subscriber) implies nodes.contains_key(
            self.subscribers()[subscriber],
        ) && nodes[self.subscribers()[subscriber]].subscription_ids@.contains(subscriber) by {
            assert(before.subscribers().contains_key(subscriber));
            assert(nodes.contains_key(before.subscribers()[subscriber]));
        }
        assert forall|i: int| 0 <= i < self.roots().len() implies nodes.contains_key(
            #[trigger] self.roots()[i],
        ) && nodes[self.roots()[i]].subscription_ids@.len() > 0 by {
            assert(old_nodes.contains_key(before.roots()[i]));
            assert(nodes.contains_key(before.roots()[i]));
        }
        assert forall|i: int| 0 <= i < self.entry_set().len() implies nodes.contains_key(
            #[trigger] self.entry_set()[i],
        ) && evaluated_first(nodes[self.entry_set()[i]]) by {
            let item = self.entry_set()[i];
            assert(self.predicates@.contains(item));
            let j = choose|j: int|
                0 <= j < before.predicates@.len() && before.predicates@[j] == item;
            assert(old_nodes.contains_key(before.entry_set()[j]));
            assert(nodes.contains_key(item));
        }
        assert forall|node: NodeId| #[trigger]
            nodes.contains_key(node) && evaluated_first(nodes[node])
            implies self.entry_set().contains(node) by {
            assert(before.entry_set().contains(node));
        }
    }

    /// Gives up one pending use of a node. A node that has no use left is
    /// taken out of the DAG: its children lose it as a parent, and each of
    /// them gives up the use that the node made of it.
    fn delete_node(&mut self, node_id: NodeId, Ghost(pending): Ghost<Multiset<NodeId>>)
        requires
            old(self).inv(pending),
            old(self).meant(),
            pending.count(node_id) >= 1,
        ensures
            final(self).inv(pending.remove(node_id)),
            final(self).meant(),
            final(self).meanings() == old(self).meanings(),
            released(old(self).nodes(), final(self).nodes()),
            final(self).nodes().dom().subset_of(old(self).nodes().dom()),
            final(self).attributes == old(self).attributes,
            final(self).strings == old(self).strings,
            final(self).nodes_by_ids@ == old(self).nodes_by_ids@,
            final(self).roots@ == old(self).roots@,
            old(self).nodes()[node_id].use_count > 1 ==> final(self).same_tables(old(self))
                && final(self).nodes() == old(self).nodes().insert(
                node_id,
                (Entry {
                    use_count: (old(self).nodes()[node_id].use_count - 1) as u32,
                    ..old(self).nodes()[node_id]
                }),
            ),
        decreases old(self).nodes().dom().len(),
    {
        proof {
            lemma_pending(self.nodes(), self.key_bound as nat, pending, node_id);
            lemma_node(self.nodes(), self.key_bound as nat, node_id);
        }
        let use_count = arena_get(&self.nodes, node_id).use_count;
        if use_count > 1 {
            decrement_use_count(node_id, &mut self.nodes);
            proof {
                let before = old(self).nodes();
                let after = self.nodes();
                lemma_touched_structure(before, after, node_id, self.key_bound as nat);
                lemma_touched_counted(
                    before,
                    after,
                    node_id,
                    self.key_bound as nat,
                    pending,
                    pending.remove(node_id),
                );
                self.lemma_touched_indexed(old(self), node_id);
                assert(preserved(before, after)) by {
                    assert forall|key: NodeId| #[trigger] before.contains_key(key)
                        implies after.contains_key(key) && same_core(before[key], after[key])
                        && (!(before[key].node is RNode) ==> !(after[key].node is RNode)) by {}
                }
                self.lemma_meant_kept(old(self));
                assert forall|key: NodeId| #[trigger] after.contains_key(key)
                    implies before.contains_key(key) && same_core(before[key], after[key])
                    && after[key].subscription_ids == before[key].subscription_ids by {
                    assert(before.contains_key(key));
                }
            }
            return ;
        }
        let entry = arena_remove(&mut self.nodes, node_id);
        let mapped = match self.expression_to_node.get(&entry.id) {
            Some(found) => *found == node_id,
            None => false,
        };
        if mapped {
            self.expression_to_node.remove(&entry.id);
        }
        without_key(&mut self.predicates, node_id);
        let ghost removed_nodes = self.nodes();
        let ghost before = old(self).nodes();
        proof {
            old(self).lemma_expressions();
            old(self).lemma_lists();
            assert forall|id: ExpressionId| #[trigger]
                self.expression_to_node@.contains_key(id)
                implies old(self).expression_to_node@.contains_key(id) && old(self).expression_to_node@[id] != node_id && self.expression_to_node@[id] == old(self).expression_to_node@[id] by {}
            assert(node_wf(before, node_id));
            assert forall|node: NodeId| #[trigger]
                before.contains_key(node) && before[node].node.spec_parents().contains(node_id)
                implies !(before[node_id].leaf()) && (node
                == before[node_id].node.spec_children()[0] || node
                == before[node_id].node.spec_children()[1]) by {
                lemma_node(before, self.key_bound as nat, node);
                let parents = before[node].node.spec_parents();
                let i = choose|i: int| 0 <= i < parents.len() && parents[i] == node_id;
                assert(parent_of(before, node, parents[i]));
            }
        }
        if entry.is_leaf() {
            proof {
                let after = self.nodes();
                assert(detached(before, after, node_id));
                lemma_detached_structure(before, after, node_id, self.key_bound as nat);
                lemma_detached_counted(
                    before,
                    after,
                    node_id,
                    self.key_bound as nat,
                    pending,
                    pending.remove(node_id),
                );
                self.lemma_detached_indexed(old(self), node_id);
                self.lemma_released(old(self), node_id);
                self.lemma_meant_released(old(self));
            }
            return ;
        }
        let first = entry.children()[0];
        let second = entry.children()[1];
        drop_parent(&mut self.nodes, first, node_id);
        let ghost dropped_first = self.nodes();
        if second != first {
            proof {
                assert(removed_nodes.contains_key(second));
            }
            drop_parent(&mut self.nodes, second, node_id);
        }
        let ghost predicates_before = self.predicates@;
        unlist(first, &self.nodes, &mut self.predicates);
        let ghost predicates_between = self.predicates@;
        if second != first {
            unlist(second, &self.nodes, &mut self.predicates);
        }
        let ghost now_pending = pending.remove(node_id).insert(first).insert(second);
        proof {
            let after = self.nodes();
            assert(after.dom() =~= before.dom().remove(node_id));
            assert forall|other: NodeId| #[trigger] after.contains_key(other) implies if other
                == first || other == second {
                orphaned(before[other], after[other], node_id)
            } else {
                after[other] == before[other]
            } by {
                assert(removed_nodes.contains_key(other));
                assert(dropped_first.contains_key(other));
                if second != first {
                    if other == first {
                        assert(after[first] == dropped_first[first]);
                    } else if other == second {
                        assert(dropped_first[second] == removed_nodes[second]);
                    }
                }
            }
            assert(detached(before, after, node_id));
            lemma_detached_structure(before, after, node_id, self.key_bound as nat);
            assert forall|node: NodeId| node != node_id implies #[trigger] now_pending.count(
                node,
            ) == pending.count(node) + points(before[node_id], node) by {}
            lemma_detached_counted(
                before,
                after,
                node_id,
                self.key_bound as nat,
                pending,
                now_pending,
            );
            assert forall|item: NodeId| #[trigger] self.predicates@.contains(item)
                implies old(self).predicates@.contains(item) && item != node_id && ((item == first
                || item == second) ==> evaluated_first(after[item])) by {
                assert(predicates_between.contains(item));
                assert(predicates_before.contains(item));
                if item == first || item == second {
                    self.lemma_entry_set_leaf(old(self), item);
                }
            }
            assert forall|item: NodeId|
                old(self).predicates@.contains(item) && item != node_id && evaluated_first(
                    after[item],
                ) implies #[trigger] self.predicates@.contains(item) by {
                assert(predicates_before.contains(item));
                assert(predicates_between.contains(item));
            }
            self.lemma_detached_indexed(old(self), node_id);
            self.lemma_released(old(self), node_id);
            self.lemma_meant_released(old(self));
            vstd::set_lib::lemma_len_subset(after.dom(), before.dom());
            assert(before.dom().remove(node_id).len() < before.dom().len());
        }
        let ghost middle = *self;
        self.delete_node(first, Ghost(now_pending));
        proof {
            vstd::set_lib::lemma_len_subset(self.nodes().dom(), middle.nodes().dom());
            assert(now_pending.remove(first).count(second) >= 1);
        }
        let ghost later = *self;
        self.delete_node(second, Ghost(now_pending.remove(first)));
        proof {
            assert(now_pending.remove(first).remove(second) =~= pending.remove(node_id));
            lemma_released_trans(old(self).nodes(), middle.nodes(), later.nodes());
            lemma_released_trans(old(self).nodes(), later.nodes(), self.nodes());
        }
    }

    /// What is left when a node without subscribers is taken out.
    proof fn lemma_released(&self, before: &ATree, key: NodeId)
        requires
            detached(before.nodes(), self.nodes(), key),
            before.nodes()[key].subscription_ids@.len() == 0,
        ensures
            released(before.nodes(), self.nodes()),
            self.nodes().dom().subset_of(before.nodes().dom()),
    {
        let after = self.nodes();
        let start = before.nodes();
        assert forall|node: NodeId| #[trigger] after.contains_key(node) implies start.contains_key(
            node,
        ) && same_core(start[node], after[node]) && after[node].subscription_ids
            == start[node].subscription_ids by {}
    }
}

/// What is left of what is left of some nodes is left of them.
pub proof fn lemma_released_trans(first: Nodes, second: Nodes, third: Nodes)
    requires
        released(first, second),
        released(second, third),
    ensures
        released(first, third),
{
    assert forall|key: NodeId| #[trigger] third.contains_key(key) implies first.contains_key(key)
        && same_core(first[key], third[key]) && third[key].subscription_ids
        == first[key].subscription_ids by {
        assert(second.contains_key(key));
    }
    assert forall|key: NodeId| #[trigger]
        first.contains_key(key) && first[key].subscription_ids@.len() > 0
        implies third.contains_key(key) by {
        assert(second.contains_key(key));
    }
}

impl ATree {
    proof fn lemma_unsubscribed_indexed(
        &self,
        before: &ATree,
        key: NodeId,
        subscriber: u64,
        index: int,
    )
        requires
            before.indexed(),
            touched(before.nodes(), self.nodes(), key),
            same_core(before.nodes()[key], self.nodes()[key]),
            self.nodes()[key].node.spec_parents() == before.nodes()[key].node.spec_parents(),
            last_at(before.nodes()[key].subscription_ids@, subscriber, index),
            self.nodes()[key].subscription_ids@ == before.nodes()[key].subscription_ids@.remove(
                index,
            ),
            self.attributes == before.attributes,
            self.strings == before.strings,
            self.expression_to_node@ == before.expression_to_node@,
            self.max_level == before.max_level,
            self.nodes_by_ids@ == if self.nodes()[key].subscription_ids@.contains(subscriber) {
                before.nodes_by_ids@
            } else {
                before.nodes_by_ids@.remove(subscriber)
            },
            if self.nodes()[key].subscription_ids@.len() == 0 {
                removed(before.roots@, self.roots@, key)
            } else {
                self.roots@ == before.roots@
            },
            if self.nodes()[key].leaf() && !evaluated_first(self.nodes()[key]) {
                removed(before.predicates@, self.predicates@, key)
            } else {
                self.predicates@ == before.predicates@
            },
        ensures
            self.indexed(),
    {
        reveal(ATree::indexed);
        let nodes = self.nodes();
        let old_nodes = before.nodes();
        let kept = old_nodes[key].subscription_ids@;
        let left = nodes[key].subscription_ids@;
        assert forall|node: NodeId| #[trigger] nodes.contains_key(node) implies old_nodes.contains_key(
            node,
        ) && same_core(old_nodes[node], nodes[node]) && nodes[node].node.spec_parents()
            == old_nodes[node].node.spec_parents() && (node != key ==> nodes[node]
            == old_nodes[node]) by {
            assert(old_nodes.contains_key(node));
        }
        assert forall|id: ExpressionId| #[trigger]
            self.expressions().contains_key(id) implies nodes.contains_key(self.expressions()[id])
            && nodes[self.expressions()[id]].id == id by {
            assert(before.expressions().contains_key(id));
            assert(nodes.contains_key(before.expressions()[id]));
        }
        assert forall|other: u64| #[trigger] self.subscribers().contains_key(other)
            implies nodes.contains_key(self.subscribers()[other])
            && nodes[self.subscribers()[other]].subscription_ids@.contains(other) by {
            assert(before.subscribers().contains_key(other));
            let node = before.subscribers()[other];
            assert(nodes.contains_key(node));
            if node == key && other != subscriber {
                let j = choose|j: int| 0 <= j < kept.len() && kept[j] == other;
                if j < index {
                    assert(left[j] == other);
                } else {
                    assert(left[j - 1] == other);
                }
            }
        }
        assert forall|i: int| 0 <= i < self.roots().len() implies nodes.contains_key(
            #[trigger] self.roots()[i],
        ) && nodes[self.roots()[i]].subscription_ids@.len() > 0 by {
            let item = self.roots()[i];
            assert(self.roots@.contains(item));
            assert(before.roots@.contains(item));
            let j = choose|j: int| 0 <= j < before.roots@.len() && before.roots@[j] == item;
            assert(old_nodes.contains_key(before.roots()[j]));
            assert(nodes.contains_key(item));
        }
        assert forall|node: NodeId| #[trigger]
            nodes.contains_key(node) && nodes[node].subscription_ids@.len() > 0
            implies self.roots().contains(node) by {
            assert(before.roots().contains(node));
        }
        assert forall|i: int| 0 <= i < self.entry_set().len() implies nodes.contains_key(
            #[trigger] self.entry_set()[i],
        ) && evaluated_first(nodes[self.entry_set()[i]]) by {
            let item = self.entry_set()[i];
            assert(self.predicates@.contains(item));
            assert(before.predicates@.contains(item));
            let j = choose|j: int|
                0 <= j < before.predicates@.len() && before.predicates@[j] == item;
            assert(old_nodes.contains_key(before.entry_set()[j]));
            assert(nodes.contains_key(item));
        }
        assert forall|node: NodeId| #[trigger]
            nodes.contains_key(node) && evaluated_first(nodes[node])
            implies self.entry_set().contains(node) by {
            assert(before.entry_set().contains(node));
        }
    }

    /// A node that the subscriber is attached to, if there is one: the first
    /// of the root set.
    fn find_subscriber(&self, subscription_id: u64) -> (found: Option<NodeId>)
        requires
            self.wf(),
        ensures
            match found {
                Some(node_id) => self.nodes().contains_key(node_id)
                    && self.nodes()[node_id].subscription_ids@.contains(subscription_id),
                None => !self.attached(subscription_id),
            },
    {
        let mut i: usize = 0;
        while i < self.roots.len()
            invariant
                i <= self.roots.len(),
                self.wf(),
                forall|k: int|
                    0 <= k < i ==> !self.nodes()[#[trigger] self.roots@[k]].subscription_ids@.contains(
                        subscription_id,
                    ),
            decreases self.roots.len() - i,
        {
            let node_id = self.roots[i];
            proof {
                self.lemma_roots(i as int);
            }
            let entry = arena_get(&self.nodes, node_id);
            if position_of(&entry.subscription_ids, subscription_id).is_some() {
                return Some(node_id);
            }
            i += 1;
        }
        proof {
            if self.attached(subscription_id) {
                let key = choose|key: NodeId|
                    self.nodes().contains_key(key)
                        && #[trigger] self.nodes()[key].subscription_ids@.contains(
                        subscription_id,
                    );
                let mentions = self.nodes()[key].subscription_ids@;
                assert(mentions.len() > 0);
                self.lemma_root_set_holds(key);
                let k = choose|k: int| 0 <= k < self.roots@.len() && self.roots@[k] == key;
                assert(!self.nodes()[self.roots@[k]].subscription_ids@.contains(subscription_id));
            }
        }
        None
    }

    /// No node is above the highest level of the nodes of the root set.
    proof fn lemma_releveled(&self, before: &ATree)
        requires
            before.inv(Multiset::empty()),
            self.nodes() == before.nodes(),
            self.roots@ == before.roots@,
            self.predicates@ == before.predicates@,
            self.expression_to_node@ == before.expression_to_node@,
            self.nodes_by_ids@ == before.nodes_by_ids@,
            self.attributes == before.attributes,
            self.strings == before.strings,
            self.key_bound == before.key_bound,
            self.max_level >= 1,
            forall|i: int|
                0 <= i < self.roots@.len() ==> self.nodes()[#[trigger] self.roots@[i]].node.spec_level()
                    <= self.max_level,
        ensures
            self.inv(Multiset::empty()),
    {
        reveal(ATree::indexed);
        let nodes = self.nodes();
        assert forall|key: NodeId| #[trigger] nodes.contains_key(key) implies nodes[key].node.spec_level()
            <= self.max_level() by {
            let above = lemma_used(nodes, self.key_bound as nat, key);
            assert(self.roots().contains(above));
            let i = choose|i: int| 0 <= i < self.roots@.len() && self.roots@[i] == above;
            assert(nodes[self.roots@[i]].node.spec_level() <= self.max_level);
        }
    }

    /// Delete an expression of a subscriber: the node that the subscriber was
    /// last attached to, or another one that it is attached to, loses the
    /// last mention of it and one use. A subscriber that is attached to no
    /// node is passed over.
    #[inline]
    pub fn delete(&mut self, subscription_id: u64)
        requires
            old(self).wf(),
        ensures
            final(self).wf(),
            final(self).attributes() == old(self).attributes(),
            final(self).strings() == old(self).strings(),
            final(self).deleted(old(self), subscription_id),
    {
        let mapped = match self.nodes_by_ids.get(&subscription_id) {
            Some(node_id) => Some(*node_id),
            None => None,
        };
        let node_id = match mapped {
            Some(node_id) => node_id,
            None => match self.find_subscriber(subscription_id) {
                Some(node_id) => node_id,
                None => {
                    return ;
                },
            },
        };
        proof {
            self.lemma_subscribers();
            lemma_node(self.nodes(), self.key_bound as nat, node_id);
        }
        let mut entry = take(&mut self.nodes, node_id);
        let index = match position_of(&entry.subscription_ids, subscription_id) {
            Some(index) => index,
            None => 0,
        };
        entry.subscription_ids.remove(index);
        let still = position_of(&entry.subscription_ids, subscription_id).is_some();
        let none_left = entry.subscription_ids.len() == 0;
        put(&mut self.nodes, node_id, entry);
        if !still {
            self.nodes_by_ids.remove(&subscription_id);
        }
        if none_left {
            without_key(&mut self.roots, node_id);
            unlist(node_id, &self.nodes, &mut self.predicates);
        }
        let ghost pending = Multiset::<NodeId>::empty().insert(node_id);
        proof {
            let before = old(self).nodes();
            let after = self.nodes();
            assert(touched(before, after, node_id));
            lemma_touched_structure(before, after, node_id, self.key_bound as nat);
            lemma_touched_counted(
                before,
                after,
                node_id,
                self.key_bound as nat,
                Multiset::<NodeId>::empty(),
                pending,
            );
            self.lemma_unsubscribed_indexed(old(self), node_id, subscription_id, index as int);
            assert(preserved(before, after)) by {
                assert forall|key: NodeId| #[trigger] before.contains_key(key)
                    implies after.contains_key(key) && same_core(before[key], after[key]) && (!(
                before[key].node is RNode) ==> !(after[key].node is RNode)) by {}
            }
            self.lemma_meant_kept(old(self));
        }
        let ghost middle = *self;
        self.delete_node(node_id, Ghost(pending));
        proof {
            assert(pending.remove(node_id) =~= Multiset::<NodeId>::empty());
            assert(old(self).nodes()[node_id].subscription_ids@.contains(subscription_id));
            let before = old(self).nodes();
            let between = middle.nodes();
            let after = self.nodes();
            assert forall|key: NodeId| #[trigger] after.contains_key(key) implies before.contains_key(
                key,
            ) && same_core(before[key], after[key]) && if key == node_id {
                exists|index: int|
                    last_at(before[key].subscription_ids@, subscription_id, index)
                        && after[key].subscription_ids@ == before[key].subscription_ids@.remove(
                        index,
                    )
            } else {
                after[key].subscription_ids@ == before[key].subscription_ids@
            } by {
                assert(between.contains_key(key));
                assert(before.contains_key(key));
                if key == node_id {
                    assert(last_at(before[key].subscription_ids@, subscription_id, index as int));
                } else {
                    assert(between[key] == before[key]);
                }
            }
            assert forall|key: NodeId| #[trigger]
                before.contains_key(key) && before[key].subscription_ids@.len() > (if key
                    == node_id {
                    1nat
                } else {
                    0nat
                }) implies after.contains_key(key) by {
                assert(between.contains_key(key));
                if key != node_id {
                    assert(between[key] == before[key]);
                }
            }
            assert(self.took(old(self), node_id, subscription_id));
        }
        let ghost taken = *self;
        self.relevel();
        proof {
            assert(taken.took(old(self), node_id, subscription_id));
            assert(self.took(old(self), node_id, subscription_id));
        }
    }

    /// Sets the highest level to that of the nodes of the root set.
    fn relevel(&mut self)
        requires
            old(self).inv(Multiset::empty()),
            old(self).meant(),
        ensures
            final(self).wf(),
            final(self).nodes() == old(self).nodes(),
            final(self).roots() == old(self).roots(),
            final(self).entry_set() == old(self).entry_set(),
            final(self).expressions() == old(self).expressions(),
            final(self).subscribers() == old(self).subscribers(),
            final(self).attributes() == old(self).attributes(),
            final(self).strings() == old(self).strings(),
            final(self).key_bound() == old(self).key_bound(),
            final(self).meanings() == old(self).meanings(),
    {
        proof {
            assert forall|i: int| 0 <= i < self.roots.len() implies self.nodes().contains_key(
                #[trigger] self.roots[i],
            ) by {
                self.lemma_roots(i);
            }
        }
        self.max_level = get_max_level(&self.roots, &self.nodes);
        proof {
            reveal(ATree::meant);
            self.lemma_releveled(old(self));
        }
    }
}

} // verus!
