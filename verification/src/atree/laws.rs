//! What holds of every tree and of every sequence of operations on it.
use crate::arena::{ExpressionId, no_entries, NodeId};
use crate::ast::OptimizedNode;
use crate::atree::search::{Report, satisfied};
use crate::atree::{ATree, evaluated_first, last_at, lemma_used};
use crate::dag::{
    agree, higher, lemma_node, lemma_results_kept, parent_of, part_of, result_of, same_core,
    stands_for,
};
use crate::events::AttributeValue;
use vstd::prelude::*;

verus! {

impl ATree {
    /// Every leaf is on level 1. Every other node has two children, is one
    /// level above the higher of them, and has the cheaper child first.
    pub proof fn lemma_levels_and_costs(&self, key: NodeId)
        requires
            self.wf(),
            self.nodes().contains_key(key),
        ensures
            self.nodes()[key].leaf() ==> self.nodes()[key].node.spec_level() == 1,
            !self.nodes()[key].leaf() ==> {
                let children = self.nodes()[key].node.spec_children();
                &&& children.len() == 2
                &&& self.nodes().contains_key(children[0])
                &&& self.nodes().contains_key(children[1])
                &&& self.nodes()[key].node.spec_level() == 1 + higher(
                    self.nodes()[children[0]].node.spec_level(),
                    self.nodes()[children[1]].node.spec_level(),
                )
                &&& self.nodes()[children[0]].cost <= self.nodes()[children[1]].cost
            },
    {
        lemma_node(self.nodes(), self.key_bound as nat, key);
    }

    /// A leaf is in the entry set if and only if it has a subscriber, or is
    /// the first child of a node, which is the child that an `and` is
    /// reached by, or the second child of an `or`.
    pub proof fn lemma_entry_set_membership(&self, key: NodeId)
        requires
            self.wf(),
            self.nodes().contains_key(key),
            self.nodes()[key].leaf(),
        ensures
            self.entry_set().contains(key) == (self.nodes()[key].subscription_ids@.len() > 0
                || exists|parent: NodeId| #[trigger] parent_of(self.nodes(), key, parent)),
    {
        reveal(ATree::indexed);
        let nodes = self.nodes();
        lemma_node(nodes, self.key_bound as nat, key);
        if self.entry_set().contains(key) {
            let i = choose|i: int| 0 <= i < self.entry_set().len() && self.entry_set()[i] == key;
            assert(evaluated_first(nodes[self.entry_set()[i]]));
            if nodes[key].subscription_ids@.len() == 0 {
                assert(parent_of(nodes, key, nodes[key].node.spec_parents()[0]));
            }
        }
        if exists|parent: NodeId| #[trigger] parent_of(nodes, key, parent) {
            let parent = choose|parent: NodeId| #[trigger] parent_of(nodes, key, parent);
            lemma_node(nodes, self.key_bound as nat, parent);
            assert(nodes[key].node.spec_parents().contains(parent));
        }
    }

    /// A tree in which no node has a subscriber has no node at all, and its
    /// root set and its entry set are empty.
    pub proof fn lemma_empty_without_subscribers(&self)
        requires
            self.wf(),
            forall|key: NodeId| #[trigger]
                self.nodes().contains_key(key) ==> self.nodes()[key].subscription_ids@.len() == 0,
        ensures
            self.nodes() == no_entries(),
            self.roots().len() == 0,
            self.entry_set().len() == 0,
    {
        reveal(ATree::indexed);
        let nodes = self.nodes();
        assert forall|key: NodeId| !nodes.contains_key(key) by {
            if nodes.contains_key(key) {
                let above = lemma_used(nodes, self.key_bound as nat, key);
            }
        }
        assert(nodes =~= no_entries());
        if self.roots().len() > 0 {
            assert(nodes.contains_key(self.roots()[0]));
        }
        if self.entry_set().len() > 0 {
            assert(nodes.contains_key(self.entry_set()[0]));
        }
    }

    /// An expression that is inserted after one with the same id shares its
    /// node, unless the node cannot take one more use: no node is new, and
    /// the node has one subscriber and one use more.
    pub proof fn lemma_structural_sharing(
        &self,
        before: &ATree,
        after: &ATree,
        one: u64,
        other: u64,
        id: ExpressionId,
    )
        requires
            self.inserted(before, one, id),
            after.inserted(self, other, id),
            self.nodes()[self.expressions()[id]].use_count < u32::MAX,
        ensures
            after.subscribers()[other] == self.subscribers()[one],
            after.nodes().dom() == self.nodes().dom(),
            after.nodes()[self.subscribers()[one]].subscription_ids@
                == self.nodes()[self.subscribers()[one]].subscription_ids@.push(other),
            after.nodes()[self.subscribers()[one]].use_count
                == self.nodes()[self.subscribers()[one]].use_count + 1,
    {
        assert(self.shares(id));
        assert(after.nodes().contains_key(self.subscribers()[one]));
    }

    /// The matches of a search are determined by the tree and the event: two
    /// reports of the same search hold the same subscribers.
    pub proof fn lemma_search_is_determined(&self, values: Seq<AttributeValue>, one: Report, other: Report)
        requires
            forall|subscriber: u64|
                #[trigger] one.spec_matches().contains(subscriber) == satisfied(
                    self.nodes(),
                    values,
                    subscriber,
                ),
            forall|subscriber: u64|
                #[trigger] other.spec_matches().contains(subscriber) == satisfied(
                    self.nodes(),
                    values,
                    subscriber,
                ),
        ensures
            forall|subscriber: u64|
                one.spec_matches().contains(subscriber) == other.spec_matches().contains(subscriber),
    {
    }

    /// Deleting a subscriber a second time changes nothing, if the subscriber
    /// was attached to one node and mentioned once.
    pub proof fn lemma_delete_twice(&self, before: &ATree, after: &ATree, subscriber: u64)
        requires
            self.deleted(before, subscriber),
            after.deleted(self, subscriber),
            forall|one: NodeId, other: NodeId, i: int, j: int|
                #![trigger before.nodes()[one].subscription_ids@[i], before.nodes()[other].subscription_ids@[j]]
                before.nodes().contains_key(one) && before.nodes().contains_key(other) && 0 <= i
                    < before.nodes()[one].subscription_ids@.len() && 0 <= j
                    < before.nodes()[other].subscription_ids@.len()
                    && before.nodes()[one].subscription_ids@[i] == subscriber
                    && before.nodes()[other].subscription_ids@[j] == subscriber ==> one == other
                    && i == j,
        ensures
            after.same_as(self),
    {
        if before.attached(subscriber) {
            let target = choose|target: NodeId| #[trigger] self.took(before, target, subscriber);
            let mentions = before.nodes()[target].subscription_ids@;
            let at = choose|at: int| 0 <= at < mentions.len() && mentions[at] == subscriber;
            if self.attached(subscriber) {
                let key = choose|key: NodeId|
                    self.nodes().contains_key(key)
                        && #[trigger] self.nodes()[key].subscription_ids@.contains(subscriber);
                let left = self.nodes()[key].subscription_ids@;
                let k = choose|k: int| 0 <= k < left.len() && left[k] == subscriber;
                assert(before.nodes().contains_key(key));
                if key == target {
                    let index = choose|index: int|
                        last_at(mentions, subscriber, index) && left == mentions.remove(index);
                    if k < index {
                        assert(mentions[k] == subscriber);
                        assert(mentions[index] == subscriber);
                    } else {
                        assert(mentions[k + 1] == subscriber);
                        assert(mentions[index] == subscriber);
                    }
                } else {
                    assert(before.nodes()[key].subscription_ids@[k] == subscriber);
                    assert(mentions[at] == subscriber);
                }
                assert(false);
            }
        } else {
            assert(self.nodes() == before.nodes());
        }
    }

    /// Whether two trees are in the same state but for the order in which
    /// the use counts and the subscribers came about: they hold the same
    /// nodes with the same subscribers, uses, parents and children, and the
    /// same root set, entry set and tables.
    pub open spec fn equivalent(&self, other: &ATree) -> bool {
        &&& self.nodes().dom() == other.nodes().dom()
        &&& forall|key: NodeId| #[trigger]
            self.nodes().contains_key(key) ==> {
                &&& same_core(other.nodes()[key], self.nodes()[key])
                &&& self.nodes()[key].subscription_ids@ == other.nodes()[key].subscription_ids@
                &&& self.nodes()[key].use_count == other.nodes()[key].use_count
                &&& self.nodes()[key].node.spec_parents() == other.nodes()[key].node.spec_parents()
            }
        &&& self.roots() == other.roots()
        &&& self.entry_set() == other.entry_set()
        &&& self.expressions() == other.expressions()
        &&& self.subscribers() == other.subscribers()
        &&& self.attributes() == other.attributes()
        &&& self.max_level() == other.max_level()
        &&& self.key_bound() == other.key_bound()
    }

    /// Inserting an expression twice for a subscriber and deleting the
    /// subscriber once leaves the tree as it was after the first insertion,
    /// unless the node could not take the second use.
    pub proof fn lemma_insert_twice_delete_once(
        &self,
        start: &ATree,
        twice: &ATree,
        end: &ATree,
        subscriber: u64,
        id: ExpressionId,
    )
        requires
            self.wf(),
            self.inserted(start, subscriber, id),
            twice.inserted(self, subscriber, id),
            self.nodes()[self.expressions()[id]].use_count < u32::MAX,
            end.deleted(twice, subscriber),
            end.wf(),
            end.attributes() == twice.attributes(),
            twice.attributes() == self.attributes(),
        ensures
            end.equivalent(self),
    {
        reveal(ATree::indexed);
        let target = self.expressions()[id];
        let once = self.nodes()[target].subscription_ids@;
        let both = twice.nodes()[target].subscription_ids@;
        assert(self.shares(id));
        assert(twice.shared(self, target));
        assert(twice.nodes().contains_key(target));
        assert(both == once.push(subscriber));
        lemma_node(self.nodes(), self.key_bound as nat, target);
        assert(twice.nodes()[target].use_count > 1);
        assert(both[both.len() - 1] == subscriber);
        assert(twice.nodes()[target].subscription_ids@.contains(subscriber));
        assert(twice.attached(subscriber));
        let taken = choose|taken: NodeId| #[trigger] end.took(twice, taken, subscriber);
        assert(taken == target);
        assert(end.unlinked(twice, target));
        assert(end.nodes().contains_key(target));
        let left = end.nodes()[target].subscription_ids@;
        let index = choose|index: int|
            last_at(both, subscriber, index) && left == both.remove(index);
        assert(both[both.len() - 1] == subscriber);
        assert(index == both.len() - 1);
        assert(left =~= once);
        assert(self.nodes().contains_key(target));
        let kept = if start.nodes().contains_key(target) {
            start.nodes()[target].subscription_ids@
        } else {
            Seq::<u64>::empty()
        };
        assert(once == kept.push(subscriber));
        assert(once[once.len() - 1] == subscriber);
        assert(once.contains(subscriber));
        assert(self.roots().contains(target));
        assert(self.entry_set().contains(target) || !self.nodes()[target].leaf()) by {
            if self.nodes()[target].leaf() {
                assert(evaluated_first(self.nodes()[target]));
            }
        }
        assert(end.subscribers() =~= self.subscribers());
        assert(end.roots() == self.roots());
        assert forall|i: int| 0 <= i < self.roots().len() implies end.nodes()[#[trigger] end.roots()[i]].node.spec_level()
            == self.nodes()[self.roots()[i]].node.spec_level() by {
            assert(self.nodes().contains_key(self.roots()[i]));
            assert(twice.nodes().contains_key(self.roots()[i]));
            if self.roots()[i] != target {
                assert(end.nodes()[self.roots()[i]] == twice.nodes()[self.roots()[i]]);
                assert(twice.nodes()[self.roots()[i]] == self.nodes()[self.roots()[i]]);
            }
        }
        assert(end.max_level() == self.max_level()) by {
            if end.max_level() != 1 {
                let i = choose|i: int|
                    0 <= i < end.roots().len() && end.nodes()[#[trigger] end.roots()[i]].node.spec_level()
                        == end.max_level();
                assert(self.nodes().contains_key(self.roots()[i]));
            }
            if self.max_level() != 1 {
                let i = choose|i: int|
                    0 <= i < self.roots().len() && self.nodes()[#[trigger] self.roots()[i]].node.spec_level()
                        == self.max_level();
                assert(end.nodes().contains_key(end.roots()[i]));
            }
        }
        assert forall|key: NodeId| #[trigger] end.nodes().contains_key(key) implies {
            &&& same_core(self.nodes()[key], end.nodes()[key])
            &&& end.nodes()[key].subscription_ids@ == self.nodes()[key].subscription_ids@
            &&& end.nodes()[key].use_count == self.nodes()[key].use_count
            &&& end.nodes()[key].node.spec_parents() == self.nodes()[key].node.spec_parents()
        } by {
            assert(twice.nodes().contains_key(key));
            assert(self.nodes().contains_key(key));
            if key != target {
                assert(end.nodes()[key] == twice.nodes()[key]);
                assert(twice.nodes()[key] == self.nodes()[key]);
            }
        }
    }

    /// An insertion leaves every node with the result that it had.
    pub proof fn lemma_insert_keeps_results(
        &self,
        before: &ATree,
        subscriber: u64,
        id: ExpressionId,
        key: NodeId,
        values: Seq<AttributeValue>,
    )
        requires
            before.wf(),
            self.inserted(before, subscriber, id),
            before.nodes().contains_key(key),
        ensures
            result_of(self.nodes(), key, values) == result_of(before.nodes(), key, values),
    {
        lemma_results_kept(before.nodes(), self.nodes(), before.key_bound as nat, key, values);
    }

    /// A deletion leaves every node that it leaves with the result that it
    /// had.
    pub proof fn lemma_delete_keeps_results(
        &self,
        before: &ATree,
        subscriber: u64,
        key: NodeId,
        values: Seq<AttributeValue>,
    )
        requires
            self.wf(),
            self.deleted(before, subscriber),
            self.nodes().contains_key(key),
        ensures
            result_of(self.nodes(), key, values) == result_of(before.nodes(), key, values),
    {
        if before.attached(subscriber) {
            let target = choose|target: NodeId| #[trigger] self.took(before, target, subscriber);
            lemma_results_kept(self.nodes(), before.nodes(), self.key_bound as nat, key, values);
        }
    }

    /// A subscriber whose nodes all have the results of an expression is
    /// among the matches of a search if and only if it is attached to a node
    /// and the result of the expression on the event is true.
    pub proof fn lemma_matches_by_expression(
        &self,
        values: Seq<AttributeValue>,
        subscriber: u64,
        expression: OptimizedNode,
    )
        requires
            forall|key: NodeId|
                self.nodes().contains_key(key) && #[trigger] self.nodes()[key].subscription_ids@.contains(
                    subscriber,
                ) ==> stands_for(self.nodes(), key, expression),
        ensures
            satisfied(self.nodes(), values, subscriber) == (expression.holds(values) == Some(true)
                && exists|key: NodeId|
                self.nodes().contains_key(key) && #[trigger] self.nodes()[key].subscription_ids@.contains(
                    subscriber,
                )),
    {
        let nodes = self.nodes();
        if satisfied(nodes, values, subscriber) {
            let key = choose|key: NodeId|
                nodes.contains_key(key) && #[trigger] nodes[key].subscription_ids@.contains(
                    subscriber,
                ) && result_of(nodes, key, values) == Some(true);
            assert(stands_for(nodes, key, expression));
        }
        if expression.holds(values) == Some(true) && exists|key: NodeId|
            nodes.contains_key(key) && #[trigger] nodes[key].subscription_ids@.contains(
                subscriber,
            ) {
            let key = choose|key: NodeId|
                nodes.contains_key(key) && #[trigger] nodes[key].subscription_ids@.contains(
                    subscriber,
                );
            assert(stands_for(nodes, key, expression));
            assert(result_of(nodes, key, values) == expression.holds(values));
        }
    }
}

impl ATree {
    /// An expression that is one predicate meets no other expression in a tree
    /// without nodes.
    pub proof fn lemma_first_predicate_is_unambiguous(&self, root: OptimizedNode)
        requires
            self.nodes() == no_entries(),
            root is Value,
        ensures
            self.unambiguous(root),
    {
        assert forall|one: OptimizedNode, other: OptimizedNode|
            #![trigger part_of(one, root), part_of(other, root)]
            part_of(one, root) && part_of(other, root) && one.spec_id() == other.spec_id()
            implies agree(one, other) by {}
    }

    /// After an expression was inserted for a subscriber that was attached to
    /// no node, and met no expression with its id and other results, the
    /// subscriber is among the matches of a search if and only if the result
    /// of the expression on the event is true.
    pub proof fn lemma_inserted_is_matched(
        &self,
        before: &ATree,
        subscriber: u64,
        root: OptimizedNode,
        values: Seq<AttributeValue>,
        matches: Seq<u64>,
    )
        requires
            !before.attached(subscriber),
            self.inserted(before, subscriber, root.spec_id()),
            stands_for(self.nodes(), self.subscribers()[subscriber], root),
            forall|found: u64|
                #[trigger] matches.contains(found) == satisfied(self.nodes(), values, found),
        ensures
            matches.contains(subscriber) == (root.holds(values) == Some(true)),
    {
        let nodes = self.nodes();
        let target = self.subscribers()[subscriber];
        assert forall|key: NodeId|
            nodes.contains_key(key) && #[trigger] nodes[key].subscription_ids@.contains(subscriber)
            implies stands_for(nodes, key, root) by {
            if key != target {
                if before.nodes().contains_key(key) {
                    assert(before.nodes()[key].subscription_ids@.contains(subscriber));
                } else {
                    assert(!Seq::<u64>::empty().contains(subscriber));
                }
            }
        }
        self.lemma_matches_by_expression(values, subscriber, root);
        let mentions = nodes[target].subscription_ids@;
        assert(mentions[mentions.len() - 1] == subscriber);
        assert(nodes[target].subscription_ids@.contains(subscriber));
    }
}

} // verus!
