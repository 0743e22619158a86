//! What holds of the nodes of the DAG, and the lemmas by which inserting,
//! deleting and searching keep it.
use crate::arena::{Entry, NodeId};
use crate::ast::{Operator, OptimizedNode};
use crate::events::AttributeValue;
use vstd::multiset::Multiset;
use vstd::prelude::*;

verus! {

/// The nodes of a DAG, by key.
pub type Nodes = Map<NodeId, Entry>;

/// How many of the children of a node are `key`.
pub open spec fn points(entry: Entry, key: NodeId) -> nat {
    let children = entry.node.spec_children();
    if children.len() == 2 {
        (if children[0] == key {
            1nat
        } else {
            0nat
        }) + (if children[1] == key {
            1nat
        } else {
            0nat
        })
    } else {
        0
    }
}

/// How many of the children of the node at `position`, if there is one, are
/// `key`.
pub open spec fn contribution(nodes: Nodes, position: NodeId, key: NodeId) -> nat {
    if nodes.contains_key(position) {
        points(nodes[position], key)
    } else {
        0
    }
}

/// How often `key` is the child of a node with a key below `bound`.
pub open spec fn refs(nodes: Nodes, key: NodeId, bound: nat) -> nat
    decreases bound,
{
    if bound == 0 {
        0
    } else {
        refs(nodes, key, (bound - 1) as nat) + contribution(nodes, (bound - 1) as usize, key)
    }
}

/// The larger of two levels.
pub open spec fn higher(left: usize, right: usize) -> usize {
    if left >= right {
        left
    } else {
        right
    }
}

/// Whether `parent` may stand among the parents of `key`: it is a node whose
/// first child is `key`, or an `or` whose second child is `key`.
pub open spec fn parent_of(nodes: Nodes, key: NodeId, parent: NodeId) -> bool {
    &&& nodes.contains_key(parent)
    &&& nodes[parent].node.spec_children().len() == 2
    &&& (nodes[parent].node.spec_children()[0] == key || (nodes[parent].node.spec_operator()
        == Operator::Or && nodes[parent].node.spec_children()[1] == key))
}

/// What holds of each node. A leaf has level 1. Another node has two
/// children, is one level above the higher of them, has the cheaper child
/// first, and is a parent of its first child and, if it is an `or`, of its
/// second child. Every parent of a node has it as such a child.
pub open spec fn node_wf(nodes: Nodes, key: NodeId) -> bool {
    let entry = nodes[key];
    let children = entry.node.spec_children();
    &&& entry.use_count >= 1
    &&& (entry.leaf() ==> entry.node.spec_level() == 1)
    &&& (!entry.leaf() ==> {
        &&& children.len() == 2
        &&& nodes.contains_key(children[0])
        &&& nodes.contains_key(children[1])
        &&& entry.node.spec_level() == 1 + higher(
            nodes[children[0]].node.spec_level(),
            nodes[children[1]].node.spec_level(),
        )
        &&& nodes[children[0]].cost <= nodes[children[1]].cost
        &&& nodes[children[0]].node.spec_parents().contains(key)
        &&& (entry.node.spec_operator() == Operator::Or
            ==> nodes[children[1]].node.spec_parents().contains(key))
    })
    &&& forall|i: int|
        0 <= i < entry.node.spec_parents().len() ==> parent_of(
            nodes,
            key,
            #[trigger] entry.node.spec_parents()[i],
        )
}

/// What holds of the nodes together: they are finitely many, with keys below
/// the bound, and each is well formed.
#[verifier::opaque]
pub open spec fn structure(nodes: Nodes, bound: nat) -> bool {
    &&& nodes.dom().finite()
    &&& forall|key: NodeId| #[trigger] nodes.contains_key(key) ==> key < bound
    &&& forall|key: NodeId| nodes.contains_key(key) ==> #[trigger] node_wf(nodes, key)
}

/// The use count of every node is the number of its subscribers, of the
/// nodes that have it as a child, counted once for each child, and of the
/// uses that are `pending`: those of an operation under way.
#[verifier::opaque]
pub open spec fn counted(nodes: Nodes, bound: nat, pending: Multiset<NodeId>) -> bool {
    &&& forall|key: NodeId| #[trigger]
        nodes.contains_key(key) ==> nodes[key].use_count == nodes[key].subscription_ids@.len()
            + refs(nodes, key, bound) + pending.count(key)
    &&& forall|key: NodeId| pending.count(key) > 0 ==> #[trigger] nodes.contains_key(key)
}

/// The result of a node on the values of an event: that of its predicate for
/// a leaf, that of its operator on the results of its children otherwise.
/// `fuel` bounds the descent; the level of the node is enough.
pub open spec fn result_within(
    nodes: Nodes,
    key: NodeId,
    values: Seq<AttributeValue>,
    fuel: nat,
) -> Option<bool>
    decreases fuel,
{
    if fuel == 0 || !nodes.contains_key(key) {
        None
    } else {
        match nodes[key].node {
            crate::arena::ATreeNode::LNode(leaf) => leaf.predicate.holds(values),
            _ => {
                let children = nodes[key].node.spec_children();
                nodes[key].node.spec_operator().combine(
                    result_within(nodes, children[0], values, (fuel - 1) as nat),
                    result_within(nodes, children[1], values, (fuel - 1) as nat),
                )
            },
        }
    }
}

/// The result of a node on the values of an event.
pub open spec fn result_of(nodes: Nodes, key: NodeId, values: Seq<AttributeValue>) -> Option<bool> {
    result_within(nodes, key, values, nodes[key].node.spec_level() as nat)
}

/// A node is the child of as many nodes in two DAGs if every place gives it
/// as many children in both.
pub proof fn lemma_refs_same(before: Nodes, after: Nodes, key: NodeId, bound: nat)
    requires
        forall|position: NodeId|
            position < bound ==> contribution(before, position, key) == contribution(
                after,
                position,
                key,
            ),
    ensures
        refs(before, key, bound) == refs(after, key, bound),
    decreases bound,
{
    if bound > 0 {
        lemma_refs_same(before, after, key, (bound - 1) as nat);
    }
}

/// What a change at one place does to the number of nodes that a node is the
/// child of.
pub proof fn lemma_refs_change(
    before: Nodes,
    after: Nodes,
    changed: NodeId,
    key: NodeId,
    bound: nat,
)
    requires
        changed < bound,
        bound <= usize::MAX + 1,
        forall|position: NodeId|
            position < bound && position != changed ==> contribution(before, position, key)
                == contribution(after, position, key),
    ensures
        refs(after, key, bound) + contribution(before, changed, key) == refs(before, key, bound)
            + contribution(after, changed, key),
    decreases bound,
{
    if bound - 1 == changed {
        lemma_refs_same(before, after, key, (bound - 1) as nat);
    } else {
        lemma_refs_change(before, after, changed, key, (bound - 1) as nat);
    }
}

/// The places beyond all keys count for nothing.
pub proof fn lemma_refs_extend(nodes: Nodes, key: NodeId, bound: nat, larger: nat)
    requires
        bound <= larger <= usize::MAX + 1,
        forall|position: NodeId| #[trigger] nodes.contains_key(position) ==> position < bound,
    ensures
        refs(nodes, key, larger) == refs(nodes, key, bound),
    decreases larger,
{
    if larger > bound {
        lemma_refs_extend(nodes, key, bound, (larger - 1) as nat);
    }
}

/// A node that is the child of a node is the child of one that can be
/// named.
pub proof fn lemma_refs_witness(nodes: Nodes, key: NodeId, bound: nat) -> (position: NodeId)
    requires
        refs(nodes, key, bound) > 0,
    ensures
        nodes.contains_key(position),
        points(nodes[position], key) > 0,
    decreases bound,
{
    if contribution(nodes, (bound - 1) as usize, key) > 0 {
        (bound - 1) as usize
    } else {
        lemma_refs_witness(nodes, key, (bound - 1) as nat)
    }
}

proof fn lemma_bounded_set(keys: Set<NodeId>, bound: nat)
    requires
        keys.finite(),
        forall|key: NodeId| keys.contains(key) ==> key < bound,
    ensures
        keys.len() <= bound,
    decreases bound,
{
    if bound == 0 {
        assert(keys =~= Set::<NodeId>::empty());
    } else {
        let last = (bound - 1) as usize;
        let rest = keys.remove(last);
        assert forall|key: NodeId| rest.contains(key) implies key < bound - 1 by {
            assert(keys.contains(key));
        }
        lemma_bounded_set(rest, (bound - 1) as nat);
    }
}

proof fn lemma_chain(nodes: Nodes, bound: nat, key: NodeId) -> (chain: Set<NodeId>)
    requires
        structure(nodes, bound),
        nodes.contains_key(key),
    ensures
        chain.finite(),
        chain.len() == nodes[key].node.spec_level(),
        forall|member: NodeId|
            chain.contains(member) ==> nodes.contains_key(member)
                && nodes[member].node.spec_level() <= nodes[key].node.spec_level(),
    decreases nodes[key].node.spec_level(),
{
    reveal(structure);
    assert(node_wf(nodes, key));
    if nodes[key].leaf() {
        set![key]
    } else {
        let children = nodes[key].node.spec_children();
        let child = if nodes[children[0]].node.spec_level() >= nodes[children[1]].node.spec_level() {
            children[0]
        } else {
            children[1]
        };
        let below = lemma_chain(nodes, bound, child);
        below.insert(key)
    }
}

/// No node is on a higher level than there can be nodes.
pub proof fn lemma_level_is_bounded(nodes: Nodes, bound: nat, key: NodeId)
    requires
        structure(nodes, bound),
        nodes.contains_key(key),
    ensures
        1 <= nodes[key].node.spec_level() <= bound,
{
    reveal(structure);
    assert(node_wf(nodes, key));
    let chain = lemma_chain(nodes, bound, key);
    lemma_bounded_set(chain, bound);
}

/// Whether two entries are the same node but for their parents, their
/// subscribers and their use count: a root may have become an inner node.
pub open spec fn same_core(before: Entry, after: Entry) -> bool {
    &&& after.id == before.id
    &&& after.cost == before.cost
    &&& after.node.spec_level() == before.node.spec_level()
    &&& after.node.spec_children() == before.node.spec_children()
    &&& after.node.spec_operator() == before.node.spec_operator()
    &&& after.leaf() == before.leaf()
    &&& (before.leaf() ==> after.node->LNode_0.predicate == before.node->LNode_0.predicate)
}

/// Whether `after` holds the nodes of `before`, all but `key` unchanged.
pub open spec fn touched(before: Nodes, after: Nodes, key: NodeId) -> bool {
    &&& after.dom() == before.dom()
    &&& before.contains_key(key)
    &&& forall|other: NodeId|
        other != key && #[trigger] before.contains_key(other) ==> after[other] == before[other]
}

/// Whether `after` is `before` followed by `added` alone, any number of
/// times.
pub open spec fn extended(before: Seq<NodeId>, after: Seq<NodeId>, added: NodeId) -> bool {
    &&& before.len() <= after.len()
    &&& forall|i: int| 0 <= i < before.len() ==> #[trigger] after[i] == before[i]
    &&& forall|i: int| before.len() <= i < after.len() ==> #[trigger] after[i] == added
}

/// Whether the child is as before, but for the parent that it may have
/// gained.
pub open spec fn adopted(before: Entry, after: Entry, parent: NodeId) -> bool {
    &&& same_core(before, after)
    &&& after.subscription_ids == before.subscription_ids
    &&& after.use_count == before.use_count
    &&& !(after.node is RNode)
    &&& extended(before.node.spec_parents(), after.node.spec_parents(), parent)
}

/// Whether `after` is `before` with the new node `key` above the children
/// `first` and `second`, which has become their parent as far as its
/// operator asks.
pub open spec fn attached(
    before: Nodes,
    after: Nodes,
    key: NodeId,
    first: NodeId,
    second: NodeId,
) -> bool {
    let entry = after[key];
    &&& !before.contains_key(key)
    &&& before.contains_key(first)
    &&& before.contains_key(second)
    &&& after.dom() == before.dom().insert(key)
    &&& forall|other: NodeId|
        other != first && other != second && #[trigger] before.contains_key(other) ==> after[other]
            == before[other]
    &&& adopted(before[first], after[first], key)
    &&& adopted(before[second], after[second], key)
    &&& after[first].node.spec_parents().contains(key)
    &&& (entry.node.spec_operator() == Operator::Or ==> after[second].node.spec_parents().contains(
        key,
    ))
    &&& (entry.node.spec_operator() == Operator::And && first != second
        ==> after[second].node.spec_parents() == before[second].node.spec_parents())
    &&& !entry.leaf()
    &&& entry.node.spec_children() == seq![first, second]
    &&& entry.node.spec_parents() == Seq::<NodeId>::empty()
    &&& entry.node.spec_level() == 1 + higher(
        before[first].node.spec_level(),
        before[second].node.spec_level(),
    )
    &&& entry.use_count == 1
    &&& before[first].cost <= before[second].cost
}

/// A DAG stays well formed when a node is stored above two of its nodes.
pub proof fn lemma_attached_structure(
    before: Nodes,
    after: Nodes,
    key: NodeId,
    first: NodeId,
    second: NodeId,
    bound: nat,
    larger: nat,
)
    requires
        structure(before, bound),
        attached(before, after, key, first, second),
        bound <= larger,
        key < larger,
    ensures
        structure(after, larger),
{
    reveal(structure);
    assert forall|node: NodeId| after.contains_key(node) implies #[trigger] node_wf(after, node) by {
        if node == key {
            assert(after[key].node.spec_children()[0] == first);
            assert(after[key].node.spec_children()[1] == second);
            assert(node_wf(after, key));
        } else {
            assert(before.contains_key(node));
            assert(node_wf(before, node));
            lemma_node_stays(before, after, key, first, second, node);
        }
    }
}

proof fn lemma_core(before: Nodes, after: Nodes, key: NodeId, first: NodeId, second: NodeId, node: NodeId)
    requires
        attached(before, after, key, first, second),
        before.contains_key(node),
    ensures
        after.contains_key(node),
        same_core(before[node], after[node]),
        after[node].use_count == before[node].use_count,
        after[node].subscription_ids == before[node].subscription_ids,
        extended(before[node].node.spec_parents(), after[node].node.spec_parents(), key),
        !(node == first || (node == second && after[key].node.spec_operator() == Operator::Or))
            ==> after[node].node.spec_parents() == before[node].node.spec_parents(),
{
    if node != first && node != second {
        assert(after[node] == before[node]);
    }
}

proof fn lemma_node_stays(
    before: Nodes,
    after: Nodes,
    key: NodeId,
    first: NodeId,
    second: NodeId,
    node: NodeId,
)
    requires
        attached(before, after, key, first, second),
        before.contains_key(node),
        node_wf(before, node),
        forall|other: NodeId| before.contains_key(other) ==> #[trigger] node_wf(before, other),
    ensures
        node_wf(after, node),
{
    lemma_core(before, after, key, first, second, node);
    let entry = after[node];
    let children = entry.node.spec_children();
    if !entry.leaf() {
        lemma_core(before, after, key, first, second, children[0]);
        lemma_core(before, after, key, first, second, children[1]);
        let parents = before[children[0]].node.spec_parents();
        let i = choose|i: int| 0 <= i < parents.len() && parents[i] == node;
        assert(after[children[0]].node.spec_parents()[i] == node);
        if entry.node.spec_operator() == Operator::Or {
            let parents = before[children[1]].node.spec_parents();
            let i = choose|i: int| 0 <= i < parents.len() && parents[i] == node;
            assert(after[children[1]].node.spec_parents()[i] == node);
        }
    }
    assert forall|i: int| 0 <= i < entry.node.spec_parents().len() implies parent_of(
        after,
        node,
        #[trigger] entry.node.spec_parents()[i],
    ) by {
        let parent = entry.node.spec_parents()[i];
        if i < before[node].node.spec_parents().len() {
            assert(parent == before[node].node.spec_parents()[i]);
            assert(parent_of(before, node, parent));
            lemma_core(before, after, key, first, second, parent);
        } else {
            assert(parent == key);
        }
    }
}

/// The use counts stay right when a node is stored above two nodes that
/// each have a pending use: the pending uses become those of the new node.
pub proof fn lemma_attached_counted(
    before: Nodes,
    after: Nodes,
    key: NodeId,
    first: NodeId,
    second: NodeId,
    bound: nat,
    larger: nat,
    pending: Multiset<NodeId>,
    now_pending: Multiset<NodeId>,
)
    requires
        structure(before, bound),
        counted(before, bound, pending),
        attached(before, after, key, first, second),
        bound <= larger <= usize::MAX + 1,
        key < larger,
        pending.count(first) >= 1,
        pending.count(second) >= 1,
        first == second ==> pending.count(first) >= 2,
        forall|node: NodeId|
            node != key ==> #[trigger] now_pending.count(node) + points(after[key], node)
                == pending.count(node),
        now_pending.count(key) + after[key].subscription_ids@.len() == 1,
    ensures
        counted(after, larger, now_pending),
{
    reveal(structure);
    reveal(counted);
    assert forall|node: NodeId| #[trigger] after.contains_key(node) implies after[node].use_count
        == after[node].subscription_ids@.len() + refs(after, node, larger) + now_pending.count(
        node,
    ) by {
        assert forall|position: NodeId|
            position < larger && position != key implies contribution(before, position, node)
            == contribution(after, position, node) by {
            if before.contains_key(position) {
                lemma_core(before, after, key, first, second, position);
            }
        }
        lemma_refs_extend(before, node, bound, larger);
        lemma_refs_change(before, after, key, node, larger);
        if node == key {
            if refs(before, key, bound) > 0 {
                let position = lemma_refs_witness(before, key, bound);
                assert(node_wf(before, position));
            }
            assert(points(after[key], key) == 0);
        } else {
            lemma_core(before, after, key, first, second, node);
        }
    }
    assert forall|node: NodeId| now_pending.count(node) > 0 implies #[trigger] after.contains_key(
        node,
    ) by {
        if node != key {
            assert(pending.count(node) > 0);
        }
    }
}

/// Whether the nodes of `before` are all in `after`, each the same node but
/// for its parents, its subscribers and its use count.
pub open spec fn preserved(before: Nodes, after: Nodes) -> bool {
    forall|key: NodeId| #[trigger]
        before.contains_key(key) ==> after.contains_key(key) && same_core(before[key], after[key])
            && (!(before[key].node is RNode) ==> !(after[key].node is RNode))
}

/// A DAG stays well formed when a node changes in its subscribers or its
/// use count alone.
pub proof fn lemma_touched_structure(before: Nodes, after: Nodes, key: NodeId, bound: nat)
    requires
        structure(before, bound),
        touched(before, after, key),
        same_core(before[key], after[key]),
        after[key].node.spec_parents() == before[key].node.spec_parents(),
        after[key].use_count >= 1,
    ensures
        structure(after, bound),
{
    reveal(structure);
    assert forall|node: NodeId| after.contains_key(node) implies #[trigger] node_wf(after, node) by {
        assert(before.contains_key(node));
        assert(node_wf(before, node));
        let entry = after[node];
        assert(same_core(before[node], entry));
        assert(entry.node.spec_parents() == before[node].node.spec_parents());
        if !entry.leaf() {
            let children = entry.node.spec_children();
            assert(same_core(before[children[0]], after[children[0]]));
            assert(same_core(before[children[1]], after[children[1]]));
            assert(after[children[0]].node.spec_parents() == before[children[0]].node.spec_parents());
            assert(after[children[1]].node.spec_parents() == before[children[1]].node.spec_parents());
        }
        assert forall|i: int| 0 <= i < entry.node.spec_parents().len() implies parent_of(
            after,
            node,
            #[trigger] entry.node.spec_parents()[i],
        ) by {
            let parent = entry.node.spec_parents()[i];
            assert(parent_of(before, node, parent));
            assert(same_core(before[parent], after[parent]));
        }
    }
}

/// The use counts stay right when the use count of a node changes with the
/// number of its subscribers and of its pending uses.
pub proof fn lemma_touched_counted(
    before: Nodes,
    after: Nodes,
    key: NodeId,
    bound: nat,
    pending: Multiset<NodeId>,
    now_pending: Multiset<NodeId>,
)
    requires
        counted(before, bound, pending),
        touched(before, after, key),
        after[key].node.spec_children() == before[key].node.spec_children(),
        forall|node: NodeId| node != key ==> #[trigger] now_pending.count(node) == pending.count(node),
        after[key].use_count + before[key].subscription_ids@.len() + pending.count(key)
            == before[key].use_count + after[key].subscription_ids@.len() + now_pending.count(key),
    ensures
        counted(after, bound, now_pending),
{
    reveal(counted);
    assert forall|node: NodeId| #[trigger] after.contains_key(node) implies after[node].use_count
        == after[node].subscription_ids@.len() + refs(after, node, bound) + now_pending.count(
        node,
    ) by {
        assert(before.contains_key(node));
        assert forall|position: NodeId| position < bound implies contribution(
            before,
            position,
            node,
        ) == contribution(after, position, node) by {
            if before.contains_key(position) && position != key {
                assert(after[position] == before[position]);
            }
        }
        lemma_refs_same(before, after, node, bound);
    }
    assert forall|node: NodeId| now_pending.count(node) > 0 implies #[trigger] after.contains_key(
        node,
    ) by {
        if node != key {
            assert(pending.count(node) > 0);
        }
    }
}

/// Whether `after` is `before` with the new leaf `key`, which has no parent.
pub open spec fn planted(before: Nodes, after: Nodes, key: NodeId) -> bool {
    &&& !before.contains_key(key)
    &&& after == before.insert(key, after[key])
    &&& after[key].leaf()
    &&& after[key].node.spec_level() == 1
    &&& after[key].node.spec_parents() == Seq::<NodeId>::empty()
    &&& after[key].use_count == 1
}

/// A DAG stays well formed, with the right use counts, when a leaf is
/// stored in it.
pub proof fn lemma_planted(
    before: Nodes,
    after: Nodes,
    key: NodeId,
    bound: nat,
    larger: nat,
    pending: Multiset<NodeId>,
    now_pending: Multiset<NodeId>,
)
    requires
        structure(before, bound),
        counted(before, bound, pending),
        planted(before, after, key),
        bound <= larger <= usize::MAX + 1,
        key < larger,
        forall|node: NodeId| node != key ==> #[trigger] now_pending.count(node) == pending.count(node),
        now_pending.count(key) + after[key].subscription_ids@.len() == 1,
    ensures
        structure(after, larger),
        counted(after, larger, now_pending),
        preserved(before, after),
{
    reveal(structure);
    reveal(counted);
    assert forall|node: NodeId| after.contains_key(node) implies #[trigger] node_wf(after, node) by {
        if node != key {
            assert(node_wf(before, node));
            let entry = after[node];
            assert forall|i: int| 0 <= i < entry.node.spec_parents().len() implies parent_of(
                after,
                node,
                #[trigger] entry.node.spec_parents()[i],
            ) by {
                assert(parent_of(before, node, entry.node.spec_parents()[i]));
            }
        }
    }
    assert forall|node: NodeId| #[trigger] after.contains_key(node) implies after[node].use_count
        == after[node].subscription_ids@.len() + refs(after, node, larger) + now_pending.count(
        node,
    ) by {
        assert forall|position: NodeId|
            position < larger && position != key implies contribution(before, position, node)
            == contribution(after, position, node) by {}
        lemma_refs_extend(before, node, bound, larger);
        lemma_refs_change(before, after, key, node, larger);
        if node == key {
            if refs(before, key, bound) > 0 {
                let position = lemma_refs_witness(before, key, bound);
                assert(node_wf(before, position));
            }
        }
    }
    assert forall|node: NodeId| now_pending.count(node) > 0 implies #[trigger] after.contains_key(
        node,
    ) by {
        if node != key {
            assert(pending.count(node) > 0);
        }
    }
}

/// A node that is stored above two nodes leaves every node the same node.
pub proof fn lemma_attached_preserved(
    before: Nodes,
    after: Nodes,
    key: NodeId,
    first: NodeId,
    second: NodeId,
)
    requires
        attached(before, after, key, first, second),
        !(before[first].node is RNode) ==> !(after[first].node is RNode),
    ensures
        preserved(before, after),
{
    assert forall|node: NodeId| #[trigger] before.contains_key(node) implies after.contains_key(node)
        && same_core(before[node], after[node]) && (!(before[node].node is RNode) ==> !(
    after[node].node is RNode)) by {
        lemma_core(before, after, key, first, second, node);
    }
}

/// What is preserved twice is preserved.
pub proof fn lemma_preserved_trans(first: Nodes, second: Nodes, third: Nodes)
    requires
        preserved(first, second),
        preserved(second, third),
    ensures
        preserved(first, third),
{
    assert forall|key: NodeId| #[trigger] first.contains_key(key) implies third.contains_key(key)
        && same_core(first[key], third[key]) && (!(first[key].node is RNode) ==> !(
    third[key].node is RNode)) by {
        assert(second.contains_key(key));
    }
}

/// What a list holds when an item is added at its end.
pub proof fn lemma_push(list: Seq<NodeId>, added: NodeId)
    ensures
        list.push(added).contains(added),
        forall|key: NodeId| list.contains(key) ==> #[trigger] list.push(added).contains(key),
        forall|key: NodeId| #[trigger]
            list.push(added).contains(key) ==> list.contains(key) || key == added,
        list.no_duplicates() && !list.contains(added) ==> list.push(added).no_duplicates(),
{
    let longer = list.push(added);
    assert(longer[list.len() as int] == added);
    assert forall|key: NodeId| list.contains(key) implies #[trigger] longer.contains(key) by {
        let i = choose|i: int| 0 <= i < list.len() && list[i] == key;
        assert(longer[i] == key);
    }
    assert forall|key: NodeId| #[trigger] longer.contains(key) implies list.contains(key) || key
        == added by {
        let i = choose|i: int| 0 <= i < longer.len() && longer[i] == key;
        if i < list.len() {
            assert(list[i] == key);
        }
    }
}

/// Whether the nodes of `before` have kept their subscribers, and the nodes
/// that are new have none.
pub open spec fn kept_subscribers(before: Nodes, after: Nodes) -> bool {
    forall|key: NodeId| #[trigger]
        after.contains_key(key) ==> after[key].subscription_ids@ == if before.contains_key(key) {
            before[key].subscription_ids@
        } else {
            Seq::<u64>::empty()
        }
}

/// A node of a well-formed DAG is well formed, and its key is below the bound.
pub proof fn lemma_node(nodes: Nodes, bound: nat, key: NodeId)
    requires
        structure(nodes, bound),
        nodes.contains_key(key),
    ensures
        node_wf(nodes, key),
        key < bound,
        nodes.dom().finite(),
{
    reveal(structure);
}

/// A node with a pending use is in the DAG, and its use count covers its
/// subscribers and its pending uses.
pub proof fn lemma_pending(nodes: Nodes, bound: nat, pending: Multiset<NodeId>, key: NodeId)
    requires
        counted(nodes, bound, pending),
    ensures
        pending.count(key) > 0 ==> nodes.contains_key(key),
        nodes.contains_key(key) ==> nodes[key].use_count == nodes[key].subscription_ids@.len()
            + refs(nodes, key, bound) + pending.count(key),
{
    reveal(counted);
}

/// Whether a new node was stored above two children and made their parent,
/// step by step.
pub open spec fn wired(
    before: Nodes,
    stored: Nodes,
    adopted_first: Nodes,
    after: Nodes,
    key: NodeId,
    first: NodeId,
    second: NodeId,
) -> bool {
    let entry = stored[key];
    &&& before.contains_key(first)
    &&& before.contains_key(second)
    &&& !before.contains_key(key)
    &&& stored == before.insert(key, entry)
    &&& touched(stored, adopted_first, first)
    &&& adopted(stored[first], adopted_first[first], key)
    &&& adopted_first[first].node.spec_parents() == stored[first].node.spec_parents().push(key)
    &&& (entry.node.spec_operator() == Operator::Or ==> {
        &&& touched(adopted_first, after, second)
        &&& adopted(adopted_first[second], after[second], key)
        &&& after[second].node.spec_parents() == adopted_first[second].node.spec_parents().push(
            key,
        )
    })
    &&& (entry.node.spec_operator() == Operator::And ==> after == adopted_first)
    &&& !(before[second].node is RNode)
    &&& !entry.leaf()
    &&& entry.node.spec_children() == seq![first, second]
    &&& entry.node.spec_parents() == Seq::<NodeId>::empty()
    &&& entry.node.spec_level() == 1 + higher(
        before[first].node.spec_level(),
        before[second].node.spec_level(),
    )
    &&& entry.use_count == 1
    &&& before[first].cost <= before[second].cost
}

/// A node that was stored and made the parent of its children step by step
/// is attached to them.
pub proof fn lemma_wired(
    before: Nodes,
    stored: Nodes,
    adopted_first: Nodes,
    after: Nodes,
    key: NodeId,
    first: NodeId,
    second: NodeId,
)
    requires
        wired(before, stored, adopted_first, after, key, first, second),
    ensures
        attached(before, after, key, first, second),
        after[key] == stored[key],
{
    assert(stored.contains_key(first) && stored.contains_key(second) && stored.contains_key(key));
    assert(adopted_first.contains_key(first) && adopted_first.contains_key(second)
        && adopted_first.contains_key(key));
    assert(adopted_first[key] == stored[key]);
    if second != first {
        assert(adopted_first[second] == stored[second]);
    }
    let parents = adopted_first[first].node.spec_parents();
    assert(parents[parents.len() - 1] == key);
    if stored[key].node.spec_operator() == Operator::Or {
        assert(after[key] == stored[key]);
        let last = after[second].node.spec_parents();
        assert(last[last.len() - 1] == key);
        if second != first {
            assert(after[first] == adopted_first[first]);
        } else {
            assert(last[parents.len() - 1] == key);
        }
        assert forall|other: NodeId|
            other != first && other != second && #[trigger] before.contains_key(other)
            implies after[other] == before[other] by {
            assert(stored.contains_key(other));
            assert(adopted_first.contains_key(other));
        }
    } else {
        assert forall|other: NodeId|
            other != first && other != second && #[trigger] before.contains_key(other)
            implies after[other] == before[other] by {
            assert(stored.contains_key(other));
        }
    }
    assert(after.dom() =~= before.dom().insert(key));
}

/// Whether the nodes have the subscribers that they had in `before`, and
/// `target` the subscriber `subscriber` after them.
pub open spec fn subscribed(before: Nodes, after: Nodes, target: NodeId, subscriber: u64) -> bool {
    forall|key: NodeId| #[trigger]
        after.contains_key(key) ==> after[key].subscription_ids@ == {
            let kept = if before.contains_key(key) {
                before[key].subscription_ids@
            } else {
                Seq::<u64>::empty()
            };
            if key == target {
                kept.push(subscriber)
            } else {
                kept
            }
        }
}

/// The list without `key`, wherever it stands in it.
pub open spec fn without(list: Seq<NodeId>, key: NodeId) -> Seq<NodeId>
    decreases list.len(),
{
    if list.len() == 0 {
        list
    } else if list.last() == key {
        without(list.drop_last(), key)
    } else {
        without(list.drop_last(), key).push(list.last())
    }
}

/// A list without an item that it does not hold is the list.
pub proof fn lemma_without_absent(list: Seq<NodeId>, key: NodeId)
    requires
        !list.contains(key),
    ensures
        without(list, key) == list,
    decreases list.len(),
{
    if list.len() > 0 {
        assert(list[list.len() - 1] != key);
        assert forall|item: NodeId| list.drop_last().contains(item) implies list.contains(item) by {
            let i = choose|i: int| 0 <= i < list.drop_last().len() && list.drop_last()[i] == item;
            assert(list[i] == item);
        }
        lemma_without_absent(list.drop_last(), key);
        assert(list.drop_last().push(list.last()) =~= list);
    }
}

/// Whether `after` is `before` without `key`: it holds the other items in
/// their order, and none twice if `before` held none twice.
pub open spec fn removed(before: Seq<NodeId>, after: Seq<NodeId>, key: NodeId) -> bool {
    &&& after == without(before, key)
    &&& forall|item: NodeId| #[trigger] after.contains(item) == (before.contains(item) && item != key)
    &&& (before.no_duplicates() ==> after.no_duplicates())
}

/// Whether the child is as before, but for the parent that it has lost.
pub open spec fn orphaned(before: Entry, after: Entry, parent: NodeId) -> bool {
    &&& same_core(before, after)
    &&& after.subscription_ids == before.subscription_ids
    &&& after.use_count == before.use_count
    &&& (after.node is RNode) == (before.node is RNode)
    &&& removed(before.node.spec_parents(), after.node.spec_parents(), parent)
}

/// Whether `after` is `before` without the node `key`, whose children have
/// lost it as a parent.
pub open spec fn detached(before: Nodes, after: Nodes, key: NodeId) -> bool {
    let children = before[key].node.spec_children();
    &&& before.contains_key(key)
    &&& after.dom() == before.dom().remove(key)
    &&& forall|other: NodeId| #[trigger]
        after.contains_key(other) ==> if !before[key].leaf() && (other == children[0] || other
            == children[1]) {
            orphaned(before[other], after[other], key)
        } else {
            after[other] == before[other]
        }
}

proof fn lemma_detached_core(before: Nodes, after: Nodes, key: NodeId, node: NodeId)
    requires
        detached(before, after, key),
        after.contains_key(node),
    ensures
        before.contains_key(node),
        node != key,
        same_core(before[node], after[node]),
        after[node].use_count == before[node].use_count,
        after[node].subscription_ids == before[node].subscription_ids,
        (forall|other: NodeId| #[trigger]
            before.contains_key(other) && before[other].node.spec_parents().contains(key) ==> !(
            before[key].leaf()) && (other == before[key].node.spec_children()[0] || other
                == before[key].node.spec_children()[1])) ==> removed(
            before[node].node.spec_parents(),
            after[node].node.spec_parents(),
            key,
        ),
{
    let children = before[key].node.spec_children();
    if !before[key].leaf() && (node == children[0] || node == children[1]) {
    } else {
        assert(after[node] == before[node]);
        if !before[node].node.spec_parents().contains(key) {
            lemma_without_absent(before[node].node.spec_parents(), key);
        }
    }
}

/// Taking out a node that is the child of none leaves the DAG well formed,
/// if the parents of its children no longer name it.
pub proof fn lemma_detached_structure(before: Nodes, after: Nodes, key: NodeId, bound: nat)
    requires
        structure(before, bound),
        detached(before, after, key),
        refs(before, key, bound) == 0,
        forall|node: NodeId| #[trigger]
            before.contains_key(node) && before[node].node.spec_parents().contains(key) ==> !(
            before[key].leaf()) && (node == before[key].node.spec_children()[0] || node
                == before[key].node.spec_children()[1]),
    ensures
        structure(after, bound),
{
    reveal(structure);
    assert forall|node: NodeId| after.contains_key(node) implies #[trigger] node_wf(after, node) by {
        lemma_detached_node(before, after, key, node, bound);
    }
}

proof fn lemma_no_child(nodes: Nodes, key: NodeId, bound: nat, node: NodeId)
    requires
        refs(nodes, key, bound) == 0,
        nodes.contains_key(node),
        node < bound,
    ensures
        points(nodes[node], key) == 0,
    decreases bound,
{
    if bound - 1 != node {
        lemma_no_child(nodes, key, (bound - 1) as nat, node);
    }
}

proof fn lemma_detached_node(before: Nodes, after: Nodes, key: NodeId, node: NodeId, bound: nat)
    requires
        structure(before, bound),
        detached(before, after, key),
        refs(before, key, bound) == 0,
        after.contains_key(node),
        forall|other: NodeId| #[trigger]
            before.contains_key(other) && before[other].node.spec_parents().contains(key) ==> !(
            before[key].leaf()) && (other == before[key].node.spec_children()[0] || other
                == before[key].node.spec_children()[1]),
    ensures
        node_wf(after, node),
{
    reveal(structure);
    lemma_detached_core(before, after, key, node);
    assert(node_wf(before, node));
    lemma_no_child(before, key, bound, node);
    let entry = after[node];
    let children = entry.node.spec_children();
    if !entry.leaf() {
        assert(children[0] != key && children[1] != key);
        assert(after.contains_key(children[0]) && after.contains_key(children[1]));
        lemma_detached_core(before, after, key, children[0]);
        lemma_detached_core(before, after, key, children[1]);
        assert(after[children[0]].node.spec_parents().contains(node));
        if entry.node.spec_operator() == Operator::Or {
            assert(after[children[1]].node.spec_parents().contains(node));
        }
    }
    assert forall|i: int| 0 <= i < entry.node.spec_parents().len() implies parent_of(
        after,
        node,
        #[trigger] entry.node.spec_parents()[i],
    ) by {
        let parent = entry.node.spec_parents()[i];
        assert(entry.node.spec_parents().contains(parent));
        assert(before[node].node.spec_parents().contains(parent) && parent != key);
        let j = choose|j: int|
            0 <= j < before[node].node.spec_parents().len() && before[node].node.spec_parents()[j]
                == parent;
        assert(parent_of(before, node, before[node].node.spec_parents()[j]));
        assert(after.contains_key(parent));
        lemma_detached_core(before, after, key, parent);
    }
}

/// Taking out a node turns the uses that it made of its children into
/// pending ones.
pub proof fn lemma_detached_counted(
    before: Nodes,
    after: Nodes,
    key: NodeId,
    bound: nat,
    pending: Multiset<NodeId>,
    now_pending: Multiset<NodeId>,
)
    requires
        structure(before, bound),
        counted(before, bound, pending),
        detached(before, after, key),
        bound <= usize::MAX + 1,
        now_pending.count(key) == 0,
        forall|node: NodeId|
            node != key ==> #[trigger] now_pending.count(node) == pending.count(node) + points(
                before[key],
                node,
            ),
    ensures
        counted(after, bound, now_pending),
{
    reveal(structure);
    reveal(counted);
    assert(node_wf(before, key));
    assert forall|node: NodeId| #[trigger] after.contains_key(node) implies after[node].use_count
        == after[node].subscription_ids@.len() + refs(after, node, bound) + now_pending.count(
        node,
    ) by {
        lemma_detached_core(before, after, key, node);
        assert forall|position: NodeId|
            position < bound && position != key implies contribution(before, position, node)
            == contribution(after, position, node) by {
            if before.contains_key(position) {
                assert(after.contains_key(position));
                lemma_detached_core(before, after, key, position);
            }
        }
        lemma_refs_change(before, after, key, node, bound);
    }
    assert forall|node: NodeId| now_pending.count(node) > 0 implies #[trigger] after.contains_key(
        node,
    ) by {
        if pending.count(node) > 0 {
            assert(before.contains_key(node));
        } else {
            assert(points(before[key], node) > 0);
        }
    }
}

/// The result of a node does not depend on the fuel, once that is the
/// level of the node or more.
pub proof fn lemma_fuel(nodes: Nodes, bound: nat, key: NodeId, values: Seq<AttributeValue>, fuel: nat)
    requires
        structure(nodes, bound),
        nodes.contains_key(key),
        fuel >= nodes[key].node.spec_level(),
    ensures
        result_within(nodes, key, values, fuel) == result_of(nodes, key, values),
    decreases fuel,
{
    lemma_node(nodes, bound, key);
    if !nodes[key].leaf() {
        let children = nodes[key].node.spec_children();
        let level = nodes[key].node.spec_level() as nat;
        lemma_node(nodes, bound, children[0]);
        lemma_node(nodes, bound, children[1]);
        lemma_fuel(nodes, bound, children[0], values, (fuel - 1) as nat);
        lemma_fuel(nodes, bound, children[1], values, (fuel - 1) as nat);
        lemma_fuel(nodes, bound, children[0], values, (level - 1) as nat);
        lemma_fuel(nodes, bound, children[1], values, (level - 1) as nat);
    }
}

/// The result of a leaf is that of its predicate; the result of another node
/// is that of its operator on the results of its children.
pub proof fn lemma_result_of(nodes: Nodes, bound: nat, key: NodeId, values: Seq<AttributeValue>)
    requires
        structure(nodes, bound),
        nodes.contains_key(key),
    ensures
        nodes[key].leaf() ==> result_of(nodes, key, values)
            == nodes[key].node->LNode_0.predicate.holds(values),
        !nodes[key].leaf() ==> result_of(nodes, key, values)
            == nodes[key].node.spec_operator().combine(
            result_of(nodes, nodes[key].node.spec_children()[0], values),
            result_of(nodes, nodes[key].node.spec_children()[1], values),
        ),
{
    lemma_node(nodes, bound, key);
    if !nodes[key].leaf() {
        let children = nodes[key].node.spec_children();
        let level = nodes[key].node.spec_level() as nat;
        lemma_node(nodes, bound, children[0]);
        lemma_node(nodes, bound, children[1]);
        lemma_fuel(nodes, bound, children[0], values, (level - 1) as nat);
        lemma_fuel(nodes, bound, children[1], values, (level - 1) as nat);
    }
}

/// Whether the node has the result of the expression on every event.
pub open spec fn stands_for(nodes: Nodes, key: NodeId, expression: OptimizedNode) -> bool {
    forall|values: Seq<AttributeValue>| #[trigger]
        result_of(nodes, key, values) == expression.holds(values)
}

/// Whether two expressions have the same result on every event.
pub open spec fn agree(one: OptimizedNode, other: OptimizedNode) -> bool {
    forall|values: Seq<AttributeValue>| #[trigger] one.holds(values) == other.holds(values)
}

/// Whether an expression is the other one or one of its operands, at any
/// depth.
pub open spec fn part_of(part: OptimizedNode, whole: OptimizedNode) -> bool
    decreases whole,
{
    part == whole || match whole {
        OptimizedNode::And(left, right) => part_of(part, *left) || part_of(part, *right),
        OptimizedNode::Or(left, right) => part_of(part, *left) || part_of(part, *right),
        OptimizedNode::Value(_) => false,
    }
}

/// A part of a part is a part.
pub proof fn lemma_part_of_part(part: OptimizedNode, middle: OptimizedNode, whole: OptimizedNode)
    requires
        part_of(part, middle),
        part_of(middle, whole),
    ensures
        part_of(part, whole),
    decreases whole,
{
    if middle != whole {
        match whole {
            OptimizedNode::And(left, right) => {
                if part_of(middle, *left) {
                    lemma_part_of_part(part, middle, *left);
                } else {
                    lemma_part_of_part(part, middle, *right);
                }
            },
            OptimizedNode::Or(left, right) => {
                if part_of(middle, *left) {
                    lemma_part_of_part(part, middle, *left);
                } else {
                    lemma_part_of_part(part, middle, *right);
                }
            },
            OptimizedNode::Value(_) => {},
        }
    }
}

proof fn lemma_results_within(
    small: Nodes,
    large: Nodes,
    bound: nat,
    key: NodeId,
    values: Seq<AttributeValue>,
    fuel: nat,
)
    requires
        structure(small, bound),
        small.contains_key(key),
        forall|other: NodeId| #[trigger]
            small.contains_key(other) ==> large.contains_key(other) && same_core(
                small[other],
                large[other],
            ),
    ensures
        result_within(large, key, values, fuel) == result_within(small, key, values, fuel),
    decreases fuel,
{
    lemma_node(small, bound, key);
    if fuel > 0 && !small[key].leaf() {
        let children = small[key].node.spec_children();
        assert(small.contains_key(children[0]) && small.contains_key(children[1]));
        lemma_results_within(small, large, bound, children[0], values, (fuel - 1) as nat);
        lemma_results_within(small, large, bound, children[1], values, (fuel - 1) as nat);
    }
}

/// A node has the same result in two sets of nodes, if the nodes of the one
/// that is well formed are in the other, each the same node but for its
/// parents, its subscribers and its use count.
pub proof fn lemma_results_kept(
    small: Nodes,
    large: Nodes,
    bound: nat,
    key: NodeId,
    values: Seq<AttributeValue>,
)
    requires
        structure(small, bound),
        small.contains_key(key),
        forall|other: NodeId| #[trigger]
            small.contains_key(other) ==> large.contains_key(other) && same_core(
                small[other],
                large[other],
            ),
    ensures
        result_of(large, key, values) == result_of(small, key, values),
{
    lemma_results_within(small, large, bound, key, values, small[key].node.spec_level() as nat);
}

/// Whether an expression has the results of a part of `whole` that has the
/// id.
pub open spec fn echoes(meaning: OptimizedNode, id: u64, whole: OptimizedNode) -> bool {
    exists|part: OptimizedNode| #[trigger]
        part_of(part, whole) && part.spec_id() == id && agree(meaning, part)
}

} // verus!
