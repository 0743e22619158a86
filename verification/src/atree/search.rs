//! Searching for the expressions that an event satisfies: the leaves of the
//! entry set are evaluated first, then the DAG is walked level by level.
use crate::arena::{arena_get, Entry, NodeId, RNode};
use crate::ast::{both, either, Operator};
use crate::atree::{ATree, evaluated_first};
use crate::dag::{lemma_node, lemma_result_of, node_wf, Nodes, parent_of, result_of, structure};
use crate::error::ATreeError;
use crate::evaluation::EvaluationResult;
use crate::events::{AttributeValue, Event};
use vstd::prelude::*;

verus! {

/// The matches of a search.
#[derive(Debug)]
pub struct Report {
    matches: Vec<u64>,
}

impl Report {
    /// The report of the matches.
    pub fn new(matches: Vec<u64>) -> (report: Self)
        ensures
            report.spec_matches() == matches@,
    {
        Self { matches }
    }

    /// The subscribers that were found, in the order in which they were.
    pub closed spec fn spec_matches(&self) -> Seq<u64> {
        self.matches@
    }

    /// Get the search matches
    #[inline]
    pub fn matches(&self) -> (matches: &[u64])
        ensures
            matches@ == self.spec_matches(),
    {
        self.matches.as_slice()
    }
}

/// Whether the subscriber is attached to a node whose result on the values
/// is true.
pub open spec fn satisfied(nodes: Nodes, values: Seq<AttributeValue>, subscriber: u64) -> bool {
    exists|key: NodeId|
        nodes.contains_key(key) && #[trigger] nodes[key].subscription_ids@.contains(subscriber)
            && result_of(nodes, key, values) == Some(true)
}

/// The subscribers of the nodes, one node after the other.
pub open spec fn subscribers_of(nodes: Nodes, keys: Seq<NodeId>) -> Seq<u64>
    decreases keys.len(),
{
    if keys.len() == 0 {
        Seq::empty()
    } else {
        subscribers_of(nodes, keys.drop_last()) + nodes[keys.last()].subscription_ids@
    }
}

/// Whether the matches are the subscribers of the nodes that are recorded as
/// true, each node taken once, in the order `emitted`.
pub open spec fn emits(
    results: &EvaluationResult,
    matches: Seq<u64>,
    nodes: Nodes,
    emitted: Seq<NodeId>,
) -> bool {
    &&& emitted.no_duplicates()
    &&& forall|i: int|
        0 <= i < emitted.len() ==> (#[trigger] emitted[i]) < results.capacity()
            && results.evaluated_at(emitted[i]) && results.result_at(emitted[i]) == Some(true)
    &&& forall|key: NodeId|
        key < results.capacity() && #[trigger] results.evaluated_at(key) && results.result_at(key)
            == Some(true) ==> emitted.contains(key)
    &&& matches == subscribers_of(nodes, emitted)
}

/// What holds of the results and the matches of a search at every step:
/// every recorded result is the result of its node, the subscribers of every
/// node that is recorded as true are among the matches, every match is
/// attached to a node whose result is true, and no node has given its
/// subscribers twice.
pub open spec fn sound(
    results: &EvaluationResult,
    matches: Seq<u64>,
    nodes: Nodes,
    values: Seq<AttributeValue>,
) -> bool {
    &&& results.wf()
    &&& forall|key: NodeId| #[trigger] nodes.contains_key(key) ==> key < results.capacity()
    &&& forall|key: NodeId|
        key < results.capacity() && #[trigger] results.evaluated_at(key) ==> {
            &&& nodes.contains_key(key)
            &&& results.result_at(key) == result_of(nodes, key, values)
            &&& (results.result_at(key) == Some(true) ==> forall|i: int|
                0 <= i < nodes[key].subscription_ids@.len() ==> matches.contains(
                    #[trigger] nodes[key].subscription_ids@[i],
                ))
        }
    &&& forall|key: NodeId|
        key < results.capacity() ==> #[trigger] results.evaluated_at(key) || (!results.success_at(
            key,
        ) && !results.failed_at(key))
    &&& forall|i: int| 0 <= i < matches.len() ==> satisfied(nodes, values, #[trigger] matches[i])
    &&& exists|emitted: Seq<NodeId>| #[trigger] emits(results, matches, nodes, emitted)
}

/// Whether the matches are the subscribers of the nodes `emitted`, one node
/// after the other: nodes whose result on the values is true, each once, and
/// among them every such node that has a subscriber.
pub open spec fn listed(
    nodes: Nodes,
    values: Seq<AttributeValue>,
    emitted: Seq<NodeId>,
    matches: Seq<u64>,
) -> bool {
    &&& emitted.no_duplicates()
    &&& forall|i: int|
        0 <= i < emitted.len() ==> nodes.contains_key(#[trigger] emitted[i]) && result_of(
            nodes,
            emitted[i],
            values,
        ) == Some(true)
    &&& forall|key: NodeId| #[trigger]
        nodes.contains_key(key) && result_of(nodes, key, values) == Some(true)
            && nodes[key].subscription_ids@.len() > 0 ==> emitted.contains(key)
    &&& matches == subscribers_of(nodes, emitted)
}

/// Whether the matches are the subscribers of the nodes whose result on the
/// values is true, node by node in some order, and each node once.
pub open spec fn found_once(nodes: Nodes, values: Seq<AttributeValue>, matches: Seq<u64>) -> bool {
    exists|emitted: Seq<NodeId>| #[trigger] listed(nodes, values, emitted, matches)
}

/// Whether the later results hold those of `before`, and beyond them only
/// results of `key` and of nodes on lower levels than `level`.
pub open spec fn grown(
    before: &EvaluationResult,
    after: &EvaluationResult,
    nodes: Nodes,
    key: NodeId,
    level: usize,
) -> bool {
    &&& after.capacity() == before.capacity()
    &&& forall|node: NodeId|
        node < before.capacity() && #[trigger] before.evaluated_at(node) ==> after.evaluated_at(
            node,
        ) && after.result_at(node) == before.result_at(node)
    &&& forall|node: NodeId|
        node < before.capacity() && #[trigger] after.evaluated_at(node) && !before.evaluated_at(
            node,
        ) ==> node == key || nodes[node].node.spec_level() < level
}

/// The result of `and` on the results of its operands.
pub fn evaluate_and(first: Option<bool>, second: Option<bool>) -> (result: Option<bool>)
    ensures
        result == both(first, second),
{
    match (first, second) {
        (Some(false), _) => Some(false),
        (_, Some(false)) => Some(false),
        (Some(a), Some(b)) => Some(a && b),
        (_, _) => None,
    }
}

/// The result of `or` on the results of its operands.
pub fn evaluate_or(first: Option<bool>, second: Option<bool>) -> (result: Option<bool>)
    ensures
        result == either(first, second),
{
    match (first, second) {
        (Some(true), _) => Some(true),
        (_, Some(true)) => Some(true),
        (Some(a), Some(b)) => Some(a || b),
        (_, _) => None,
    }
}

/// Adds the subscribers of a node to the matches if its result is true.
#[inline]
fn add_matches(result: Option<bool>, node: &Entry, matches: &mut Vec<u64>)
    ensures
        final(matches)@ == if result == Some(true) {
            old(matches)@ + node.subscription_ids@
        } else {
            old(matches)@
        },
{
    if node.subscription_ids.len() != 0 {
        if let Some(true) = result {
            let mut i: usize = 0;
            while i < node.subscription_ids.len()
                invariant
                    i <= node.subscription_ids.len(),
                    matches@ == old(matches)@ + node.subscription_ids@.subrange(0, i as int),
                decreases node.subscription_ids.len() - i,
            {
                matches.push(node.subscription_ids[i]);
                assert(node.subscription_ids@.subrange(0, i + 1)
                    =~= node.subscription_ids@.subrange(0, i as int).push(
                    node.subscription_ids[i as int],
                ));
                i += 1;
            }
            assert(node.subscription_ids@.subrange(0, node.subscription_ids.len() as int)
                =~= node.subscription_ids@);
        }
    } else {
        assert(matches@ + node.subscription_ids@ =~= matches@);
    }
}

impl ATree {
    /// Records the result of a node that has none yet, and adds its
    /// subscribers to the matches if the result is true.
    fn record(
        &self,
        node_id: NodeId,
        result: Option<bool>,
        Ghost(values): Ghost<Seq<AttributeValue>>,
        results: &mut EvaluationResult,
        matches: &mut Vec<u64>,
    )
        requires
            sound(old(results), old(matches)@, self.nodes(), values),
            self.nodes().contains_key(node_id),
            !old(results).evaluated_at(node_id),
            result == result_of(self.nodes(), node_id, values),
        ensures
            sound(final(results), final(matches)@, self.nodes(), values),
            grown(old(results), final(results), self.nodes(), node_id, 0),
            final(results).evaluated_at(node_id),
            final(results).result_at(node_id) == result,
            forall|node: NodeId|
                node < old(results).capacity() && node != node_id ==> final(results).evaluated_at(
                    node,
                ) == #[trigger] old(results).evaluated_at(node),
            final(matches)@ == if result == Some(true) {
                old(matches)@ + self.nodes()[node_id].subscription_ids@
            } else {
                old(matches)@
            },
    {
        let node = arena_get(&self.nodes, node_id);
        results.set_result(node_id, result);
        add_matches(result, node, matches);
        proof {
            let nodes = self.nodes();
            let before = old(matches)@;
            let after = matches@;
            assert forall|i: int| 0 <= i < before.len() implies after.contains(
                #[trigger] before[i],
            ) by {
                assert(after[i] == before[i]);
            }
            assert forall|key: NodeId|
                key < results.capacity() && #[trigger] results.evaluated_at(key) implies {
                &&& nodes.contains_key(key)
                &&& results.result_at(key) == result_of(nodes, key, values)
                &&& (results.result_at(key) == Some(true) ==> forall|i: int|
                    0 <= i < nodes[key].subscription_ids@.len() ==> after.contains(
                        #[trigger] nodes[key].subscription_ids@[i],
                    ))
            } by {
                if key == node_id {
                    assert(!old(results).success_at(key) && !old(results).failed_at(key));
                    if result == Some(true) {
                        assert forall|i: int|
                            0 <= i < nodes[key].subscription_ids@.len() implies after.contains(
                            #[trigger] nodes[key].subscription_ids@[i],
                        ) by {
                            assert(after[before.len() + i] == nodes[key].subscription_ids@[i]);
                        }
                    }
                } else {
                    assert(old(results).evaluated_at(key));
                    if results.result_at(key) == Some(true) {
                        assert forall|i: int|
                            0 <= i < nodes[key].subscription_ids@.len() implies after.contains(
                            #[trigger] nodes[key].subscription_ids@[i],
                        ) by {
                            let subscriber = nodes[key].subscription_ids@[i];
                            assert(before.contains(subscriber));
                            let j = choose|j: int| 0 <= j < before.len() && before[j] == subscriber;
                            assert(after[j] == subscriber);
                        }
                    }
                }
            }
            assert forall|key: NodeId| key < results.capacity() implies #[trigger] results.evaluated_at(
                key,
            ) || (!results.success_at(key) && !results.failed_at(key)) by {
                if key != node_id {
                    assert(old(results).evaluated_at(key) == results.evaluated_at(key));
                }
            }
            assert forall|i: int| 0 <= i < after.len() implies satisfied(
                nodes,
                values,
                #[trigger] after[i],
            ) by {
                if i < before.len() {
                    assert(after[i] == before[i]);
                } else {
                    let subscriber = nodes[node_id].subscription_ids@[i - before.len()];
                    assert(after[i] == subscriber);
                    assert(nodes[node_id].subscription_ids@.contains(subscriber));
                }
            }
            assert forall|node: NodeId|
                node < old(results).capacity() && #[trigger] old(results).evaluated_at(node)
                implies results.evaluated_at(node) && results.result_at(node) == old(
                results,
            ).result_at(node) by {}
            let emitted = choose|emitted: Seq<NodeId>| #[trigger]
                emits(old(results), before, nodes, emitted);
            if result == Some(true) {
                let longer = emitted.push(node_id);
                assert(longer.drop_last() =~= emitted);
                assert(longer[emitted.len() as int] == node_id);
                assert forall|key: NodeId|
                    key < results.capacity() && #[trigger] results.evaluated_at(key)
                        && results.result_at(key) == Some(true) implies longer.contains(key) by {
                    if key != node_id {
                        assert(old(results).evaluated_at(key));
                        let i = choose|i: int| 0 <= i < emitted.len() && emitted[i] == key;
                        assert(longer[i] == key);
                    }
                }
                assert forall|i: int| 0 <= i < longer.len() implies (#[trigger] longer[i])
                    < results.capacity() && results.evaluated_at(longer[i]) && results.result_at(
                    longer[i],
                ) == Some(true) by {
                    if i < emitted.len() {
                        assert(longer[i] == emitted[i]);
                    }
                }
                assert(emits(results, after, nodes, longer));
            } else {
                assert forall|key: NodeId|
                    key < results.capacity() && #[trigger] results.evaluated_at(key)
                        && results.result_at(key) == Some(true) implies emitted.contains(key) by {
                    assert(old(results).evaluated_at(key));
                }
                assert(emits(results, after, nodes, emitted));
            }
        }
    }

    /// The result of a node, which is recorded if it was not: that of its
    /// predicate for a leaf, that of its operator on the results of its
    /// children otherwise.
    fn lazy_evaluate(
        &self,
        node_id: NodeId,
        event: &Event,
        results: &mut EvaluationResult,
        matches: &mut Vec<u64>,
    ) -> (result: Option<bool>)
        requires
            self.wf(),
            event.conforms(self.attributes().kinds()),
            sound(old(results), old(matches)@, self.nodes(), event.values()),
            self.nodes().contains_key(node_id),
        ensures
            sound(final(results), final(matches)@, self.nodes(), event.values()),
            grown(
                old(results),
                final(results),
                self.nodes(),
                node_id,
                self.nodes()[node_id].node.spec_level(),
            ),
            final(results).evaluated_at(node_id),
            result == result_of(self.nodes(), node_id, event.values()),
        decreases self.nodes()[node_id].node.spec_level(), 1nat,
    {
        if results.is_evaluated(node_id) {
            return results.get_result(node_id);
        }
        let node = arena_get(&self.nodes, node_id);
        let result = if node.is_leaf() {
            proof {
                self.lemma_levels(node_id);
                lemma_result_of(self.nodes(), self.key_bound as nat, node_id, event.values());
            }
            node.evaluate(event)
        } else {
            self.evaluate_node(node_id, event, results, matches)
        };
        let ghost middle = *results;
        self.record(node_id, result, Ghost(event.values()), results, matches);
        proof {
            let nodes = self.nodes();
            let level = nodes[node_id].node.spec_level();
            assert forall|node: NodeId|
                node < old(results).capacity() && #[trigger] results.evaluated_at(node) && !old(results).evaluated_at(node) implies node == node_id || nodes[node].node.spec_level()
                < level by {
                if node != node_id {
                    assert(middle.evaluated_at(node));
                }
            }
            assert forall|node: NodeId|
                node < old(results).capacity() && #[trigger] old(results).evaluated_at(node)
                implies results.evaluated_at(node) && results.result_at(node) == old(results).result_at(node) by {
                assert(middle.evaluated_at(node));
            }
        }
        result
    }

    /// The result of a node that is no leaf, from the results of its
    /// children: the first child is evaluated, and the second one only if
    /// the first does not decide.
    #[inline]
    fn evaluate_node(
        &self,
        node_id: NodeId,
        event: &Event,
        results: &mut EvaluationResult,
        matches: &mut Vec<u64>,
    ) -> (result: Option<bool>)
        requires
            self.wf(),
            event.conforms(self.attributes().kinds()),
            sound(old(results), old(matches)@, self.nodes(), event.values()),
            self.nodes().contains_key(node_id),
            !self.nodes()[node_id].leaf(),
        ensures
            sound(final(results), final(matches)@, self.nodes(), event.values()),
            grown(
                old(results),
                final(results),
                self.nodes(),
                node_id,
                self.nodes()[node_id].node.spec_level(),
            ),
            final(results).evaluated_at(node_id) == old(results).evaluated_at(node_id),
            result == result_of(self.nodes(), node_id, event.values()),
        decreases self.nodes()[node_id].node.spec_level(), 0nat,
    {
        proof {
            lemma_node(self.nodes(), self.key_bound as nat, node_id);
            lemma_result_of(self.nodes(), self.key_bound as nat, node_id, event.values());
        }
        let node = arena_get(&self.nodes, node_id);
        let operator = node.operator();
        let children = node.children();
        let first_id = children[0];
        let second_id = children[1];
        let first = self.lazy_evaluate(first_id, event, results, matches);
        let ghost middle = *results;
        let decided = match operator {
            Operator::And => matches!(first, Some(false)),
            Operator::Or => matches!(first, Some(true)),
        };
        if decided {
            return first;
        }
        let second = self.lazy_evaluate(second_id, event, results, matches);
        proof {
            let nodes = self.nodes();
            let level = nodes[node_id].node.spec_level();
            assert forall|node: NodeId|
                node < old(results).capacity() && #[trigger] old(results).evaluated_at(node)
                implies results.evaluated_at(node) && results.result_at(node) == old(results).result_at(node) by {
                assert(middle.evaluated_at(node));
            }
            assert forall|node: NodeId|
                node < old(results).capacity() && #[trigger] results.evaluated_at(node) && !old(results).evaluated_at(node) implies node == node_id || nodes[node].node.spec_level()
                < level by {
                if !middle.evaluated_at(node) {
                } else {
                }
            }
            if results.evaluated_at(node_id) && !old(results).evaluated_at(node_id) {
                if middle.evaluated_at(node_id) {
                } else {
                }
            }
        }
        match operator {
            Operator::And => evaluate_and(first, second),
            Operator::Or => evaluate_or(first, second),
        }
    }
}

/// What holds of the queues of a search: there is one for each level above
/// the leaves, and it holds nodes of its level.
pub open spec fn queued(queues: Seq<Vec<NodeId>>, nodes: Nodes, max_level: usize) -> bool {
    &&& queues.len() == max_level - 1
    &&& forall|level: int, i: int|
        0 <= level < queues.len() && 0 <= i < queues[level]@.len() ==> {
            let node = #[trigger] queues[level]@[i];
            nodes.contains_key(node) && !nodes[node].leaf() && nodes[node].node.spec_level()
                == level + 2
        }
}

/// Whether the node is in the queue of its level.
pub open spec fn in_queue(queues: Seq<Vec<NodeId>>, nodes: Nodes, node: NodeId) -> bool {
    let level = nodes[node].node.spec_level() - 2;
    0 <= level < queues.len() && queues[level]@.contains(node)
}

/// Whether the node is taken care of: its result was handed on, or it is
/// known not to be true, or the node waits in the queue of its level.
pub open spec fn waits(
    results: &EvaluationResult,
    queues: Seq<Vec<NodeId>>,
    nodes: Nodes,
    done: Set<NodeId>,
    node: NodeId,
) -> bool {
    done.contains(node) || (node < results.capacity() && results.evaluated_at(node)
        && results.result_at(node) != Some(true)) || in_queue(queues, nodes, node)
}

/// What holds, at every step of a search, of the nodes whose results were
/// handed on to their parents: they have a result, each of their parents is
/// taken care of, and every other node that has the result true is on a
/// lower level than the one that the search is at.
pub open spec fn handed_on(
    results: &EvaluationResult,
    queues: Seq<Vec<NodeId>>,
    nodes: Nodes,
    done: Set<NodeId>,
    level: int,
) -> bool {
    &&& forall|key: NodeId| #[trigger]
        done.contains(key) ==> nodes.contains_key(key) && results.evaluated_at(key)
    &&& forall|key: NodeId, i: int|
        done.contains(key) && 0 <= i < nodes[key].node.spec_parents().len() ==> waits(
            results,
            queues,
            nodes,
            done,
            #[trigger] nodes[key].node.spec_parents()[i],
        )
    &&& forall|key: NodeId|
        key < results.capacity() && #[trigger] results.evaluated_at(key) ==> done.contains(key)
            || results.result_at(key) != Some(true) || nodes[key].node.spec_level() < level
}

/// Whether the later results hold those of `before` unchanged.
pub open spec fn kept(before: &EvaluationResult, after: &EvaluationResult) -> bool {
    &&& after.capacity() == before.capacity()
    &&& forall|node: NodeId|
        node < before.capacity() && #[trigger] before.evaluated_at(node) ==> after.evaluated_at(
            node,
        ) && after.result_at(node) == before.result_at(node)
}

/// The nodes that were handed on stay so when a node that has a result is
/// taken from the queue of the level that the search is at.
proof fn lemma_taken(
    results: &EvaluationResult,
    before: Seq<Vec<NodeId>>,
    after: Seq<Vec<NodeId>>,
    nodes: Nodes,
    done: Set<NodeId>,
    node: NodeId,
    level: int,
)
    requires
        handed_on(results, before, nodes, done, level),
        node < results.capacity(),
        results.evaluated_at(node),
        nodes[node].node.spec_level() == level,
        forall|other: NodeId|
            other != node && in_queue(before, nodes, other) ==> #[trigger] in_queue(
                after,
                nodes,
                other,
            ),
    ensures
        handed_on(results, after, nodes, done, level),
{
    assert forall|key: NodeId, i: int|
        done.contains(key) && 0 <= i < nodes[key].node.spec_parents().len() implies waits(
        results,
        after,
        nodes,
        done,
        #[trigger] nodes[key].node.spec_parents()[i],
    ) by {
        let parent = nodes[key].node.spec_parents()[i];
        assert(waits(results, before, nodes, done, parent));
        if parent != node && in_queue(before, nodes, parent) {
            assert(in_queue(after, nodes, parent));
        }
    }
}

/// The nodes that were handed on stay so, and the node joins them, when the
/// node of the level that the search is at got its result and this was
/// handed on to its parents.
proof fn lemma_handed_on(
    results: &EvaluationResult,
    later: &EvaluationResult,
    before: Seq<Vec<NodeId>>,
    after: Seq<Vec<NodeId>>,
    nodes: Nodes,
    bound: nat,
    done: Set<NodeId>,
    node: NodeId,
    level: int,
)
    requires
        structure(nodes, bound),
        handed_on(results, before, nodes, done, level),
        kept(results, later),
        forall|key: NodeId| #[trigger] nodes.contains_key(key) ==> key < results.capacity(),
        nodes.contains_key(node),
        node < results.capacity(),
        later.evaluated_at(node),
        nodes[node].node.spec_level() == level,
        forall|other: NodeId|
            other < results.capacity() && #[trigger] later.evaluated_at(other)
                && !results.evaluated_at(other) ==> other == node
                || nodes[other].node.spec_level() < level || later.result_at(other) == Some(false),
        forall|other: NodeId|
            other != node && in_queue(before, nodes, other) ==> #[trigger] in_queue(
                after,
                nodes,
                other,
            ),
        forall|i: int|
            0 <= i < nodes[node].node.spec_parents().len() ==> {
                let parent = #[trigger] nodes[node].node.spec_parents()[i];
                parent < results.capacity() && (later.evaluated_at(parent) || in_queue(
                    after,
                    nodes,
                    parent,
                ))
            },
    ensures
        handed_on(later, after, nodes, done.insert(node), level),
{
    let now = done.insert(node);
    lemma_node(nodes, bound, node);
    assert forall|key: NodeId, i: int|
        now.contains(key) && 0 <= i < nodes[key].node.spec_parents().len() implies waits(
        later,
        after,
        nodes,
        now,
        #[trigger] nodes[key].node.spec_parents()[i],
    ) by {
        let parent = nodes[key].node.spec_parents()[i];
        if key == node && !done.contains(node) {
            assert(parent_of(nodes, node, parent));
            lemma_node(nodes, bound, parent);
            assert(nodes[parent].node.spec_level() > level);
            if later.evaluated_at(parent) {
                if results.evaluated_at(parent) {
                } else {
                    assert(later.result_at(parent) == Some(false));
                }
            }
        } else {
            assert(waits(results, before, nodes, done, parent));
            if parent != node && in_queue(before, nodes, parent) {
                assert(in_queue(after, nodes, parent));
            }
        }
    }
    assert forall|key: NodeId|
        key < later.capacity() && #[trigger] later.evaluated_at(key) implies now.contains(key)
        || later.result_at(key) != Some(true) || nodes[key].node.spec_level() < level by {
        if results.evaluated_at(key) {
        }
    }
}

/// At the end of a search, every node whose result is true and that has a
/// parent or a subscriber was handed on; so it has a result.
proof fn lemma_complete(
    results: &EvaluationResult,
    queues: Seq<Vec<NodeId>>,
    nodes: Nodes,
    bound: nat,
    values: Seq<AttributeValue>,
    done: Set<NodeId>,
    level: int,
    node: NodeId,
)
    requires
        structure(nodes, bound),
        handed_on(results, queues, nodes, done, level),
        forall|other: NodeId| !in_queue(queues, nodes, other),
        forall|key: NodeId|
            key < results.capacity() && #[trigger] results.evaluated_at(key) ==> results.result_at(
                key,
            ) == result_of(nodes, key, values),
        forall|key: NodeId| #[trigger] nodes.contains_key(key) ==> key < results.capacity(),
        forall|key: NodeId| #[trigger]
            nodes.contains_key(key) && evaluated_first(nodes[key]) ==> done.contains(key),
        nodes.contains_key(node),
        result_of(nodes, node, values) == Some(true),
        nodes[node].node.spec_parents().len() > 0 || nodes[node].subscription_ids@.len() > 0,
    ensures
        done.contains(node),
    decreases nodes[node].node.spec_level(),
{
    lemma_node(nodes, bound, node);
    lemma_result_of(nodes, bound, node, values);
    if !nodes[node].leaf() {
        let children = nodes[node].node.spec_children();
        let child = if result_of(nodes, children[0], values) == Some(true) {
            children[0]
        } else {
            children[1]
        };
        lemma_node(nodes, bound, child);
        assert(nodes[child].node.spec_parents().contains(node));
        let i = choose|i: int|
            0 <= i < nodes[child].node.spec_parents().len() && nodes[child].node.spec_parents()[i]
                == node;
        lemma_complete(results, queues, nodes, bound, values, done, level, child);
        assert(waits(results, queues, nodes, done, nodes[child].node.spec_parents()[i]));
        assert(!in_queue(queues, nodes, node));
    }
}

impl ATree {
    /// Hands the result of a node on to its parents. An `and` with a false
    /// child is false, and is recorded as such. Every other parent without a
    /// result is put in the queue of its level.
    fn propagate(
        &self,
        node_id: NodeId,
        result: Option<bool>,
        Ghost(values): Ghost<Seq<AttributeValue>>,
        results: &mut EvaluationResult,
        matches: &mut Vec<u64>,
        queues: &mut Vec<Vec<NodeId>>,
    )
        requires
            self.wf(),
            sound(old(results), old(matches)@, self.nodes(), values),
            queued(old(queues)@, self.nodes(), self.max_level()),
            self.nodes().contains_key(node_id),
            !(self.nodes()[node_id].node is RNode),
            result == result_of(self.nodes(), node_id, values),
        ensures
            sound(final(results), final(matches)@, self.nodes(), values),
            queued(final(queues)@, self.nodes(), self.max_level()),
            final(matches)@ == old(matches)@,
            kept(old(results), final(results)),
            forall|node: NodeId|
                node < old(results).capacity() && #[trigger] final(results).evaluated_at(node)
                    && !old(results).evaluated_at(node) ==> final(results).result_at(node) == Some(
                    false,
                ) && !self.nodes()[node].leaf(),
            forall|level: int|
                0 <= level < old(queues)@.len() && level + 2
                    <= self.nodes()[node_id].node.spec_level() ==> #[trigger] final(queues)@[level] == old(queues)@[level],
            forall|other: NodeId|
                in_queue(old(queues)@, self.nodes(), other) ==> #[trigger] in_queue(
                    final(queues)@,
                    self.nodes(),
                    other,
                ),
            forall|i: int|
                0 <= i < self.nodes()[node_id].node.spec_parents().len() ==> {
                    let parent = #[trigger] self.nodes()[node_id].node.spec_parents()[i];
                    parent < old(results).capacity() && (final(results).evaluated_at(parent)
                        || in_queue(final(queues)@, self.nodes(), parent))
                },
    {
        let node = arena_get(&self.nodes, node_id);
        let parents = node.parents();
        proof {
            lemma_node(self.nodes(), self.key_bound as nat, node_id);
        }
        let mut i: usize = 0;
        while i < parents.len()
            invariant
                i <= parents.len(),
                self.wf(),
                parents@ == self.nodes()[node_id].node.spec_parents(),
                self.nodes().contains_key(node_id),
                node_wf(self.nodes(), node_id),
                result == result_of(self.nodes(), node_id, values),
                sound(results, matches@, self.nodes(), values),
                queued(queues@, self.nodes(), self.max_level()),
                matches@ == old(matches)@,
                kept(old(results), results),
                forall|node: NodeId|
                    node < old(results).capacity() && #[trigger] results.evaluated_at(node) && !old(results).evaluated_at(node) ==> results.result_at(node) == Some(false)
                        && !self.nodes()[node].leaf(),
                forall|level: int|
                    0 <= level < old(queues)@.len() && level + 2
                        <= self.nodes()[node_id].node.spec_level() ==> #[trigger] queues@[level]
                        == old(queues)@[level],
                forall|other: NodeId|
                    in_queue(old(queues)@, self.nodes(), other) ==> #[trigger] in_queue(
                        queues@,
                        self.nodes(),
                        other,
                    ),
                forall|k: int|
                    0 <= k < i ==> {
                        let parent = #[trigger] parents@[k];
                        parent < old(results).capacity() && (results.evaluated_at(parent)
                            || in_queue(queues@, self.nodes(), parent))
                    },
            decreases parents.len() - i,
        {
            let parent_id = parents[i];
            proof {
                assert(parent_of(self.nodes(), node_id, parents@[i as int]));
                lemma_node(self.nodes(), self.key_bound as nat, parent_id);
                lemma_result_of(self.nodes(), self.key_bound as nat, parent_id, values);
                self.lemma_levels(parent_id);
            }
            let entry = arena_get(&self.nodes, parent_id);
            let is_evaluated = results.is_evaluated(parent_id);
            let ghost results_before = *results;
            let ghost queues_before = queues@;
            if !is_evaluated && matches!(entry.operator(), Operator::And) && matches!(
                result,
                Some(false)
            ) {
                self.record(parent_id, Some(false), Ghost(values), results, matches);
                proof {
                    assert forall|k: int| 0 <= k < i + 1 implies {
                        let parent = #[trigger] parents@[k];
                        parent < old(results).capacity() && (results.evaluated_at(parent)
                            || in_queue(queues@, self.nodes(), parent))
                    } by {
                        let parent = parents@[k];
                        if k < i && results_before.evaluated_at(parent) {
                        }
                    }
                }
            } else if !is_evaluated {
                let index = entry.level() - 2;
                queues[index].push(parent_id);
                proof {
                    let nodes = self.nodes();
                    assert forall|level: int, k: int|
                        0 <= level < queues@.len() && 0 <= k < queues@[level]@.len() implies {
                        let queued_node = #[trigger] queues@[level]@[k];
                        nodes.contains_key(queued_node) && !nodes[queued_node].leaf()
                            && nodes[queued_node].node.spec_level() == level + 2
                    } by {
                        if level == index {
                            if k < queues_before[level]@.len() {
                                assert(queues@[level]@[k] == queues_before[level]@[k]);
                            }
                        } else {
                            assert(queues@[level] == queues_before[level]);
                        }
                    }
                    assert forall|other: NodeId|
                        in_queue(queues_before, nodes, other) implies #[trigger] in_queue(
                        queues@,
                        nodes,
                        other,
                    ) by {
                        let level = nodes[other].node.spec_level() - 2;
                        if level == index {
                            let k = choose|k: int|
                                0 <= k < queues_before[level]@.len() && queues_before[level]@[k]
                                    == other;
                            assert(queues@[level]@[k] == other);
                        } else {
                            assert(queues@[level] == queues_before[level]);
                        }
                    }
                    assert(queues@[index as int]@[queues_before[index as int]@.len() as int]
                        == parent_id);
                    assert(in_queue(queues@, nodes, parent_id));
                }
            }
            i += 1;
        }
    }

    /// Evaluates the leaves of the entry set and hands their results on to
    /// their parents.
    #[inline]
    fn process_predicates(
        &self,
        event: &Event,
        matches: &mut Vec<u64>,
        results: &mut EvaluationResult,
        queues: &mut Vec<Vec<NodeId>>,
    ) -> (done: Ghost<Set<NodeId>>)
        requires
            self.wf(),
            event.conforms(self.attributes().kinds()),
            sound(old(results), old(matches)@, self.nodes(), event.values()),
            queued(old(queues)@, self.nodes(), self.max_level()),
            forall|key: NodeId| key < old(results).capacity() ==> !old(results).evaluated_at(key),
        ensures
            sound(final(results), final(matches)@, self.nodes(), event.values()),
            queued(final(queues)@, self.nodes(), self.max_level()),
            handed_on(final(results), final(queues)@, self.nodes(), done@, 1),
            forall|key: NodeId| #[trigger]
                self.nodes().contains_key(key) && evaluated_first(self.nodes()[key])
                    ==> done@.contains(key),
    {
        let ghost mut done: Set<NodeId> = Set::empty();
        let mut i: usize = 0;
        while i < self.predicates.len()
            invariant
                i <= self.predicates.len(),
                self.wf(),
                event.conforms(self.attributes().kinds()),
                sound(results, matches@, self.nodes(), event.values()),
                queued(queues@, self.nodes(), self.max_level()),
                handed_on(results, queues@, self.nodes(), done, 1),
                forall|k: int| 0 <= k < i ==> done.contains(#[trigger] self.predicates@[k]),
                forall|key: NodeId|
                    key < results.capacity() && #[trigger] results.evaluated_at(key)
                        ==> done.contains(key) || !self.nodes()[key].leaf(),
            decreases self.predicates.len() - i,
        {
            let predicate_id = self.predicates[i];
            proof {
                self.lemma_entry_set(i as int);
                self.lemma_levels(predicate_id);
                lemma_node(self.nodes(), self.key_bound as nat, predicate_id);
                lemma_result_of(self.nodes(), self.key_bound as nat, predicate_id, event.values());
            }
            let node = arena_get(&self.nodes, predicate_id);
            // A leaf that nobody asks for is evaluated when it is needed.
            let delay_evaluation = node.subscription_ids.len() == 0 && node.parents().len() == 0;
            if !(delay_evaluation || results.is_evaluated(predicate_id)) {
                let ghost results_before = *results;
                let ghost queues_before = queues@;
                let result = node.evaluate(event);
                self.record(predicate_id, result, Ghost(event.values()), results, matches);
                let ghost recorded = *results;
                self.propagate(
                    predicate_id,
                    result,
                    Ghost(event.values()),
                    results,
                    matches,
                    queues,
                );
                proof {
                    let nodes = self.nodes();
                    assert forall|other: NodeId|
                        other < results_before.capacity() && #[trigger] results.evaluated_at(other)
                            && !results_before.evaluated_at(other) implies other == predicate_id
                        || nodes[other].node.spec_level() < 1 || results.result_at(other) == Some(
                        false,
                    ) by {
                        if other != predicate_id {
                            assert(!recorded.evaluated_at(other));
                        }
                    }
                    assert(kept(&results_before, results)) by {
                        assert forall|other: NodeId|
                            other < results_before.capacity()
                                && #[trigger] results_before.evaluated_at(
                                other,
                            ) implies results.evaluated_at(other) && results.result_at(other)
                            == results_before.result_at(other) by {
                            assert(recorded.evaluated_at(other));
                        }
                    }
                    lemma_handed_on(
                        &results_before,
                        results,
                        queues_before,
                        queues@,
                        nodes,
                        self.key_bound as nat,
                        done,
                        predicate_id,
                        1,
                    );
                    assert forall|key: NodeId|
                        key < results.capacity() && #[trigger] results.evaluated_at(key)
                        implies done.insert(predicate_id).contains(key) || !nodes[key].leaf() by {
                        if key != predicate_id && !results_before.evaluated_at(key) {
                            assert(!recorded.evaluated_at(key));
                        }
                    }
                    done = done.insert(predicate_id);
                }
            } else {
                proof {
                    assert(done.contains(predicate_id));
                }
            }
            i += 1;
        }
        proof {
            self.lemma_entry_set_holds();
            assert forall|key: NodeId| #[trigger]
                self.nodes().contains_key(key) && evaluated_first(self.nodes()[key])
                implies done.contains(key) by {
                assert(self.predicates@.contains(key));
                let k = choose|k: int| 0 <= k < self.predicates@.len() && self.predicates@[k] == key;
                assert(done.contains(self.predicates@[k]));
            }
        }
        Ghost(done)
    }

    /// Search the [`ATree`] for the expressions that the [`Event`] satisfies.
    /// A subscriber is among the matches if and only if it is attached to a
    /// node whose result on the event is true; an undefined result is no
    /// match.
    pub fn search(&self, event: &Event) -> (result: Result<Report, ATreeError>)
        requires
            self.wf(),
            event.conforms(self.attributes().kinds()),
        ensures
            result matches Ok(report) && forall|subscriber: u64|
                #[trigger] report.spec_matches().contains(subscriber) == satisfied(
                    self.nodes(),
                    event.values(),
                    subscriber,
                ),
            result matches Ok(report) && found_once(
                self.nodes(),
                event.values(),
                report.spec_matches(),
            ),
    {
        let mut results = EvaluationResult::new(self.key_bound);
        let mut matches: Vec<u64> = Vec::with_capacity(50);
        // The leaves are evaluated first, so there is no queue for them.
        let mut queues: Vec<Vec<NodeId>> = Vec::new();
        let mut made: usize = 1;
        while made < self.max_level
            invariant
                1 <= made <= self.max_level || self.max_level < 1,
                queues.len() == made - 1,
                forall|level: int| 0 <= level < queues.len() ==> (#[trigger] queues[level])@.len() == 0,
            decreases self.max_level - made,
        {
            queues.push(Vec::with_capacity(50));
            made += 1;
        }
        proof {
            let nodes = self.nodes();
            assert forall|key: NodeId| #[trigger] nodes.contains_key(key) implies key
                < results.capacity() by {
                lemma_node(nodes, self.key_bound as nat, key);
            }
            assert(emits(&results, matches@, nodes, Seq::empty()));
        }
        let Ghost(swept) = self.process_predicates(event, &mut matches, &mut results, &mut queues);
        let ghost mut done = swept;
        let mut level: usize = 0;
        while level < queues.len()
            invariant
                level <= queues.len(),
                self.wf(),
                event.conforms(self.attributes().kinds()),
                sound(&results, matches@, self.nodes(), event.values()),
                queued(queues@, self.nodes(), self.max_level()),
                handed_on(&results, queues@, self.nodes(), done, level + 1),
                forall|other: int| 0 <= other < level ==> (#[trigger] queues@[other])@.len() == 0,
                forall|key: NodeId| #[trigger]
                    self.nodes().contains_key(key) && evaluated_first(self.nodes()[key])
                        ==> done.contains(key),
            decreases queues.len() - level,
        {
            loop
                invariant
                    level < queues.len(),
                    self.wf(),
                    event.conforms(self.attributes().kinds()),
                    sound(&results, matches@, self.nodes(), event.values()),
                    queued(queues@, self.nodes(), self.max_level()),
                    handed_on(&results, queues@, self.nodes(), done, level + 2),
                    forall|other: int| 0 <= other < level ==> (#[trigger] queues@[other])@.len() == 0,
                    forall|key: NodeId| #[trigger]
                        self.nodes().contains_key(key) && evaluated_first(self.nodes()[key])
                            ==> done.contains(key),
                ensures
                    queues@[level as int]@.len() == 0,
                decreases queues[level as int]@.len(),
            {
                let ghost queues_before = queues@;
                let ghost results_before = results;
                let popped = queues[level].pop();
                proof {
                    let nodes = self.nodes();
                    assert forall|other: int, k: int|
                        0 <= other < queues@.len() && 0 <= k < queues@[other]@.len() implies {
                        let queued_node = #[trigger] queues@[other]@[k];
                        nodes.contains_key(queued_node) && !nodes[queued_node].leaf()
                            && nodes[queued_node].node.spec_level() == other + 2
                    } by {
                        if other == level {
                            assert(queues@[other]@[k] == queues_before[other]@[k]);
                        } else {
                            assert(queues@[other] == queues_before[other]);
                        }
                    }
                    assert forall|other: int| 0 <= other < level implies (
                    #[trigger] queues@[other])@.len() == 0 by {
                        assert(queues@[other] == queues_before[other]);
                    }
                }
                let node_id = match popped {
                    Some(node_id) => node_id,
                    None => {
                        proof {
                            assert(queues@[level as int]@.len() == 0);
                        }
                        break ;
                    },
                };
                let ghost queues_taken = queues@;
                proof {
                    let nodes = self.nodes();
                    let last = queues_before[level as int]@.len() - 1;
                    assert(queues_before[level as int]@[last] == node_id);
                    assert forall|other: NodeId|
                        other != node_id && in_queue(queues_before, nodes, other)
                        implies #[trigger] in_queue(queues_taken, nodes, other) by {
                        let at = nodes[other].node.spec_level() - 2;
                        if at == level {
                            let k = choose|k: int|
                                0 <= k < queues_before[at]@.len() && queues_before[at]@[k] == other;
                            assert(queues_taken[at]@[k] == other);
                        } else {
                            assert(queues_taken[at] == queues_before[at]);
                        }
                    }
                }
                if results.is_evaluated(node_id) {
                    proof {
                        lemma_taken(
                            &results,
                            queues_before,
                            queues_taken,
                            self.nodes(),
                            done,
                            node_id,
                            level + 2,
                        );
                    }
                    continue ;
                }
                let node = arena_get(&self.nodes, node_id);
                let result = self.evaluate_node(node_id, event, &mut results, &mut matches);
                let ghost evaluated = results;
                self.record(node_id, result, Ghost(event.values()), &mut results, &mut matches);
                let ghost recorded = results;
                if node.is_root() {
                    proof {
                        let nodes = self.nodes();
                        assert(kept(&results_before, &results)) by {
                            assert forall|other: NodeId|
                                other < results_before.capacity()
                                    && #[trigger] results_before.evaluated_at(
                                    other,
                                ) implies results.evaluated_at(other) && results.result_at(other)
                                == results_before.result_at(other) by {
                                assert(evaluated.evaluated_at(other));
                            }
                        }
                        assert forall|other: NodeId|
                            other < results_before.capacity() && #[trigger] results.evaluated_at(
                                other,
                            ) && !results_before.evaluated_at(other) implies other == node_id
                            || nodes[other].node.spec_level() < level + 2 || results.result_at(
                            other,
                        ) == Some(false) by {
                            if other != node_id {
                                assert(evaluated.evaluated_at(other));
                            }
                        }
                        lemma_handed_on(
                            &results_before,
                            &results,
                            queues_before,
                            queues_taken,
                            nodes,
                            self.key_bound as nat,
                            done,
                            node_id,
                            level + 2,
                        );
                        done = done.insert(node_id);
                    }
                    continue ;
                }
                self.propagate(
                    node_id,
                    result,
                    Ghost(event.values()),
                    &mut results,
                    &mut matches,
                    &mut queues,
                );
                proof {
                    let nodes = self.nodes();
                    assert(kept(&results_before, &results)) by {
                        assert forall|other: NodeId|
                            other < results_before.capacity()
                                && #[trigger] results_before.evaluated_at(
                                other,
                            ) implies results.evaluated_at(other) && results.result_at(other)
                            == results_before.result_at(other) by {
                            assert(evaluated.evaluated_at(other));
                            assert(recorded.evaluated_at(other));
                        }
                    }
                    assert forall|other: NodeId|
                        other < results_before.capacity() && #[trigger] results.evaluated_at(other)
                            && !results_before.evaluated_at(other) implies other == node_id
                        || nodes[other].node.spec_level() < level + 2 || results.result_at(other)
                        == Some(false) by {
                        if other != node_id {
                            if recorded.evaluated_at(other) {
                                assert(evaluated.evaluated_at(other));
                            }
                        }
                    }
                    assert forall|other: NodeId|
                        other != node_id && in_queue(queues_before, nodes, other)
                        implies #[trigger] in_queue(queues@, nodes, other) by {
                        assert(in_queue(queues_taken, nodes, other));
                    }
                    lemma_handed_on(
                        &results_before,
                        &results,
                        queues_before,
                        queues@,
                        nodes,
                        self.key_bound as nat,
                        done,
                        node_id,
                        level + 2,
                    );
                    done = done.insert(node_id);
                    assert forall|other: int| 0 <= other < level implies (
                    #[trigger] queues@[other])@.len() == 0 by {
                        assert(queues@[other] == queues_taken[other]);
                    }
                }
            }
            level += 1;
        }
        proof {
            let nodes = self.nodes();
            let values = event.values();
            assert forall|other: NodeId| !in_queue(queues@, nodes, other) by {
                let at = nodes[other].node.spec_level() - 2;
                if 0 <= at < queues@.len() {
                    assert(queues@[at]@.len() == 0);
                }
            }
            assert forall|subscriber: u64|
                #[trigger] matches@.contains(subscriber) == satisfied(
                    nodes,
                    values,
                    subscriber,
                ) by {
                if matches@.contains(subscriber) {
                    let i = choose|i: int| 0 <= i < matches@.len() && matches@[i] == subscriber;
                    assert(satisfied(nodes, values, matches@[i]));
                }
                if satisfied(nodes, values, subscriber) {
                    let key = choose|key: NodeId|
                        nodes.contains_key(key) && #[trigger] nodes[key].subscription_ids@.contains(
                            subscriber,
                        ) && result_of(nodes, key, values) == Some(true);
                    lemma_complete(
                        &results,
                        queues@,
                        nodes,
                        self.key_bound as nat,
                        values,
                        done,
                        (queues@.len() + 1) as int,
                        key,
                    );
                    let i = choose|i: int|
                        0 <= i < nodes[key].subscription_ids@.len() && nodes[key].subscription_ids@[i]
                            == subscriber;
                    assert(matches@.contains(nodes[key].subscription_ids@[i]));
                }
            }
            let emitted = choose|emitted: Seq<NodeId>| #[trigger]
                emits(&results, matches@, nodes, emitted);
            assert forall|key: NodeId| #[trigger]
                nodes.contains_key(key) && result_of(nodes, key, values) == Some(true)
                    && nodes[key].subscription_ids@.len() > 0 implies emitted.contains(key) by {
                lemma_complete(
                    &results,
                    queues@,
                    nodes,
                    self.key_bound as nat,
                    values,
                    done,
                    (queues@.len() + 1) as int,
                    key,
                );
                assert(results.evaluated_at(key));
            }
            assert(listed(nodes, values, emitted, matches@));
        }
        let ghost found = matches@;
        let report = Report::new(matches);
        proof {
            let emitted = choose|emitted: Seq<NodeId>| #[trigger]
                listed(self.nodes(), event.values(), emitted, found);
            assert(listed(self.nodes(), event.values(), emitted, report.spec_matches()));
            assert(found_once(self.nodes(), event.values(), report.spec_matches()));
        }
        Ok(report)
    }
}

} // verus!
