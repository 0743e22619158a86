//! Expressions: trees of `and`, `or` and `not` over predicates, and their
//! form without `not`.
use crate::events::{all_fit, AttributeKind, AttributeValue, Event};
use crate::predicates::{lemma_negated_predicate, opposite, Predicate, saturated};
use vstd::prelude::*;

verus! {

/// An operand of an expression.
pub type TreeNode = Box<Node>;

/// An expression as it is written.
#[derive(PartialEq, Debug)]
pub enum Node {
    And(TreeNode, TreeNode),
    Or(TreeNode, TreeNode),
    Not(TreeNode),
    Value(Predicate),
}

/// An expression without `not`: every negation is inside a predicate.
#[derive(PartialEq, Debug)]
pub enum OptimizedNode {
    And(Box<OptimizedNode>, Box<OptimizedNode>),
    Or(Box<OptimizedNode>, Box<OptimizedNode>),
    Value(Predicate),
}

/// The operator of a node that is no leaf.
#[derive(Debug, Hash, Clone, Copy, Eq, PartialEq, Structural)]
pub enum Operator {
    And,
    Or,
}

/// What an `and` adds to the cost of its operands.
pub const AND_COST: u64 = 50;

/// What an `or` adds to the cost of its operands.
pub const OR_COST: u64 = 60;

/// The conjunction of two results: false if one is false, true if both are
/// true, undefined otherwise.
pub open spec fn both(left: Option<bool>, right: Option<bool>) -> Option<bool> {
    match (left, right) {
        (Some(false), _) => Some(false),
        (_, Some(false)) => Some(false),
        (Some(true), Some(true)) => Some(true),
        _ => None,
    }
}

/// The disjunction of two results: true if one is true, false if both are
/// false, undefined otherwise.
pub open spec fn either(left: Option<bool>, right: Option<bool>) -> Option<bool> {
    match (left, right) {
        (Some(true), _) => Some(true),
        (_, Some(true)) => Some(true),
        (Some(false), Some(false)) => Some(false),
        _ => None,
    }
}

impl Operator {
    /// The result of the operator on the results of its operands.
    pub open spec fn combine(&self, left: Option<bool>, right: Option<bool>) -> Option<bool> {
        match self {
            Operator::And => both(left, right),
            Operator::Or => either(left, right),
        }
    }

    /// The id of an expression with this operator, from those of its operands:
    /// their product for `and`, their sum for `or`, both wrapping.
    pub open spec fn combine_ids(&self, left: u64, right: u64) -> u64 {
        match self {
            Operator::And => left.wrapping_mul(right),
            Operator::Or => left.wrapping_add(right),
        }
    }

    /// What the operator adds to the cost of its operands.
    pub open spec fn spec_cost(&self) -> int {
        match self {
            Operator::And => AND_COST as int,
            Operator::Or => OR_COST as int,
        }
    }
}

impl OptimizedNode {
    /// The result of the expression on the values of an event.
    pub open spec fn holds(&self, values: Seq<AttributeValue>) -> Option<bool>
        decreases self,
    {
        match self {
            OptimizedNode::And(left, right) => both(left.holds(values), right.holds(values)),
            OptimizedNode::Or(left, right) => either(left.holds(values), right.holds(values)),
            OptimizedNode::Value(predicate) => predicate.holds(values),
        }
    }

    /// Whether every predicate of the expression is valid for the attributes.
    pub open spec fn valid_for(&self, kinds: Seq<AttributeKind>) -> bool
        decreases self,
    {
        match self {
            OptimizedNode::And(left, right) => left.valid_for(kinds) && right.valid_for(kinds),
            OptimizedNode::Or(left, right) => left.valid_for(kinds) && right.valid_for(kinds),
            OptimizedNode::Value(predicate) => predicate.valid_for(kinds),
        }
    }

    /// The id of the expression: that of the predicate for a leaf, the wrapping
    /// product of the operands' ids for `and`, their wrapping sum for `or`.
    pub open spec fn spec_id(&self) -> u64
        decreases self,
    {
        match self {
            OptimizedNode::And(left, right) => left.spec_id().wrapping_mul(right.spec_id()),
            OptimizedNode::Or(left, right) => left.spec_id().wrapping_add(right.spec_id()),
            OptimizedNode::Value(predicate) => predicate.spec_id(),
        }
    }

    /// The cost of the expression: that of its predicates, and 50 for each
    /// `and`, 60 for each `or`.
    pub open spec fn spec_cost(&self) -> int
        decreases self,
    {
        match self {
            OptimizedNode::And(left, right) => left.spec_cost() + right.spec_cost() + AND_COST,
            OptimizedNode::Or(left, right) => left.spec_cost() + right.spec_cost() + OR_COST,
            OptimizedNode::Value(predicate) => predicate.spec_cost(),
        }
    }

    proof fn lemma_cost_is_positive(&self)
        ensures
            self.spec_cost() >= 0,
        decreases self,
    {
        match self {
            OptimizedNode::And(left, right) => {
                left.lemma_cost_is_positive();
                right.lemma_cost_is_positive();
            },
            OptimizedNode::Or(left, right) => {
                left.lemma_cost_is_positive();
                right.lemma_cost_is_positive();
            },
            OptimizedNode::Value(_) => {},
        }
    }

    /// The id of the expression.
    #[inline]
    pub fn id(&self) -> (id: u64)
        ensures
            id == self.spec_id(),
        decreases self,
    {
        match self {
            Self::And(left, right) => u64::wrapping_mul(left.id(), right.id()),
            Self::Or(left, right) => u64::wrapping_add(left.id(), right.id()),
            Self::Value(node) => node.id(),
        }
    }

    /// The cost of the expression; the largest cost stands for all that are
    /// larger.
    #[inline]
    pub fn cost(&self) -> (cost: u64)
        ensures
            cost == saturated(self.spec_cost()),
        decreases self,
    {
        proof {
            self.lemma_cost_is_positive();
        }
        match self {
            // An `and` is more often false than an `or`, and then it is skipped.
            Self::And(left, right) => {
                proof {
                    left.lemma_cost_is_positive();
                    right.lemma_cost_is_positive();
                }
                left.cost().saturating_add(right.cost()).saturating_add(AND_COST)
            },
            Self::Or(left, right) => {
                proof {
                    left.lemma_cost_is_positive();
                    right.lemma_cost_is_positive();
                }
                left.cost().saturating_add(right.cost()).saturating_add(OR_COST)
            },
            Self::Value(node) => node.cost(),
        }
    }
}

impl Node {
    /// The result of the expression on the values of an event.
    pub open spec fn holds(&self, values: Seq<AttributeValue>) -> Option<bool>
        decreases self,
    {
        match self {
            Node::And(left, right) => both(left.holds(values), right.holds(values)),
            Node::Or(left, right) => either(left.holds(values), right.holds(values)),
            Node::Not(value) => opposite(value.holds(values)),
            Node::Value(predicate) => predicate.holds(values),
        }
    }

    /// Whether every predicate of the expression is valid for the attributes.
    pub open spec fn valid_for(&self, kinds: Seq<AttributeKind>) -> bool
        decreases self,
    {
        match self {
            Node::And(left, right) => left.valid_for(kinds) && right.valid_for(kinds),
            Node::Or(left, right) => left.valid_for(kinds) && right.valid_for(kinds),
            Node::Not(value) => value.valid_for(kinds),
            Node::Value(predicate) => predicate.valid_for(kinds),
        }
    }

    /// The expression, or its negation, without `not`: a negation swaps `and`
    /// and `or`, is taken back by a `not`, and ends in the predicates.
    pub open spec fn suppressed(self, negate: bool) -> OptimizedNode
        decreases self,
    {
        match self {
            Node::And(left, right) => if negate {
                OptimizedNode::Or(
                    Box::new(left.suppressed(true)),
                    Box::new(right.suppressed(true)),
                )
            } else {
                OptimizedNode::And(
                    Box::new(left.suppressed(false)),
                    Box::new(right.suppressed(false)),
                )
            },
            Node::Or(left, right) => if negate {
                OptimizedNode::And(
                    Box::new(left.suppressed(true)),
                    Box::new(right.suppressed(true)),
                )
            } else {
                OptimizedNode::Or(
                    Box::new(left.suppressed(false)),
                    Box::new(right.suppressed(false)),
                )
            },
            Node::Not(value) => value.suppressed(!negate),
            Node::Value(predicate) => if negate {
                OptimizedNode::Value(predicate.negated())
            } else {
                OptimizedNode::Value(predicate)
            },
        }
    }

    /// The expression without `not`.
    #[inline]
    pub fn optimize(self) -> (result: OptimizedNode)
        ensures
            result == self.suppressed(false),
    {
        self.zero_suppression_filter(false)
    }

    /// The expression, or its negation if `negate` is set, without `not`.
    pub fn zero_suppression_filter(self, negate: bool) -> (result: OptimizedNode)
        ensures
            result == self.suppressed(negate),
        decreases self,
    {
        match (self, negate) {
            (Self::And(left, right), true) => OptimizedNode::Or(
                Box::new(left.zero_suppression_filter(true)),
                Box::new(right.zero_suppression_filter(true)),
            ),
            (Self::Or(left, right), true) => OptimizedNode::And(
                Box::new(left.zero_suppression_filter(true)),
                Box::new(right.zero_suppression_filter(true)),
            ),
            (Self::Not(value), true) => value.zero_suppression_filter(false),
            (Self::Not(value), false) => value.zero_suppression_filter(true),
            (Self::Value(predicate), true) => OptimizedNode::Value(predicate.not()),
            (Self::And(left, right), false) => OptimizedNode::And(
                Box::new(left.zero_suppression_filter(false)),
                Box::new(right.zero_suppression_filter(false)),
            ),
            (Self::Or(left, right), false) => OptimizedNode::Or(
                Box::new(left.zero_suppression_filter(false)),
                Box::new(right.zero_suppression_filter(false)),
            ),
            (Self::Value(predicate), false) => OptimizedNode::Value(predicate),
        }
    }
}

/// The expression without `not` is valid for the attributes that the
/// expression is valid for.
pub proof fn lemma_suppression_keeps_validity(node: Node, negate: bool, kinds: Seq<AttributeKind>)
    requires
        node.valid_for(kinds),
    ensures
        node.suppressed(negate).valid_for(kinds),
    decreases node,
{
    match node {
        Node::And(left, right) => {
            lemma_suppression_keeps_validity(*left, negate, kinds);
            lemma_suppression_keeps_validity(*right, negate, kinds);
        },
        Node::Or(left, right) => {
            lemma_suppression_keeps_validity(*left, negate, kinds);
            lemma_suppression_keeps_validity(*right, negate, kinds);
        },
        Node::Not(value) => {
            lemma_suppression_keeps_validity(*value, !negate, kinds);
        },
        Node::Value(predicate) => {
            lemma_negated_predicate(predicate, Seq::empty());
        },
    }
}

/// The expression without `not` has the result of the expression on every
/// event, and that of its negation the opposite result.
pub proof fn lemma_suppression_keeps_the_result(
    node: Node,
    negate: bool,
    values: Seq<AttributeValue>,
)
    ensures
        node.suppressed(negate).holds(values) == if negate {
            opposite(node.holds(values))
        } else {
            node.holds(values)
        },
    decreases node,
{
    match node {
        Node::And(left, right) => {
            lemma_suppression_keeps_the_result(*left, negate, values);
            lemma_suppression_keeps_the_result(*right, negate, values);
        },
        Node::Or(left, right) => {
            lemma_suppression_keeps_the_result(*left, negate, values);
            lemma_suppression_keeps_the_result(*right, negate, values);
        },
        Node::Not(value) => {
            lemma_suppression_keeps_the_result(*value, !negate, values);
        },
        Node::Value(predicate) => {
            lemma_negated_predicate(predicate, values);
        },
    }
}

/// Optimizing an expression keeps its result on every event.
pub proof fn lemma_optimize_keeps_the_result(node: Node, values: Seq<AttributeValue>)
    ensures
        node.suppressed(false).holds(values) == node.holds(values),
{
    lemma_suppression_keeps_the_result(node, false, values);
}

fn combine_and(left: Option<bool>, right: Option<bool>) -> (result: Option<bool>)
    ensures
        result == both(left, right),
{
    match (left, right) {
        (Some(false), _) => Some(false),
        (_, Some(false)) => Some(false),
        (Some(true), Some(true)) => Some(true),
        _ => None,
    }
}

fn combine_or(left: Option<bool>, right: Option<bool>) -> (result: Option<bool>)
    ensures
        result == either(left, right),
{
    match (left, right) {
        (Some(true), _) => Some(true),
        (_, Some(true)) => Some(true),
        (Some(false), Some(false)) => Some(false),
        _ => None,
    }
}

fn negate(result: Option<bool>) -> (negated: Option<bool>)
    ensures
        negated == opposite(result),
{
    match result {
        Some(value) => Some(!value),
        None => None,
    }
}

impl OptimizedNode {
    /// Whether every predicate of the expression can be evaluated on the
    /// values: it is well formed, and its attribute has a well-formed value.
    pub open spec fn ready_for(&self, values: Seq<AttributeValue>) -> bool
        decreases self,
    {
        match self {
            OptimizedNode::And(left, right) => left.ready_for(values) && right.ready_for(values),
            OptimizedNode::Or(left, right) => left.ready_for(values) && right.ready_for(values),
            OptimizedNode::Value(predicate) => predicate.wf() && predicate.attribute()@
                < values.len() && values[predicate.attribute()@ as int].wf(),
        }
    }

    /// The result of the expression on an event.
    pub fn evaluate(&self, event: &Event) -> (result: Option<bool>)
        requires
            self.ready_for(event.values()),
        ensures
            result == self.holds(event.values()),
        decreases self,
    {
        match self {
            Self::And(left, right) => combine_and(left.evaluate(event), right.evaluate(event)),
            Self::Or(left, right) => combine_or(left.evaluate(event), right.evaluate(event)),
            Self::Value(predicate) => predicate.evaluate(event),
        }
    }
}

impl Node {
    /// Whether every predicate of the expression can be evaluated on the
    /// values: it is well formed, and its attribute has a well-formed value.
    pub open spec fn ready_for(&self, values: Seq<AttributeValue>) -> bool
        decreases self,
    {
        match self {
            Node::And(left, right) => left.ready_for(values) && right.ready_for(values),
            Node::Or(left, right) => left.ready_for(values) && right.ready_for(values),
            Node::Not(value) => value.ready_for(values),
            Node::Value(predicate) => predicate.wf() && predicate.attribute()@ < values.len()
                && values[predicate.attribute()@ as int].wf(),
        }
    }

    /// The result of the expression on an event.
    pub fn evaluate(&self, event: &Event) -> (result: Option<bool>)
        requires
            self.ready_for(event.values()),
        ensures
            result == self.holds(event.values()),
        decreases self,
    {
        match self {
            Self::And(left, right) => combine_and(left.evaluate(event), right.evaluate(event)),
            Self::Or(left, right) => combine_or(left.evaluate(event), right.evaluate(event)),
            Self::Not(value) => negate(value.evaluate(event)),
            Self::Value(predicate) => predicate.evaluate(event),
        }
    }
}

/// An expression that is valid for the attributes can be evaluated on every
/// event that has a fitting value for each of them.
pub proof fn lemma_valid_is_ready(
    node: Node,
    kinds: Seq<AttributeKind>,
    values: Seq<AttributeValue>,
)
    requires
        node.valid_for(kinds),
        all_fit(values, kinds),
    ensures
        node.ready_for(values),
    decreases node,
{
    match node {
        Node::And(left, right) => {
            lemma_valid_is_ready(*left, kinds, values);
            lemma_valid_is_ready(*right, kinds, values);
        },
        Node::Or(left, right) => {
            lemma_valid_is_ready(*left, kinds, values);
            lemma_valid_is_ready(*right, kinds, values);
        },
        Node::Not(value) => {
            lemma_valid_is_ready(*value, kinds, values);
        },
        Node::Value(predicate) => {
            assert(values[predicate.attribute()@ as int].fits(kinds[predicate.attribute()@ as int]));
        },
    }
}

/// An optimized expression that is valid for the attributes can be evaluated
/// on every event that has a fitting value for each of them.
pub proof fn lemma_valid_optimized_is_ready(
    node: OptimizedNode,
    kinds: Seq<AttributeKind>,
    values: Seq<AttributeValue>,
)
    requires
        node.valid_for(kinds),
        all_fit(values, kinds),
    ensures
        node.ready_for(values),
    decreases node,
{
    match node {
        OptimizedNode::And(left, right) => {
            lemma_valid_optimized_is_ready(*left, kinds, values);
            lemma_valid_optimized_is_ready(*right, kinds, values);
        },
        OptimizedNode::Or(left, right) => {
            lemma_valid_optimized_is_ready(*left, kinds, values);
            lemma_valid_optimized_is_ready(*right, kinds, values);
        },
        OptimizedNode::Value(predicate) => {
            assert(values[predicate.attribute()@ as int].fits(kinds[predicate.attribute()@ as int]));
        },
    }
}

} // verus!
