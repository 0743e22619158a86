//! The leaves of expressions: typed tests of one attribute.
use crate::decimal::Decimal;
use crate::events::{AttributeId, AttributeKind, AttributeTable, AttributeValue, Event, EventError};
use crate::lists::{ascending, canonical, canonicalize, Ranked, ranks};
use crate::strings::StringId;
use std::hash::DefaultHasher;
use std::hash::Hasher;
use vstd::bytes::{spec_u64_to_le_bytes, u64_to_le_bytes};
use vstd::prelude::*;
use vstd::std_specs::hash::DefaultHasherAdditionalSpecFns;

verus! {

/// Whether a value has to be in a list, or must not be.
#[derive(Hash, Eq, PartialEq, Clone, Copy, Debug, Structural)]
pub enum SetOperator {
    NotIn,
    In,
}

/// How a value has to compare with a number.
#[derive(Hash, Eq, PartialEq, Clone, Copy, Debug, Structural)]
pub enum ComparisonOperator {
    LessThan,
    LessThanEqual,
    GreaterThanEqual,
    GreaterThan,
}

/// The number that a value is compared with.
#[derive(Hash, Eq, PartialEq, Clone, Copy, Debug)]
pub enum ComparisonValue {
    Integer(i64),
    Float(Decimal),
}

/// Whether a value has to be a literal, or must not be.
#[derive(Hash, Eq, PartialEq, Clone, Copy, Debug, Structural)]
pub enum EqualityOperator {
    Equal,
    NotEqual,
}

/// What a list has to have in common with a literal list.
#[derive(Hash, Eq, PartialEq, Clone, Copy, Debug, Structural)]
pub enum ListOperator {
    OneOf,
    NoneOf,
    AllOf,
    /// Only the negation of `AllOf` gives this operator.
    NotAllOf,
}

/// Whether a value has to be undefined or empty, or must not be.
#[derive(Hash, Eq, PartialEq, Clone, Copy, Debug, Structural)]
pub enum NullOperator {
    IsNull,
    IsNotNull,
    IsEmpty,
    IsNotEmpty,
}

/// A literal list: of integers or of interned strings.
#[derive(Hash, Eq, PartialEq, Clone, Debug)]
pub enum ListLiteral {
    IntegerList(Vec<i64>),
    StringList(Vec<StringId>),
}

/// A literal: an integer, a decimal or an interned string.
#[derive(Hash, Eq, PartialEq, Clone, Copy, Debug)]
pub enum PrimitiveLiteral {
    Integer(i64),
    Float(Decimal),
    String(StringId),
}

/// What a predicate asks of its attribute.
#[derive(Hash, Eq, PartialEq, Clone, Debug)]
pub enum PredicateKind {
    Variable,
    NegatedVariable,
    Membership(SetOperator, ListLiteral),
    Comparison(ComparisonOperator, ComparisonValue),
    Equality(EqualityOperator, PrimitiveLiteral),
    List(ListOperator, ListLiteral),
    Null(NullOperator),
}

/// Whether two lists have an item in common.
pub open spec fn overlap(left: Seq<int>, right: Seq<int>) -> bool {
    exists|i: int, j: int|
        0 <= i < left.len() && 0 <= j < right.len() && #[trigger] left[i] == #[trigger] right[j]
}

/// Whether every item of `left` is one of `right`.
pub open spec fn subset(left: Seq<int>, right: Seq<int>) -> bool {
    forall|i: int| 0 <= i < left.len() ==> right.contains(#[trigger] left[i])
}

/// Whether a canonical list holds the item, by binary search.
pub fn contains<T: Ranked>(haystack: &[T], needle: &T) -> (found: bool)
    requires
        canonical(haystack@),
    ensures
        found == ranks(haystack@).contains(needle.rank()),
{
    let mut low: usize = 0;
    let mut high: usize = haystack.len();
    while low < high
        invariant
            low <= high <= haystack.len(),
            canonical(haystack@),
            forall|i: int| 0 <= i < low ==> #[trigger] ranks(haystack@)[i] < needle.rank(),
            forall|i: int|
                high <= i < haystack.len() ==> #[trigger] ranks(haystack@)[i] > needle.rank(),
        decreases high - low,
    {
        let middle = low + (high - low) / 2;
        let item = &haystack[middle];
        assert(ranks(haystack@)[middle as int] == item.rank());
        if item.precedes(needle) {
            assert forall|i: int| 0 <= i < middle + 1 implies #[trigger] ranks(haystack@)[i]
                < needle.rank() by {
                if i < middle {
                    assert(ranks(haystack@)[i] < ranks(haystack@)[middle as int]);
                }
            }
            low = middle + 1;
        } else if needle.precedes(item) {
            assert forall|i: int| middle <= i < haystack.len() implies #[trigger] ranks(
                haystack@,
            )[i] > needle.rank() by {
                if i > middle {
                    assert(ranks(haystack@)[middle as int] < ranks(haystack@)[i]);
                }
            }
            high = middle;
        } else {
            return true;
        }
    }
    false
}

/// Whether no item of `left` is one of `right`.
#[inline]
pub fn none_of<T: Ranked>(left: &[T], right: &[T]) -> (result: bool)
    requires
        canonical(left@),
        canonical(right@),
    ensures
        result == !overlap(ranks(left@), ranks(right@)),
{
    !one_of(left, right)
}

/// Whether an item of `left` is one of `right`: one pass over both lists.
pub fn one_of<T: Ranked>(left: &[T], right: &[T]) -> (result: bool)
    requires
        canonical(left@),
        canonical(right@),
    ensures
        result == overlap(ranks(left@), ranks(right@)),
{
    if left.len() == 0 || right.len() == 0 {
        return false;
    }
    let ghost l = ranks(left@);
    let ghost r = ranks(right@);
    let mut i: usize = 0;
    let mut j: usize = 0;
    while j < left.len() && i < right.len()
        invariant
            i <= right.len(),
            j <= left.len(),
            l == ranks(left@),
            r == ranks(right@),
            ascending(l),
            ascending(r),
            forall|a: int, b: int|
                0 <= a < j && 0 <= b < r.len() ==> #[trigger] l[a] != #[trigger] r[b],
            forall|a: int, b: int|
                0 <= a < l.len() && 0 <= b < i ==> #[trigger] l[a] != #[trigger] r[b],
        decreases (left.len() - j) + (right.len() - i),
    {
        let x = &left[j];
        let y = &right[i];
        assert(l[j as int] == x.rank() && r[i as int] == y.rank());
        if y.precedes(x) {
            assert forall|a: int, b: int| 0 <= a < l.len() && 0 <= b < i + 1 implies #[trigger] l[a]
                != #[trigger] r[b] by {
                if b == i && a >= j {
                    if a > j {
                        assert(l[j as int] < l[a]);
                    }
                }
            }
            i += 1;
        } else if x.precedes(y) {
            assert forall|a: int, b: int| 0 <= a < j + 1 && 0 <= b < r.len() implies #[trigger] l[a]
                != #[trigger] r[b] by {
                if a == j && b >= i {
                    if b > i {
                        assert(r[i as int] < r[b]);
                    }
                }
            }
            j += 1;
        } else {
            return true;
        }
    }
    false
}

/// Whether an item of `left` is not one of `right`.
#[inline]
pub fn not_all_of<T: Ranked>(left: &[T], right: &[T]) -> (result: bool)
    requires
        canonical(left@),
        canonical(right@),
    ensures
        result == !subset(ranks(left@), ranks(right@)),
{
    !all_of(left, right)
}

proof fn lemma_subset_is_shorter(left: Seq<int>, right: Seq<int>)
    requires
        ascending(left),
        ascending(right),
        subset(left, right),
    ensures
        left.len() <= right.len(),
    decreases left.len(),
{
    if left.len() > 0 {
        let last = left[left.len() - 1];
        assert(right.contains(last));
        let b = choose|b: int| 0 <= b < right.len() && right[b] == last;
        let shorter = left.drop_last();
        let front = right.subrange(0, b);
        assert forall|i: int| 0 <= i < shorter.len() implies front.contains(
            #[trigger] shorter[i],
        ) by {
            assert(right.contains(left[i]));
            let c = choose|c: int| 0 <= c < right.len() && right[c] == left[i];
            assert(left[i] < last);
            if c >= b {
                if c > b {
                    assert(right[b] < right[c]);
                }
                assert(false);
            }
            assert(front[c] == shorter[i]);
        }
        lemma_subset_is_shorter(shorter, front);
    }
}

/// Whether every item of `left` is one of `right`: one pass over both lists.
pub fn all_of<T: Ranked>(left: &[T], right: &[T]) -> (result: bool)
    requires
        canonical(left@),
        canonical(right@),
    ensures
        result == subset(ranks(left@), ranks(right@)),
{
    let ghost l = ranks(left@);
    let ghost r = ranks(right@);
    if left.len() > right.len() {
        proof {
            if subset(l, r) {
                lemma_subset_is_shorter(l, r);
            }
        }
        return false;
    }
    let mut i: usize = 0;
    let mut j: usize = 0;
    let mut missing = false;
    while j < left.len() && i < right.len()
        invariant_except_break
            !missing,
            forall|a: int, b: int|
                j <= a < l.len() && 0 <= b < i ==> #[trigger] r[b] < #[trigger] l[a],
        invariant
            i <= right.len(),
            j <= left.len(),
            l == ranks(left@),
            r == ranks(right@),
            ascending(l),
            ascending(r),
            forall|a: int| 0 <= a < j ==> r.contains(#[trigger] l[a]),
        ensures
            missing ==> j < l.len() && !r.contains(l[j as int]),
            !missing ==> j >= l.len() || (i >= r.len() && forall|b: int|
                0 <= b < r.len() ==> #[trigger] r[b] < l[j as int]),
        decreases (left.len() - j) + (right.len() - i),
    {
        let x = &left[j];
        let y = &right[i];
        assert(l[j as int] == x.rank() && r[i as int] == y.rank());
        if y.precedes(x) {
            assert forall|a: int, b: int| j <= a < l.len() && 0 <= b < i + 1 implies #[trigger] r[b]
                < #[trigger] l[a] by {
                if b == i && a > j {
                    assert(l[j as int] < l[a]);
                }
            }
            i += 1;
        } else if x.precedes(y) {
            proof {
                assert forall|b: int| 0 <= b < r.len() implies r[b] != l[j as int] by {
                    if b > i {
                        assert(r[i as int] < r[b]);
                    }
                }
            }
            missing = true;
            break;
        } else {
            assert(r.contains(l[j as int]));
            assert forall|a: int, b: int| j + 1 <= a < l.len() && 0 <= b < i + 1 implies #[trigger] r[b]
                < #[trigger] l[a] by {
                assert(l[j as int] < l[a]);
            }
            i += 1;
            j += 1;
        }
    }
    proof {
        if j < l.len() {
            assert(!r.contains(l[j as int]));
        }
    }
    j >= left.len()
}

/// The opposite of a result; an undefined result has none.
pub open spec fn opposite(result: Option<bool>) -> Option<bool> {
    match result {
        Some(value) => Some(!value),
        None => None,
    }
}

/// A number as a cost: the largest cost stands for all that are larger.
pub open spec fn saturated(cost: int) -> u64 {
    if cost > u64::MAX {
        u64::MAX
    } else {
        cost as u64
    }
}

impl SetOperator {
    /// What the operator makes of whether the item is in the list.
    pub open spec fn holds(&self, found: bool) -> bool {
        match self {
            SetOperator::In => found,
            SetOperator::NotIn => !found,
        }
    }

    /// Whether `needle` meets the operator in `haystack`. A value of another
    /// type than the list's items has no result.
    pub fn evaluate(&self, haystack: &ListLiteral, needle: &AttributeValue) -> (result: Option<
        bool,
    >)
        requires
            haystack.is_canonical(),
        ensures
            result == membership(*self, *haystack, *needle),
    {
        match (haystack, needle) {
            (ListLiteral::StringList(haystack), AttributeValue::String(needle)) => Some(
                self.apply(haystack.as_slice(), needle),
            ),
            (ListLiteral::IntegerList(haystack), AttributeValue::Integer(needle)) => Some(
                self.apply(haystack.as_slice(), needle),
            ),
            _ => None,
        }
    }

    /// Whether the item meets the operator in the canonical list.
    pub fn apply<T: Ranked>(&self, haystack: &[T], needle: &T) -> (result: bool)
        requires
            canonical(haystack@),
        ensures
            result == self.holds(ranks(haystack@).contains(needle.rank())),
    {
        match self {
            Self::In => contains(haystack, needle),
            Self::NotIn => !contains(haystack, needle),
        }
    }
}

/// The result of a set predicate on a value.
pub open spec fn membership(
    operator: SetOperator,
    haystack: ListLiteral,
    needle: AttributeValue,
) -> Option<bool> {
    match (haystack, needle) {
        (ListLiteral::StringList(haystack), AttributeValue::String(needle)) => Some(
            operator.holds(ranks(haystack@).contains(needle.rank())),
        ),
        (ListLiteral::IntegerList(haystack), AttributeValue::Integer(needle)) => Some(
            operator.holds(ranks(haystack@).contains(needle.rank())),
        ),
        _ => None,
    }
}

impl ComparisonOperator {
    /// What the operator makes of whether the value is less, and whether it is
    /// greater, than the literal.
    pub open spec fn holds(&self, less: bool, greater: bool) -> bool {
        match self {
            ComparisonOperator::LessThan => less,
            ComparisonOperator::LessThanEqual => !greater,
            ComparisonOperator::GreaterThan => greater,
            ComparisonOperator::GreaterThanEqual => !less,
        }
    }

    /// Whether the value `b` meets the operator against the literal `a`. A
    /// value of another type than the literal has no result.
    pub fn evaluate(&self, a: &ComparisonValue, b: &AttributeValue) -> (result: Option<bool>)
        ensures
            result == comparison(*self, *a, *b),
    {
        match (a, b) {
            (ComparisonValue::Float(b), AttributeValue::Float(a)) => Some(
                self.apply(a.less_than(b), b.less_than(a)),
            ),
            (ComparisonValue::Integer(b), AttributeValue::Integer(a)) => Some(
                self.apply(*a < *b, *b < *a),
            ),
            _ => None,
        }
    }

    /// What the operator makes of whether the value is less, and whether it
    /// is greater, than the literal.
    pub fn apply(&self, less: bool, greater: bool) -> (result: bool)
        ensures
            result == self.holds(less, greater),
    {
        match self {
            Self::LessThan => less,
            Self::LessThanEqual => !greater,
            Self::GreaterThan => greater,
            Self::GreaterThanEqual => !less,
        }
    }
}

/// The result of a comparison predicate on a value.
pub open spec fn comparison(
    operator: ComparisonOperator,
    literal: ComparisonValue,
    value: AttributeValue,
) -> Option<bool> {
    match (literal, value) {
        (ComparisonValue::Float(b), AttributeValue::Float(a)) => Some(
            operator.holds(a.spec_less(b), b.spec_less(a)),
        ),
        (ComparisonValue::Integer(b), AttributeValue::Integer(a)) => Some(
            operator.holds(a < b, b < a),
        ),
        _ => None,
    }
}

impl EqualityOperator {
    /// What the operator makes of whether the value is the literal.
    pub open spec fn holds(&self, equal: bool) -> bool {
        match self {
            EqualityOperator::Equal => equal,
            EqualityOperator::NotEqual => !equal,
        }
    }

    /// Whether the value `b` meets the operator against the literal `a`. A
    /// value of another type than the literal has no result.
    pub fn evaluate(&self, a: &PrimitiveLiteral, b: &AttributeValue) -> (result: Option<bool>)
        ensures
            result == equality(*self, *a, *b),
    {
        match (a, b) {
            (PrimitiveLiteral::Float(a), AttributeValue::Float(b)) => Some(
                self.apply(b.equals(a)),
            ),
            (PrimitiveLiteral::Integer(a), AttributeValue::Integer(b)) => Some(
                self.apply(*a == *b),
            ),
            (PrimitiveLiteral::String(a), AttributeValue::String(b)) => Some(
                self.apply(a.0 == b.0),
            ),
            _ => None,
        }
    }

    /// What the operator makes of whether the value is the literal.
    pub fn apply(&self, equal: bool) -> (result: bool)
        ensures
            result == self.holds(equal),
    {
        match self {
            Self::Equal => equal,
            Self::NotEqual => !equal,
        }
    }
}

/// The result of an equality predicate on a value.
pub open spec fn equality(
    operator: EqualityOperator,
    literal: PrimitiveLiteral,
    value: AttributeValue,
) -> Option<bool> {
    match (literal, value) {
        (PrimitiveLiteral::Float(a), AttributeValue::Float(b)) => Some(
            operator.holds(b.spec_same(a)),
        ),
        (PrimitiveLiteral::Integer(a), AttributeValue::Integer(b)) => Some(operator.holds(a == b)),
        (PrimitiveLiteral::String(a), AttributeValue::String(b)) => Some(
            operator.holds(a.0 == b.0),
        ),
        _ => None,
    }
}

impl ListOperator {
    /// What the operator makes of the value's list `left` and the literal
    /// list `right`.
    pub open spec fn holds(&self, left: Seq<int>, right: Seq<int>) -> bool {
        match self {
            ListOperator::OneOf => overlap(left, right),
            ListOperator::NoneOf => !overlap(left, right),
            ListOperator::AllOf => subset(left, right),
            ListOperator::NotAllOf => !subset(left, right),
        }
    }

    /// Whether the list value `b` meets the operator against the literal `a`.
    /// A value of another type than the literal has no result.
    pub fn evaluate(&self, a: &ListLiteral, b: &AttributeValue) -> (result: Option<bool>)
        requires
            a.is_canonical(),
            b.wf(),
        ensures
            result == list(*self, *a, *b),
    {
        match (a, b) {
            (ListLiteral::StringList(right), AttributeValue::StringList(left)) => Some(
                self.apply(left.as_slice(), right.as_slice()),
            ),
            (ListLiteral::IntegerList(right), AttributeValue::IntegerList(left)) => Some(
                self.apply(left.as_slice(), right.as_slice()),
            ),
            _ => None,
        }
    }

    /// Whether the canonical list `left` meets the operator against the
    /// canonical list `right`.
    pub fn apply<T: Ranked>(&self, left: &[T], right: &[T]) -> (result: bool)
        requires
            canonical(left@),
            canonical(right@),
        ensures
            result == self.holds(ranks(left@), ranks(right@)),
    {
        match self {
            Self::OneOf => one_of(left, right),
            Self::NoneOf => none_of(left, right),
            Self::AllOf => all_of(left, right),
            Self::NotAllOf => not_all_of(left, right),
        }
    }
}

/// The result of a list predicate on a value.
pub open spec fn list(operator: ListOperator, literal: ListLiteral, value: AttributeValue) -> Option<
    bool,
> {
    match (literal, value) {
        (ListLiteral::StringList(right), AttributeValue::StringList(left)) => Some(
            operator.holds(ranks(left@), ranks(right@)),
        ),
        (ListLiteral::IntegerList(right), AttributeValue::IntegerList(left)) => Some(
            operator.holds(ranks(left@), ranks(right@)),
        ),
        _ => None,
    }
}

impl NullOperator {
    /// The result of the check on a value. An undefined value is null and
    /// holds no item; a value that is no list is not empty.
    pub open spec fn holds(&self, value: AttributeValue) -> bool {
        match self {
            NullOperator::IsNull => value is Undefined,
            NullOperator::IsNotNull => !(value is Undefined),
            NullOperator::IsEmpty => value.holds_nothing(),
            NullOperator::IsNotEmpty => !value.holds_nothing(),
        }
    }

    /// The result of the check on a value.
    pub fn evaluate(&self, value: &AttributeValue) -> (result: bool)
        ensures
            result == self.holds(*value),
    {
        match self {
            Self::IsNull => Self::is_null(value),
            Self::IsNotNull => !Self::is_null(value),
            Self::IsEmpty => Self::is_empty(value),
            Self::IsNotEmpty => !Self::is_empty(value),
        }
    }

    fn is_null(value: &AttributeValue) -> (result: bool)
        ensures
            result == (*value is Undefined),
    {
        match value {
            AttributeValue::Undefined => true,
            _ => false,
        }
    }

    fn is_empty(value: &AttributeValue) -> (result: bool)
        ensures
            result == value.holds_nothing(),
    {
        match value {
            AttributeValue::StringList(list) => list.len() == 0,
            AttributeValue::IntegerList(list) => list.len() == 0,
            AttributeValue::Undefined => true,
            _ => false,
        }
    }
}

impl ListLiteral {
    /// The ranks of the items, in the order of the list.
    pub open spec fn items(&self) -> Seq<int> {
        match self {
            ListLiteral::IntegerList(list) => ranks(list@),
            ListLiteral::StringList(list) => ranks(list@),
        }
    }

    /// Whether the list is in canonical form.
    pub open spec fn is_canonical(&self) -> bool {
        ascending(self.items())
    }

    /// Whether `self` is the canonical form of `other`: the same items, each
    /// once and in ascending order.
    pub open spec fn canonical_of(&self, other: ListLiteral) -> bool {
        &&& self.is_canonical()
        &&& (*self is IntegerList) == (other is IntegerList)
        &&& forall|rank: int| self.items().contains(rank) == other.items().contains(rank)
    }

    /// The canonical form of the list.
    pub fn canonical(self) -> (result: Self)
        ensures
            result.canonical_of(self),
    {
        match self {
            ListLiteral::IntegerList(list) => ListLiteral::IntegerList(
                canonicalize(list.as_slice()),
            ),
            ListLiteral::StringList(list) => ListLiteral::StringList(
                canonicalize(list.as_slice()),
            ),
        }
    }

    /// The number of items.
    pub fn len(&self) -> (len: usize)
        ensures
            len == self.items().len(),
    {
        match self {
            ListLiteral::IntegerList(list) => list.len(),
            ListLiteral::StringList(list) => list.len(),
        }
    }
}

impl PredicateKind {
    /// Whether the literal list of the predicate, if it has one, is in
    /// canonical form.
    pub open spec fn wf(&self) -> bool {
        match self {
            PredicateKind::Membership(_, list) => list.is_canonical(),
            PredicateKind::List(_, list) => list.is_canonical(),
            _ => true,
        }
    }

    /// Whether a predicate of this kind can be asked of an attribute of that
    /// type.
    pub open spec fn applies_to(&self, kind: AttributeKind) -> bool {
        match (self, kind) {
            (PredicateKind::Membership(_, ListLiteral::StringList(_)), AttributeKind::String) => true,
            (
                PredicateKind::Membership(_, ListLiteral::IntegerList(_)),
                AttributeKind::Integer,
            ) => true,
            (
                PredicateKind::Comparison(_, ComparisonValue::Integer(_)),
                AttributeKind::Integer,
            ) => true,
            (PredicateKind::Comparison(_, ComparisonValue::Float(_)), AttributeKind::Float) => true,
            (
                PredicateKind::Equality(_, PrimitiveLiteral::Integer(_)),
                AttributeKind::Integer,
            ) => true,
            (PredicateKind::Equality(_, PrimitiveLiteral::Float(_)), AttributeKind::Float) => true,
            (PredicateKind::Equality(_, PrimitiveLiteral::String(_)), AttributeKind::String) => true,
            (
                PredicateKind::List(_, ListLiteral::IntegerList(_)),
                AttributeKind::IntegerList,
            ) => true,
            (PredicateKind::List(_, ListLiteral::StringList(_)), AttributeKind::StringList) => true,
            (PredicateKind::Variable, AttributeKind::Boolean) => true,
            (PredicateKind::NegatedVariable, AttributeKind::Boolean) => true,
            (PredicateKind::Null(operator), kind) => if operator is IsEmpty
                || operator is IsNotEmpty {
                kind is StringList || kind is IntegerList
            } else {
                !(kind is StringList || kind is IntegerList)
            },
            _ => false,
        }
    }

    /// The cost of evaluating the predicate: nothing for a test of one value,
    /// the length of the list for a binary search in it, twice the length for
    /// a pass over it.
    pub open spec fn spec_cost(&self) -> int {
        match self {
            PredicateKind::Membership(_, list) => LOGARITHMIC_COST * list.items().len(),
            PredicateKind::List(_, list) => LIST_COST * list.items().len(),
            _ => CONSTANT_COST as int,
        }
    }

    /// The predicate that holds where this one does not: one operator is
    /// swapped for its opposite.
    pub open spec fn negated(self) -> PredicateKind {
        match self {
            PredicateKind::Membership(SetOperator::In, value) => PredicateKind::Membership(
                SetOperator::NotIn,
                value,
            ),
            PredicateKind::Membership(SetOperator::NotIn, value) => PredicateKind::Membership(
                SetOperator::In,
                value,
            ),
            PredicateKind::Comparison(ComparisonOperator::LessThan, value) => {
                PredicateKind::Comparison(ComparisonOperator::GreaterThanEqual, value)
            },
            PredicateKind::Comparison(ComparisonOperator::LessThanEqual, value) => {
                PredicateKind::Comparison(ComparisonOperator::GreaterThan, value)
            },
            PredicateKind::Comparison(ComparisonOperator::GreaterThan, value) => {
                PredicateKind::Comparison(ComparisonOperator::LessThanEqual, value)
            },
            PredicateKind::Comparison(ComparisonOperator::GreaterThanEqual, value) => {
                PredicateKind::Comparison(ComparisonOperator::LessThan, value)
            },
            PredicateKind::Null(NullOperator::IsNull) => PredicateKind::Null(
                NullOperator::IsNotNull,
            ),
            PredicateKind::Null(NullOperator::IsNotNull) => PredicateKind::Null(
                NullOperator::IsNull,
            ),
            PredicateKind::Null(NullOperator::IsEmpty) => PredicateKind::Null(
                NullOperator::IsNotEmpty,
            ),
            PredicateKind::Null(NullOperator::IsNotEmpty) => PredicateKind::Null(
                NullOperator::IsEmpty,
            ),
            PredicateKind::Equality(EqualityOperator::Equal, value) => PredicateKind::Equality(
                EqualityOperator::NotEqual,
                value,
            ),
            PredicateKind::Equality(EqualityOperator::NotEqual, value) => PredicateKind::Equality(
                EqualityOperator::Equal,
                value,
            ),
            PredicateKind::List(ListOperator::OneOf, value) => PredicateKind::List(
                ListOperator::NoneOf,
                value,
            ),
            PredicateKind::List(ListOperator::AllOf, value) => PredicateKind::List(
                ListOperator::NotAllOf,
                value,
            ),
            PredicateKind::List(ListOperator::NotAllOf, value) => PredicateKind::List(
                ListOperator::AllOf,
                value,
            ),
            PredicateKind::List(ListOperator::NoneOf, value) => PredicateKind::List(
                ListOperator::OneOf,
                value,
            ),
            PredicateKind::Variable => PredicateKind::NegatedVariable,
            PredicateKind::NegatedVariable => PredicateKind::Variable,
        }
    }

    /// The result of the predicate on a value. A check for null or emptiness
    /// has a result on every value. Every other predicate has none on the
    /// undefined value, nor on a value of another type than its own.
    pub open spec fn holds(&self, value: AttributeValue) -> Option<bool> {
        match self {
            PredicateKind::Null(operator) => Some(operator.holds(value)),
            PredicateKind::Variable => match value {
                AttributeValue::Boolean(value) => Some(value),
                _ => None,
            },
            PredicateKind::NegatedVariable => match value {
                AttributeValue::Boolean(value) => Some(!value),
                _ => None,
            },
            PredicateKind::Membership(operator, haystack) => membership(
                *operator,
                *haystack,
                value,
            ),
            PredicateKind::Comparison(operator, literal) => comparison(*operator, *literal, value),
            PredicateKind::Equality(operator, literal) => equality(*operator, *literal, value),
            PredicateKind::List(operator, literal) => list(*operator, *literal, value),
        }
    }

    /// Whether `self` is `other` with its literal list, if it has one, in
    /// canonical form.
    pub open spec fn canonical_of(&self, other: PredicateKind) -> bool {
        match (self, other) {
            (
                PredicateKind::Membership(operator, list),
                PredicateKind::Membership(other_operator, other_list),
            ) => operator == other_operator && list.canonical_of(other_list),
            (
                PredicateKind::List(operator, list),
                PredicateKind::List(other_operator, other_list),
            ) => operator == other_operator && list.canonical_of(other_list),
            (PredicateKind::Membership(_, _), _) => false,
            (PredicateKind::List(_, _), _) => false,
            _ => *self == other,
        }
    }

    /// The predicate with its literal list, if it has one, in canonical form.
    pub fn canonical(self) -> (result: Self)
        ensures
            result.canonical_of(self),
            result.wf(),
            forall|kind: AttributeKind| result.applies_to(kind) == self.applies_to(kind),
    {
        match self {
            PredicateKind::Membership(operator, list) => PredicateKind::Membership(
                operator,
                list.canonical(),
            ),
            PredicateKind::List(operator, list) => PredicateKind::List(operator, list.canonical()),
            other => other,
        }
    }

    /// The cost of evaluating the predicate; the largest cost stands for all
    /// that are larger.
    #[inline]
    pub fn cost(&self) -> (cost: u64)
        ensures
            cost == saturated(self.spec_cost()),
    {
        match self {
            Self::NegatedVariable | Self::Variable | Self::Null(_) | Self::Comparison(_, _)
            | Self::Equality(_, _) => CONSTANT_COST,
            Self::Membership(_, list) => times(LOGARITHMIC_COST, list.len()),
            Self::List(_, list) => times(LIST_COST, list.len()),
        }
    }

    /// The predicate that holds where this one does not.
    pub fn not(self) -> (result: Self)
        ensures
            result == self.negated(),
    {
        match self {
            Self::Membership(SetOperator::In, value) => Self::Membership(SetOperator::NotIn, value),
            Self::Membership(SetOperator::NotIn, value) => Self::Membership(SetOperator::In, value),
            Self::Comparison(ComparisonOperator::LessThan, value) => {
                Self::Comparison(ComparisonOperator::GreaterThanEqual, value)
            },
            Self::Comparison(ComparisonOperator::LessThanEqual, value) => {
                Self::Comparison(ComparisonOperator::GreaterThan, value)
            },
            Self::Comparison(ComparisonOperator::GreaterThan, value) => {
                Self::Comparison(ComparisonOperator::LessThanEqual, value)
            },
            Self::Comparison(ComparisonOperator::GreaterThanEqual, value) => {
                Self::Comparison(ComparisonOperator::LessThan, value)
            },
            Self::Null(NullOperator::IsNull) => Self::Null(NullOperator::IsNotNull),
            Self::Null(NullOperator::IsNotNull) => Self::Null(NullOperator::IsNull),
            Self::Null(NullOperator::IsEmpty) => Self::Null(NullOperator::IsNotEmpty),
            Self::Null(NullOperator::IsNotEmpty) => Self::Null(NullOperator::IsEmpty),
            Self::Equality(EqualityOperator::Equal, value) => {
                Self::Equality(EqualityOperator::NotEqual, value)
            },
            Self::Equality(EqualityOperator::NotEqual, value) => {
                Self::Equality(EqualityOperator::Equal, value)
            },
            Self::List(ListOperator::OneOf, value) => Self::List(ListOperator::NoneOf, value),
            Self::List(ListOperator::AllOf, value) => Self::List(ListOperator::NotAllOf, value),
            Self::List(ListOperator::NotAllOf, value) => Self::List(ListOperator::AllOf, value),
            Self::List(ListOperator::NoneOf, value) => Self::List(ListOperator::OneOf, value),
            Self::Variable => Self::NegatedVariable,
            Self::NegatedVariable => Self::Variable,
        }
    }

    /// The result of the predicate on a value.
    pub fn evaluate(&self, value: &AttributeValue) -> (result: Option<bool>)
        requires
            self.wf(),
            value.wf(),
        ensures
            result == self.holds(*value),
    {
        match self {
            PredicateKind::Null(operator) => Some(operator.evaluate(value)),
            PredicateKind::Variable => match value {
                AttributeValue::Boolean(value) => Some(*value),
                _ => None,
            },
            PredicateKind::NegatedVariable => match value {
                AttributeValue::Boolean(value) => Some(!*value),
                _ => None,
            },
            PredicateKind::Membership(operator, haystack) => operator.evaluate(haystack, value),
            PredicateKind::Comparison(operator, a) => operator.evaluate(a, value),
            PredicateKind::Equality(operator, a) => operator.evaluate(a, value),
            PredicateKind::List(operator, a) => operator.evaluate(a, value),
        }
    }
}

/// The cost of a test of one value.
pub const CONSTANT_COST: u64 = 0;

/// The cost of a binary search, for each item of the list.
pub const LOGARITHMIC_COST: u64 = 1;

/// The cost of a pass over a list, for each of its items.
pub const LIST_COST: u64 = 2;

fn times(factor: u64, length: usize) -> (cost: u64)
    ensures
        cost == saturated(factor * length),
{
    let length = length as u64;
    if factor != 0 && length > u64::MAX / factor {
        assert(factor * length > u64::MAX) by (nonlinear_arith)
            requires
                factor > 0,
                length > u64::MAX / factor,
        ;
        u64::MAX
    } else {
        assert(factor * length <= u64::MAX) by (nonlinear_arith)
            requires
                factor == 0 || length <= u64::MAX / factor,
        ;
        factor * length
    }
}

/// Negating a predicate twice gives the predicate back.
pub proof fn lemma_negation_is_an_involution(kind: PredicateKind)
    ensures
        kind.negated().negated() == kind,
{
}

/// On every value the negated predicate has the opposite result, and none
/// where the predicate has none.
pub proof fn lemma_negation_gives_the_opposite(kind: PredicateKind, value: AttributeValue)
    ensures
        kind.negated().holds(value) == opposite(kind.holds(value)),
        kind.negated().wf() == kind.wf(),
        forall|attribute: AttributeKind|
            kind.negated().applies_to(attribute) == kind.applies_to(attribute),
        kind.negated().spec_cost() == kind.spec_cost(),
{
}

/// A predicate has no result only on the undefined value, unless it is asked
/// of a value of another type than its attribute's; a check for null or
/// emptiness always has one.
pub proof fn lemma_undefined_only(kind: PredicateKind, attribute: AttributeKind, value: AttributeValue)
    requires
        kind.applies_to(attribute),
        value.fits(attribute),
    ensures
        kind.holds(value) is None <==> value is Undefined && !(kind is Null),
{
}

/// A test of one attribute.
#[derive(Eq, PartialEq, Hash, Debug, Clone)]
pub struct Predicate {
    attribute: AttributeId,
    kind: PredicateKind,
}

/// Accepts the kind of predicate for an attribute of that type, or refuses it
/// with the name of the attribute.
pub fn validate_predicate(name: &str, kind: PredicateKind, attribute_kind: AttributeKind) -> (result:
    Result<PredicateKind, EventError>)
    ensures
        match result {
            Ok(accepted) => kind.applies_to(attribute_kind) && accepted == kind,
            Err(EventError::MismatchingTypes { name: refused, expected, actual }) => !kind.applies_to(
                attribute_kind,
            ) && refused@ == name@ && expected == attribute_kind && actual == kind,
            Err(_) => false,
        },
{
    let accepted = match (&kind, attribute_kind) {
        (PredicateKind::Membership(_, ListLiteral::StringList(_)), AttributeKind::String) => true,
        (PredicateKind::Membership(_, ListLiteral::IntegerList(_)), AttributeKind::Integer) => true,
        (PredicateKind::Comparison(_, ComparisonValue::Integer(_)), AttributeKind::Integer) => true,
        (PredicateKind::Comparison(_, ComparisonValue::Float(_)), AttributeKind::Float) => true,
        (PredicateKind::Equality(_, PrimitiveLiteral::Integer(_)), AttributeKind::Integer) => true,
        (PredicateKind::Equality(_, PrimitiveLiteral::Float(_)), AttributeKind::Float) => true,
        (PredicateKind::Equality(_, PrimitiveLiteral::String(_)), AttributeKind::String) => true,
        (PredicateKind::List(_, ListLiteral::IntegerList(_)), AttributeKind::IntegerList) => true,
        (PredicateKind::List(_, ListLiteral::StringList(_)), AttributeKind::StringList) => true,
        (PredicateKind::Variable, AttributeKind::Boolean) => true,
        (PredicateKind::NegatedVariable, AttributeKind::Boolean) => true,
        (PredicateKind::Null(NullOperator::IsEmpty), AttributeKind::StringList) => true,
        (PredicateKind::Null(NullOperator::IsEmpty), AttributeKind::IntegerList) => true,
        (PredicateKind::Null(NullOperator::IsNotEmpty), AttributeKind::StringList) => true,
        (PredicateKind::Null(NullOperator::IsNotEmpty), AttributeKind::IntegerList) => true,
        (PredicateKind::Null(NullOperator::IsNull), AttributeKind::Integer) => true,
        (PredicateKind::Null(NullOperator::IsNull), AttributeKind::Float) => true,
        (PredicateKind::Null(NullOperator::IsNull), AttributeKind::String) => true,
        (PredicateKind::Null(NullOperator::IsNull), AttributeKind::Boolean) => true,
        (PredicateKind::Null(NullOperator::IsNotNull), AttributeKind::Integer) => true,
        (PredicateKind::Null(NullOperator::IsNotNull), AttributeKind::Float) => true,
        (PredicateKind::Null(NullOperator::IsNotNull), AttributeKind::String) => true,
        (PredicateKind::Null(NullOperator::IsNotNull), AttributeKind::Boolean) => true,
        _ => false,
    };
    if accepted {
        Ok(kind)
    } else {
        Err(
            EventError::MismatchingTypes {
                name: name.to_owned(),
                expected: attribute_kind,
                actual: kind,
            },
        )
    }
}

/// The words that tell the operators apart.
pub open spec fn operator_words(kind: PredicateKind) -> Seq<u64> {
    match kind {
        PredicateKind::Variable => seq![0u64, 0u64],
        PredicateKind::NegatedVariable => seq![1u64, 0u64],
        PredicateKind::Membership(SetOperator::NotIn, _) => seq![2u64, 0u64],
        PredicateKind::Membership(SetOperator::In, _) => seq![2u64, 1u64],
        PredicateKind::Comparison(ComparisonOperator::LessThan, _) => seq![3u64, 0u64],
        PredicateKind::Comparison(ComparisonOperator::LessThanEqual, _) => seq![3u64, 1u64],
        PredicateKind::Comparison(ComparisonOperator::GreaterThanEqual, _) => seq![3u64, 2u64],
        PredicateKind::Comparison(ComparisonOperator::GreaterThan, _) => seq![3u64, 3u64],
        PredicateKind::Equality(EqualityOperator::Equal, _) => seq![4u64, 0u64],
        PredicateKind::Equality(EqualityOperator::NotEqual, _) => seq![4u64, 1u64],
        PredicateKind::List(ListOperator::OneOf, _) => seq![5u64, 0u64],
        PredicateKind::List(ListOperator::NoneOf, _) => seq![5u64, 1u64],
        PredicateKind::List(ListOperator::AllOf, _) => seq![5u64, 2u64],
        PredicateKind::List(ListOperator::NotAllOf, _) => seq![5u64, 3u64],
        PredicateKind::Null(NullOperator::IsNull) => seq![6u64, 0u64],
        PredicateKind::Null(NullOperator::IsNotNull) => seq![6u64, 1u64],
        PredicateKind::Null(NullOperator::IsEmpty) => seq![6u64, 2u64],
        PredicateKind::Null(NullOperator::IsNotEmpty) => seq![6u64, 3u64],
    }
}

/// The words of a literal list: the type of its items, then the items.
pub open spec fn list_words(list: ListLiteral) -> Seq<u64> {
    match list {
        ListLiteral::IntegerList(items) => seq![0u64] + Seq::new(
            items@.len(),
            |i: int| items@[i] as u64,
        ),
        ListLiteral::StringList(items) => seq![1u64] + Seq::new(
            items@.len(),
            |i: int| items@[i].0 as u64,
        ),
    }
}

/// The words of the literal of a predicate.
pub open spec fn literal_words(kind: PredicateKind) -> Seq<u64> {
    match kind {
        PredicateKind::Membership(_, list) => list_words(list),
        PredicateKind::List(_, list) => list_words(list),
        PredicateKind::Comparison(_, ComparisonValue::Integer(value)) => seq![0u64, value as u64],
        PredicateKind::Comparison(_, ComparisonValue::Float(value)) => seq![
            1u64,
            value.spec_words().0,
            value.spec_words().1,
            value.spec_words().2,
        ],
        PredicateKind::Equality(_, PrimitiveLiteral::Integer(value)) => seq![0u64, value as u64],
        PredicateKind::Equality(_, PrimitiveLiteral::Float(value)) => seq![
            1u64,
            value.spec_words().0,
            value.spec_words().1,
            value.spec_words().2,
        ],
        PredicateKind::Equality(_, PrimitiveLiteral::String(value)) => seq![2u64, value.0 as u64],
        _ => Seq::empty(),
    }
}

/// The words that a hash is taken of, each as its bytes.
pub open spec fn pieces(words: Seq<u64>) -> Seq<Seq<u8>> {
    Seq::new(words.len(), |i: int| spec_u64_to_le_bytes(words[i]))
}

fn list_to_words(list: &ListLiteral) -> (words: Vec<u64>)
    ensures
        words@ == list_words(*list),
{
    let mut words: Vec<u64> = Vec::new();
    match list {
        ListLiteral::IntegerList(items) => {
            words.push(0u64);
            let mut i: usize = 0;
            while i < items.len()
                invariant
                    i <= items.len(),
                    words.len() == i + 1,
                    words[0] == 0u64,
                    forall|k: int| 1 <= k <= i ==> #[trigger] words[k] == items@[k - 1] as u64,
                decreases items.len() - i,
            {
                words.push(items[i] as u64);
                i += 1;
            }
            assert(words@ =~= list_words(*list));
        },
        ListLiteral::StringList(items) => {
            words.push(1u64);
            let mut i: usize = 0;
            while i < items.len()
                invariant
                    i <= items.len(),
                    words.len() == i + 1,
                    words[0] == 1u64,
                    forall|k: int| 1 <= k <= i ==> #[trigger] words[k] == items@[k - 1].0 as u64,
                decreases items.len() - i,
            {
                words.push(items[i].0 as u64);
                i += 1;
            }
            assert(words@ =~= list_words(*list));
        },
    }
    words
}

fn append(words: &mut Vec<u64>, more: &Vec<u64>)
    ensures
        final(words)@ == old(words)@ + more@,
{
    let mut i: usize = 0;
    while i < more.len()
        invariant
            i <= more.len(),
            words@ == old(words)@ + more@.subrange(0, i as int),
        decreases more.len() - i,
    {
        words.push(more[i]);
        assert(more@.subrange(0, i + 1) =~= more@.subrange(0, i as int).push(more[i as int]));
        i += 1;
    }
    assert(more@.subrange(0, more.len() as int) =~= more@);
}

impl Predicate {
    /// The attribute that the predicate tests.
    pub closed spec fn attribute(&self) -> AttributeId {
        self.attribute
    }

    /// What the predicate asks of the attribute.
    pub closed spec fn kind(&self) -> PredicateKind {
        self.kind
    }

    /// Whether the literal list of the predicate is in canonical form.
    pub open spec fn wf(&self) -> bool {
        self.kind().wf()
    }

    /// Whether the predicate tests one of these attributes, and can be asked
    /// of it.
    pub open spec fn valid_for(&self, kinds: Seq<AttributeKind>) -> bool {
        &&& self.wf()
        &&& self.attribute()@ < kinds.len()
        &&& self.kind().applies_to(kinds[self.attribute()@ as int])
    }

    /// The words that identify the predicate: its attribute, its operator and
    /// its literal.
    pub open spec fn words(&self) -> Seq<u64> {
        seq![self.attribute()@ as u64] + operator_words(self.kind()) + literal_words(self.kind())
    }

    /// The id of the predicate: the hash of its words.
    pub open spec fn spec_id(&self) -> u64 {
        DefaultHasher::spec_finish(pieces(self.words()))
    }

    /// The cost of evaluating the predicate.
    pub open spec fn spec_cost(&self) -> int {
        self.kind().spec_cost()
    }

    /// The predicate that holds where this one does not.
    pub open spec fn negated(self) -> Predicate {
        Predicate::assemble(self.attribute(), self.kind().negated())
    }

    /// The predicate of that kind on that attribute.
    pub closed spec fn assemble(attribute: AttributeId, kind: PredicateKind) -> Predicate {
        Predicate { attribute, kind }
    }

    /// The result of the predicate on the values of an event.
    pub open spec fn holds(&self, values: Seq<AttributeValue>) -> Option<bool> {
        self.kind().holds(values[self.attribute()@ as int])
    }

    /// The predicate of that kind on the attribute of that name, its literal
    /// list in canonical form. It is refused if there is no such attribute,
    /// or if the attribute's type does not admit the predicate.
    pub fn new(attributes: &AttributeTable, name: &str, kind: PredicateKind) -> (result: Result<
        Self,
        EventError,
    >)
        requires
            attributes.wf(),
        ensures
            match result {
                Ok(predicate) => {
                    &&& attributes.names().contains_key(name@)
                    &&& predicate.attribute() == attributes.names()[name@]
                    &&& predicate.kind().canonical_of(kind)
                    &&& predicate.valid_for(attributes.kinds())
                },
                Err(EventError::NonExistingAttribute(refused)) => !attributes.names().contains_key(
                    name@,
                ) && refused@ == name@,
                Err(EventError::MismatchingTypes { name: refused, expected, actual }) => {
                    &&& attributes.names().contains_key(name@)
                    &&& expected == attributes.kinds()[attributes.names()[name@]@ as int]
                    &&& !kind.applies_to(expected)
                    &&& refused@ == name@
                    &&& actual.canonical_of(kind)
                },
                Err(_) => false,
            },
    {
        let id = match attributes.by_name(name) {
            Some(id) => id,
            None => {
                return Err(EventError::NonExistingAttribute(name.to_owned()));
            },
        };
        let kind = validate_predicate(name, kind.canonical(), attributes.by_id(id))?;
        Ok(Predicate { attribute: id, kind })
    }

    /// The attribute that the predicate tests.
    pub fn attribute_id(&self) -> (attribute: AttributeId)
        ensures
            attribute == self.attribute(),
    {
        self.attribute
    }

    /// What the predicate asks of the attribute.
    pub fn kind_of(&self) -> (kind: &PredicateKind)
        ensures
            *kind == self.kind(),
    {
        &self.kind
    }

    /// The id of the predicate: equal predicates have equal ids.
    #[inline]
    pub fn id(&self) -> (id: u64)
        ensures
            id == self.spec_id(),
    {
        let mut words: Vec<u64> = Vec::new();
        words.push(self.attribute.0 as u64);
        let (operator, code): (u64, u64) = match &self.kind {
            PredicateKind::Variable => (0, 0),
            PredicateKind::NegatedVariable => (1, 0),
            PredicateKind::Membership(SetOperator::NotIn, _) => (2, 0),
            PredicateKind::Membership(SetOperator::In, _) => (2, 1),
            PredicateKind::Comparison(ComparisonOperator::LessThan, _) => (3, 0),
            PredicateKind::Comparison(ComparisonOperator::LessThanEqual, _) => (3, 1),
            PredicateKind::Comparison(ComparisonOperator::GreaterThanEqual, _) => (3, 2),
            PredicateKind::Comparison(ComparisonOperator::GreaterThan, _) => (3, 3),
            PredicateKind::Equality(EqualityOperator::Equal, _) => (4, 0),
            PredicateKind::Equality(EqualityOperator::NotEqual, _) => (4, 1),
            PredicateKind::List(ListOperator::OneOf, _) => (5, 0),
            PredicateKind::List(ListOperator::NoneOf, _) => (5, 1),
            PredicateKind::List(ListOperator::AllOf, _) => (5, 2),
            PredicateKind::List(ListOperator::NotAllOf, _) => (5, 3),
            PredicateKind::Null(NullOperator::IsNull) => (6, 0),
            PredicateKind::Null(NullOperator::IsNotNull) => (6, 1),
            PredicateKind::Null(NullOperator::IsEmpty) => (6, 2),
            PredicateKind::Null(NullOperator::IsNotEmpty) => (6, 3),
        };
        words.push(operator);
        words.push(code);
        assert(words@ =~= seq![self.attribute()@ as u64] + operator_words(self.kind()));
        let literal: Vec<u64> = match &self.kind {
            PredicateKind::Membership(_, list) => list_to_words(list),
            PredicateKind::List(_, list) => list_to_words(list),
            PredicateKind::Comparison(_, ComparisonValue::Integer(value)) => vec![
                0u64,
                *value as u64,
            ],
            PredicateKind::Comparison(_, ComparisonValue::Float(value)) => {
                let parts = value.words();
                vec![1u64, parts.0, parts.1, parts.2]
            },
            PredicateKind::Equality(_, PrimitiveLiteral::Integer(value)) => vec![
                0u64,
                *value as u64,
            ],
            PredicateKind::Equality(_, PrimitiveLiteral::Float(value)) => {
                let parts = value.words();
                vec![1u64, parts.0, parts.1, parts.2]
            },
            PredicateKind::Equality(_, PrimitiveLiteral::String(value)) => vec![
                2u64,
                value.0 as u64,
            ],
            _ => Vec::new(),
        };
        assert(literal@ =~= literal_words(self.kind()));
        append(&mut words, &literal);
        let mut hasher = DefaultHasher::new();
        let mut i: usize = 0;
        while i < words.len()
            invariant
                i <= words.len(),
                hasher@ == pieces(words@.subrange(0, i as int)),
            decreases words.len() - i,
        {
            let bytes = u64_to_le_bytes(words[i]);
            hasher.write(bytes.as_slice());
            assert(pieces(words@.subrange(0, i + 1)) =~= pieces(words@.subrange(0, i as int)).push(
                bytes@,
            ));
            i += 1;
        }
        assert(words@.subrange(0, words.len() as int) =~= words@);
        hasher.finish()
    }

    /// The cost of evaluating the predicate; the largest cost stands for all
    /// that are larger.
    #[inline]
    pub fn cost(&self) -> (cost: u64)
        ensures
            cost == saturated(self.spec_cost()),
    {
        self.kind.cost()
    }

    /// The result of the predicate on an event.
    pub fn evaluate(&self, event: &Event) -> (result: Option<bool>)
        requires
            self.wf(),
            self.attribute()@ < event.values().len(),
            event.values()[self.attribute()@ as int].wf(),
        ensures
            result == self.holds(event.values()),
    {
        let value = event.index(self.attribute);
        self.kind.evaluate(value)
    }

    /// The predicate that holds where this one does not.
    pub fn not(self) -> (result: Self)
        ensures
            result == self.negated(),
    {
        Self { attribute: self.attribute, kind: self.kind.not() }
    }
}

/// Negating a predicate twice gives the same predicate, with the same id.
pub proof fn lemma_double_negation(predicate: Predicate)
    ensures
        predicate.negated().negated() == predicate,
        predicate.negated().negated().spec_id() == predicate.spec_id(),
{
    lemma_negation_is_an_involution(predicate.kind());
}

/// The negated predicate tests the same attribute, can be asked of the same
/// attributes, costs the same and has the opposite result on every event.
pub proof fn lemma_negated_predicate(predicate: Predicate, values: Seq<AttributeValue>)
    ensures
        predicate.negated().attribute() == predicate.attribute(),
        predicate.negated().kind() == predicate.kind().negated(),
        predicate.negated().holds(values) == opposite(predicate.holds(values)),
        predicate.negated().wf() == predicate.wf(),
        predicate.negated().spec_cost() == predicate.spec_cost(),
        forall|kinds: Seq<AttributeKind>|
            predicate.negated().valid_for(kinds) == predicate.valid_for(kinds),
{
    lemma_negation_gives_the_opposite(
        predicate.kind(),
        values[predicate.attribute()@ as int],
    );
}

} // verus!
