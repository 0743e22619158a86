//! Canonical lists: strictly ascending and so free of duplicates. The literal
//! lists of predicates and the list values of events are held in this form.
use crate::strings::StringId;
use itertools::Itertools;
use vstd::prelude::*;

verus! {

/// A value that is ordered and told apart by an integer, its rank.
pub trait Ranked: Copy {
    /// The rank of the value.
    spec fn rank(&self) -> int;

    /// Whether an integer is the rank of a value.
    spec fn ranked(rank: int) -> bool;

    proof fn lemma_ranked(&self)
        ensures
            Self::ranked(self.rank()),
    ;

    proof fn lemma_rank_identifies(&self, other: &Self)
        ensures
            self.rank() == other.rank() ==> *self == *other,
    ;

    /// Whether `self` comes before `other`.
    fn precedes(&self, other: &Self) -> (result: bool)
        ensures
            result == (self.rank() < other.rank()),
    ;

    fn to_rank(&self) -> (rank: i128)
        ensures
            rank == self.rank(),
    ;

    fn of_rank(rank: i128) -> (value: Self)
        requires
            Self::ranked(rank as int),
        ensures
            value.rank() == rank,
    ;
}

impl Ranked for i64 {
    open spec fn rank(&self) -> int {
        *self as int
    }

    open spec fn ranked(rank: int) -> bool {
        i64::MIN <= rank <= i64::MAX
    }

    proof fn lemma_ranked(&self) {
    }

    proof fn lemma_rank_identifies(&self, other: &Self) {
    }

    fn precedes(&self, other: &Self) -> (result: bool) {
        *self < *other
    }

    fn to_rank(&self) -> (rank: i128) {
        *self as i128
    }

    fn of_rank(rank: i128) -> (value: Self) {
        rank as i64
    }
}

impl Ranked for StringId {
    open spec fn rank(&self) -> int {
        self.0 as int
    }

    open spec fn ranked(rank: int) -> bool {
        0 <= rank <= usize::MAX
    }

    proof fn lemma_ranked(&self) {
    }

    proof fn lemma_rank_identifies(&self, other: &Self) {
    }

    fn precedes(&self, other: &Self) -> (result: bool) {
        self.0 < other.0
    }

    fn to_rank(&self) -> (rank: i128) {
        self.0 as i128
    }

    fn of_rank(rank: i128) -> (value: Self) {
        StringId(rank as usize)
    }
}

/// The ranks of the items of a list, in its order.
pub open spec fn ranks<T: Ranked>(items: Seq<T>) -> Seq<int> {
    Seq::new(items.len(), |i: int| items[i].rank())
}

/// Whether a list is strictly ascending.
pub open spec fn ascending(items: Seq<int>) -> bool {
    forall|i: int, j: int| 0 <= i < j < items.len() ==> items[i] < items[j]
}

/// Whether a list of items is canonical: strictly ascending by rank.
pub open spec fn canonical<T: Ranked>(items: Seq<T>) -> bool {
    ascending(ranks(items))
}

/// Whether a list never descends.
pub open spec fn non_descending(items: Seq<i128>) -> bool {
    forall|i: int, j: int| 0 <= i < j < items.len() ==> items[i] <= items[j]
}

/// The list without the items that occur earlier in it.
pub open spec fn first_occurrences(items: Seq<i128>) -> Seq<i128>
    decreases items.len(),
{
    if items.len() == 0 {
        items
    } else {
        let front = first_occurrences(items.drop_last());
        if front.contains(items.last()) {
            front
        } else {
            front.push(items.last())
        }
    }
}

/// Sorts with `Itertools::sorted`, which puts the items in ascending order
/// and neither adds nor drops one.
#[verifier::external_body]
fn sorted(items: Vec<i128>) -> (result: Vec<i128>)
    ensures
        non_descending(result@),
        result@.to_multiset() == items@.to_multiset(),
{
    items.into_iter().sorted().collect()
}

/// Removes duplicates with `Itertools::unique`, which keeps the first of equal
/// items and the order of what it keeps.
#[verifier::external_body]
fn unique(items: Vec<i128>) -> (result: Vec<i128>)
    ensures
        result@ == first_occurrences(items@),
{
    items.into_iter().unique().collect()
}

proof fn lemma_first_occurrences(items: Seq<i128>)
    requires
        non_descending(items),
    ensures
        forall|i: int, j: int|
            0 <= i < j < first_occurrences(items).len() ==> first_occurrences(items)[i]
                < first_occurrences(items)[j],
        forall|x: i128| #[trigger] first_occurrences(items).contains(x) ==> items.contains(x),
        forall|x: i128| #[trigger] items.contains(x) ==> first_occurrences(items).contains(x),
    decreases items.len(),
{
    if items.len() > 0 {
        let shorter = items.drop_last();
        let front = first_occurrences(shorter);
        lemma_first_occurrences(shorter);
        let result = first_occurrences(items);
        assert forall|x: i128| result.contains(x) == items.contains(x) by {
            if items.contains(x) {
                let i = choose|i: int| 0 <= i < items.len() && items[i] == x;
                if i < shorter.len() {
                    assert(shorter[i] == x);
                    assert(shorter.contains(x));
                    assert(front.contains(x));
                    let k = choose|k: int| 0 <= k < front.len() && front[k] == x;
                    assert(result[k] == x);
                } else {
                    if !front.contains(items.last()) {
                        assert(result[front.len() as int] == x);
                    }
                }
            }
            if result.contains(x) {
                let k = choose|k: int| 0 <= k < result.len() && result[k] == x;
                if k < front.len() {
                    assert(front[k] == x);
                    assert(front.contains(x));
                    assert(shorter.contains(x));
                    let i = choose|i: int| 0 <= i < shorter.len() && shorter[i] == x;
                    assert(items[i] == x);
                } else {
                    assert(items[items.len() - 1] == x);
                }
            }
        }
        assert forall|i: int, j: int| 0 <= i < j < result.len() implies result[i] < result[j] by {
            if j >= front.len() {
                assert(front[i] == result[i]);
                assert(front.contains(result[i]));
                assert(shorter.contains(result[i]));
                let k = choose|k: int| 0 <= k < shorter.len() && shorter[k] == result[i];
                assert(items[k] <= items[items.len() - 1]);
            }
        }
    }
}

proof fn lemma_same_items(left: Seq<i128>, right: Seq<i128>)
    requires
        left.to_multiset() == right.to_multiset(),
    ensures
        forall|x: i128| #[trigger] left.contains(x) ==> right.contains(x),
        forall|x: i128| #[trigger] right.contains(x) ==> left.contains(x),
{
    assert forall|x: i128| left.contains(x) == right.contains(x) by {
        vstd::seq_lib::to_multiset_contains(left, x);
        vstd::seq_lib::to_multiset_contains(right, x);
    }
}

/// The canonical form of a list: its items in ascending order, each once.
pub fn canonicalize<T: Ranked>(items: &[T]) -> (result: Vec<T>)
    ensures
        canonical(result@),
        forall|rank: int| ranks(result@).contains(rank) == ranks(items@).contains(rank),
{
    let mut keys: Vec<i128> = Vec::with_capacity(items.len());
    let mut i: usize = 0;
    while i < items.len()
        invariant
            i <= items.len(),
            keys.len() == i,
            forall|j: int| 0 <= j < i ==> keys[j] == items[j].rank(),
        decreases items.len() - i,
    {
        keys.push(items[i].to_rank());
        i += 1;
    }
    let ghost unsorted = keys@;
    let keys = sorted(keys);
    let ghost in_order = keys@;
    let keys = unique(keys);
    proof {
        lemma_first_occurrences(in_order);
        lemma_same_items(in_order, unsorted);
    }
    let mut result: Vec<T> = Vec::with_capacity(keys.len());
    let mut k: usize = 0;
    while k < keys.len()
        invariant
            k <= keys.len(),
            result.len() == k,
            forall|j: int| 0 <= j < k ==> result[j].rank() == keys[j],
            forall|x: i128| #[trigger] keys@.contains(x) ==> unsorted.contains(x),
            forall|x: i128| #[trigger] unsorted.contains(x) ==> keys@.contains(x),
            unsorted.len() == items.len(),
            forall|j: int| 0 <= j < items.len() ==> unsorted[j] == items[j].rank(),
        decreases keys.len() - k,
    {
        proof {
            assert(keys@.contains(keys[k as int]));
            let j = choose|j: int| 0 <= j < unsorted.len() && unsorted[j] == keys[k as int];
            items[j].lemma_ranked();
        }
        result.push(T::of_rank(keys[k]));
        k += 1;
    }
    proof {
        assert forall|rank: int| ranks(result@).contains(rank) == ranks(items@).contains(
            rank,
        ) by {
            if ranks(result@).contains(rank) {
                let j = choose|j: int| 0 <= j < result.len() && ranks(result@)[j] == rank;
                assert(keys@.contains(keys[j]));
                let m = choose|m: int| 0 <= m < unsorted.len() && unsorted[m] == keys[j];
                assert(ranks(items@)[m] == rank);
            }
            if ranks(items@).contains(rank) {
                let m = choose|m: int| 0 <= m < items.len() && ranks(items@)[m] == rank;
                assert(unsorted[m] == rank);
                assert(unsorted.contains(unsorted[m]));
                let j = choose|j: int| 0 <= j < keys.len() && keys[j] == unsorted[m];
                assert(ranks(result@)[j] == rank);
            }
        }
        assert forall|a: int, b: int| 0 <= a < b < ranks(result@).len() implies ranks(
            result@,
        )[a] < ranks(result@)[b] by {
            assert(keys[a] < keys[b]);
        }
    }
    result
}

} // verus!
