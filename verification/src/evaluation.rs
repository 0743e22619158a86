//! The scratch space of one search: which nodes have a result, and which one.
use vstd::prelude::*;

verus! {

/// How many results one word of a bit plane holds.
pub const EXPRESSIONS_PER_BUCKET: usize = 64;

/// Whether the bit of `id` is set in a bit plane.
pub open spec fn bit_at(entries: Seq<u64>, id: usize) -> bool {
    entries[id as int / 64] & (1u64 << ((id % 64) as u64)) != 0
}

/// The results of the nodes that were evaluated so far, in three bit planes:
/// `evaluated` says whether a node has a result, `success` and `failed` say
/// which one. A node with an undefined result is in `evaluated` alone.
#[derive(Debug)]
pub struct EvaluationResult {
    failed: Vec<u64>,
    success: Vec<u64>,
    evaluated: Vec<u64>,
}

proof fn lemma_set_bit(word: u64, position: u64)
    requires
        position < 64,
    ensures
        (word | (1u64 << position)) & (1u64 << position) != 0,
{
    assert((word | (1u64 << position)) & (1u64 << position) != 0) by (bit_vector)
        requires
            position < 64,
    ;
}

proof fn lemma_set_bit_keeps_others(word: u64, position: u64, other: u64)
    requires
        position < 64,
        other < 64,
        position != other,
    ensures
        ((word | (1u64 << position)) & (1u64 << other) != 0) == (word & (1u64 << other) != 0),
{
    assert(((word | (1u64 << position)) & (1u64 << other) != 0) == (word & (1u64 << other) != 0))
        by (bit_vector)
        requires
            position < 64,
            other < 64,
            position != other,
    ;
}

proof fn lemma_no_bit_in_zero(position: u64)
    requires
        position < 64,
    ensures
        0u64 & (1u64 << position) == 0,
{
    assert(0u64 & (1u64 << position) == 0) by (bit_vector);
}

impl EvaluationResult {
    /// Whether the three planes have the same size.
    pub closed spec fn wf(&self) -> bool {
        self.failed.len() == self.evaluated.len() && self.success.len() == self.evaluated.len()
    }

    /// The number of ids that the result can hold: ids are below it.
    pub closed spec fn capacity(&self) -> nat {
        (self.evaluated.len() * 64) as nat
    }

    /// Whether `id` has a result.
    pub closed spec fn evaluated_at(&self, id: usize) -> bool {
        bit_at(self.evaluated@, id)
    }

    /// Whether `id` was given the result true.
    pub closed spec fn success_at(&self, id: usize) -> bool {
        bit_at(self.success@, id)
    }

    /// Whether `id` was given the result false.
    pub closed spec fn failed_at(&self, id: usize) -> bool {
        bit_at(self.failed@, id)
    }

    /// The result that is read back for `id`: undefined if it was given neither
    /// true nor false, true if it was given true and never false.
    pub open spec fn result_at(&self, id: usize) -> Option<bool> {
        if !self.failed_at(id) && !self.success_at(id) {
            None
        } else {
            Some(!self.failed_at(id) && self.success_at(id))
        }
    }

    /// An empty result with room for the ids up to and including `expressions`.
    pub fn new(expressions: usize) -> (results: Self)
        ensures
            results.wf(),
            results.capacity() > expressions,
            forall|id: usize|
                id < results.capacity() ==> !results.evaluated_at(id) && !results.success_at(id)
                    && !results.failed_at(id),
    {
        let size = expressions / EXPRESSIONS_PER_BUCKET + 1;
        let results = Self {
            failed: Self::zeroes(size),
            success: Self::zeroes(size),
            evaluated: Self::zeroes(size),
        };
        proof {
            assert forall|id: usize| id < results.capacity() implies !results.evaluated_at(id)
                && !results.success_at(id) && !results.failed_at(id) by {
                lemma_no_bit_in_zero((id % 64) as u64);
            }
        }
        results
    }

    fn zeroes(size: usize) -> (entries: Vec<u64>)
        ensures
            entries.len() == size,
            forall|i: int| 0 <= i < size ==> entries[i] == 0,
    {
        let mut entries: Vec<u64> = Vec::with_capacity(size);
        let mut i: usize = 0;
        while i < size
            invariant
                i <= size,
                entries.len() == i,
                forall|j: int| 0 <= j < i ==> entries[j] == 0,
            decreases size - i,
        {
            entries.push(0);
            i += 1;
        }
        entries
    }

    /// Whether `id` has a result.
    #[inline]
    pub fn is_evaluated(&self, id: usize) -> (evaluated: bool)
        requires
            self.wf(),
            id < self.capacity(),
        ensures
            evaluated == self.evaluated_at(id),
    {
        let evaluated = Self::get_bit(&self.evaluated, id);
        evaluated != 0u64
    }

    /// Records `result` for `id`. The node counts as evaluated from then on;
    /// the results of all other ids stay as they are.
    #[inline]
    pub fn set_result(&mut self, id: usize, result: Option<bool>)
        requires
            old(self).wf(),
            id < old(self).capacity(),
        ensures
            final(self).wf(),
            final(self).capacity() == old(self).capacity(),
            final(self).evaluated_at(id),
            final(self).success_at(id) == (old(self).success_at(id) || result == Some(true)),
            final(self).failed_at(id) == (old(self).failed_at(id) || result == Some(false)),
            forall|other: usize|
                other < old(self).capacity() && other != id ==> final(self).evaluated_at(other)
                    == old(self).evaluated_at(other) && final(self).success_at(other) == old(
                    self,
                ).success_at(other) && final(self).failed_at(other) == old(self).failed_at(other),
    {
        match result {
            Some(true) => {
                Self::set_bit(&mut self.success, id);
            },
            Some(false) => {
                Self::set_bit(&mut self.failed, id);
            },
            None => {},
        }
        Self::set_bit(&mut self.evaluated, id);
    }

    /// The result that was recorded for `id`.
    #[inline]
    pub fn get_result(&self, id: usize) -> (result: Option<bool>)
        requires
            self.wf(),
            id < self.capacity(),
        ensures
            result == self.result_at(id),
    {
        let failed = Self::get_bit(&self.failed, id) != 0u64;
        let success = Self::get_bit(&self.success, id) != 0u64;
        if !failed && !success {
            return None;
        }
        Some(!failed && success)
    }

    #[inline]
    fn set_bit(entries: &mut Vec<u64>, id: usize)
        requires
            id < old(entries).len() * 64,
        ensures
            final(entries).len() == old(entries).len(),
            bit_at(final(entries)@, id),
            forall|other: usize|
                other < old(entries).len() * 64 && other != id ==> bit_at(final(entries)@, other)
                    == bit_at(old(entries)@, other),
    {
        let position_in_entry: usize = id % EXPRESSIONS_PER_BUCKET;
        let bucket: usize = id / EXPRESSIONS_PER_BUCKET;
        let word: u64 = entries[bucket];
        let updated: u64 = word | (1u64 << position_in_entry);
        entries.set(bucket, updated);
        proof {
            lemma_set_bit(word, position_in_entry as u64);
            assert forall|other: usize|
                other < old(entries).len() * 64 && other != id implies bit_at(entries@, other)
                == bit_at(old(entries)@, other) by {
                if other / 64 == id / 64 {
                    lemma_set_bit_keeps_others(
                        word,
                        position_in_entry as u64,
                        (other % 64) as u64,
                    );
                }
            }
        }
    }

    #[inline]
    fn get_bit(entries: &Vec<u64>, id: usize) -> (bit: u64)
        requires
            id < entries.len() * 64,
        ensures
            (bit != 0) == bit_at(entries@, id),
    {
        let entry: u64 = entries[id / EXPRESSIONS_PER_BUCKET];
        let position_in_entry: usize = id % EXPRESSIONS_PER_BUCKET;
        entry & (1u64 << position_in_entry)
    }
}

} // verus!
