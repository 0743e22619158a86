//! Interning of strings to dense positive ids.
use vstd::hash_map::StringHashMap;
use vstd::prelude::*;

verus! {

/// The id of an interned string. The id 0 is the sentinel of a string that was
/// never interned: it is different from the id of every interned string.
#[derive(Clone, Copy, Debug, PartialEq, Eq, PartialOrd, Ord, Hash)]
pub struct StringId(pub usize);

impl View for StringId {
    type V = usize;

    open spec fn view(&self) -> usize {
        self.0
    }
}

/// An append-only table from strings to ids. The ids are handed out in order,
/// starting at 1.
pub struct StringTable {
    by_values: StringHashMap<usize>,
}

impl View for StringTable {
    type V = Map<Seq<char>, usize>;

    closed spec fn view(&self) -> Map<Seq<char>, usize> {
        self.by_values@
    }
}

/// What a table of interned strings holds at all times: finitely many strings,
/// with ids that are positive, dense and pairwise different.
pub open spec fn interned(table: Map<Seq<char>, usize>) -> bool {
    &&& table.dom().finite()
    &&& forall|s: Seq<char>| #[trigger]
        table.contains_key(s) ==> 1 <= table[s] <= table.dom().len()
    &&& forall|s: Seq<char>, t: Seq<char>|
        #![trigger table[s], table[t]]
        table.contains_key(s) && table.contains_key(t) && table[s] == table[t] ==> s == t
}

/// The id that a lookup gives: the interned id, or the sentinel.
pub open spec fn lookup(table: Map<Seq<char>, usize>, value: Seq<char>) -> usize {
    if table.contains_key(value) {
        table[value]
    } else {
        0
    }
}

impl StringTable {
    /// Whether the table is well formed.
    pub open spec fn wf(&self) -> bool {
        interned(self@)
    }

    /// A table without strings.
    pub fn new() -> (table: Self)
        ensures
            table.wf(),
            table@ == Map::<Seq<char>, usize>::empty(),
    {
        Self { by_values: StringHashMap::new() }
    }

    /// The id of `value`, or the sentinel if it was never interned.
    pub fn get(&self, value: &str) -> (id: StringId)
        ensures
            id@ == lookup(self@, value@),
    {
        match self.by_values.get(value) {
            Some(index) => StringId(*index),
            None => StringId(0),
        }
    }

    /// The id of `value`, which is interned first if it is new. A new string
    /// gets the next id: the number of strings that the table then holds.
    pub fn get_or_update(&mut self, value: &str) -> (id: StringId)
        requires
            old(self).wf(),
        ensures
            final(self).wf(),
            old(self)@.contains_key(value@) ==> final(self)@ == old(self)@,
            !old(self)@.contains_key(value@) ==> final(self)@ == old(self)@.insert(
                value@,
                (old(self)@.dom().len() + 1) as usize,
            ),
            id@ == final(self)@[value@],
            final(self)@.contains_key(value@),
            id@ >= 1,
    {
        match self.by_values.get(value) {
            Some(index) => StringId(*index),
            None => {
                let ghost before = self.by_values@;
                self.by_values.insert(value.to_owned(), 0);
                let index = self.by_values.len();
                self.by_values.insert(value.to_owned(), index);
                proof {
                    broadcast use vstd::hash_map::group_hash_map_axioms;

                    assert(before.insert(value@, 0).dom() =~= before.dom().insert(value@));
                    assert(self.by_values@ =~= before.insert(value@, index));
                    assert(self.by_values@.dom() =~= before.dom().insert(value@));
                }
                StringId(index)
            },
        }
    }
}

/// Interning is injective: two strings with the same interned id are the same
/// string, and the sentinel is the id of no interned string.
pub proof fn lemma_ids_identify_strings(table: Map<Seq<char>, usize>, s: Seq<char>, t: Seq<char>)
    requires
        interned(table),
        table.contains_key(s),
    ensures
        lookup(table, s) != 0,
        lookup(table, s) == lookup(table, t) ==> s == t,
{
}

} // verus!
