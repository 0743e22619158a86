//! The attributes that expressions speak of, and the events that assign
//! values to them.
use crate::decimal::Decimal;
use crate::decimal::MAX_SCALE;
use crate::lists::{canonical, canonicalize, ranks};
use crate::predicates::PredicateKind;
use crate::strings::{lookup, StringId, StringTable};
use vstd::hash_map::StringHashMap;
use vstd::prelude::*;

verus! {

/// Why an attribute, a predicate or a value of an event was refused.
#[derive(PartialEq, Debug)]
#[allow(inconsistent_fields)]
pub enum EventError {
    AlreadyPresent(String),
    MissingAttributes,
    NonExistingAttribute(String),
    WrongType { name: String, expected: AttributeKind, actual: AttributeKind },
    MismatchingTypes { name: String, expected: AttributeKind, actual: PredicateKind },
}

/// The type of the values of an attribute.
#[derive(Clone, Copy, PartialEq, Eq, Debug, Structural)]
pub enum AttributeKind {
    Boolean,
    Integer,
    Float,
    String,
    IntegerList,
    StringList,
}

/// The position of an attribute among the definitions of a table.
#[derive(Clone, Copy, Eq, Ord, PartialEq, PartialOrd, Debug, Hash)]
pub struct AttributeId(pub usize);

impl View for AttributeId {
    type V = usize;

    open spec fn view(&self) -> usize {
        self.0
    }
}

/// The definition of an attribute: its name and the type of its values.
#[derive(Debug, Clone)]
pub struct AttributeDefinition {
    name: String,
    kind: AttributeKind,
}

impl AttributeDefinition {
    /// The name of the attribute.
    pub closed spec fn spec_name(&self) -> Seq<char> {
        self.name@
    }

    /// The type of the attribute.
    pub closed spec fn spec_kind(&self) -> AttributeKind {
        self.kind
    }

    /// Create a boolean attribute definition.
    pub fn boolean(name: &str) -> (definition: Self)
        ensures
            definition.spec_name() == name@,
            definition.spec_kind() == AttributeKind::Boolean,
    {
        let kind = AttributeKind::Boolean;
        Self { name: name.to_owned(), kind }
    }

    /// Create an integer attribute definition.
    pub fn integer(name: &str) -> (definition: Self)
        ensures
            definition.spec_name() == name@,
            definition.spec_kind() == AttributeKind::Integer,
    {
        let kind = AttributeKind::Integer;
        Self { name: name.to_owned(), kind }
    }

    /// Create a float attribute definition.
    pub fn float(name: &str) -> (definition: Self)
        ensures
            definition.spec_name() == name@,
            definition.spec_kind() == AttributeKind::Float,
    {
        let kind = AttributeKind::Float;
        Self { name: name.to_owned(), kind }
    }

    /// Create a string attribute definition.
    pub fn string(name: &str) -> (definition: Self)
        ensures
            definition.spec_name() == name@,
            definition.spec_kind() == AttributeKind::String,
    {
        let kind = AttributeKind::String;
        Self { name: name.to_owned(), kind }
    }

    /// Create a list of integers attribute definition.
    pub fn integer_list(name: &str) -> (definition: Self)
        ensures
            definition.spec_name() == name@,
            definition.spec_kind() == AttributeKind::IntegerList,
    {
        let kind = AttributeKind::IntegerList;
        Self { name: name.to_owned(), kind }
    }

    /// Create a list of strings attribute definition.
    pub fn string_list(name: &str) -> (definition: Self)
        ensures
            definition.spec_name() == name@,
            definition.spec_kind() == AttributeKind::StringList,
    {
        let kind = AttributeKind::StringList;
        Self { name: name.to_owned(), kind }
    }
}

/// Whether the name of definition `index` is that of an earlier definition.
pub open spec fn repeats(definitions: Seq<AttributeDefinition>, index: int) -> bool {
    exists|earlier: int|
        0 <= earlier < index && #[trigger] definitions[earlier].spec_name()
            == definitions[index].spec_name()
}

/// The names and types of the attributes, by id and by name.
pub struct AttributeTable {
    by_names: StringHashMap<AttributeId>,
    by_ids: Vec<AttributeKind>,
}

impl AttributeTable {
    /// The id of each name.
    pub closed spec fn names(&self) -> Map<Seq<char>, AttributeId> {
        self.by_names@
    }

    /// The type of each attribute, by id.
    pub closed spec fn kinds(&self) -> Seq<AttributeKind> {
        self.by_ids@
    }

    /// Whether every name has the id of an attribute.
    pub open spec fn wf(&self) -> bool {
        forall|name: Seq<char>| #[trigger]
            self.names().contains_key(name) ==> self.names()[name]@ < self.kinds().len()
    }

    /// Whether the table holds the definitions, in their order.
    pub open spec fn holds(&self, definitions: Seq<AttributeDefinition>) -> bool {
        &&& self.kinds().len() == definitions.len()
        &&& forall|i: int|
            0 <= i < definitions.len() ==> #[trigger] self.kinds()[i]
                == definitions[i].spec_kind()
        &&& forall|i: int|
            0 <= i < definitions.len() ==> self.names().contains_key(
                #[trigger] definitions[i].spec_name(),
            ) && self.names()[definitions[i].spec_name()]@ == i
        &&& forall|name: Seq<char>| #[trigger]
            self.names().contains_key(name) ==> 0 <= self.names()[name]@ < definitions.len()
                && definitions[self.names()[name]@ as int].spec_name() == name
    }

    /// The table of the definitions. The first definition whose name occurred
    /// before is refused, with its name.
    pub fn new(definitions: &[AttributeDefinition]) -> (result: Result<Self, EventError>)
        ensures
            match result {
                Ok(table) => table.wf() && table.holds(definitions@) && forall|i: int|
                    0 <= i < definitions.len() ==> !repeats(definitions@, i),
                Err(EventError::AlreadyPresent(name)) => exists|index: int|
                    0 <= index < definitions.len() && #[trigger] repeats(definitions@, index)
                        && name@ == definitions[index].spec_name() && forall|i: int|
                        0 <= i < index ==> !repeats(definitions@, i),
                Err(_) => false,
            },
    {
        let size = definitions.len();
        let mut by_names: StringHashMap<AttributeId> = StringHashMap::with_capacity(size);
        let mut by_ids: Vec<AttributeKind> = Vec::with_capacity(size);
        let mut i: usize = 0;
        while i < size
            invariant
                i <= size,
                size == definitions.len(),
                by_ids.len() == i,
                forall|k: int| 0 <= k < i ==> #[trigger] by_ids[k] == definitions[k].spec_kind(),
                forall|k: int|
                    0 <= k < i ==> by_names@.contains_key(#[trigger] definitions[k].spec_name())
                        && by_names@[definitions[k].spec_name()]@ == k,
                forall|name: Seq<char>| #[trigger]
                    by_names@.contains_key(name) ==> 0 <= by_names@[name]@ < i
                        && definitions[by_names@[name]@ as int].spec_name() == name,
                forall|k: int| 0 <= k < i ==> !repeats(definitions@, k),
            decreases size - i,
        {
            let definition = &definitions[i];
            let name = definition.name.clone();
            if by_names.contains_key(name.as_str()) {
                proof {
                    let earlier = by_names@[name@]@ as int;
                    assert(definitions[earlier].spec_name() == definitions[i as int].spec_name());
                    assert(repeats(definitions@, i as int));
                }
                return Err(EventError::AlreadyPresent(name));
            }
            proof {
                if repeats(definitions@, i as int) {
                    let earlier = choose|earlier: int|
                        0 <= earlier < i && #[trigger] definitions[earlier].spec_name()
                            == definitions[i as int].spec_name();
                    assert(by_names@.contains_key(definitions[earlier].spec_name()));
                    assert(false);
                }
            }
            by_names.insert(name, AttributeId(i));
            by_ids.push(definition.kind);
            i += 1;
        }
        Ok(Self { by_names, by_ids })
    }

    /// The id of the attribute of that name, if there is one.
    #[inline]
    pub fn by_name(&self, name: &str) -> (id: Option<AttributeId>)
        ensures
            id == if self.names().contains_key(name@) {
                Some(self.names()[name@])
            } else {
                None
            },
    {
        match self.by_names.get(name) {
            Some(id) => Some(*id),
            None => None,
        }
    }

    /// The type of the attribute with that id.
    #[inline]
    pub fn by_id(&self, id: AttributeId) -> (kind: AttributeKind)
        requires
            id@ < self.kinds().len(),
        ensures
            kind == self.kinds()[id@ as int],
    {
        self.by_ids[id.0]
    }

    /// The number of attributes.
    #[inline]
    pub fn len(&self) -> (len: usize)
        ensures
            len == self.kinds().len(),
    {
        self.by_ids.len()
    }
}

/// The value of one attribute in an event.
#[derive(Clone, Debug)]
pub enum AttributeValue {
    Boolean(bool),
    Integer(i64),
    Float(Decimal),
    String(StringId),
    IntegerList(Vec<i64>),
    StringList(Vec<StringId>),
    Undefined,
}

impl AttributeValue {
    /// Whether the value, where it is a list, is in canonical form.
    pub open spec fn wf(&self) -> bool {
        match self {
            AttributeValue::IntegerList(list) => canonical(list@),
            AttributeValue::StringList(list) => canonical(list@),
            _ => true,
        }
    }

    /// Whether the value holds no item: an empty list, or the undefined value.
    pub open spec fn holds_nothing(&self) -> bool {
        match self {
            AttributeValue::IntegerList(list) => list@.len() == 0,
            AttributeValue::StringList(list) => list@.len() == 0,
            AttributeValue::Undefined => true,
            _ => false,
        }
    }

    /// Whether the value is one of an attribute of that type: undefined, or of
    /// the type, a list in canonical form.
    pub open spec fn fits(&self, kind: AttributeKind) -> bool {
        match (self, kind) {
            (AttributeValue::Undefined, _) => true,
            (AttributeValue::Boolean(_), AttributeKind::Boolean) => true,
            (AttributeValue::Integer(_), AttributeKind::Integer) => true,
            (AttributeValue::Float(_), AttributeKind::Float) => true,
            (AttributeValue::String(_), AttributeKind::String) => true,
            (AttributeValue::IntegerList(list), AttributeKind::IntegerList) => canonical(list@),
            (AttributeValue::StringList(list), AttributeKind::StringList) => canonical(list@),
            _ => false,
        }
    }
}

/// An assignment of values to the attributes of a table: one value for each
/// attribute, by id.
#[derive(Clone, Debug)]
pub struct Event(Vec<AttributeValue>);

impl Event {
    /// The values, by attribute id.
    pub closed spec fn values(&self) -> Seq<AttributeValue> {
        self.0@
    }

    /// Whether the event has one fitting value for each attribute.
    pub open spec fn conforms(&self, kinds: Seq<AttributeKind>) -> bool {
        all_fit(self.values(), kinds)
    }

    /// The value of the attribute.
    #[inline]
    pub fn index(&self, index: AttributeId) -> (value: &AttributeValue)
        requires
            index@ < self.values().len(),
        ensures
            *value == self.values()[index@ as int],
    {
        &self.0[index.0]
    }
}

/// Whether there is one value for each attribute, and each fits its attribute.
pub open spec fn all_fit(values: Seq<AttributeValue>, kinds: Seq<AttributeKind>) -> bool {
    &&& values.len() == kinds.len()
    &&& forall|i: int| 0 <= i < values.len() ==> (#[trigger] values[i]).fits(kinds[i])
}

/// What setting the attribute `name` to a value of type `actual` comes to: the
/// value is stored if the attribute exists and has that type, and nothing
/// changes otherwise.
pub open spec fn outcome(
    before: Seq<AttributeValue>,
    after: Seq<AttributeValue>,
    table: &AttributeTable,
    name: Seq<char>,
    actual: AttributeKind,
    result: Result<(), EventError>,
) -> bool {
    match result {
        Ok(()) => {
            &&& table.names().contains_key(name)
            &&& table.kinds()[table.names()[name]@ as int] == actual
            &&& after.len() == before.len()
            &&& forall|i: int|
                0 <= i < before.len() && i != table.names()[name]@ ==> #[trigger] after[i]
                    == before[i]
        },
        Err(EventError::NonExistingAttribute(refused)) => {
            &&& !table.names().contains_key(name)
            &&& refused@ == name
            &&& after == before
        },
        Err(EventError::WrongType { name: refused, expected, actual: found }) => {
            &&& table.names().contains_key(name)
            &&& expected == table.kinds()[table.names()[name]@ as int]
            &&& expected != actual
            &&& found == actual
            &&& refused@ == name
            &&& after == before
        },
        Err(_) => false,
    }
}

/// An [`Event`] builder.
///
/// A new builder holds the undefined value for every attribute; the attributes
/// that are never set stay undefined.
pub struct EventBuilder<'atree> {
    by_ids: Vec<AttributeValue>,
    attributes: &'atree AttributeTable,
    strings: &'atree StringTable,
}

impl<'atree> EventBuilder<'atree> {
    /// The values set so far, by attribute id.
    pub closed spec fn values(&self) -> Seq<AttributeValue> {
        self.by_ids@
    }

    /// The attributes that the event is built for.
    pub closed spec fn attributes(&self) -> &AttributeTable {
        self.attributes
    }

    /// The strings by which the event's strings are identified.
    pub closed spec fn strings(&self) -> &StringTable {
        self.strings
    }

    /// Whether the builder holds one fitting value for each attribute.
    pub open spec fn wf(&self) -> bool {
        self.attributes().wf() && all_fit(self.values(), self.attributes().kinds())
    }

    /// The id that `name` has in the builder's table.
    pub open spec fn id_of(&self, name: Seq<char>) -> int {
        self.attributes().names()[name]@ as int
    }

    /// A builder in which every attribute is undefined.
    pub fn new(attributes: &'atree AttributeTable, strings: &'atree StringTable) -> (builder: Self)
        requires
            attributes.wf(),
        ensures
            builder.wf(),
            builder.attributes() == attributes,
            builder.strings() == strings,
            forall|i: int|
                0 <= i < builder.values().len() ==> #[trigger] builder.values()[i]
                    == AttributeValue::Undefined,
    {
        let mut by_ids: Vec<AttributeValue> = Vec::with_capacity(attributes.len());
        let mut i: usize = 0;
        while i < attributes.len()
            invariant
                i <= attributes.kinds().len(),
                by_ids.len() == i,
                forall|k: int| 0 <= k < i ==> #[trigger] by_ids[k] == AttributeValue::Undefined,
            decreases attributes.kinds().len() - i,
        {
            by_ids.push(AttributeValue::Undefined);
            i += 1;
        }
        Self { attributes, strings, by_ids }
    }

    /// Build the corresponding [`Event`].
    ///
    /// The attributes that were not assigned are undefined.
    pub fn build(self) -> (result: Result<Event, EventError>)
        requires
            self.wf(),
        ensures
            result matches Ok(event) && event.values() == self.values() && event.conforms(
                self.attributes().kinds(),
            ),
    {
        Ok(Event(self.by_ids))
    }

    /// Set the specified boolean attribute.
    ///
    /// The attribute must exist and its type must be boolean.
    pub fn with_boolean(&mut self, name: &str, value: bool) -> (result: Result<(), EventError>)
        requires
            old(self).wf(),
        ensures
            final(self).wf(),
            final(self).attributes() == old(self).attributes(),
            final(self).strings() == old(self).strings(),
            outcome(
                old(self).values(),
                final(self).values(),
                old(self).attributes(),
                name@,
                AttributeKind::Boolean,
                result,
            ),
            result.is_ok() ==> final(self).values()[old(self).id_of(name@)]
                == AttributeValue::Boolean(value),
    {
        self.add_value(name, AttributeKind::Boolean, AttributeValue::Boolean(value))
    }

    /// Set the specified integer attribute.
    ///
    /// The attribute must exist and its type must be integer.
    pub fn with_integer(&mut self, name: &str, value: i64) -> (result: Result<(), EventError>)
        requires
            old(self).wf(),
        ensures
            final(self).wf(),
            final(self).attributes() == old(self).attributes(),
            final(self).strings() == old(self).strings(),
            outcome(
                old(self).values(),
                final(self).values(),
                old(self).attributes(),
                name@,
                AttributeKind::Integer,
                result,
            ),
            result.is_ok() ==> final(self).values()[old(self).id_of(name@)]
                == AttributeValue::Integer(value),
    {
        self.add_value(name, AttributeKind::Integer, AttributeValue::Integer(value))
    }

    /// Set the specified float attribute to `number / 10^scale`.
    ///
    /// The attribute must exist and its type must be float.
    pub fn with_float(&mut self, name: &str, number: i64, scale: u32) -> (result: Result<
        (),
        EventError,
    >)
        requires
            old(self).wf(),
            scale <= MAX_SCALE,
        ensures
            final(self).wf(),
            final(self).attributes() == old(self).attributes(),
            final(self).strings() == old(self).strings(),
            outcome(
                old(self).values(),
                final(self).values(),
                old(self).attributes(),
                name@,
                AttributeKind::Float,
                result,
            ),
            result.is_ok() ==> (final(self).values()[old(self).id_of(
                name@,
            )] matches AttributeValue::Float(decimal) && (
                decimal.spec_mantissa(),
                decimal.spec_scale(),
            ) == crate::decimal::normalized(number as int, scale as nat)),
    {
        self.add_value(
            name,
            AttributeKind::Float,
            AttributeValue::Float(Decimal::new(number, scale)),
        )
    }

    /// Set the specified string attribute. A string that no expression ever
    /// mentioned is held as the sentinel.
    ///
    /// The attribute must exist and its type must be string.
    pub fn with_string(&mut self, name: &str, value: &str) -> (result: Result<(), EventError>)
        requires
            old(self).wf(),
        ensures
            final(self).wf(),
            final(self).attributes() == old(self).attributes(),
            final(self).strings() == old(self).strings(),
            outcome(
                old(self).values(),
                final(self).values(),
                old(self).attributes(),
                name@,
                AttributeKind::String,
                result,
            ),
            result.is_ok() ==> final(self).values()[old(self).id_of(name@)]
                == AttributeValue::String(StringId(lookup(old(self).strings()@, value@))),
    {
        let string_index = self.strings.get(value);
        self.add_value(name, AttributeKind::String, AttributeValue::String(string_index))
    }

    /// Set the specified list of integers attribute to the canonical form of
    /// the list.
    ///
    /// The attribute must exist and its type must be a list of integers.
    pub fn with_integer_list(&mut self, name: &str, value: &[i64]) -> (result: Result<
        (),
        EventError,
    >)
        requires
            old(self).wf(),
        ensures
            final(self).wf(),
            final(self).attributes() == old(self).attributes(),
            final(self).strings() == old(self).strings(),
            outcome(
                old(self).values(),
                final(self).values(),
                old(self).attributes(),
                name@,
                AttributeKind::IntegerList,
                result,
            ),
            result.is_ok() ==> (final(self).values()[old(self).id_of(
                name@,
            )] matches AttributeValue::IntegerList(list) && canonical(list@) && forall|rank: int|
                ranks(list@).contains(rank) == ranks(value@).contains(rank)),
    {
        let values = canonicalize(value);
        self.add_value(name, AttributeKind::IntegerList, AttributeValue::IntegerList(values))
    }

    /// Set the specified attribute to `undefined`.
    ///
    /// The attribute must exist.
    pub fn with_undefined(&mut self, name: &str) -> (result: Result<(), EventError>)
        requires
            old(self).wf(),
        ensures
            final(self).wf(),
            final(self).attributes() == old(self).attributes(),
            final(self).strings() == old(self).strings(),
            match result {
                Ok(()) => old(self).attributes().names().contains_key(name@) && final(self).values() == old(self).values().update(
                    old(self).id_of(name@),
                    AttributeValue::Undefined,
                ),
                Err(EventError::NonExistingAttribute(refused)) => !old(self).attributes().names().contains_key(name@) && refused@ == name@ && final(self).values() == old(self).values(),
                Err(_) => false,
            },
    {
        let index = match self.attributes.by_name(name) {
            Some(index) => index,
            None => {
                return Err(EventError::NonExistingAttribute(name.to_owned()));
            },
        };
        self.by_ids.set(index.0, AttributeValue::Undefined);
        Ok(())
    }

    /// Set the specified string list attribute to the canonical list of the
    /// ids of the strings.
    ///
    /// The attribute must exist and its type must be a list of strings.
    pub fn with_string_list(&mut self, name: &str, values: &[&str]) -> (result: Result<
        (),
        EventError,
    >)
        requires
            old(self).wf(),
        ensures
            final(self).wf(),
            final(self).attributes() == old(self).attributes(),
            final(self).strings() == old(self).strings(),
            outcome(
                old(self).values(),
                final(self).values(),
                old(self).attributes(),
                name@,
                AttributeKind::StringList,
                result,
            ),
            result.is_ok() ==> (final(self).values()[old(self).id_of(
                name@,
            )] matches AttributeValue::StringList(list) && canonical(list@) && forall|rank: int|
                ranks(list@).contains(rank) == exists|i: int|
                    0 <= i < values.len() && lookup(old(self).strings()@, #[trigger] values[i]@)
                        == rank),
    {
        let mut ids: Vec<StringId> = Vec::with_capacity(values.len());
        let mut i: usize = 0;
        while i < values.len()
            invariant
                i <= values.len(),
                ids.len() == i,
                forall|k: int|
                    0 <= k < i ==> (#[trigger] ids[k])@ == lookup(self.strings()@, values[k]@),
            decreases values.len() - i,
        {
            ids.push(self.strings.get(values[i]));
            i += 1;
        }
        let list = canonicalize(ids.as_slice());
        proof {
            assert forall|rank: int|
                ranks(list@).contains(rank) == exists|i: int|
                    0 <= i < values.len() && lookup(self.strings()@, #[trigger] values[i]@)
                        == rank by {
                if ranks(ids@).contains(rank) {
                    let k = choose|k: int| 0 <= k < ids.len() && ranks(ids@)[k] == rank;
                    assert(lookup(self.strings()@, values[k]@) == rank);
                }
                if exists|i: int|
                    0 <= i < values.len() && lookup(self.strings()@, #[trigger] values[i]@)
                        == rank {
                    let k = choose|k: int|
                        0 <= k < values.len() && lookup(self.strings()@, #[trigger] values[k]@)
                            == rank;
                    assert(ranks(ids@)[k] == rank);
                }
            }
        }
        self.add_value(name, AttributeKind::StringList, AttributeValue::StringList(list))
    }

    fn add_value(&mut self, name: &str, actual: AttributeKind, value: AttributeValue) -> (result:
        Result<(), EventError>)
        requires
            old(self).wf(),
            value.fits(actual),
        ensures
            final(self).wf(),
            final(self).attributes() == old(self).attributes(),
            final(self).strings() == old(self).strings(),
            outcome(
                old(self).values(),
                final(self).values(),
                old(self).attributes(),
                name@,
                actual,
                result,
            ),
            result.is_ok() ==> final(self).values()[old(self).id_of(name@)] == value,
    {
        let index = match self.attributes.by_name(name) {
            Some(index) => index,
            None => {
                return Err(EventError::NonExistingAttribute(name.to_owned()));
            },
        };
        let expected = self.attributes.by_id(index);
        if expected != actual {
            return Err(EventError::WrongType { name: name.to_owned(), expected, actual });
        }
        self.by_ids.set(index.0, value);
        Ok(())
    }
}

} // verus!
