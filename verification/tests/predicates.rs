use a_tree::decimal::Decimal;
use a_tree::events::{AttributeDefinition, AttributeTable, EventBuilder};
use a_tree::predicates::{
    ComparisonOperator, ComparisonValue, EqualityOperator, ListLiteral, ListOperator,
    NullOperator, Predicate, PredicateKind, PrimitiveLiteral, SetOperator,
};
use a_tree::strings::{StringId, StringTable};

const AN_EXCHANGE_ID: i64 = 23;
const A_COUNTRY: &str = "CA";
const ANOTHER_COUNTRY: &str = "US";

#[test]
fn return_true_on_boolean_variable_that_is_true() {
    let attributes = define_attributes();
    let strings = StringTable::new();
    let mut builder = an_event_builder(&attributes, &strings);
    builder.with_boolean("private", true).unwrap();
    let event = builder.build().unwrap();
    let predicate = variable(&attributes, "private");

    assert_eq!(Some(true), predicate.evaluate(&event));
}

#[test]
fn return_false_on_boolean_variable_that_is_false() {
    let attributes = define_attributes();
    let strings = StringTable::new();
    let mut builder = an_event_builder(&attributes, &strings);
    builder.with_boolean("private", false).unwrap();
    let event = builder.build().unwrap();
    let predicate = variable(&attributes, "private");

    assert_eq!(Some(false), predicate.evaluate(&event));
}

#[test]
fn return_false_on_negated_boolean_variable_that_is_true() {
    let attributes = define_attributes();
    let strings = StringTable::new();
    let mut builder = an_event_builder(&attributes, &strings);
    builder.with_boolean("private", true).unwrap();
    let event = builder.build().unwrap();
    let predicate = negated_variable(&attributes, "private");

    assert_eq!(Some(false), predicate.evaluate(&event));
}

#[test]
fn return_true_on_negated_boolean_variable_that_is_false() {
    let attributes = define_attributes();
    let strings = StringTable::new();
    let mut builder = an_event_builder(&attributes, &strings);
    builder.with_boolean("private", false).unwrap();
    let event = builder.build().unwrap();
    let predicate = negated_variable(&attributes, "private");

    assert_eq!(Some(true), predicate.evaluate(&event));
}

#[test]
fn return_false_on_null_check_for_defined_variable() {
    let attributes = define_attributes();
    let strings = StringTable::new();
    let event = an_event_builder(&attributes, &strings).build().unwrap();
    let predicate = is_null(&attributes, "country");

    assert_eq!(Some(false), predicate.evaluate(&event));
}

#[test]
fn return_true_on_null_check_for_undefined_variable() {
    let attributes = define_attributes();
    let strings = StringTable::new();
    let mut builder = an_event_builder(&attributes, &strings);
    builder.with_undefined("country").unwrap();
    let event = builder.build().unwrap();
    let predicate = is_null(&attributes, "country");

    assert_eq!(Some(true), predicate.evaluate(&event));
}

#[test]
fn return_true_on_not_null_check_for_defined_variable() {
    let attributes = define_attributes();
    let strings = StringTable::new();
    let event = an_event_builder(&attributes, &strings).build().unwrap();
    let predicate = is_not_null(&attributes, "country");

    assert_eq!(Some(true), predicate.evaluate(&event));
}

#[test]
fn return_true_on_not_null_check_for_undefined_variable() {
    let attributes = define_attributes();
    let strings = StringTable::new();
    let mut builder = an_event_builder(&attributes, &strings);
    builder.with_undefined("country").unwrap();
    let event = builder.build().unwrap();
    let predicate = is_not_null(&attributes, "country");

    assert_eq!(Some(false), predicate.evaluate(&event));
}

#[test]
fn return_true_on_empty_check_for_empty_list_variable() {
    let attributes = define_attributes();
    let strings = StringTable::new();
    let mut builder = an_event_builder(&attributes, &strings);
    builder.with_integer_list("segment_ids", &[]).unwrap();
    let event = builder.build().unwrap();
    let predicate = is_empty(&attributes, "segment_ids");

    assert_eq!(Some(true), predicate.evaluate(&event));
}

#[test]
fn return_false_on_empty_check_for_non_empty_list_variable() {
    let attributes = define_attributes();
    let strings = StringTable::new();
    let mut builder = an_event_builder(&attributes, &strings);
    builder
        .with_integer_list("segment_ids", &[1, 2, 3])
        .unwrap();
    let event = builder.build().unwrap();
    let predicate = is_empty(&attributes, "segment_ids");

    assert_eq!(Some(false), predicate.evaluate(&event));
}

#[test]
fn return_false_on_not_empty_check_for_empty_list_variable() {
    let attributes = define_attributes();
    let strings = StringTable::new();
    let mut builder = an_event_builder(&attributes, &strings);
    builder.with_integer_list("segment_ids", &[]).unwrap();
    let event = builder.build().unwrap();
    let predicate = is_not_empty(&attributes, "segment_ids");

    assert_eq!(Some(false), predicate.evaluate(&event));
}

#[test]
fn return_true_on_not_empty_check_for_non_empty_list_variable() {
    let attributes = define_attributes();
    let strings = StringTable::new();
    let mut builder = an_event_builder(&attributes, &strings);
    builder
        .with_integer_list("segment_ids", &[1, 2, 3])
        .unwrap();
    let event = builder.build().unwrap();
    let predicate = is_not_empty(&attributes, "segment_ids");

    assert_eq!(Some(true), predicate.evaluate(&event));
}

#[test]
fn return_false_when_searching_for_an_element_in_an_empty_set() {
    let attributes = define_attributes();
    let strings = StringTable::new();
    let mut builder = an_event_builder(&attributes, &strings);
    builder.with_integer("exchange_id", AN_EXCHANGE_ID).unwrap();
    let event = builder.build().unwrap();
    let predicate = set_in(&attributes, "exchange_id", integer_list(vec![]));

    assert_eq!(Some(false), predicate.evaluate(&event));
}

#[test]
fn return_false_when_searching_for_an_element_in_a_set_that_does_not_contain_said_element() {
    let attributes = define_attributes();
    let strings = StringTable::new();
    let mut builder = an_event_builder(&attributes, &strings);
    builder.with_integer("exchange_id", AN_EXCHANGE_ID).unwrap();
    let event = builder.build().unwrap();
    let predicate = set_in(
        &attributes,
        "exchange_id",
        integer_list((1..AN_EXCHANGE_ID).collect())
    );

    assert_eq!(Some(false), predicate.evaluate(&event));
}

#[test]
fn return_true_when_searching_for_an_element_in_a_set_that_contains_said_element() {
    let attributes = define_attributes();
    let strings = StringTable::new();
    let mut builder = an_event_builder(&attributes, &strings);
    builder.with_integer("exchange_id", AN_EXCHANGE_ID).unwrap();
    let event = builder.build().unwrap();
    let predicate = set_in(
        &attributes,
        "exchange_id",
        integer_list((1..=50).collect())
    );

    assert_eq!(Some(true), predicate.evaluate(&event));
}

#[test]
fn return_true_when_looking_for_the_absence_of_an_element_in_an_empty_set() {
    let attributes = define_attributes();
    let strings = StringTable::new();
    let mut builder = an_event_builder(&attributes, &strings);
    builder.with_integer("exchange_id", AN_EXCHANGE_ID).unwrap();
    let event = builder.build().unwrap();
    let predicate = Predicate::new(
        &attributes,
        "exchange_id",
        PredicateKind::Membership(SetOperator::NotIn, ListLiteral::IntegerList(vec![])),
    )
    .unwrap();

    assert_eq!(Some(true), predicate.evaluate(&event));
}

#[test]
fn return_true_when_looking_for_the_absence_of_an_element_in_a_set_that_does_not_contain_said_element(
) {
    let attributes = define_attributes();
    let strings = StringTable::new();
    let mut builder = an_event_builder(&attributes, &strings);
    builder.with_integer("exchange_id", AN_EXCHANGE_ID).unwrap();
    let event = builder.build().unwrap();
    let predicate = set_not_in(
        &attributes,
        "exchange_id",
        integer_list((1..AN_EXCHANGE_ID).collect())
    );

    assert_eq!(Some(true), predicate.evaluate(&event));
}

#[test]
fn return_false_when_looking_for_the_absence_of_an_element_in_a_set_that_contains_said_element()
{
    let attributes = define_attributes();
    let strings = StringTable::new();
    let mut builder = an_event_builder(&attributes, &strings);
    builder.with_integer("exchange_id", AN_EXCHANGE_ID).unwrap();
    let event = builder.build().unwrap();
    let predicate = set_not_in(
        &attributes,
        "exchange_id",
        integer_list((1..=50).collect())
    );

    assert_eq!(Some(false), predicate.evaluate(&event));
}

#[test]
fn return_true_when_checking_for_equality_for_two_elements_that_are_equal() {
    let attributes = define_attributes();
    let mut strings = StringTable::new();
    let string_id = strings.get_or_update(A_COUNTRY);
    let mut builder = an_event_builder(&attributes, &strings);
    builder.with_string("country", A_COUNTRY).unwrap();
    let event = builder.build().unwrap();
    let predicate = equal(&attributes, "country", primitive_string(string_id));

    assert_eq!(Some(true), predicate.evaluate(&event));
}

#[test]
fn return_false_when_checking_for_equality_for_two_elements_that_are_not_equal() {
    let attributes = define_attributes();
    let mut strings = StringTable::new();
    let _ = strings.get_or_update(A_COUNTRY);
    let another_string_id = strings.get_or_update(ANOTHER_COUNTRY);
    let mut builder = an_event_builder(&attributes, &strings);
    builder.with_string("country", A_COUNTRY).unwrap();
    let event = builder.build().unwrap();
    let predicate = equal(&attributes, "country", primitive_string(another_string_id));

    assert_eq!(Some(false), predicate.evaluate(&event));
}

#[test]
fn return_false_when_checking_for_inequality_for_two_elements_that_are_equal() {
    let attributes = define_attributes();
    let mut strings = StringTable::new();
    let string_id = strings.get_or_update(A_COUNTRY);
    let mut builder = an_event_builder(&attributes, &strings);
    builder.with_string("country", A_COUNTRY).unwrap();
    let event = builder.build().unwrap();
    let predicate = not_equal(&attributes, "country", primitive_string(string_id));

    assert_eq!(Some(false), predicate.evaluate(&event));
}

#[test]
fn return_true_when_checking_for_inequality_for_two_elements_that_are_not_equal() {
    let attributes = define_attributes();
    let mut strings = StringTable::new();
    let _ = strings.get_or_update(A_COUNTRY);
    let another_string_id = strings.get_or_update(ANOTHER_COUNTRY);
    let mut builder = an_event_builder(&attributes, &strings);
    builder.with_string("country", A_COUNTRY).unwrap();
    let event = builder.build().unwrap();
    let predicate = not_equal(&attributes, "country", primitive_string(another_string_id));

    assert_eq!(Some(true), predicate.evaluate(&event));
}

#[test]
fn can_check_if_value_lesser_than_another_value_is_less_than_the_other_value() {
    let attributes = define_attributes();
    let strings = StringTable::new();
    let mut builder = an_event_builder(&attributes, &strings);
    builder.with_float("bidfloor", 55, 3).unwrap();
    let event = builder.build().unwrap();

    let predicate = less_than(
        &attributes,
        "bidfloor",
        comparison_float(Decimal::new(2, 0))
    );

    assert_eq!(Some(true), predicate.evaluate(&event));
}

#[test]
fn can_check_if_value_lesser_or_equal_than_another_value_is_less_or_equal_than_the_other_value()
{
    let attributes = define_attributes();
    let strings = StringTable::new();
    let mut builder = an_event_builder(&attributes, &strings);
    builder.with_float("bidfloor", 55, 3).unwrap();
    let event = builder.build().unwrap();

    let predicate = less_than_equal(
        &attributes,
        "bidfloor",
        comparison_float(Decimal::new(2, 0))
    );

    assert_eq!(Some(true), predicate.evaluate(&event));
}

#[test]
fn can_check_if_value_greater_than_another_value_is_greater_than_the_other_value() {
    let attributes = define_attributes();
    let strings = StringTable::new();
    let mut builder = an_event_builder(&attributes, &strings);
    builder.with_float("bidfloor", 55, 3).unwrap();
    let event = builder.build().unwrap();

    let predicate = greater_than(
        &attributes,
        "bidfloor",
        comparison_float(Decimal::new(55, 4))
    );

    assert_eq!(Some(true), predicate.evaluate(&event));
}

#[test]
fn can_check_if_value_greater_than_equal_another_value_is_greater_than_equal_the_other_value() {
    let attributes = define_attributes();
    let strings = StringTable::new();
    let mut builder = an_event_builder(&attributes, &strings);
    builder.with_float("bidfloor", 55, 3).unwrap();
    let event = builder.build().unwrap();

    let predicate = greater_than_equal(
        &attributes,
        "bidfloor",
        comparison_float(Decimal::new(44, 4))
    );

    assert_eq!(Some(true), predicate.evaluate(&event));
}

#[test]
fn return_false_when_checking_if_subset_of_an_empty_list() {
    let attributes = define_attributes();
    let strings = StringTable::new();
    let mut builder = an_event_builder(&attributes, &strings);
    builder
        .with_string_list("deals", &["deal-1", "deal-2"])
        .unwrap();
    let event = builder.build().unwrap();

    let predicate = all_of(&attributes, "deals", string_list(vec![]));

    assert_eq!(Some(false), predicate.evaluate(&event));
}

#[test]
fn return_true_when_checking_if_empty_list_is_subset_of_a_list() {
    let attributes = define_attributes();
    let mut strings = StringTable::new();
    let id = strings.get_or_update("deal-1");
    let another_id = strings.get_or_update("deal-2");
    let mut builder = an_event_builder(&attributes, &strings);
    builder.with_string_list("deals", &[]).unwrap();
    let event = builder.build().unwrap();

    let predicate = all_of(&attributes, "deals", string_list(vec![id, another_id]));

    assert_eq!(Some(true), predicate.evaluate(&event));
}

#[test]
fn return_false_when_checking_if_list_that_is_bigger_than_the_other_list_is_a_subset() {
    let attributes = define_attributes();
    let mut strings = StringTable::new();
    let id = strings.get_or_update("deal-1");
    let another_id = strings.get_or_update("deal-2");
    let _ = strings.get_or_update("deal-3");
    let mut builder = an_event_builder(&attributes, &strings);
    builder
        .with_string_list("deals", &["deal-1", "deal-2", "deal-3"])
        .unwrap();
    let event = builder.build().unwrap();

    let predicate = all_of(&attributes, "deals", string_list(vec![id, another_id]));

    assert_eq!(Some(false), predicate.evaluate(&event));
}

#[test]
fn return_false_when_checking_if_list_whose_elements_are_not_all_contained_by_the_other_list_is_a_subset(
) {
    let attributes = define_attributes();
    let mut strings = StringTable::new();
    let id = strings.get_or_update("deal-1");
    let another_id = strings.get_or_update("deal-2");
    let a_third_id = strings.get_or_update("deal-3");
    let a_fourth_id = strings.get_or_update("deal-4");
    let mut builder = an_event_builder(&attributes, &strings);
    builder
        .with_string_list("deals", &["deal-3", "deal-4"])
        .unwrap();
    let event = builder.build().unwrap();
    let mut builder = an_event_builder(&attributes, &strings);
    builder
        .with_string_list("deals", &["deal-1", "deal-2"])
        .unwrap();
    let event_2 = builder.build().unwrap();

    let predicate = all_of(&attributes, "deals", string_list(vec![id, another_id]));
    let predicate_2 = all_of(
        &attributes,
        "deals",
        string_list(vec![a_third_id, a_fourth_id])
    );

    assert_eq!(Some(false), predicate.evaluate(&event));
    assert_eq!(Some(false), predicate_2.evaluate(&event_2));
}

#[test]
fn return_true_when_checking_if_list_whose_elements_are_all_contained_by_the_other_list_is_a_subset(
) {
    let attributes = define_attributes();
    let mut strings = StringTable::new();
    let id = strings.get_or_update("deal-1");
    let another_id = strings.get_or_update("deal-2");
    let a_third_id = strings.get_or_update("deal-3");
    let a_fourth_id = strings.get_or_update("deal-4");
    let mut builder = an_event_builder(&attributes, &strings);
    builder
        .with_string_list("deals", &["deal-3", "deal-4"])
        .unwrap();
    let event = builder.build().unwrap();

    let predicate = all_of(
        &attributes,
        "deals",
        string_list(vec![id, another_id, a_third_id, a_fourth_id])
    );

    assert_eq!(Some(true), predicate.evaluate(&event));
}

#[test]
fn return_false_when_checking_for_one_of_and_list_attribute_is_empty() {
    let attributes = define_attributes();
    let strings = StringTable::new();
    let mut builder = an_event_builder(&attributes, &strings);
    builder.with_integer_list("segment_ids", &[]).unwrap();
    let event = builder.build().unwrap();

    let predicate = one_of(&attributes, "segment_ids", integer_list(vec![1, 2, 3, 4]));

    assert_eq!(Some(false), predicate.evaluate(&event));
}

#[test]
fn return_false_when_checking_for_one_of_and_predicate_list_is_empty() {
    let attributes = define_attributes();
    let strings = StringTable::new();
    let mut builder = an_event_builder(&attributes, &strings);
    builder
        .with_integer_list("segment_ids", &[1, 2, 3])
        .unwrap();
    let event = builder.build().unwrap();

    let predicate = one_of(&attributes, "segment_ids", integer_list(vec![]));

    assert_eq!(Some(false), predicate.evaluate(&event));
}

#[test]
fn return_true_when_one_of_the_value_of_the_first_is_contained_in_the_other_list() {
    let attributes = define_attributes();
    let strings = StringTable::new();
    let mut builder = an_event_builder(&attributes, &strings);
    builder
        .with_integer_list("segment_ids", &[2, 4, 6])
        .unwrap();
    let event = builder.build().unwrap();

    let predicate = one_of(&attributes, "segment_ids", integer_list(vec![1, 3, 6]));

    assert_eq!(Some(true), predicate.evaluate(&event));
}

#[test]
fn return_false_when_none_of_the_value_of_the_first_is_contained_in_the_other_list() {
    let attributes = define_attributes();
    let strings = StringTable::new();
    let mut builder = an_event_builder(&attributes, &strings);
    builder
        .with_integer_list("segment_ids", &[2, 4, 6])
        .unwrap();
    let event = builder.build().unwrap();

    let predicate = one_of(&attributes, "segment_ids", integer_list(vec![1, 3, 5]));

    assert_eq!(Some(false), predicate.evaluate(&event));
}

#[test]
fn return_true_when_none_of_the_value_of_the_first_is_contained_in_the_other_list() {
    let attributes = define_attributes();
    let strings = StringTable::new();
    let mut builder = an_event_builder(&attributes, &strings);
    builder
        .with_integer_list("segment_ids", &[2, 4, 6])
        .unwrap();
    let event = builder.build().unwrap();

    let predicate = none_of(&attributes, "segment_ids", integer_list(vec![1, 3, 5]));

    assert_eq!(Some(true), predicate.evaluate(&event));
}

#[test]
fn return_false_when_one_of_the_value_of_the_first_is_contained_in_the_other_list() {
    let attributes = define_attributes();
    let strings = StringTable::new();
    let mut builder = an_event_builder(&attributes, &strings);
    builder
        .with_integer_list("segment_ids", &[2, 3, 6])
        .unwrap();
    let event = builder.build().unwrap();

    let predicate = none_of(&attributes, "segment_ids", integer_list(vec![1, 3, 5]));

    assert_eq!(Some(false), predicate.evaluate(&event));
}

#[test]
fn return_true_when_checking_if_not_subset_of_the_other_list_and_the_first_list_is_empty() {
    let attributes = define_attributes();
    let strings = StringTable::new();
    let mut builder = an_event_builder(&attributes, &strings);
    builder.with_integer_list("segment_ids", &[]).unwrap();
    let event = builder.build().unwrap();

    let predicate = none_of(&attributes, "segment_ids", integer_list(vec![1, 3, 5]));

    assert_eq!(Some(true), predicate.evaluate(&event));
}

#[test]
fn return_true_when_checking_if_not_subset_of_the_other_list_and_the_other_list_is_empty() {
    let attributes = define_attributes();
    let strings = StringTable::new();
    let mut builder = an_event_builder(&attributes, &strings);
    builder
        .with_integer_list("segment_ids", &[1, 2, 3])
        .unwrap();
    let event = builder.build().unwrap();

    let predicate = none_of(&attributes, "segment_ids", integer_list(vec![]));

    assert_eq!(Some(true), predicate.evaluate(&event));
}

#[test]
fn return_none_when_the_attribute_is_undefined() {
    let attributes = define_attributes();
    let strings = StringTable::new();
    let mut builder = an_event_builder(&attributes, &strings);
    builder.with_undefined("segment_ids").unwrap();
    let event = builder.build().unwrap();

    let predicate = none_of(&attributes, "segment_ids", integer_list(vec![]));

    assert_eq!(None, predicate.evaluate(&event));
}

#[test]
fn can_negate_a_variable() {
    let attributes = define_attributes();
    let strings = StringTable::new();
    let mut builder = an_event_builder(&attributes, &strings);
    builder.with_boolean("private", true).unwrap();
    let event = builder.build().unwrap();
    let predicate = variable(&attributes, "private");

    assert_eq!(
        predicate.evaluate(&event).map(|value| !value),
        predicate.not().evaluate(&event)
    )
}

#[test]
fn can_negate_a_negated_variable() {
    let attributes = define_attributes();
    let strings = StringTable::new();
    let mut builder = an_event_builder(&attributes, &strings);
    builder.with_boolean("private", true).unwrap();
    let event = builder.build().unwrap();
    let predicate = negated_variable(&attributes, "private");

    assert_eq!(
        predicate.evaluate(&event).map(|value| !value),
        predicate.not().evaluate(&event)
    )
}

#[test]
fn can_negate_a_null_check() {
    let attributes = define_attributes();
    let strings = StringTable::new();
    let mut builder = an_event_builder(&attributes, &strings);
    builder.with_boolean("private", true).unwrap();
    let event = builder.build().unwrap();
    let predicate = is_null(&attributes, "private");

    assert_eq!(
        predicate.evaluate(&event).map(|value| !value),
        predicate.not().evaluate(&event)
    )
}

#[test]
fn can_negate_a_not_null_check() {
    let attributes = define_attributes();
    let strings = StringTable::new();
    let mut builder = an_event_builder(&attributes, &strings);
    builder.with_boolean("private", true).unwrap();
    let event = builder.build().unwrap();
    let predicate = is_not_null(&attributes, "private");

    assert_eq!(
        predicate.evaluate(&event).map(|value| !value),
        predicate.not().evaluate(&event)
    )
}

#[test]
fn can_negate_an_empty_check() {
    let attributes = define_attributes();
    let strings = StringTable::new();
    let mut builder = an_event_builder(&attributes, &strings);
    builder
        .with_integer_list("segment_ids", &[1, 2, 3])
        .unwrap();
    let event = builder.build().unwrap();
    let predicate = is_empty(&attributes, "segment_ids");

    assert_eq!(
        predicate.evaluate(&event).map(|value| !value),
        predicate.not().evaluate(&event)
    )
}

#[test]
fn can_negate_a_not_empty_check() {
    let attributes = define_attributes();
    let strings = StringTable::new();
    let mut builder = an_event_builder(&attributes, &strings);
    builder
        .with_integer_list("segment_ids", &[1, 2, 3])
        .unwrap();
    let event = builder.build().unwrap();
    let predicate = is_not_empty(&attributes, "segment_ids");

    assert_eq!(
        predicate.evaluate(&event).map(|value| !value),
        predicate.not().evaluate(&event)
    )
}

#[test]
fn can_negate_a_set_in_predicate() {
    let attributes = define_attributes();
    let strings = StringTable::new();
    let mut builder = an_event_builder(&attributes, &strings);
    builder.with_integer("exchange_id", AN_EXCHANGE_ID).unwrap();
    let event = builder.build().unwrap();
    let predicate = set_in(&attributes, "exchange_id", integer_list(vec![]));

    assert_eq!(
        predicate.evaluate(&event).map(|value| !value),
        predicate.not().evaluate(&event)
    )
}

#[test]
fn can_negate_a_set_not_in_predicate() {
    let attributes = define_attributes();
    let strings = StringTable::new();
    let mut builder = an_event_builder(&attributes, &strings);
    builder.with_integer("exchange_id", AN_EXCHANGE_ID).unwrap();
    let event = builder.build().unwrap();
    let predicate = set_not_in(&attributes, "exchange_id", integer_list(vec![]));

    assert_eq!(
        predicate.evaluate(&event).map(|value| !value),
        predicate.not().evaluate(&event)
    )
}

#[test]
fn can_negate_an_equal_predicate() {
    let attributes = define_attributes();
    let mut strings = StringTable::new();
    let string_id = strings.get_or_update(A_COUNTRY);
    let mut builder = an_event_builder(&attributes, &strings);
    builder.with_string("country", A_COUNTRY).unwrap();
    let event = builder.build().unwrap();
    let predicate = equal(&attributes, "country", primitive_string(string_id));

    assert_eq!(
        predicate.evaluate(&event).map(|value| !value),
        predicate.not().evaluate(&event)
    )
}

#[test]
fn can_negate_a_not_equal_predicate() {
    let attributes = define_attributes();
    let mut strings = StringTable::new();
    let string_id = strings.get_or_update(A_COUNTRY);
    let mut builder = an_event_builder(&attributes, &strings);
    builder.with_string("country", A_COUNTRY).unwrap();
    let event = builder.build().unwrap();
    let predicate = not_equal(&attributes, "country", primitive_string(string_id));

    assert_eq!(
        predicate.evaluate(&event).map(|value| !value),
        predicate.not().evaluate(&event)
    )
}

#[test]
fn can_negate_a_less_than_predicate() {
    let attributes = define_attributes();
    let strings = StringTable::new();
    let mut builder = an_event_builder(&attributes, &strings);
    builder.with_integer("exchange_id", AN_EXCHANGE_ID).unwrap();
    let event = builder.build().unwrap();
    let predicate = less_than(&attributes, "exchange_id", comparison_integer(0));

    assert_eq!(
        predicate.evaluate(&event).map(|value| !value),
        predicate.not().evaluate(&event)
    )
}

#[test]
fn can_negate_a_less_than_equal_predicate() {
    let attributes = define_attributes();
    let strings = StringTable::new();
    let mut builder = an_event_builder(&attributes, &strings);
    builder.with_integer("exchange_id", AN_EXCHANGE_ID).unwrap();
    let event = builder.build().unwrap();
    let predicate = less_than_equal(&attributes, "exchange_id", comparison_integer(0));

    assert_eq!(
        predicate.evaluate(&event).map(|value| !value),
        predicate.not().evaluate(&event)
    )
}

#[test]
fn can_negate_a_greater_than_predicate() {
    let attributes = define_attributes();
    let strings = StringTable::new();
    let mut builder = an_event_builder(&attributes, &strings);
    builder.with_integer("exchange_id", AN_EXCHANGE_ID).unwrap();
    let event = builder.build().unwrap();
    let predicate = greater_than(&attributes, "exchange_id", comparison_integer(0));

    assert_eq!(
        predicate.evaluate(&event).map(|value| !value),
        predicate.not().evaluate(&event)
    )
}

#[test]
fn can_negate_a_greater_than_equal_predicate() {
    let attributes = define_attributes();
    let strings = StringTable::new();
    let mut builder = an_event_builder(&attributes, &strings);
    builder.with_integer("exchange_id", AN_EXCHANGE_ID).unwrap();
    let event = builder.build().unwrap();
    let predicate = greater_than_equal(&attributes, "exchange_id", comparison_integer(0));

    assert_eq!(
        predicate.evaluate(&event).map(|value| !value),
        predicate.not().evaluate(&event)
    )
}

#[test]
fn can_negate_a_one_of_predicate() {
    let attributes = define_attributes();
    let strings = StringTable::new();
    let mut builder = an_event_builder(&attributes, &strings);
    builder.with_integer_list("segment_ids", &[]).unwrap();
    let event = builder.build().unwrap();
    let predicate = one_of(&attributes, "segment_ids", integer_list(vec![1, 2, 3, 4]));

    assert_eq!(
        predicate.evaluate(&event).map(|value| !value),
        predicate.not().evaluate(&event)
    )
}

#[test]
fn can_negate_a_none_of_predicate() {
    let attributes = define_attributes();
    let strings = StringTable::new();
    let mut builder = an_event_builder(&attributes, &strings);
    builder.with_integer_list("segment_ids", &[]).unwrap();
    let event = builder.build().unwrap();
    let predicate = none_of(&attributes, "segment_ids", integer_list(vec![1, 2, 3, 4]));

    assert_eq!(
        predicate.evaluate(&event).map(|value| !value),
        predicate.not().evaluate(&event)
    )
}

#[test]
fn can_negate_an_all_of_predicate() {
    let attributes = define_attributes();
    let strings = StringTable::new();
    let mut builder = an_event_builder(&attributes, &strings);
    builder.with_integer_list("segment_ids", &[]).unwrap();
    let event = builder.build().unwrap();
    let predicate = all_of(&attributes, "segment_ids", integer_list(vec![1, 2, 3, 4]));

    assert_eq!(
        predicate.evaluate(&event).map(|value| !value),
        predicate.not().evaluate(&event)
    )
}

fn define_attributes() -> AttributeTable {
    let definitions = vec![
        AttributeDefinition::string_list("deals"),
        AttributeDefinition::string("deal"),
        AttributeDefinition::float("bidfloor"),
        AttributeDefinition::integer("exchange_id"),
        AttributeDefinition::boolean("private"),
        AttributeDefinition::integer_list("segment_ids"),
        AttributeDefinition::string("country"),
    ];
    AttributeTable::new(&definitions).unwrap()
}

fn an_event_builder<'a>(
    attributes: &'a AttributeTable,
    strings: &'a StringTable,
) -> EventBuilder<'a> {
    let mut builder = EventBuilder::new(attributes, strings);
    assert!(builder
        .with_string_list("deals", &["deal-1", "deal-2"])
        .is_ok());
    assert!(builder.with_float("bidfloor", 1, 0).is_ok());
    assert!(builder.with_integer("exchange_id", AN_EXCHANGE_ID).is_ok());
    assert!(builder.with_boolean("private", true).is_ok());
    assert!(builder.with_integer_list("segment_ids", &[1, 2, 3]).is_ok());
    assert!(builder.with_string("country", A_COUNTRY).is_ok());
    builder
}

fn predicate(attributes: &AttributeTable, name: &str, kind: PredicateKind) -> Predicate {
    Predicate::new(attributes, name, kind).unwrap()
}

fn variable(attributes: &AttributeTable, name: &str) -> Predicate {
    predicate(attributes, name, PredicateKind::Variable)
}

fn negated_variable(attributes: &AttributeTable, name: &str) -> Predicate {
    predicate(attributes, name, PredicateKind::NegatedVariable)
}

fn is_null(attributes: &AttributeTable, name: &str) -> Predicate {
    predicate(attributes, name, PredicateKind::Null(NullOperator::IsNull))
}

fn is_not_null(attributes: &AttributeTable, name: &str) -> Predicate {
    predicate(attributes, name, PredicateKind::Null(NullOperator::IsNotNull))
}

fn is_empty(attributes: &AttributeTable, name: &str) -> Predicate {
    predicate(attributes, name, PredicateKind::Null(NullOperator::IsEmpty))
}

fn is_not_empty(attributes: &AttributeTable, name: &str) -> Predicate {
    predicate(attributes, name, PredicateKind::Null(NullOperator::IsNotEmpty))
}

fn set_in(attributes: &AttributeTable, name: &str, value: ListLiteral) -> Predicate {
    predicate(attributes, name, PredicateKind::Membership(SetOperator::In, value))
}

fn set_not_in(attributes: &AttributeTable, name: &str, value: ListLiteral) -> Predicate {
    predicate(attributes, name, PredicateKind::Membership(SetOperator::NotIn, value))
}

fn equal(attributes: &AttributeTable, name: &str, value: PrimitiveLiteral) -> Predicate {
    predicate(attributes, name, PredicateKind::Equality(EqualityOperator::Equal, value))
}

fn not_equal(attributes: &AttributeTable, name: &str, value: PrimitiveLiteral) -> Predicate {
    predicate(attributes, name, PredicateKind::Equality(EqualityOperator::NotEqual, value))
}

fn less_than(attributes: &AttributeTable, name: &str, value: ComparisonValue) -> Predicate {
    predicate(attributes, name, PredicateKind::Comparison(ComparisonOperator::LessThan, value))
}

fn less_than_equal(attributes: &AttributeTable, name: &str, value: ComparisonValue) -> Predicate {
    predicate(attributes, name, PredicateKind::Comparison(ComparisonOperator::LessThanEqual, value))
}

fn greater_than(attributes: &AttributeTable, name: &str, value: ComparisonValue) -> Predicate {
    predicate(attributes, name, PredicateKind::Comparison(ComparisonOperator::GreaterThan, value))
}

fn greater_than_equal(attributes: &AttributeTable, name: &str, value: ComparisonValue) -> Predicate {
    predicate(
        attributes,
        name,
        PredicateKind::Comparison(ComparisonOperator::GreaterThanEqual, value),
    )
}

fn all_of(attributes: &AttributeTable, name: &str, value: ListLiteral) -> Predicate {
    predicate(attributes, name, PredicateKind::List(ListOperator::AllOf, value))
}

fn one_of(attributes: &AttributeTable, name: &str, value: ListLiteral) -> Predicate {
    predicate(attributes, name, PredicateKind::List(ListOperator::OneOf, value))
}

fn none_of(attributes: &AttributeTable, name: &str, value: ListLiteral) -> Predicate {
    predicate(attributes, name, PredicateKind::List(ListOperator::NoneOf, value))
}

fn comparison_float(value: Decimal) -> ComparisonValue {
    ComparisonValue::Float(value)
}

fn comparison_integer(value: i64) -> ComparisonValue {
    ComparisonValue::Integer(value)
}

fn string_list(value: Vec<StringId>) -> ListLiteral {
    ListLiteral::StringList(value)
}

fn integer_list(value: Vec<i64>) -> ListLiteral {
    ListLiteral::IntegerList(value)
}

fn primitive_integer(value: i64) -> PrimitiveLiteral {
    PrimitiveLiteral::Integer(value)
}

fn primitive_string(value: StringId) -> PrimitiveLiteral {
    PrimitiveLiteral::String(value)
}

fn sorted_values(seed: i64, length: usize) -> Vec<i64> {
    let mut values: Vec<i64> = (0..length as i64)
        .map(|i| (i * 7919 + seed * 104729) % 1000 - 500)
        .collect();
    values.sort();
    values.dedup();
    values
}

#[test]
fn can_find_an_element_if_it_is_present_in_the_input() {
    for seed in 0..20 {
        let value = sorted_values(seed, 1 + (seed as usize * 5) % 99);
        for index in 0..value.len() {
            let attributes = define_attributes();
            let strings = StringTable::new();
            let mut builder = an_event_builder(&attributes, &strings);
            builder.with_integer("exchange_id", value[index]).unwrap();
            let event = builder.build().unwrap();

            let predicate = set_in(&attributes, "exchange_id", integer_list(value.clone()));

            assert_eq!(Some(true), predicate.evaluate(&event));
        }
    }
}

#[test]
fn can_find_an_element_common_from_both_lists() {
    for seed in 0..20 {
        let value = sorted_values(seed, 1 + (seed as usize * 5) % 99);
        let mut variable = sorted_values(seed + 100, 1 + (seed as usize * 11) % 99);
        let index = (seed as usize * 3) % value.len();
        let variable_index = (seed as usize * 13) % variable.len();
        variable[variable_index] = value[index];
        variable.sort();
        variable.dedup();

        let attributes = define_attributes();
        let strings = StringTable::new();
        let mut builder = an_event_builder(&attributes, &strings);
        builder.with_integer_list("segment_ids", &variable).unwrap();
        let event = builder.build().unwrap();

        let predicate = one_of(&attributes, "segment_ids", integer_list(value));

        assert_eq!(Some(true), predicate.evaluate(&event));
    }
}

#[test]
fn can_find_a_subset_if_it_is_present_in_the_input() {
    for seed in 0..20 {
        let value = sorted_values(seed, 1 + (seed as usize * 5) % 99);
        let index = (seed as usize * 3) % value.len();
        let index_2 = (seed as usize * 17) % value.len();
        let attributes = define_attributes();
        let strings = StringTable::new();
        let mut builder = an_event_builder(&attributes, &strings);
        let start = std::cmp::min(index, index_2);
        let end = std::cmp::max(index, index_2);
        builder
            .with_integer_list("segment_ids", &value[start..end])
            .unwrap();
        let event = builder.build().unwrap();

        let predicate = all_of(&attributes, "segment_ids", integer_list(value));

        assert_eq!(Some(true), predicate.evaluate(&event));
    }
}

#[test]
fn a_predicate_on_a_value_of_another_type_has_no_result() {
    let attributes = define_attributes();
    let other = AttributeTable::new(&[
        AttributeDefinition::integer("deals"),
        AttributeDefinition::integer("deal"),
        AttributeDefinition::integer("bidfloor"),
        AttributeDefinition::string("exchange_id"),
        AttributeDefinition::integer("private"),
    ])
    .unwrap();
    let strings = StringTable::new();
    let mut builder = EventBuilder::new(&other, &strings);
    builder.with_string("exchange_id", "CA").unwrap();
    builder.with_integer("private", 1).unwrap();
    let event = builder.build().unwrap();

    assert_eq!(
        None,
        equal(&attributes, "exchange_id", primitive_integer(1)).evaluate(&event)
    );
    assert_eq!(None, variable(&attributes, "private").evaluate(&event));
}

#[test]
fn an_emptiness_check_has_a_result_on_an_undefined_list() {
    let attributes = define_attributes();
    let strings = StringTable::new();
    let event = EventBuilder::new(&attributes, &strings).build().unwrap();

    assert_eq!(Some(true), is_empty(&attributes, "deals").evaluate(&event));
    assert_eq!(Some(false), is_not_empty(&attributes, "deals").evaluate(&event));
}
