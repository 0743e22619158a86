use a_tree::{ATree, AttributeDefinition};

const AN_INVALID_BOOLEAN_EXPRESSION: &str = "invalid in (1, 2, 3 and";
const AN_EXPRESSION: &str = "exchange_id = 1";
const A_NOT_EXPRESSION: &str = "not private";
const AN_EXPRESSION_WITH_AND_OPERATORS: &str =
    r#"exchange_id = 1 and deals one of ["deal-1", "deal-2"]"#;
const AN_EXPRESSION_WITH_OR_OPERATORS: &str =
    r#"exchange_id = 1 or deals one of ["deal-1", "deal-2"]"#;
const A_COMPLEX_EXPRESSION: &str = r#"exchange_id = 1 and not private and deal_ids one of ["deal-1", "deal-2"] and segment_ids one of [1, 2, 3] and country = 'CA' and city in ['QC'] or country = 'US' and city in ['AZ']"#;
const ANOTHER_COMPLEX_EXPRESSION: &str = r#"exchange_id = 1 and not private and deal_ids one of ["deal-1", "deal-2"] and segment_ids one of [1, 2, 3] and country in ['FR', 'GB']"#;

fn is_sync_and_send<T: Send + Sync>() {}

#[test]
fn support_sync_and_send_traits() {
    is_sync_and_send::<ATree>();
}

#[test]
fn can_build_an_atree() {
    let definitions = [
        AttributeDefinition::boolean("private"),
        AttributeDefinition::string_list("deals"),
        AttributeDefinition::integer("exchange_id"),
        AttributeDefinition::float("bidfloor"),
        AttributeDefinition::string("country"),
        AttributeDefinition::integer_list("segment_ids"),
    ];

    let result = ATree::new(&definitions);

    assert!(result.is_ok());
}

#[test]
fn atree_return_an_error_on_duplicate_definitions() {
    let definitions = [
        AttributeDefinition::boolean("private"),
        AttributeDefinition::string("country"),
        AttributeDefinition::string_list("deals"),
        AttributeDefinition::integer("exchange_id"),
        AttributeDefinition::float("bidfloor"),
        AttributeDefinition::integer("country"),
        AttributeDefinition::integer_list("segment_ids"),
    ];

    let result = ATree::new(&definitions);

    assert!(result.is_err());
}

#[test]
fn return_an_error_on_invalid_boolean_expression() {
    let definitions = [
        AttributeDefinition::boolean("private"),
        AttributeDefinition::string("country"),
        AttributeDefinition::string_list("deals"),
        AttributeDefinition::integer("exchange_id"),
        AttributeDefinition::integer_list("segment_ids"),
    ];
    let mut atree = ATree::new(&definitions).unwrap();

    let result = atree.insert(1u64, AN_INVALID_BOOLEAN_EXPRESSION);

    assert!(result.is_err());
}

#[test]
fn return_an_error_on_empty_boolean_expression() {
    let definitions = [
        AttributeDefinition::boolean("private"),
        AttributeDefinition::string("country"),
        AttributeDefinition::string_list("deals"),
        AttributeDefinition::integer("exchange_id"),
        AttributeDefinition::integer_list("segment_ids"),
    ];
    let mut atree = ATree::new(&definitions).unwrap();

    let result = atree.insert(1u64, "");

    assert!(result.is_err());
}

#[test]
fn can_insert_a_simple_expression() {
    let definitions = [
        AttributeDefinition::boolean("private"),
        AttributeDefinition::string("country"),
        AttributeDefinition::string_list("deals"),
        AttributeDefinition::integer("exchange_id"),
        AttributeDefinition::integer_list("segment_ids"),
    ];
    let mut atree = ATree::new(&definitions).unwrap();

    let result = atree.insert(1u64, AN_EXPRESSION);

    assert!(result.is_ok());
}

#[test]
fn can_insert_an_expression_that_refers_to_a_rnode() {
    let definitions = [
        AttributeDefinition::boolean("private"),
        AttributeDefinition::integer("exchange_id"),
        AttributeDefinition::string_list("deal_ids"),
    ];
    let an_expression = "private or exchange_id = 1";
    let another_expression =
        r#"private or exchange_id = 1 or deal_ids one of ["deal-1", "deal-2"]"#;
    let mut atree = ATree::new(&definitions).unwrap();
    assert!(atree.insert(1u64, an_expression).is_ok());
    assert!(atree.insert(2u64, another_expression).is_ok());
}

#[test]
fn can_insert_the_same_expression_multiple_times() {
    let definitions = [
        AttributeDefinition::boolean("private"),
        AttributeDefinition::string("country"),
        AttributeDefinition::string_list("deals"),
        AttributeDefinition::integer("exchange_id"),
        AttributeDefinition::integer_list("segment_ids"),
    ];
    let mut atree = ATree::new(&definitions).unwrap();

    assert!(atree.insert(1u64, AN_EXPRESSION).is_ok());
    assert!(atree.insert(2u64, AN_EXPRESSION).is_ok());
}

#[test]
fn can_insert_a_negative_expression() {
    let definitions = [
        AttributeDefinition::boolean("private"),
        AttributeDefinition::string("country"),
        AttributeDefinition::string_list("deals"),
        AttributeDefinition::integer("exchange_id"),
        AttributeDefinition::integer_list("segment_ids"),
    ];
    let mut atree = ATree::new(&definitions).unwrap();

    let result = atree.insert(1u64, A_NOT_EXPRESSION);

    assert!(result.is_ok());
}

#[test]
fn can_insert_an_expression_with_and_operators() {
    let definitions = [
        AttributeDefinition::boolean("private"),
        AttributeDefinition::string("country"),
        AttributeDefinition::string_list("deals"),
        AttributeDefinition::integer("exchange_id"),
        AttributeDefinition::integer_list("segment_ids"),
    ];
    let mut atree = ATree::new(&definitions).unwrap();

    let result = atree.insert(1u64, AN_EXPRESSION_WITH_AND_OPERATORS);

    assert!(result.is_ok());
}

#[test]
fn can_insert_an_expression_with_or_operators() {
    let definitions = [
        AttributeDefinition::boolean("private"),
        AttributeDefinition::string("country"),
        AttributeDefinition::string_list("deals"),
        AttributeDefinition::integer("exchange_id"),
        AttributeDefinition::integer_list("segment_ids"),
    ];
    let mut atree = ATree::new(&definitions).unwrap();

    let result = atree.insert(1u64, AN_EXPRESSION_WITH_OR_OPERATORS);

    assert!(result.is_ok());
}

#[test]
fn can_insert_an_expression_with_mixed_operators() {
    let definitions = [
        AttributeDefinition::boolean("private"),
        AttributeDefinition::integer("exchange_id"),
        AttributeDefinition::string_list("deal_ids"),
        AttributeDefinition::integer_list("segment_ids"),
        AttributeDefinition::string("country"),
        AttributeDefinition::string("city"),
    ];
    let mut atree = ATree::new(&definitions).unwrap();

    let result = atree.insert(1u64, A_COMPLEX_EXPRESSION);

    assert!(result.is_ok());
}

#[test]
fn can_insert_multiple_expressions_with_mixed_operators() {
    let definitions = [
        AttributeDefinition::boolean("private"),
        AttributeDefinition::integer("exchange_id"),
        AttributeDefinition::string_list("deal_ids"),
        AttributeDefinition::integer_list("segment_ids"),
        AttributeDefinition::string("country"),
        AttributeDefinition::string("city"),
    ];
    let mut atree = ATree::new(&definitions).unwrap();

    assert!(atree.insert(1u64, A_COMPLEX_EXPRESSION).is_ok());
    assert!(atree.insert(2u64, ANOTHER_COMPLEX_EXPRESSION).is_ok());
}

#[test]
fn can_search_an_empty_tree() {
    let definitions = [
        AttributeDefinition::boolean("private"),
        AttributeDefinition::integer("exchange_id"),
        AttributeDefinition::string_list("deal_ids"),
        AttributeDefinition::string_list("deals"),
        AttributeDefinition::integer_list("segment_ids"),
        AttributeDefinition::string("country"),
        AttributeDefinition::string("city"),
    ];
    let atree = ATree::new(&definitions).unwrap();
    let mut builder = atree.make_event();
    builder.with_boolean("private", false).unwrap();
    let event = builder.build().unwrap();

    let expected: Vec<u64> = vec![];
    let actual = atree.search(&event).unwrap().matches().to_vec();
    assert_eq!(expected, actual);
}

#[test]
fn can_search_a_single_predicate() {
    let definitions = [
        AttributeDefinition::boolean("private"),
        AttributeDefinition::integer("exchange_id"),
        AttributeDefinition::string_list("deal_ids"),
        AttributeDefinition::string_list("deals"),
        AttributeDefinition::integer_list("segment_ids"),
        AttributeDefinition::string("country"),
        AttributeDefinition::string("city"),
    ];
    let mut atree = ATree::new(&definitions).unwrap();
    atree.insert(1u64, "private").unwrap();
    let mut builder = atree.make_event();
    builder.with_boolean("private", true).unwrap();
    let event = builder.build().unwrap();

    let expected = vec![1u64];
    let actual = atree.search(&event).unwrap().matches().to_vec();
    assert_eq!(expected, actual);
}

#[test]
fn ignore_results_that_are_not_matched() {
    let definitions = [
        AttributeDefinition::boolean("private"),
        AttributeDefinition::integer("exchange_id"),
        AttributeDefinition::string_list("deal_ids"),
        AttributeDefinition::string_list("deals"),
        AttributeDefinition::integer_list("segment_ids"),
        AttributeDefinition::string("country"),
        AttributeDefinition::string("city"),
    ];
    let mut atree = ATree::new(&definitions).unwrap();
    atree.insert(1u64, "private").unwrap();
    atree.insert(2u64, A_COMPLEX_EXPRESSION).unwrap();
    let mut builder = atree.make_event();
    builder.with_boolean("private", false).unwrap();
    let event = builder.build().unwrap();

    let expected: Vec<u64> = vec![];
    let actual = atree.search(&event).unwrap().matches().to_vec();
    assert_eq!(expected, actual);
}

#[test]
fn can_search_simple_expressions() {
    let definitions = [
        AttributeDefinition::boolean("private"),
        AttributeDefinition::integer("exchange_id"),
        AttributeDefinition::string_list("deal_ids"),
        AttributeDefinition::string_list("deals"),
        AttributeDefinition::integer_list("segment_ids"),
        AttributeDefinition::string("country"),
        AttributeDefinition::string("city"),
    ];
    let mut atree = ATree::new(&definitions).unwrap();
    atree.insert(1u64, "private").unwrap();
    atree.insert(2u64, "not private").unwrap();
    let mut builder = atree.make_event();
    builder.with_boolean("private", true).unwrap();
    let event = builder.build().unwrap();

    let expected = vec![1u64];
    let mut actual = atree.search(&event).unwrap().matches().to_vec();
    actual.sort();
    assert_eq!(expected, actual);
}

#[test]
fn can_search_complex_expressions() {
    let definitions = [
        AttributeDefinition::boolean("private"),
        AttributeDefinition::integer("exchange_id"),
        AttributeDefinition::string_list("deal_ids"),
        AttributeDefinition::string_list("deals"),
        AttributeDefinition::integer_list("segment_ids"),
        AttributeDefinition::string("country"),
        AttributeDefinition::string("city"),
    ];
    let mut atree = ATree::new(&definitions).unwrap();

    atree.insert(1, A_COMPLEX_EXPRESSION).unwrap();
    atree.insert(2, AN_EXPRESSION_WITH_AND_OPERATORS).unwrap();
    atree.insert(3, AN_EXPRESSION_WITH_OR_OPERATORS).unwrap();
    let mut builder = atree.make_event();
    builder.with_integer("exchange_id", 1).unwrap();
    builder.with_boolean("private", true).unwrap();
    builder
        .with_string_list("deal_ids", &["deal-1", "deal-2"])
        .unwrap();
    builder
        .with_string_list("deals", &["deal-1", "deal-2"])
        .unwrap();
    builder.with_integer_list("segment_ids", &[2, 3]).unwrap();
    builder.with_string("country", "FR").unwrap();
    let event = builder.build().unwrap();

    let expected = vec![2, 3];
    let mut actual = atree.search(&event).unwrap().matches().to_vec();
    actual.sort();
    assert_eq!(expected, actual);
}

#[test]
fn can_search_a_tree_with_multiple_shared_sub_expressions() {
    let definitions = [
        AttributeDefinition::boolean("private"),
        AttributeDefinition::integer("exchange_id"),
        AttributeDefinition::string_list("deals"),
        AttributeDefinition::integer_list("segment_ids"),
        AttributeDefinition::string("country"),
        AttributeDefinition::string("city"),
    ];
    let mut atree = ATree::new(&definitions).unwrap();
    [
        (
            1,
            r#"exchange_id = 1 and not private and deals one of ["deal-1", "deal-2"]"#,
        ),
        (
            2,
            r#"exchange_id = 1 and not private and deals one of ["deal-2", "deal-3"]"#,
        ),
        (
            3,
            r#"exchange_id = 1 and not private and deals one of ["deal-2", "deal-3"] and segment_ids one of [1, 2, 3, 4]"#,
        ),
        (
            4,
            r#"exchange_id = 1 and not private and deals one of ["deal-2", "deal-3"] and segment_ids one of [5, 6, 7, 8] and country in ["CA", "US"]"#,
        ),
    ].into_iter().for_each(|(id, expression)| {
            atree.insert(id, expression).unwrap()
    });

    let mut builder = atree.make_event();
    builder.with_boolean("private", false).unwrap();
    builder.with_integer("exchange_id", 1).unwrap();
    builder
        .with_string_list("deals", &["deal-1", "deal-3"])
        .unwrap();
    builder.with_integer_list("segment_ids", &[2, 3]).unwrap();
    builder.with_string("country", "CA").unwrap();
    let event = builder.build().unwrap();

    let mut matches = atree.search(&event).unwrap().matches().to_vec();
    matches.sort();
    assert_eq!(vec![1, 2, 3], matches);
}

#[test]
fn can_delete_a_single_predicate() {
    let definitions = [AttributeDefinition::boolean("private")];
    let mut atree = ATree::new(&definitions).unwrap();
    atree.insert(1u64, "private").unwrap();
    let mut builder = atree.make_event();
    builder.with_boolean("private", true).unwrap();
    let event = builder.build().unwrap();

    let results = atree.search(&event).unwrap().matches().to_vec();
    assert_eq!(vec![1u64], results);

    atree.delete(1u64);
    let mut builder = atree.make_event();
    builder.with_boolean("private", true).unwrap();
    let event = builder.build().unwrap();
    let results = atree.search(&event).unwrap().matches().to_vec();
    assert!(results.is_empty());
}

#[test]
fn deleting_an_expression_only_removes_the_id_not_the_expression_if_it_is_still_referenced() {
    let definitions = [
        AttributeDefinition::boolean("private"),
        AttributeDefinition::integer("exchange_id"),
        AttributeDefinition::string_list("deal_ids"),
        AttributeDefinition::string_list("deals"),
        AttributeDefinition::integer_list("segment_ids"),
        AttributeDefinition::string("country"),
        AttributeDefinition::string("city"),
    ];
    let an_expression = "private or exchange_id = 1";
    let another_expression =
        r#"private or exchange_id = 1 or deal_ids one of ["deal-1", "deal-2"]"#;
    let mut atree = ATree::new(&definitions).unwrap();
    atree.insert(1u64, an_expression).unwrap();
    atree.insert(2u64, another_expression).unwrap();
    let mut builder = atree.make_event();
    builder.with_integer("exchange_id", 1).unwrap();
    let event = builder.build().unwrap();

    let results = atree.search(&event).unwrap().matches().to_vec();
    assert_eq!(vec![1u64, 2u64], results);

    atree.delete(1u64);
    let mut builder = atree.make_event();
    builder.with_integer("exchange_id", 1).unwrap();
    let event = builder.build().unwrap();
    let results = atree.search(&event).unwrap().matches().to_vec();
    assert_eq!(vec![2u64], results);
}

#[test]
fn deleting_an_expression_only_removes_the_id_not_the_expression_if_it_has_multiple_subscription_ids(
) {
    let definitions = [
        AttributeDefinition::boolean("private"),
        AttributeDefinition::integer("exchange_id"),
    ];
    let an_expression = "private or exchange_id = 1";
    let mut atree = ATree::new(&definitions).unwrap();
    atree.insert(1u64, an_expression).unwrap();
    atree.insert(2u64, an_expression).unwrap();
    let mut builder = atree.make_event();
    builder.with_integer("exchange_id", 1).unwrap();
    let event = builder.build().unwrap();

    let results = atree.search(&event).unwrap().matches().to_vec();
    assert_eq!(vec![1u64, 2u64], results);

    atree.delete(1u64);
    let mut builder = atree.make_event();
    builder.with_integer("exchange_id", 1).unwrap();
    let event = builder.build().unwrap();
    let results = atree.search(&event).unwrap().matches().to_vec();
    assert_eq!(vec![2u64], results);
}

#[test]
fn can_delete_root_node_when_all_references_are_deleted() {
    let definitions = [
        AttributeDefinition::boolean("private"),
        AttributeDefinition::integer("exchange_id"),
    ];
    let an_expression = "private or exchange_id = 1";
    let mut atree = ATree::new(&definitions).unwrap();
    atree.insert(1u64, an_expression).unwrap();
    atree.insert(2u64, an_expression).unwrap();
    let mut builder = atree.make_event();
    builder.with_integer("exchange_id", 1).unwrap();
    let event = builder.build().unwrap();

    let results = atree.search(&event).unwrap().matches().to_vec();
    assert_eq!(vec![1u64, 2u64], results);

    atree.delete(1u64);
    atree.delete(2u64);
    let mut builder = atree.make_event();
    builder.with_integer("exchange_id", 1).unwrap();
    let event = builder.build().unwrap();
    let results = atree.search(&event).unwrap().matches().to_vec();
    assert!(results.is_empty());
}
