use a_tree::{ATree, AttributeDefinition, Event};

fn engine() -> ATree {
    ATree::new(&[
        AttributeDefinition::boolean("private"),
        AttributeDefinition::integer("exchange_id"),
        AttributeDefinition::string_list("deal_ids"),
        AttributeDefinition::integer_list("segment_ids"),
        AttributeDefinition::string("country"),
        AttributeDefinition::string("city"),
    ])
    .unwrap()
}

fn matches(atree: &ATree, event: &Event) -> Vec<u64> {
    let mut found = atree.search(event).unwrap().matches().to_vec();
    found.sort();
    found
}

fn event_with_exchange(atree: &ATree, exchange_id: i64) -> Event {
    let mut builder = atree.make_event();
    builder.with_integer("exchange_id", exchange_id).unwrap();
    builder.build().unwrap()
}

fn event_with_private(atree: &ATree, private: bool) -> Event {
    let mut builder = atree.make_event();
    builder.with_boolean("private", private).unwrap();
    builder.build().unwrap()
}

#[test]
fn a_single_predicate_matches_the_events_that_satisfy_it() {
    let mut atree = engine();
    atree.insert(1, "private").unwrap();

    assert_eq!(vec![1u64], matches(&atree, &event_with_private(&atree, true)));
    assert_eq!(Vec::<u64>::new(), matches(&atree, &event_with_private(&atree, false)));
}

#[test]
fn expressions_with_a_shared_part_both_match() {
    let mut atree = engine();
    atree.insert(1, "private or exchange_id = 1").unwrap();
    atree
        .insert(2, r#"private or exchange_id = 1 or deal_ids one of ["d1","d2"]"#)
        .unwrap();

    assert_eq!(vec![1u64, 2], matches(&atree, &event_with_exchange(&atree, 1)));
}

#[test]
fn a_delete_leaves_the_part_that_is_still_shared() {
    let mut atree = engine();
    atree.insert(1, "private or exchange_id = 1").unwrap();
    atree
        .insert(2, r#"private or exchange_id = 1 or deal_ids one of ["d1","d2"]"#)
        .unwrap();
    let nodes_before = atree.summary().len();

    atree.delete(1);

    assert_eq!(vec![2u64], matches(&atree, &event_with_exchange(&atree, 1)));
    assert_eq!(nodes_before, atree.summary().len());
    let shared = atree
        .summary()
        .into_iter()
        .filter(|node| node.children.len() == 2 && node.level == 2)
        .count();
    assert_eq!(1, shared);
}

#[test]
fn a_mixed_expression_does_not_match_when_no_disjunct_holds() {
    let mut atree = engine();
    atree
        .insert(
            1,
            r#"exchange_id = 1 and not private and deal_ids one of ["d1","d2"] and segment_ids one of [1,2,3] and country = 'CA' and city in ['QC'] or country = 'US' and city in ['AZ']"#,
        )
        .unwrap();
    let mut builder = atree.make_event();
    builder.with_integer("exchange_id", 1).unwrap();
    builder.with_boolean("private", true).unwrap();
    builder.with_string_list("deal_ids", &["d1", "d2"]).unwrap();
    builder.with_integer_list("segment_ids", &[2, 3]).unwrap();
    builder.with_string("country", "FR").unwrap();
    let event = builder.build().unwrap();

    assert_eq!(Vec::<u64>::new(), matches(&atree, &event));
}

#[test]
fn and_binds_tighter_than_or() {
    let mut atree = engine();
    atree
        .insert(1, "exchange_id = 1 and private or country = 'US' and city in ['AZ']")
        .unwrap();
    let mut builder = atree.make_event();
    builder.with_integer("exchange_id", 1).unwrap();
    builder.with_boolean("private", true).unwrap();
    builder.with_string("country", "CA").unwrap();
    builder.with_string("city", "QC").unwrap();
    let event = builder.build().unwrap();

    assert_eq!(vec![1u64], matches(&atree, &event));
}

#[test]
fn an_undefined_attribute_is_no_match_and_no_error() {
    let mut atree = engine();
    atree.insert(1, "exchange_id = 1").unwrap();
    let event = atree.make_event().build().unwrap();

    let report = atree.search(&event);

    assert!(report.is_ok());
    assert!(report.unwrap().matches().is_empty());
}

#[test]
fn a_negated_tautology_never_matches_and_leaves_no_negation() {
    let mut atree = engine();
    atree.insert(1, "not (private or not private)").unwrap();

    assert_eq!(Vec::<u64>::new(), matches(&atree, &event_with_private(&atree, true)));
    assert_eq!(Vec::<u64>::new(), matches(&atree, &event_with_private(&atree, false)));
    let summary = atree.summary();
    assert_eq!(3, summary.len());
    for node in summary {
        assert!(node.children.is_empty() == node.predicate.is_some());
        assert!(node.children.is_empty() || node.operator.is_some());
    }
}

#[test]
fn a_null_check_has_a_result_on_an_undefined_attribute() {
    let mut atree = engine();
    atree.insert(1, "country is null").unwrap();
    atree.insert(2, "country is not null").unwrap();
    atree.insert(3, "deal_ids is empty").unwrap();
    atree.insert(4, "deal_ids is not empty").unwrap();
    let event = atree.make_event().build().unwrap();

    assert_eq!(vec![1u64, 3], matches(&atree, &event));
}

#[test]
fn an_insert_that_is_refused_leaves_the_nodes_as_they_are() {
    let mut atree = engine();
    atree.insert(1, "private").unwrap();
    let before = format!("{:?}", atree.summary());

    assert!(atree.insert(2, "private and").is_err());
    assert!(atree.insert(3, "unknown = 1").is_err());
    assert!(atree.insert(4, "private = 1").is_err());

    assert_eq!(before, format!("{:?}", atree.summary()));
}

#[test]
fn a_delete_of_an_unknown_subscriber_changes_nothing() {
    let mut atree = engine();
    atree.insert(1, "private and exchange_id = 1").unwrap();
    let before = format!("{:?}", atree.summary());

    atree.delete(7);

    assert_eq!(before, format!("{:?}", atree.summary()));
}

#[test]
fn a_leaf_that_becomes_a_root_later_is_found() {
    let mut atree = engine();
    atree
        .insert(1, "private and segment_ids one of [1, 2, 3]")
        .unwrap();
    atree.insert(2, "segment_ids one of [1, 2, 3]").unwrap();
    let mut builder = atree.make_event();
    builder.with_boolean("private", false).unwrap();
    builder.with_integer_list("segment_ids", &[3]).unwrap();
    let event = builder.build().unwrap();

    assert_eq!(vec![2u64], matches(&atree, &event));
}

#[test]
fn a_search_after_the_parent_of_a_leaf_is_gone_still_works() {
    let mut atree = engine();
    atree.insert(1, "private or exchange_id = 1").unwrap();
    atree.insert(2, "private").unwrap();

    atree.delete(1);

    assert_eq!(vec![2u64], matches(&atree, &event_with_private(&atree, true)));
    assert_eq!(1, atree.summary().len());
}

#[test]
fn keys_beyond_the_number_of_nodes_are_searched() {
    let mut atree = engine();
    for subscriber in 0..70u64 {
        atree
            .insert(subscriber, &format!("exchange_id = {}", subscriber))
            .unwrap();
    }
    for subscriber in 0..69u64 {
        atree.delete(subscriber);
    }

    assert_eq!(vec![69u64], matches(&atree, &event_with_exchange(&atree, 69)));
    assert_eq!(1, atree.summary().len());
}

#[test]
fn an_expression_with_one_operand_twice_is_stored_and_deleted() {
    let mut atree = engine();
    atree.insert(1, "private and private").unwrap();
    atree.insert(2, "private or private").unwrap();
    atree
        .insert(3, "(private or private) and (private or private)")
        .unwrap();

    assert_eq!(vec![1u64, 2, 3], matches(&atree, &event_with_private(&atree, true)));
    assert_eq!(Vec::<u64>::new(), matches(&atree, &event_with_private(&atree, false)));
    assert_eq!(4, atree.summary().len());

    atree.delete(2);
    assert_eq!(vec![1u64, 3], matches(&atree, &event_with_private(&atree, true)));
    atree.delete(3);
    assert_eq!(2, atree.summary().len());
    atree.delete(1);
    assert!(atree.summary().is_empty());
}

#[test]
fn a_root_that_becomes_a_part_of_another_expression_still_matches() {
    let mut atree = engine();
    atree.insert(1, "private and exchange_id = 1").unwrap();
    atree
        .insert(2, "(private and exchange_id = 1) or country = 'CA'")
        .unwrap();
    atree
        .insert(3, "(private and exchange_id = 1) and country = 'CA'")
        .unwrap();
    let mut builder = atree.make_event();
    builder.with_boolean("private", true).unwrap();
    builder.with_integer("exchange_id", 1).unwrap();
    let event = builder.build().unwrap();

    assert_eq!(vec![1u64, 2], matches(&atree, &event));

    atree.delete(1);
    assert_eq!(vec![2u64], matches(&atree, &event));
    atree.delete(2);
    atree.delete(3);
    assert!(atree.summary().is_empty());
}
