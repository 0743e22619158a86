use a_tree::ast::{Node, OptimizedNode};
use a_tree::atree::NodeSummary;
use a_tree::events::{AttributeTable, Event, EventBuilder};
use a_tree::parser::parse;
use a_tree::strings::StringTable;
use a_tree::{ATree, AttributeDefinition};

const EXPRESSIONS: [&str; 8] = [
    "private",
    "not private",
    "private or exchange_id = 1",
    "private and exchange_id = 1",
    r#"exchange_id = 1 and not private and deal_ids one of ["d1", "d2"]"#,
    r#"not (exchange_id > 1 or segment_ids all of [1, 2, 3]) or country in ["CA", "US"]"#,
    r#"(country = "CA" and city in ["QC"]) or (country = "US" and not city in ["AZ"])"#,
    "segment_ids none of [4, 5] and (exchange_id <= 3 or private)",
];

fn definitions() -> Vec<AttributeDefinition> {
    vec![
        AttributeDefinition::boolean("private"),
        AttributeDefinition::integer("exchange_id"),
        AttributeDefinition::string_list("deal_ids"),
        AttributeDefinition::integer_list("segment_ids"),
        AttributeDefinition::string("country"),
        AttributeDefinition::string("city"),
    ]
}

fn full_engine() -> ATree {
    let mut atree = ATree::new(&definitions()).unwrap();
    for (subscriber, expression) in EXPRESSIONS.iter().enumerate() {
        atree.insert(subscriber as u64, expression).unwrap();
    }
    atree
}

fn fill(builder: &mut EventBuilder, choice: usize) {
    if choice % 3 != 0 {
        builder.with_boolean("private", choice % 3 == 1).unwrap();
    }
    if choice % 5 != 0 {
        builder.with_integer("exchange_id", (choice % 5) as i64).unwrap();
    }
    if choice % 2 == 0 {
        builder.with_string_list("deal_ids", &["d2", "d9"]).unwrap();
    }
    if choice % 7 < 4 {
        let lists: [&[i64]; 4] = [&[], &[1, 2, 3], &[3, 2, 1, 4], &[5]];
        builder.with_integer_list("segment_ids", lists[choice % 7]).unwrap();
    }
    if choice % 4 != 3 {
        builder.with_string("country", ["CA", "US", "FR"][choice % 4]).unwrap();
    }
    if choice % 11 < 3 {
        builder.with_string("city", ["QC", "AZ", "TN"][choice % 11]).unwrap();
    }
}

fn events(atree: &ATree) -> Vec<Event> {
    (0..60)
        .map(|choice| {
            let mut builder = atree.make_event();
            fill(&mut builder, choice);
            builder.build().unwrap()
        })
        .collect()
}

fn level_of(summary: &[NodeSummary], key: usize) -> usize {
    summary.iter().find(|node| node.key == key).unwrap().level
}

fn cost_of(summary: &[NodeSummary], key: usize) -> u64 {
    summary.iter().find(|node| node.key == key).unwrap().cost
}

#[test]
fn inserts_with_one_expression_share_one_node() {
    let mut atree = ATree::new(&definitions()).unwrap();
    atree.insert(1, "private and exchange_id = 1").unwrap();
    let nodes = atree.summary().len();

    atree.insert(2, "private and exchange_id = 1").unwrap();
    atree.insert(3, "exchange_id = 1 and private").unwrap();

    let summary = atree.summary();
    assert_eq!(nodes, summary.len());
    assert_eq!(1, atree.root_set().len());
    let root = summary.iter().find(|node| node.key == atree.root_set()[0]).unwrap();
    assert_eq!(vec![1u64, 2, 3], root.subscription_ids);
    assert_eq!(3, root.use_count);
}

#[test]
fn every_node_is_one_level_above_its_higher_child() {
    let atree = full_engine();
    let summary = atree.summary();

    for node in &summary {
        if node.children.is_empty() {
            assert_eq!(1, node.level);
        } else {
            assert_eq!(2, node.children.len());
            let below = level_of(&summary, node.children[0]).max(level_of(&summary, node.children[1]));
            assert_eq!(1 + below, node.level);
        }
    }
}

#[test]
fn every_node_has_its_cheaper_child_first() {
    let atree = full_engine();
    let summary = atree.summary();

    for node in &summary {
        if !node.children.is_empty() {
            assert!(cost_of(&summary, node.children[0]) <= cost_of(&summary, node.children[1]));
        }
    }
}

#[test]
fn the_cost_of_an_expression_is_that_of_its_parts() {
    let mut atree = ATree::new(&definitions()).unwrap();
    atree
        .insert(1, r#"(country in ["CA", "US", "FR"] and segment_ids one of [1, 2]) or private"#)
        .unwrap();

    let mut costs: Vec<u64> = atree.summary().iter().map(|node| node.cost).collect();
    costs.sort();

    assert_eq!(vec![0, 3, 4, 57, 117], costs);
}

#[test]
fn the_entry_set_holds_the_leaves_that_are_evaluated_first() {
    let atree = full_engine();
    let summary = atree.summary();

    for leaf in summary.iter().filter(|node| node.children.is_empty()) {
        let handed_on = summary.iter().any(|node| {
            node.children.len() == 2
                && (node.children[0] == leaf.key
                    || (node.children[1] == leaf.key
                        && format!("{:?}", node.operator) == "Some(Or)"))
        });
        assert_eq!(
            handed_on || !leaf.subscription_ids.is_empty(),
            leaf.evaluated_first
        );
        assert_eq!(leaf.evaluated_first, atree.predicate_entry_set().contains(&leaf.key));
    }
}

#[test]
fn nothing_is_left_when_every_subscriber_is_deleted() {
    let mut atree = full_engine();
    atree.insert(30, "private").unwrap();
    atree.insert(100, EXPRESSIONS[4]).unwrap();
    atree.insert(100, EXPRESSIONS[4]).unwrap();

    for subscriber in [100u64, 30, 0, 1, 2, 3, 100, 4, 5, 6, 7] {
        atree.delete(subscriber);
    }

    assert!(atree.summary().is_empty());
    assert!(atree.root_set().is_empty());
    assert!(atree.predicate_entry_set().is_empty());
}

#[test]
fn optimizing_keeps_the_result_of_every_expression() {
    let attributes = AttributeTable::new(&definitions()).unwrap();
    let atree = full_engine();
    for expression in EXPRESSIONS {
        for event in events(&atree) {
            let mut strings = StringTable::new();
            for text in ["d1", "d2", "CA", "US", "QC", "AZ"] {
                strings.get_or_update(text);
            }
            let written: Node = parse(expression, &attributes, &mut strings).unwrap();
            let result = written.evaluate(&event);
            let optimized: OptimizedNode = written.optimize();
            assert_eq!(result, optimized.evaluate(&event));
        }
    }
}

#[test]
fn the_matches_are_the_subscribers_whose_expressions_are_true() {
    let attributes = AttributeTable::new(&definitions()).unwrap();
    let atree = full_engine();
    for event in events(&atree) {
        let mut expected: Vec<u64> = Vec::new();
        let mut strings = StringTable::new();
        for (subscriber, expression) in EXPRESSIONS.iter().enumerate() {
            let written = parse(expression, &attributes, &mut strings).unwrap();
            if written.optimize().evaluate(&event) == Some(true) {
                expected.push(subscriber as u64);
            }
        }
        let mut found = atree.search(&event).unwrap().matches().to_vec();
        found.sort();
        assert_eq!(expected, found);
    }
}

#[test]
fn a_search_gives_the_same_matches_every_time() {
    let atree = full_engine();
    for event in events(&atree) {
        let mut first = atree.search(&event).unwrap().matches().to_vec();
        let mut second = atree.search(&event).unwrap().matches().to_vec();
        first.sort();
        second.sort();
        assert_eq!(first, second);
    }
}

#[test]
fn a_second_delete_changes_nothing() {
    let mut atree = full_engine();

    atree.delete(4);
    let once = format!("{:?}", atree.summary());
    atree.delete(4);

    assert_eq!(once, format!("{:?}", atree.summary()));
}

#[test]
fn an_insert_twice_and_a_delete_once_is_an_insert_once() {
    let mut atree = full_engine();
    atree.insert(50, EXPRESSIONS[5]).unwrap();
    let once = format!("{:?}", atree.summary());
    let roots = atree.root_set();
    let entries = atree.predicate_entry_set();

    atree.insert(50, EXPRESSIONS[5]).unwrap();
    atree.delete(50);

    assert_eq!(once, format!("{:?}", atree.summary()));
    assert_eq!(roots, atree.root_set());
    assert_eq!(entries, atree.predicate_entry_set());
}

#[test]
fn a_subscriber_with_two_expressions_is_deleted_one_expression_at_a_time() {
    let mut atree = ATree::new(&definitions()).unwrap();
    atree.insert(3, "private and exchange_id = 1").unwrap();
    atree.insert(3, "private").unwrap();

    atree.delete(3);
    assert_eq!(3, atree.summary().len());
    atree.delete(3);

    assert!(atree.summary().is_empty());
    assert!(atree.root_set().is_empty());
    assert!(atree.predicate_entry_set().is_empty());
}
