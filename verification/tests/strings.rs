use a_tree::strings::StringTable;

const A_KEY: &str = "test";
const ANOTHER_KEY: &str = "test_2";

#[test]
fn can_get_a_non_existing_string() {
    let table = StringTable::new();

    let id = table.get(A_KEY);

    assert_eq!(id, table.get(ANOTHER_KEY));
}

#[test]
fn update_the_table_with_the_new_string_when_it_is_not_present() {
    let mut table = StringTable::new();

    let id = table.get_or_update(A_KEY);

    assert_eq!(id, table.get(A_KEY));
}

#[test]
fn return_the_same_id_when_the_same_string_is_given() {
    let mut table = StringTable::new();

    let id = table.get_or_update(A_KEY);

    assert_eq!(id, table.get_or_update(A_KEY));
}

#[test]
fn can_add_multiple_strings() {
    let mut table = StringTable::new();

    let id = table.get_or_update(A_KEY);
    let another_id = table.get_or_update(ANOTHER_KEY);

    assert_eq!(id, table.get_or_update(A_KEY));
    assert_eq!(another_id, table.get_or_update(ANOTHER_KEY));
}

#[test]
fn interned_ids_are_dense_and_start_at_one() {
    let mut table = StringTable::new();

    assert_eq!(0, table.get(A_KEY).0);
    assert_eq!(1, table.get_or_update(A_KEY).0);
    assert_eq!(2, table.get_or_update(ANOTHER_KEY).0);
    assert_eq!(1, table.get_or_update(A_KEY).0);
    assert_eq!(0, table.get("never interned").0);
}
