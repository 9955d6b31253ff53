use declarative_dataflow::names::{contains, position};
use declarative_dataflow::table::Table;

#[test]
fn a_table_maps_names_to_values() {
    let mut table: Table<u32> = Table::new();
    assert_eq!(table.len(), 0);
    assert!(!table.contains_key("a"));
    assert_eq!(table.get("a"), None);

    assert_eq!(table.insert("a".to_string(), 1), None);
    assert_eq!(table.insert("b".to_string(), 2), None);
    assert_eq!(table.insert("a".to_string(), 3), Some(1));
    assert_eq!(table.len(), 2);
    assert_eq!(table.get("a"), Some(&3));
    assert_eq!(table.get("b"), Some(&2));
    assert_eq!(table.get(""), None);
    assert_eq!(table.key_at(0), "a");
    assert_eq!(table.key_at(1), "b");
    assert_eq!(*table.value_at(1), 2);

    table.set_value_at(1, 20);
    assert_eq!(table.get("b"), Some(&20));
    assert_eq!(table.key_at(1), "b");

    assert_eq!(table.remove("a"), Some(3));
    assert_eq!(table.remove("a"), None);
    assert_eq!(table.len(), 1);
    assert_eq!(table.key_at(0), "b");
    assert!(table.contains_key("b"));
    assert!(!table.contains_key("a"));
}

#[test]
fn names_are_found_at_their_first_position() {
    let names = vec!["b".to_string(), "a".to_string(), "b".to_string()];
    assert_eq!(position(&names, "b"), Some(0));
    assert_eq!(position(&names, "a"), Some(1));
    assert_eq!(position(&names, "c"), None);
    assert!(contains(&names, "a"));
    assert!(!contains(&names, "ab"));
    assert!(!contains(&vec![], ""));
}
