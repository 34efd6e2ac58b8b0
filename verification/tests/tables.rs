use listening_stats::counts::new_tally;
use listening_stats::{KeyedTable, Tally};

#[test]
fn a_table_keeps_keys_in_the_order_of_insertion() {
    let mut table: KeyedTable<u32> = KeyedTable::new();
    assert_eq!(table.len(), 0);
    assert_eq!(table.position("b"), None);
    table.insert("b".to_string(), 2);
    table.insert("a".to_string(), 1);
    assert_eq!(table.len(), 2);
    assert_eq!(table.key(0), "b");
    assert_eq!(table.key(1), "a");
    assert_eq!(table.position("a"), Some(1));
    assert_eq!(table.position("c"), None);
    assert_eq!(table.get("b"), Some(&2));
    assert_eq!(table.get("B"), None);
    table.set(0, 20);
    assert_eq!(*table.value(0), 20);
    assert_eq!(*table.value(1), 1);
    assert_eq!(table.key(0), "b");
}

#[test]
fn a_tally_adds_under_each_key() {
    let mut tally: Tally = new_tally();
    assert_eq!(tally.add("x", 5), 0);
    assert_eq!(tally.add("y", 7), 1);
    assert_eq!(tally.add("x", 6), 0);
    assert_eq!(tally.add("z", 0), 2);
    assert_eq!(tally.len(), 3);
    assert_eq!(tally.get("x"), Some(&11));
    assert_eq!(tally.get("y"), Some(&7));
    assert_eq!(tally.get("z"), Some(&0));
    assert_eq!(tally.add("y", u64::MAX), 1);
    assert_eq!(tally.get("y"), Some(&u64::MAX));
}
