use managed_top_n::filter_agg::FilterAggRule;
use managed_top_n::row::{Datum, Row};
use managed_top_n::state_table::{Keyspace, StateTable};

fn int_row(v: i64) -> Row {
    Row(vec![Datum::Int(v)])
}

#[test]
fn writes_overlay_the_store_until_commit() {
    let mut table = StateTable::new(Keyspace::new());
    assert!(!table.is_dirty());

    table.insert(vec![2u8], int_row(20)).unwrap();
    table.insert(vec![1u8], int_row(10)).unwrap();
    assert!(table.is_dirty());

    let merged = table.iter(0).unwrap();
    assert_eq!(merged.len(), 2);
    assert_eq!(merged[0].0, vec![1u8]);
    assert_eq!(merged[0].1, int_row(10));
    assert_eq!(merged[1].0, vec![2u8]);
    assert_eq!(merged[1].1, int_row(20));

    // dropping the table before a commit loses the pending writes
    let keyspace = table.into_keyspace();
    let table = StateTable::new(keyspace);
    assert_eq!(table.iter(0).unwrap().len(), 0);
}

#[test]
fn commit_makes_the_merged_image_durable() {
    let mut table = StateTable::new(Keyspace::new());
    table.insert(vec![3u8], int_row(30)).unwrap();
    table.insert(vec![4u8], int_row(40)).unwrap();
    table.commit(1).unwrap();
    assert!(!table.is_dirty());

    table.delete(vec![3u8], int_row(30)).unwrap();
    assert!(table.is_dirty());
    let merged = table.iter(1).unwrap();
    assert_eq!(merged.len(), 1);
    assert_eq!(merged[0].0, vec![4u8]);

    // the tombstone is not durable yet
    let keyspace = table.into_keyspace();
    let table = StateTable::new(keyspace);
    assert_eq!(table.iter(1).unwrap().len(), 2);
}

#[test]
fn an_upsert_replaces_the_value_under_its_key() {
    let mut table = StateTable::new(Keyspace::new());
    table.insert(vec![7u8], int_row(1)).unwrap();
    table.insert(vec![7u8], int_row(2)).unwrap();
    let merged = table.iter(0).unwrap();
    assert_eq!(merged.len(), 1);
    assert_eq!(merged[0].1, int_row(2));
}

#[test]
fn filter_agg_rule_can_be_created() {
    let _rule: Box<FilterAggRule> = FilterAggRule::create();
}
