use managed_top_n::row::{DataType, Datum, Direction, OrderedRow, Row};
use managed_top_n::state_table::Keyspace;
use managed_top_n::top_n_state::{ManagedTopNState, TopNType};

fn str_datum(s: &str) -> Datum {
    Datum::Str(s.as_bytes().to_vec())
}

fn row_si(s: &str, i: i64) -> Row {
    Row(vec![str_datum(s), Datum::Int(i)])
}

fn fresh_max_state(
    row_count: usize,
    keyspace: Keyspace,
    data_types: Vec<DataType>,
    order_types: Vec<Direction>,
) -> ManagedTopNState {
    ManagedTopNState::new(Some(2), row_count, keyspace, data_types, order_types, TopNType::Max)
}

#[test]
fn test_managed_top_n_state() {
    let data_types = vec![DataType::Varchar, DataType::Int64];
    let order_types = vec![Direction::Descending, Direction::Ascending];

    let mut managed_state = fresh_max_state(
        0,
        Keyspace::new(),
        data_types.clone(),
        order_types.clone(),
    );

    let row1 = row_si("abc", 2);
    let row2 = row_si("abc", 3);
    let row3 = row_si("abd", 3);
    let row4 = row_si("ab", 4);
    let rows = vec![row1, row2, row3, row4];
    let ordered_rows = rows
        .clone()
        .into_iter()
        .map(|row| OrderedRow::new(row, &order_types))
        .collect::<Vec<_>>();

    let epoch: u64 = 0;
    managed_state
        .insert(ordered_rows[3].clone(), rows[3].clone(), epoch)
        .unwrap();
    // now ("ab", 4)

    assert_eq!(
        managed_state.top_element(),
        Some((&ordered_rows[3], &rows[3]))
    );
    assert!(managed_state.is_dirty());
    assert_eq!(managed_state.get_cache_len(), 1);

    managed_state
        .insert(ordered_rows[2].clone(), rows[2].clone(), epoch)
        .unwrap();
    // now ("abd", 3) -> ("ab", 4)

    assert_eq!(
        managed_state.top_element(),
        Some((&ordered_rows[3], &rows[3]))
    );
    assert!(managed_state.is_dirty());
    assert_eq!(managed_state.get_cache_len(), 2);

    managed_state
        .insert(ordered_rows[1].clone(), rows[1].clone(), epoch)
        .unwrap();
    // now ("abd", 3) -> ("abc", 3) -> ("ab", 4)
    let epoch: u64 = 0;

    assert_eq!(
        managed_state.top_element(),
        Some((&ordered_rows[3], &rows[3]))
    );
    assert_eq!(managed_state.get_cache_len(), 3);
    managed_state.flush(epoch).unwrap();
    assert!(!managed_state.is_dirty());
    let row_count = managed_state.total_count();
    assert_eq!(row_count, 3);
    // After flush, only 2 elements should be kept in the cache.
    assert_eq!(managed_state.get_cache_len(), 2);

    let keyspace = managed_state.into_keyspace();
    let mut managed_state = fresh_max_state(
        row_count,
        keyspace,
        data_types.clone(),
        order_types.clone(),
    );
    assert_eq!(managed_state.top_element(), None);
    managed_state.fill_in_cache(epoch).unwrap();
    // now ("abd", 3) on storage -> ("abc", 3) in memory -> ("ab", 4) in memory
    assert_eq!(
        managed_state.top_element(),
        Some((&ordered_rows[3], &rows[3]))
    );

    // Right after recovery.
    assert!(!managed_state.is_dirty());
    assert_eq!(managed_state.get_cache_len(), 2);
    assert_eq!(managed_state.total_count(), 3);

    assert_eq!(
        managed_state.pop_top_element(epoch).unwrap(),
        Some((ordered_rows[3].clone(), rows[3].clone()))
    );
    // now ("abd", 3) on storage -> ("abc", 3) in memory
    assert!(managed_state.is_dirty());
    assert_eq!(managed_state.total_count(), 2);
    assert_eq!(managed_state.get_cache_len(), 1);
    assert_eq!(
        managed_state.pop_top_element(epoch).unwrap(),
        Some((ordered_rows[1].clone(), rows[1].clone()))
    );
    // now ("abd", 3) on storage
    // Popping to 0 element but automatically get at most `2` elements from the storage.
    // However, here we only have one element left as the `total_count` indicates.
    // The state is dirty as we didn't flush.
    assert!(managed_state.is_dirty());
    assert_eq!(managed_state.total_count(), 1);
    assert_eq!(managed_state.get_cache_len(), 1);
    // now ("abd", 3) in memory

    assert_eq!(
        managed_state.top_element(),
        Some((&ordered_rows[2], &rows[2]))
    );

    managed_state
        .insert(ordered_rows[0].clone(), rows[0].clone(), epoch)
        .unwrap();
    // now ("abd", 3) in memory -> ("abc", 2)
    assert_eq!(
        managed_state.top_element(),
        Some((&ordered_rows[0], &rows[0]))
    );

    // Exclude the last `insert` as the state crashes before recovery.
    let row_count = managed_state.total_count() - 1;
    let keyspace = managed_state.into_keyspace();
    let mut managed_state = fresh_max_state(row_count, keyspace, data_types, order_types);
    managed_state.fill_in_cache(epoch).unwrap();
    assert_eq!(
        managed_state.top_element(),
        Some((&ordered_rows[3], &rows[3]))
    );
}

#[test]
fn min_end_pops_in_ascending_order() {
    let data_types = vec![DataType::Int64];
    let order_types = vec![Direction::Ascending];
    let mut state = ManagedTopNState::new(
        Some(2),
        0,
        Keyspace::new(),
        data_types,
        order_types.clone(),
        TopNType::Min,
    );
    for v in [3i64, 1, 2] {
        let row = Row(vec![Datum::Int(v)]);
        let key = OrderedRow::new(row.clone(), &order_types);
        state.insert(key, row, 0).unwrap();
    }
    assert_eq!(state.total_count(), 3);
    state.flush(0).unwrap();
    assert_eq!(state.get_cache_len(), 2);
    let mut popped = Vec::new();
    while let Some((k, _)) = state.pop_top_element(0).unwrap() {
        popped.push(k.row);
    }
    assert_eq!(
        popped,
        vec![
            Row(vec![Datum::Int(1)]),
            Row(vec![Datum::Int(2)]),
            Row(vec![Datum::Int(3)])
        ]
    );
    assert_eq!(state.total_count(), 0);
    assert_eq!(state.top_element(), None);
}

#[test]
fn crash_recovery_preserves_top_element() {
    // after a flush, a state rebuilt over the same partition with the same
    // count and then filled shows the same top element
    let data_types = vec![DataType::Varchar, DataType::Int64];
    let order_types = vec![Direction::Descending, Direction::Ascending];
    let mut state = fresh_max_state(0, Keyspace::new(), data_types.clone(), order_types.clone());
    for (s, i) in [("x", 1i64), ("y", 2), ("z", 3)] {
        let row = row_si(s, i);
        let key = OrderedRow::new(row.clone(), &order_types);
        state.insert(key, row, 7).unwrap();
    }
    state.flush(7).unwrap();
    let top_before = state.top_element().map(|(k, v)| (k.clone(), v.clone()));
    let count = state.total_count();
    let keyspace = state.into_keyspace();
    let mut rebuilt = fresh_max_state(count, keyspace, data_types, order_types);
    rebuilt.fill_in_cache(7).unwrap();
    let top_after = rebuilt.top_element().map(|(k, v)| (k.clone(), v.clone()));
    assert_eq!(top_before, top_after);
}

#[test]
fn rescan_is_idempotent_on_clean_state() {
    let data_types = vec![DataType::Int64];
    let order_types = vec![Direction::Ascending];
    let mut state = ManagedTopNState::new(
        Some(2),
        0,
        Keyspace::new(),
        data_types,
        order_types.clone(),
        TopNType::Min,
    );
    for v in [5i64, 4, 3, 2, 1] {
        let row = Row(vec![Datum::Int(v)]);
        let key = OrderedRow::new(row.clone(), &order_types);
        state.insert(key, row, 0).unwrap();
    }
    state.flush(0).unwrap();
    state.scan_and_merge(0).unwrap();
    let len_once = state.get_cache_len();
    let top_once = state.top_element().map(|(k, v)| (k.clone(), v.clone()));
    state.scan_and_merge(0).unwrap();
    assert_eq!(state.get_cache_len(), len_once);
    assert_eq!(
        state.top_element().map(|(k, v)| (k.clone(), v.clone())),
        top_once
    );
}

#[test]
fn unbounded_cache_keeps_everything() {
    let order_types = vec![Direction::Ascending];
    let mut state = ManagedTopNState::new(
        None,
        0,
        Keyspace::new(),
        vec![DataType::Int64],
        order_types.clone(),
        TopNType::Min,
    );
    for v in 0i64..5 {
        let row = Row(vec![Datum::Int(v)]);
        let key = OrderedRow::new(row.clone(), &order_types);
        state.insert(key, row, 0).unwrap();
    }
    state.flush(0).unwrap();
    assert_eq!(state.get_cache_len(), 5);
    assert_eq!(state.total_count(), 5);
}

#[test]
fn zero_cap_caches_nothing_after_flush() {
    let order_types = vec![Direction::Ascending];
    let mut state = ManagedTopNState::new(
        Some(0),
        0,
        Keyspace::new(),
        vec![DataType::Int64],
        order_types.clone(),
        TopNType::Min,
    );
    let row = Row(vec![Datum::Int(9)]);
    let key = OrderedRow::new(row.clone(), &order_types);
    state.insert(key, row, 0).unwrap();
    assert_eq!(state.get_cache_len(), 1);
    state.flush(0).unwrap();
    assert_eq!(state.get_cache_len(), 0);
    assert_eq!(state.total_count(), 1);
    // the element exists but cannot be shown from an empty cache
    assert_eq!(state.top_element(), None);
}

#[test]
fn delete_of_absent_key_returns_nothing() {
    let order_types = vec![Direction::Ascending];
    let mut state = ManagedTopNState::new(
        Some(2),
        0,
        Keyspace::new(),
        vec![DataType::Int64],
        order_types.clone(),
        TopNType::Min,
    );
    let row = Row(vec![Datum::Int(1)]);
    let key = OrderedRow::new(row.clone(), &order_types);
    state.insert(key, row, 0).unwrap();
    let absent = Row(vec![Datum::Int(2)]);
    let absent_key = OrderedRow::new(absent.clone(), &order_types);
    let prev = state.delete(&absent_key, absent, 0).unwrap();
    assert_eq!(prev, None);
    assert_eq!(state.total_count(), 0);
}

#[test]
fn retention_evicts_the_bottom() {
    let order_types = vec![Direction::Ascending];
    let mut state = ManagedTopNState::new(
        Some(1),
        0,
        Keyspace::new(),
        vec![DataType::Int64],
        order_types.clone(),
        TopNType::Min,
    );
    for v in [2i64, 1] {
        let row = Row(vec![Datum::Int(v)]);
        let key = OrderedRow::new(row.clone(), &order_types);
        state.insert(key, row, 0).unwrap();
    }
    state.retain_top_n();
    assert_eq!(state.get_cache_len(), 1);
    // the best element stays
    let (k, _) = state.top_element().unwrap();
    assert_eq!(k.row, Row(vec![Datum::Int(1)]));
}
