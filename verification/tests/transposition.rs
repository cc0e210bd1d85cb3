//! The table of searched positions.

use chessbot::transposition::{
    largest_power_of_two, TTNodeType, Table, TableBucket, TableEntry, CLUSTER_SIZE,
    LEGACY_BUCKET_SIZE,
};

fn entry(key: u64, depth: i32, node_type: TTNodeType) -> TableEntry {
    TableEntry { key, score: depth, depth, node_type, best_move: None }
}

#[test]
fn table_size_fits_requested_memory() {
    let table = Table::new_for_mb(1);
    let bytes = table.buckets.len() * std::mem::size_of::<TableBucket>();

    assert!(table.buckets.len().is_power_of_two());
    assert!(bytes <= 1024 * 1024);
    assert!(std::mem::size_of::<TableBucket>() < LEGACY_BUCKET_SIZE);
}

#[test]
fn clear_invalidates_entries_without_reallocating() {
    let mut table = Table::new(1);
    let allocation = table.buckets.as_ptr();
    let entry = entry(42, 3, TTNodeType::EXACT);
    table.insert(entry.key, entry);

    table.clear();

    assert!(table.get(entry.key).is_none());
    assert_eq!(table.buckets.as_ptr(), allocation);
}

#[test]
fn colliding_keys_share_a_cluster() {
    let mut table = Table::new(1);
    for key in 0..CLUSTER_SIZE as u64 {
        table.insert(key, entry(key, key as i32 + 1, TTNodeType::LOWER));
    }

    for key in 0..CLUSTER_SIZE as u64 {
        assert!(table.get(key).is_some());
    }
}

#[test]
fn full_cluster_always_replaces_its_lowest_value_entry() {
    let mut table = Table::new(1);
    table.insert(1, entry(1, 10, TTNodeType::EXACT));
    table.insert(2, entry(2, 8, TTNodeType::LOWER));

    table.insert(100, entry(100, 1, TTNodeType::LOWER));

    assert!(table.get(100).is_some());
    assert!(table.get(1).is_some());
    assert!(table.get(2).is_none());
}

#[test]
fn same_key_keeps_a_much_deeper_current_entry() {
    let mut table = Table::new(1);
    table.insert(42, entry(42, 10, TTNodeType::EXACT));

    table.insert(42, entry(42, 1, TTNodeType::LOWER));

    assert_eq!(table.get(42).unwrap().depth, 10);
}

#[test]
fn exact_entry_replaces_a_deeper_bound() {
    let mut table = Table::new(4);
    table.insert(42, entry(42, 10, TTNodeType::UPPER));
    table.insert(42, entry(42, 1, TTNodeType::EXACT));

    assert_eq!(table.get(42), Some(entry(42, 1, TTNodeType::EXACT)));
}

#[test]
fn other_clusters_stay_as_they_were() {
    let mut table = Table::new(4);
    table.insert(5, entry(5, 10, TTNodeType::UPPER));
    table.insert(6, entry(6, 10, TTNodeType::UPPER));
    table.insert(10, entry(10, 10, TTNodeType::UPPER));
    table.insert(14, entry(14, 10, TTNodeType::UPPER));

    assert!(table.get(5).is_some());
    assert!(table.get(6).is_none());
    assert!(table.get(10).is_some());
    assert!(table.get(14).is_some());
}

#[test]
fn overflowing_epoch_starts_again() {
    let mut table = Table::new(2);
    table.epoch = u32::MAX;
    table.insert(3, entry(3, 1, TTNodeType::EXACT));
    assert!(table.get(3).is_some());
    table.clear();

    assert_eq!(table.epoch, 1);
    assert!(table.get(3).is_none());
}

#[test]
fn powers_of_two_are_rounded_down() {
    assert_eq!(largest_power_of_two(1), 1);
    assert_eq!(largest_power_of_two(63), 32);
    assert_eq!(largest_power_of_two(64), 64);
    assert_eq!(Table::new_for_mb(0).buckets.len(), 16_384);
    assert_eq!(Table::new_for_mb(3).buckets.len(), 32_768);
}

#[test]
fn found_entries_were_offered_for_their_key() {
    let mut table = Table::new(2);
    let mut offered: Vec<TableEntry> = Vec::new();
    let mut state = 7u64;
    for step in 0..400 {
        state = state.wrapping_mul(6_364_136_223_846_793_005).wrapping_add(1);
        let key = state >> 60;
        let new = entry(key, ((state >> 40) % 12) as i32, TTNodeType::LOWER);
        let before = table.get(key);
        table.insert(key, new);
        offered.push(new);
        if before.is_none() {
            assert_eq!(table.get(key), Some(new));
        }
        for other in 0..16u64 {
            if let Some(found) = table.get(other) {
                assert!(found.key == other && offered.contains(&found));
            }
        }
        if step % 50 == 49 {
            table.clear();
            offered.clear();
        }
    }
}

#[test]
fn a_new_key_costs_at_most_one_other() {
    let mut table = Table::new(1);
    table.insert(1, entry(1, 5, TTNodeType::LOWER));
    table.insert(2, entry(2, 3, TTNodeType::EXACT));
    table.insert(3, entry(3, 1, TTNodeType::UPPER));
    assert!(table.get(1).is_none());
    assert_eq!(table.get(2), Some(entry(2, 3, TTNodeType::EXACT)));
    assert_eq!(table.get(3), Some(entry(3, 1, TTNodeType::UPPER)));
}
