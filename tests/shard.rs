use ring_file::shard::{collect_step, merge_by_timestamp, render, write_step};
use ring_file::shard::{LocalShard, LockStep, LogEntry, ShardState};

fn entry(timestamp: u64, content: &str) -> LogEntry {
    LogEntry { timestamp, content: content.as_bytes().to_vec() }
}

fn contents(entries: &[LogEntry]) -> Vec<(u64, String)> {
    entries
        .iter()
        .map(|e| (e.timestamp, String::from_utf8(e.content.clone()).unwrap()))
        .collect()
}

#[test]
fn single_oversized_entry_is_kept() {
    let mut s = LocalShard::new(4);
    s.push(1, b"far longer than the budget".to_vec());
    assert_eq!(s.len(), 1);
    assert_eq!(s.current_size(), 26);
    let mut acc = Vec::new();
    s.collect(&mut acc);
    assert_eq!(contents(&acc), vec![(1, "far longer than the budget".to_string())]);
}

#[test]
fn oversized_entry_evicts_all_older() {
    let mut s = LocalShard::new(10);
    s.push(1, b"abc".to_vec());
    s.push(2, b"def".to_vec());
    s.push(3, b"0123456789ABCDEF".to_vec());
    assert_eq!(s.len(), 1);
    let mut acc = Vec::new();
    s.collect(&mut acc);
    assert_eq!(contents(&acc), vec![(3, "0123456789ABCDEF".to_string())]);
}

#[test]
fn eviction_drops_oldest_first() {
    let mut s = LocalShard::new(6);
    s.push(1, b"aa".to_vec());
    s.push(2, b"bb".to_vec());
    s.push(3, b"cc".to_vec());
    assert_eq!(s.len(), 3);
    s.push(4, b"d".to_vec());
    assert_eq!(s.len(), 3);
    assert_eq!(s.current_size(), 5);
    let mut acc = vec![entry(0, "x")];
    s.collect(&mut acc);
    assert_eq!(
        contents(&acc),
        vec![
            (0, "x".to_string()),
            (2, "bb".to_string()),
            (3, "cc".to_string()),
            (4, "d".to_string())
        ]
    );
    // collecting does not remove anything
    assert_eq!(s.len(), 3);
}

#[test]
fn merge_orders_by_timestamp_stably() {
    let mut shard_a = LocalShard::new(100);
    let mut shard_b = LocalShard::new(100);
    shard_a.push(5, b"a5 ".to_vec());
    shard_a.push(9, b"a9 ".to_vec());
    shard_a.push(9, b"a9b ".to_vec());
    shard_b.push(1, b"b1 ".to_vec());
    shard_b.push(9, b"b9 ".to_vec());
    shard_b.push(7, b"b7 ".to_vec());
    let mut acc = Vec::new();
    shard_a.collect(&mut acc);
    shard_b.collect(&mut acc);
    let merged = merge_by_timestamp(acc);
    assert_eq!(
        contents(&merged),
        vec![
            (1, "b1 ".to_string()),
            (5, "a5 ".to_string()),
            (7, "b7 ".to_string()),
            (9, "a9 ".to_string()),
            (9, "a9b ".to_string()),
            (9, "b9 ".to_string())
        ]
    );
    assert_eq!(render(&merged), b"b1 a5 b7 a9 a9b b9 ".to_vec());
}

#[test]
fn merge_of_many_shards_is_sorted_and_complete() {
    let mut seed: u64 = 0x2545_f491_4f6c_dd1d;
    let mut acc = Vec::new();
    let mut expected_count = 0;
    for shard_no in 0..6u64 {
        let mut s = LocalShard::new(40);
        for line_no in 0..20u64 {
            seed ^= seed << 13;
            seed ^= seed >> 7;
            seed ^= seed << 17;
            s.push(seed % 1000, format!("{}:{};", shard_no, line_no).into_bytes());
        }
        expected_count += s.len();
        s.collect(&mut acc);
    }
    let mut before: Vec<(u64, String)> = contents(&acc);
    let merged = merge_by_timestamp(acc);
    assert_eq!(merged.len(), expected_count);
    assert!(merged.windows(2).all(|w| w[0].timestamp <= w[1].timestamp));
    let mut after = contents(&merged);
    before.sort();
    after.sort();
    assert_eq!(before, after);
}

#[test]
fn merge_of_nothing_is_empty() {
    assert!(merge_by_timestamp(Vec::new()).is_empty());
    assert!(render(&Vec::new()).is_empty());
}

#[test]
fn writer_and_collector_steps() {
    assert_eq!(write_step(ShardState::Unlocked), LockStep::Take(ShardState::WriteLocked));
    assert_eq!(write_step(ShardState::CollectLocked), LockStep::BackOff);
    assert_eq!(write_step(ShardState::WriteLocked), LockStep::BackOff);
    assert_eq!(collect_step(ShardState::Unlocked), LockStep::Take(ShardState::CollectLocked));
    assert_eq!(collect_step(ShardState::WriteLocked), LockStep::Spin);
    assert_eq!(collect_step(ShardState::CollectLocked), LockStep::Skip);
}
