use kvs::error::Error;
use kvs::log_entry::{append_entry, read_entry, replay, LogEntry};
use kvs::lsm_tree::{LSMTree, COMPAT_LIMIT};
use kvs::storage::KvStorage;

fn empty_tree() -> LSMTree {
    LSMTree::new(Vec::new(), Vec::new(), Vec::new())
}

fn tree_of(pairs: &[(&str, &str)]) -> LSMTree {
    let mut tree = empty_tree();
    for (k, v) in pairs {
        tree.insert(k.to_string(), v.to_string()).unwrap();
    }
    tree.compact().unwrap();
    tree
}

#[test]
fn test_lsm_tree() {
    let mut lsm_tree = empty_tree();
    for i in 0..1024 {
        lsm_tree
            .insert(format!("key:{}", i), format!("value:{}", i))
            .unwrap();
    }
    for i in (0..1024).step_by(7) {
        lsm_tree.remove(&format!("key:{}", i)).unwrap();
    }
    assert_eq!(lsm_tree.get("key:127").unwrap().unwrap(), "value:127");
    assert_eq!(lsm_tree.get("key:7").unwrap(), None);
    for i in (0..1024).step_by(3) {
        lsm_tree
            .remove(&format!("key:{}", i))
            .unwrap_or_else(|_| ());
    }
    assert_eq!(lsm_tree.get("key:131").unwrap().unwrap(), "value:131");
    assert_eq!(lsm_tree.get("key:3").unwrap(), None);
    assert_eq!(lsm_tree.get("key:999").unwrap(), None);
    // force compact
    lsm_tree.compact().unwrap();
    let old_large_size = lsm_tree.large_tree().len() as u64;
    for i in 0..1024 {
        lsm_tree
            .insert(format!("key:{}", 1), format!("value:{}", i))
            .unwrap();
    }
    lsm_tree.compact().unwrap();
    assert_eq!(lsm_tree.get("key:1").unwrap().unwrap(), "value:1023");
    let new_large_size = lsm_tree.large_tree().len() as u64;
    assert_eq!(new_large_size, old_large_size + 3);
}

#[test]
fn merge_applies_pending_log_on_top_of_index() {
    let mut tree = tree_of(&[("a", "1"), ("b", "2"), ("c", "3")]);
    assert!(tree.small_tree().is_empty());
    tree.insert("b".to_string(), "20".to_string()).unwrap();
    tree.remove("a").unwrap();
    assert!(!tree.small_tree().is_empty());
    tree.compact().unwrap();
    assert!(tree.small_tree().is_empty());
    assert_eq!(tree.get("a").unwrap(), None);
    assert_eq!(tree.get("b").unwrap(), Some("20".to_string()));
    assert_eq!(tree.get("c").unwrap(), Some("3".to_string()));
}

#[test]
fn remove_then_set_within_one_log_keeps_the_value() {
    let mut tree = tree_of(&[("k", "old")]);
    tree.remove("k").unwrap();
    tree.insert("k".to_string(), "v".to_string()).unwrap();
    assert_eq!(tree.get("k").unwrap(), Some("v".to_string()));
    tree.compact().unwrap();
    assert_eq!(tree.get("k").unwrap(), Some("v".to_string()));
    assert_eq!(replay(tree.large_tree()).len(), 0);
}

#[test]
fn set_then_remove_within_one_log_drops_the_key() {
    let mut tree = empty_tree();
    tree.insert("k".to_string(), "v".to_string()).unwrap();
    tree.remove("k").unwrap();
    assert_eq!(tree.get("k").unwrap(), None);
    tree.compact().unwrap();
    assert_eq!(tree.get("k").unwrap(), None);
    assert!(tree.large_tree().is_empty());
    assert!(tree.large_tree_meta().is_empty());
}

#[test]
fn get_is_the_same_before_and_after_compaction() {
    let mut plain = LSMTree::with_limit(Vec::new(), Vec::new(), Vec::new(), u64::MAX);
    let mut eager = LSMTree::with_limit(Vec::new(), Vec::new(), Vec::new(), 0);
    for round in 0..3 {
        for i in 0..40 {
            let key = format!("k{}", (i * 7 + round) % 23);
            if (i + round) % 4 == 0 {
                let a = plain.remove(&key).is_ok();
                let b = eager.remove(&key).is_ok();
                assert_eq!(a, b);
            } else {
                plain.insert(key.clone(), format!("v{}-{}", round, i)).unwrap();
                eager.insert(key.clone(), format!("v{}-{}", round, i)).unwrap();
            }
        }
    }
    assert!(eager.small_tree().is_empty());
    assert!(plain.large_tree().is_empty());
    for i in 0..30 {
        let key = format!("k{}", i);
        assert_eq!(plain.get(&key).unwrap(), eager.get(&key).unwrap());
    }
    plain.compact().unwrap();
    assert_eq!(plain.large_tree(), eager.large_tree());
    assert_eq!(plain.large_tree_meta(), eager.large_tree_meta());
}

#[test]
fn compaction_is_idempotent() {
    let mut tree = tree_of(&[("b", "2"), ("a", "1"), ("d", "4")]);
    tree.insert("c".to_string(), "3".to_string()).unwrap();
    tree.remove("a").unwrap();
    tree.compact().unwrap();
    let large = tree.large_tree().clone();
    let meta = tree.large_tree_meta().clone();
    tree.compact().unwrap();
    assert_eq!(tree.large_tree(), &large);
    assert_eq!(tree.large_tree_meta(), &meta);
    assert!(tree.small_tree().is_empty());
}

#[test]
fn crossing_the_threshold_compacts_before_the_call_returns() {
    let mut tree = empty_tree();
    let mut grew = 0;
    loop {
        let before = tree.small_tree().len();
        tree.insert(format!("key:{}", grew), "x".repeat(100)).unwrap();
        let after = tree.small_tree().len();
        if after < before {
            assert_eq!(after, 0);
            assert!(before as u64 <= COMPAT_LIMIT);
            break;
        }
        assert!(after as u64 <= COMPAT_LIMIT);
        grew += 1;
        assert!(grew < 100);
    }
    assert!(grew > 1);
    assert!(!tree.large_tree().is_empty());
    assert_eq!(tree.get("key:0").unwrap(), Some("x".repeat(100)));
}

#[test]
fn remove_crossing_the_threshold_compacts_too() {
    let mut tree = LSMTree::with_limit(Vec::new(), Vec::new(), Vec::new(), 64);
    tree.insert("a".to_string(), "1".to_string()).unwrap();
    tree.insert("b".to_string(), "2".to_string()).unwrap();
    assert!(!tree.small_tree().is_empty());
    tree.insert("c".to_string(), "3".to_string()).unwrap();
    tree.remove("a").unwrap();
    tree.remove("b").unwrap();
    assert!(tree.small_tree().len() <= 64);
    assert_eq!(tree.get("a").unwrap(), None);
    assert_eq!(tree.get("c").unwrap(), Some("3".to_string()));
}

#[test]
fn binary_search_finds_every_key_and_no_other() {
    for n in [0usize, 1, 2, 3, 10, 64, 65] {
        let mut tree = LSMTree::with_limit(Vec::new(), Vec::new(), Vec::new(), u64::MAX);
        for i in 0..n {
            tree.insert(format!("key{:03}", 2 * i + 1), format!("value{}", i)).unwrap();
        }
        tree.compact().unwrap();
        assert_eq!(tree.large_tree_meta().len(), 8 * n);
        for i in 0..n {
            assert_eq!(
                tree.find_in_large_tree(&format!("key{:03}", 2 * i + 1)).unwrap(),
                Some(format!("value{}", i))
            );
        }
        for i in 0..=n {
            assert_eq!(tree.find_in_large_tree(&format!("key{:03}", 2 * i)).unwrap(), None);
        }
        assert_eq!(tree.find_in_large_tree("").unwrap(), None);
        assert_eq!(tree.find_in_large_tree("zzz").unwrap(), None);
        assert_eq!(tree.find_in_large_tree("key").unwrap(), None);
    }
}

#[test]
fn keys_are_ordered_byte_by_byte() {
    let tree = tree_of(&[("b", "2"), ("a", "1"), ("ab", "3"), ("B", "4"), ("é", "5"), ("", "6")]);
    let mut at = 0usize;
    let mut keys = Vec::new();
    while at < tree.large_tree().len() {
        let (key, next) = tree.read_key_in_large_tree(at as u64).unwrap();
        keys.push(key);
        let value_len =
            u64::from_le_bytes(tree.large_tree()[next as usize..next as usize + 8].try_into().unwrap());
        at = next as usize + 8 + value_len as usize;
    }
    assert_eq!(keys, vec!["", "B", "a", "ab", "b", "é"]);
}

#[test]
fn index_layout_is_records_and_offsets() {
    let tree = tree_of(&[("b", "22"), ("a", "1")]);
    let mut large = Vec::new();
    large.extend_from_slice(&1u64.to_le_bytes());
    large.extend_from_slice(b"a");
    large.extend_from_slice(&1u64.to_le_bytes());
    large.extend_from_slice(b"1");
    large.extend_from_slice(&1u64.to_le_bytes());
    large.extend_from_slice(b"b");
    large.extend_from_slice(&2u64.to_le_bytes());
    large.extend_from_slice(b"22");
    assert_eq!(tree.large_tree(), &large);
    let mut meta = Vec::new();
    meta.extend_from_slice(&0u64.to_le_bytes());
    meta.extend_from_slice(&18u64.to_le_bytes());
    assert_eq!(tree.large_tree_meta(), &meta);
}

#[test]
fn index_agrees_with_bincode() {
    let tree = tree_of(&[("key", "value")]);
    let mut expected = bincode::serialize("key").unwrap();
    expected.extend(bincode::serialize("value").unwrap());
    assert_eq!(tree.large_tree(), &expected);
    assert_eq!(tree.large_tree_meta(), &bincode::serialize(&0u64).unwrap());
}

#[test]
fn log_entries_agree_with_bincode() {
    let mut log = Vec::new();
    append_entry(&mut log, &LogEntry::Put("k".to_string(), "vv".to_string())).unwrap();
    let expected = bincode::serialize(&(0u32, "k", "vv")).unwrap();
    assert_eq!(log, expected);
    assert_eq!(log.len(), 4 + 8 + 1 + 8 + 2);
    let mut log = Vec::new();
    append_entry(&mut log, &LogEntry::Remove("k".to_string())).unwrap();
    assert_eq!(log, bincode::serialize(&(1u32, "k")).unwrap());
}

#[test]
fn replay_reads_entries_in_order() {
    let mut log = Vec::new();
    append_entry(&mut log, &LogEntry::Put("a".to_string(), "1".to_string())).unwrap();
    append_entry(&mut log, &LogEntry::Remove("a".to_string())).unwrap();
    append_entry(&mut log, &LogEntry::Put("b".to_string(), "2".to_string())).unwrap();
    let entries = replay(&log);
    assert_eq!(entries.len(), 3);
    assert!(matches!(&entries[0], LogEntry::Put(k, v) if k == "a" && v == "1"));
    assert!(matches!(&entries[1], LogEntry::Remove(k) if k == "a"));
    assert!(matches!(&entries[2], LogEntry::Put(k, v) if k == "b" && v == "2"));
    let (first, used) = read_entry(&log).unwrap();
    assert!(matches!(first, LogEntry::Put(_, _)));
    assert_eq!(used, 22);
}

#[test]
fn replay_stops_at_a_torn_entry_without_error() {
    let mut log = Vec::new();
    append_entry(&mut log, &LogEntry::Put("a".to_string(), "1".to_string())).unwrap();
    let whole = log.len();
    append_entry(&mut log, &LogEntry::Put("b".to_string(), "2".to_string())).unwrap();
    log.truncate(whole + 9);
    assert_eq!(replay(&log).len(), 1);
    let tree = LSMTree::new(log, Vec::new(), Vec::new());
    assert_eq!(tree.get("a").unwrap(), Some("1".to_string()));
    assert_eq!(tree.get("b").unwrap(), None);
}

#[test]
fn entries_after_foreign_bytes_are_masked() {
    let mut log = Vec::new();
    append_entry(&mut log, &LogEntry::Put("a".to_string(), "1".to_string())).unwrap();
    log.extend_from_slice(&[9, 9, 9, 9, 9]);
    let mut tree = LSMTree::new(log, Vec::new(), Vec::new());
    tree.insert("b".to_string(), "2".to_string()).unwrap();
    assert_eq!(tree.get("a").unwrap(), Some("1".to_string()));
    assert_eq!(tree.get("b").unwrap(), None);
    tree.compact().unwrap();
    assert_eq!(tree.get("a").unwrap(), Some("1".to_string()));
    assert_eq!(tree.get("b").unwrap(), None);
}

#[test]
fn replay_rejects_unknown_tags_and_bad_utf8() {
    assert_eq!(replay(&[]).len(), 0);
    assert_eq!(replay(&bincode::serialize(&(2u32, "k")).unwrap()).len(), 0);
    let mut bad = bincode::serialize(&(1u32, "k")).unwrap();
    let last = bad.len() - 1;
    bad[last] = 0xff;
    assert_eq!(replay(&bad).len(), 0);
    assert!(read_entry(&bad).is_none());
}

#[test]
fn remove_of_an_absent_key_fails_and_writes_nothing() {
    let mut tree = tree_of(&[("a", "1")]);
    assert!(matches!(tree.remove("b"), Err(Error::KeyNotFound)));
    assert!(tree.small_tree().is_empty());
    tree.remove("a").unwrap();
    let logged = tree.small_tree().len();
    assert!(logged > 0);
    assert!(matches!(tree.remove("a"), Err(Error::KeyNotFound)));
    assert_eq!(tree.small_tree().len(), logged);
}

#[test]
fn unreadable_index_surfaces_as_an_error() {
    let good = tree_of(&[("a", "1"), ("b", "2")]);
    let mut large = good.large_tree().clone();
    large.truncate(good.large_tree().len() - 1);
    let mut tree = LSMTree::new(Vec::new(), large.clone(), good.large_tree_meta().clone());
    assert_eq!(tree.get("a").unwrap(), Some("1".to_string()));
    assert!(matches!(tree.get("b"), Err(Error::BincodeError(_))));
    assert!(matches!(tree.read_key_in_large_tree(1000), Err(Error::BincodeError(_))));
    tree.insert("c".to_string(), "3".to_string()).unwrap();
    let small = tree.small_tree().clone();
    assert!(matches!(tree.compact(), Err(Error::BincodeError(_))));
    assert_eq!(tree.small_tree(), &small);
    assert_eq!(tree.large_tree(), &large);
    assert_eq!(tree.get("c").unwrap(), Some("3".to_string()));
}

#[test]
fn remove_passes_on_a_failed_read_and_writes_nothing() {
    let mut tree = LSMTree::new(Vec::new(), Vec::new(), vec![0; 8]);
    assert!(matches!(tree.get("a"), Err(Error::BincodeError(_))));
    assert!(matches!(tree.remove("a"), Err(Error::BincodeError(_))));
    assert!(tree.small_tree().is_empty());
    assert!(tree.large_tree().is_empty());
    assert_eq!(tree.large_tree_meta(), &vec![0u8; 8]);

    let good = tree_of(&[("a", "1"), ("b", "2")]);
    let mut large = good.large_tree().clone();
    large.truncate(good.large_tree().len() - 1);
    let mut tree = LSMTree::new(Vec::new(), large, good.large_tree_meta().clone());
    assert!(matches!(tree.remove("b"), Err(Error::BincodeError(_))));
    assert!(tree.small_tree().is_empty());
    tree.remove("a").unwrap();
    assert_eq!(replay(tree.small_tree()).len(), 1);
    tree.insert("b".to_string(), "3".to_string()).unwrap();
    tree.remove("b").unwrap();
    assert!(matches!(tree.remove("b"), Err(Error::KeyNotFound)));
}

#[test]
fn lost_index_segment_after_a_crash_between_delete_and_rename() {
    let good = tree_of(&[("a", "1"), ("b", "2")]);
    let mut tree = LSMTree::new(Vec::new(), Vec::new(), good.large_tree_meta().clone());
    assert!(matches!(tree.get("a"), Err(Error::BincodeError(_))));
    tree.insert("a".to_string(), "new".to_string()).unwrap();
    assert_eq!(tree.get("a").unwrap(), Some("new".to_string()));
    assert!(tree.compact().is_err());
}

#[test]
fn incomplete_last_offset_is_not_counted() {
    let good = tree_of(&[("a", "1"), ("b", "2")]);
    let mut meta = good.large_tree_meta().clone();
    meta.extend_from_slice(&[1, 2, 3]);
    let mut tree = LSMTree::new(Vec::new(), good.large_tree().clone(), meta);
    assert_eq!(tree.get("b").unwrap(), Some("2".to_string()));
    tree.compact().unwrap();
    assert_eq!(tree.large_tree_meta(), good.large_tree_meta());
}

#[test]
fn small_tree_lookup_reports_value_and_tombstone() {
    let mut tree = LSMTree::with_limit(Vec::new(), Vec::new(), Vec::new(), u64::MAX);
    assert_eq!(tree.find_in_small_tree("a"), (None, false));
    tree.insert("a".to_string(), "1".to_string()).unwrap();
    assert_eq!(tree.find_in_small_tree("a"), (Some("1".to_string()), false));
    tree.insert("a".to_string(), "2".to_string()).unwrap();
    assert_eq!(tree.find_in_small_tree("a"), (Some("2".to_string()), false));
    tree.remove("a").unwrap();
    assert_eq!(tree.find_in_small_tree("a"), (None, true));
    assert_eq!(tree.find_in_small_tree("b"), (None, false));
}

#[test]
fn compact_if_necessary_leaves_a_small_log_alone() {
    let mut tree = LSMTree::with_limit(Vec::new(), Vec::new(), Vec::new(), 1000);
    tree.insert("a".to_string(), "1".to_string()).unwrap();
    let small = tree.small_tree().clone();
    tree.compact_if_necessary().unwrap();
    assert_eq!(tree.small_tree(), &small);
    assert!(tree.large_tree().is_empty());
}
