use lru_cache::cache::{keep_parsed, Cache};
use lru_cache::lru_cache_trait::LRUCache;
use lru_cache::mock_api::MockApi;
use std::time::Duration;

fn filled(keys: &[&str]) -> Cache<String, String> {
    let mut cache = Cache::new(3);
    for k in keys {
        cache.put(k.to_string(), format!("data_{}", k));
    }
    cache
}

#[test]
fn order_never_exceeds_capacity() {
    let mut cache: Cache<u64, u64> = Cache::new(2);
    for k in 0..10u64 {
        cache.put(k, k * 10);
        assert!(cache.get_state().split(", ").count() <= 2);
    }
    assert_eq!(cache.get_state(), "8, 9");
}

#[test]
fn eviction_removes_only_least_recent() {
    let mut cache = filled(&["A", "B", "C"]);
    cache.put("D".to_string(), "data_D".to_string());
    assert_eq!(cache.get_state(), "B, C, D");
    assert_eq!(cache.get(&"A".to_string()), None);
}

#[test]
fn read_makes_key_most_recent() {
    let mut cache = filled(&["A", "B", "C"]);
    assert_eq!(cache.get(&"A".to_string()), Some("data_A".to_string()));
    assert_eq!(cache.get_state(), "B, C, A");
}

#[test]
fn scenario_recency() {
    let mut cache = filled(&["A", "B", "C"]);
    cache.get(&"A".to_string());
    cache.put("D".to_string(), "data_D".to_string());
    assert_eq!(cache.get_state(), "C, A, D");
    assert_eq!(cache.get(&"B".to_string()), None);
    assert_eq!(cache.get(&"A".to_string()), Some("data_A".to_string()));
    assert_eq!(cache.get(&"C".to_string()), Some("data_C".to_string()));
    assert_eq!(cache.get(&"D".to_string()), Some("data_D".to_string()));
}

#[test]
fn overwrite_updates_value_without_growth() {
    let mut cache = filled(&["A", "B", "C"]);
    cache.put("A".to_string(), "new_A".to_string());
    assert_eq!(cache.get_state(), "B, C, A");
    assert_eq!(cache.get(&"A".to_string()), Some("new_A".to_string()));
    assert_eq!(cache.get(&"B".to_string()), Some("data_B".to_string()));
    assert_eq!(cache.get(&"C".to_string()), Some("data_C".to_string()));
}

#[test]
fn miss_leaves_order_alone() {
    let mut cache = filled(&["A", "B"]);
    assert_eq!(cache.get(&"Z".to_string()), None);
    assert_eq!(cache.get_state(), "A, B");
}

#[test]
fn empty_store_state_is_empty() {
    let cache: Cache<String, String> = Cache::new(3);
    assert_eq!(cache.get_state(), "");
    assert_eq!(cache.mirror_text(), "");
    assert!(!cache.is_persistent());
    assert_eq!(cache.file_path(), "");
}

#[test]
fn capacity_one_keeps_last_key() {
    let mut cache: Cache<i64, String> = Cache::new(1);
    cache.put(-1, "x".to_string());
    cache.put(7, "y".to_string());
    assert_eq!(cache.get(&-1), None);
    assert_eq!(cache.get(&7), Some("y".to_string()));
    assert_eq!(cache.get_state(), "7");
}

#[test]
fn round_trip_through_mirror_text() {
    let mut first: Cache<String, i32> = Cache::new_persistent(3, "store.txt", "");
    first.put("A".to_string(), 1);
    first.put("B".to_string(), 2);
    first.put("C".to_string(), 3);
    first.get(&"A".to_string());
    let text = first.mirror_text();
    assert_eq!(text, "B=2\nC=3\nA=1\n");

    let mut second: Cache<String, i32> = Cache::new_persistent(3, "store.txt", &text);
    assert_eq!(second.get_state(), first.get_state());
    assert_eq!(second.mirror_text(), text);
    assert_eq!(second.get(&"A".to_string()), Some(1));
    assert_eq!(second.get(&"B".to_string()), Some(2));
    assert_eq!(second.get(&"C".to_string()), Some(3));
}

#[test]
fn loading_more_records_than_capacity_evicts() {
    let cache: Cache<String, String> =
        Cache::new_persistent(2, "store.txt", "A=1\nB=2\nC=3\nB=4\n");
    assert_eq!(cache.get_state(), "C, B");
    assert_eq!(cache.mirror_text(), "C=3\nB=4\n");
}

#[test]
fn loading_skips_unparsable_records() {
    let mut cache: Cache<u32, u64> =
        Cache::new_persistent(5, "numbers.txt", "1=10\nno separator\nx=20\n2=y\n3=30");
    assert_eq!(cache.get_state(), "1, 3");
    assert_eq!(cache.get(&3), Some(30));
    assert_eq!(cache.get(&2), None);
}

#[test]
fn put_and_mirror_reports_text_when_persistent() {
    let mut persistent: Cache<String, String> = Cache::new_persistent(2, "p.txt", "");
    assert!(persistent.is_persistent());
    assert_eq!(
        persistent.put_and_mirror("k".to_string(), "v".to_string()),
        Some("k=v\n".to_string())
    );
    assert_eq!(
        persistent.put_and_mirror("j".to_string(), "w".to_string()),
        Some("k=v\nj=w\n".to_string())
    );

    let mut memory: Cache<String, String> = Cache::new(2);
    assert_eq!(memory.put_and_mirror("k".to_string(), "v".to_string()), None);
    assert_eq!(memory.get(&"k".to_string()), Some("v".to_string()));
}

#[test]
fn load_replays_records_in_order() {
    let mut cache: Cache<char, usize> = Cache::new(2);
    cache.load(vec![('a', 1), ('b', 2), ('a', 3), ('c', 4)]);
    assert_eq!(cache.get_state(), "a, c");
    assert_eq!(cache.get(&'a'), Some(3));
    assert_eq!(cache.get(&'b'), None);
}

#[test]
fn mock_api_answers_with_prefixed_key() {
    let api = MockApi::new(Duration::from_millis(5));
    assert_eq!(api.delay(), Duration::from_millis(5));
    assert_eq!(api.response("A"), "data_A");
    assert_eq!(api.response(""), "data_");
}

#[test]
fn loading_four_records_into_three_keeps_last_three() {
    let mut cache: Cache<String, i32> =
        Cache::new_persistent(3, "p.txt", "A=1\nB=2\nC=3\nD=4\n");
    assert_eq!(cache.get_state(), "B, C, D");
    assert_eq!(cache.get(&"A".to_string()), None);
    assert_eq!(cache.get(&"D".to_string()), Some(4));
}

#[test]
fn loading_repeated_key_keeps_last_value() {
    let mut cache: Cache<String, i32> = Cache::new_persistent(3, "p.txt", "A=1\nB=2\nA=3\n");
    assert_eq!(cache.get_state(), "B, A");
    assert_eq!(cache.get(&"A".to_string()), Some(3));
    assert_eq!(cache.get(&"B".to_string()), Some(2));
}

#[test]
fn loading_splits_value_at_first_separator_only() {
    let mut cache: Cache<String, String> = Cache::new_persistent(3, "p.txt", "k=v1=v2\n");
    assert_eq!(cache.get(&"k".to_string()), Some("v1=v2".to_string()));
}

#[test]
fn loading_crlf_lines_parses_numbers() {
    let mut cache: Cache<u32, u32> = Cache::new_persistent(3, "p.txt", "1=10\r\n2=20\r\n");
    assert_eq!(cache.get_state(), "1, 2");
    assert_eq!(cache.get(&1), Some(10));
    assert_eq!(cache.get(&2), Some(20));
}

#[test]
fn load_text_applies_on_top_of_current_state() {
    let mut cache: Cache<String, i32> = Cache::new(3);
    cache.put("A".to_string(), 0);
    cache.put("B".to_string(), 0);
    cache.load_text("C=3\nbad line\nA=5\nD=x\nE=6\n");
    assert_eq!(cache.get_state(), "C, A, E");
    assert_eq!(cache.get(&"A".to_string()), Some(5));
    assert_eq!(cache.get(&"B".to_string()), None);
    assert_eq!(cache.file_path(), "");
}

#[test]
fn keep_parsed_keeps_complete_pairs_in_order() {
    let outcomes = vec![
        (Some(1u8), Some('a')),
        (None, Some('b')),
        (Some(2u8), None),
        (Some(3u8), Some('c')),
    ];
    assert_eq!(keep_parsed(outcomes), vec![(1u8, 'a'), (3u8, 'c')]);
}
