use std::time::{Duration, Instant};
use lru_cache::cache::Cache;
use lru_cache::lru_cache_trait::LRUCache;
use lru_cache::mock_api::MockApi;

#[derive(Debug)]
struct CacheOperation {
    key: String,
    source: String,
    duration_ns: u64,
    cache_state: String,
}

fn format_duration(duration_ns: u64) -> String {
    if duration_ns >= 1_000_000 {
        format!("{} ms", duration_ns / 1_000_000)
    } else {
        format!("{} µs", duration_ns / 1_000)
    }
}

fn print_scenario(operations: &[CacheOperation]) {
    println!("\n{:-<80}", "");
    println!("{:<15} {:<15} {:<15} {:<30}", "Clé", "Source", "Durée", "État Cache");
    println!("{:-<80}", "");

    for op in operations {
        println!("{:<15} {:<15} {:<15} {:<30}",
            op.key,
            op.source,
            format_duration(op.duration_ns),
            op.cache_state
        );
    }
    println!("{:-<80}", "");
}

fn lookup(
    cache: &mut Cache<String, String>,
    api: &MockApi,
    key: &str,
    operations: &mut Vec<CacheOperation>,
) {
    let start = Instant::now();
    let key_string = key.to_string();

    if let Some(_value) = cache.get(&key_string) {
        operations.push(CacheOperation {
            key: key_string,
            source: "CACHE".to_string(),
            duration_ns: start.elapsed().as_nanos() as u64,
            cache_state: format!("Cache: [{}]", cache.get_state()),
        });
    } else {
        let value = api.response(key);
        let duration = start.elapsed().as_nanos() as u64;
        cache.put(key_string.clone(), value);

        operations.push(CacheOperation {
            key: key_string,
            source: "API".to_string(),
            duration_ns: duration,
            cache_state: format!("Cache: [{}]", cache.get_state()),
        });
    }
}

#[test]
fn test_basic_cache_scenario() {
    let api = MockApi::new(Duration::from_millis(100));
    let mut cache = Cache::new(3);
    let mut operations = Vec::new();

    let keys = ["A", "B", "C", "D", "B", "A"];

    for key in keys {
        lookup(&mut cache, &api, key, &mut operations);
    }

    print_scenario(&operations);
    let sources: Vec<&str> = operations.iter().map(|op| op.source.as_str()).collect();
    assert_eq!(sources, vec!["API", "API", "API", "API", "CACHE", "API"]);
    assert_eq!(cache.get_state(), "D, B, A");
}

#[test]
fn test_persistent_cache() {
    let cache_file = "integration_cache.txt";
    let api = MockApi::new(Duration::from_millis(100));
    let mut operations = Vec::new();

    // First phase: fill the store and keep its mirror text.
    let saved = {
        let mut cache = Cache::new_persistent(3, cache_file, "");
        let keys = ["A", "B", "C", "D"];

        for key in keys {
            let start = Instant::now();
            let key_string = key.to_string();
            let value = api.response(key);
            let duration = start.elapsed().as_nanos() as u64;
            cache.put(key_string.clone(), value);

            operations.push(CacheOperation {
                key: key_string,
                source: "API".to_string(),
                duration_ns: duration,
                cache_state: format!("Cache: [{}]", cache.get_state()),
            });
        }
        cache.mirror_text()
    };
    assert_eq!(saved, "B=data_B\nC=data_C\nD=data_D\n");

    // Second phase: a store rebuilt from that text.
    {
        let mut cache = Cache::new_persistent(3, cache_file, &saved);
        assert_eq!(cache.file_path(), cache_file);
        let keys = ["D", "C", "B", "A"];

        for key in keys {
            lookup(&mut cache, &api, key, &mut operations);
        }
    }

    print_scenario(&operations);
    let sources: Vec<&str> = operations[4..].iter().map(|op| op.source.as_str()).collect();
    assert_eq!(sources, vec!["CACHE", "CACHE", "CACHE", "API"]);
}
