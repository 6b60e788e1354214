use phie::cache::Cache;

#[test]
fn test_cache_creation() {
        let cache = Cache::new();
        assert_eq!(cache.len(), 0);
        assert!(cache.is_empty());
    }

#[test]
fn test_cache_default() {
        let cache = Cache::default();
        assert!(cache.is_empty());
    }

#[test]
fn test_put_and_get() {
        let mut cache = Cache::new();
        cache.put(0, 42);
        assert_eq!(cache.get(0), Some(42));
    }

#[test]
fn test_get_nonexistent() {
        let cache = Cache::new();
        assert_eq!(cache.get(0), None);
        assert_eq!(cache.get(100), None);
    }

#[test]
fn test_put_extends_cache() {
        let mut cache = Cache::new();
        cache.put(200, 99);
        assert!(cache.len() >= 201);
        assert_eq!(cache.get(200), Some(99));
    }

#[test]
fn test_multiple_values() {
        let mut cache = Cache::new();
        cache.put(0, 10);
        cache.put(1, 20);
        cache.put(2, 30);
        assert_eq!(cache.get(0), Some(10));
        assert_eq!(cache.get(1), Some(20));
        assert_eq!(cache.get(2), Some(30));
    }

#[test]
fn test_overwrite_value() {
        let mut cache = Cache::new();
        cache.put(5, 100);
        cache.put(5, 200);
        assert_eq!(cache.get(5), Some(200));
    }

#[test]
fn test_sparse_cache() {
        let mut cache = Cache::new();
        cache.put(0, 10);
        cache.put(10, 20);
        cache.put(20, 30);
        assert_eq!(cache.get(0), Some(10));
        assert_eq!(cache.get(5), None);
        assert_eq!(cache.get(10), Some(20));
        assert_eq!(cache.get(15), None);
        assert_eq!(cache.get(20), Some(30));
    }

#[test]
fn test_clear() {
        let mut cache = Cache::new();
        cache.put(0, 42);
        cache.put(1, 43);
        cache.clear();
        assert_eq!(cache.get(0), None);
        assert_eq!(cache.get(1), None);
        assert!(cache.is_empty());
    }

#[test]
fn cache_test_negative_data() {
        let mut cache = Cache::new();
        cache.put(0, -42);
        assert_eq!(cache.get(0), Some(-42));
    }

#[test]
fn cache_test_zero_data() {
        let mut cache = Cache::new();
        cache.put(0, 0);
        assert_eq!(cache.get(0), Some(0));
    }

#[test]
fn test_max_i16() {
        let mut cache = Cache::new();
        cache.put(0, i16::MAX);
        assert_eq!(cache.get(0), Some(i16::MAX));
    }

#[test]
fn test_min_i16() {
        let mut cache = Cache::new();
        cache.put(0, i16::MIN);
        assert_eq!(cache.get(0), Some(i16::MIN));
    }

