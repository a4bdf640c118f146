use restic_sizes::cache::{Cache, Observation};
use restic_sizes::types::Snapshot;

fn snap(id: &str) -> Snapshot {
    Snapshot { id: id.to_string(), time: format!("time of {id}") }
}

fn ingest(cache: &mut Cache, id: &str, files: &[(&str, u64)]) {
    let mut txn = cache.start_snapshot(id);
    for (path, size) in files {
        txn.insert_file(path, *size);
    }
    cache.finish_snapshot(txn);
}

fn sizes(cache: &Cache, path: &str) -> Vec<(String, u64)> {
    let mut r = cache.get_max_file_sizes(path);
    r.sort();
    r
}

fn ids(cache: &Cache) -> Vec<String> {
    cache.get_snapshots()
}

#[test]
fn aggregation_of_one_snapshot() {
    let mut cache = Cache::new();
    ingest(&mut cache, "S", &[("/a/b.txt", 100), ("/a/c.txt", 300), ("/d.txt", 50)]);
    assert_eq!(sizes(&cache, "/"), vec![("a".to_string(), 300), ("d.txt".to_string(), 50)]);
}

#[test]
fn aggregation_of_a_subdirectory() {
    let mut cache = Cache::new();
    ingest(&mut cache, "S", &[("/a/b.txt", 100), ("/a/c.txt", 300), ("/a/e/f.bin", 7), ("/d.txt", 50)]);
    assert_eq!(
        sizes(&cache, "/a"),
        vec![("b.txt".to_string(), 100), ("c.txt".to_string(), 300), ("e".to_string(), 7)]
    );
    assert_eq!(sizes(&cache, "/a/"), sizes(&cache, "/a"));
    assert_eq!(sizes(&cache, "/a/e"), vec![("f.bin".to_string(), 7)]);
}

#[test]
fn query_on_a_file_is_empty() {
    let mut cache = Cache::new();
    ingest(&mut cache, "S", &[("/d.txt", 50)]);
    assert_eq!(sizes(&cache, "/d.txt"), vec![]);
    assert_eq!(sizes(&cache, "/nowhere"), vec![]);
}

#[test]
fn empty_cache_has_no_children() {
    let cache = Cache::new();
    assert_eq!(sizes(&cache, "/"), vec![]);
    assert!(ids(&cache).is_empty());
}

#[test]
fn cross_snapshot_max_and_deletion() {
    let mut cache = Cache::new();
    ingest(&mut cache, "S1", &[("/a/x.txt", 100)]);
    ingest(&mut cache, "S2", &[("/a/x.txt", 500)]);
    assert_eq!(sizes(&cache, "/"), vec![("a".to_string(), 500)]);
    let todo = cache.reconcile(&vec![snap("S1")]);
    assert!(todo.is_empty());
    assert_eq!(ids(&cache), vec!["S1".to_string()]);
    assert_eq!(sizes(&cache, "/"), vec![("a".to_string(), 100)]);
}

#[test]
fn equal_sizes_in_two_snapshots() {
    let mut cache = Cache::new();
    ingest(&mut cache, "S1", &[("/a/x.txt", 100)]);
    ingest(&mut cache, "S2", &[("/a/x.txt", 100), ("/a/y.txt", 100)]);
    assert_eq!(sizes(&cache, "/"), vec![("a".to_string(), 100)]);
    assert_eq!(sizes(&cache, "/a"), vec![("x.txt".to_string(), 100), ("y.txt".to_string(), 100)]);
}

#[test]
fn largest_size_is_kept() {
    let mut cache = Cache::new();
    ingest(&mut cache, "S", &[("/big", u64::MAX), ("/big", 0)]);
    assert_eq!(sizes(&cache, "/"), vec![("big".to_string(), u64::MAX)]);
}

#[test]
fn reconcile_twice_changes_nothing() {
    let mut cache = Cache::new();
    let remote = vec![snap("A"), snap("B")];
    let todo = cache.reconcile(&remote);
    assert_eq!(todo.iter().map(|s| s.id.clone()).collect::<Vec<_>>(), vec!["A", "B"]);
    ingest(&mut cache, "A", &[("/a", 1)]);
    ingest(&mut cache, "B", &[("/b", 2)]);
    let before_ids = ids(&cache);
    let before = sizes(&cache, "/");
    let todo = cache.reconcile(&remote);
    assert!(todo.is_empty());
    assert_eq!(ids(&cache), before_ids);
    assert_eq!(sizes(&cache, "/"), before);
}

#[test]
fn reconcile_deletes_missing_snapshot() {
    let mut cache = Cache::new();
    ingest(&mut cache, "A", &[("/a/x", 10)]);
    ingest(&mut cache, "B", &[("/a/x", 90), ("/b/y", 5)]);
    let todo = cache.reconcile(&vec![snap("A")]);
    assert!(todo.is_empty());
    assert_eq!(ids(&cache), vec!["A".to_string()]);
    assert_eq!(sizes(&cache, "/"), vec![("a".to_string(), 10)]);
}

#[test]
fn reconcile_fetches_new_snapshot() {
    let mut cache = Cache::new();
    ingest(&mut cache, "A", &[("/a/x", 10)]);
    let todo = cache.reconcile(&vec![snap("A"), snap("B")]);
    assert_eq!(todo.len(), 1);
    assert_eq!(todo[0].id, "B");
    assert_eq!(todo[0].time, "time of B");
    assert_eq!(ids(&cache), vec!["A".to_string()]);
    assert_eq!(sizes(&cache, "/"), vec![("a".to_string(), 10)]);
}

#[test]
fn abandoned_ingestion_is_invisible_and_refetched() {
    let mut cache = Cache::new();
    ingest(&mut cache, "A", &[("/a/x", 10)]);
    let mut txn = cache.start_snapshot("B");
    txn.insert_file("/a/x", 999);
    txn.insert_file("/b/y", 5);
    drop(txn);
    assert_eq!(ids(&cache), vec!["A".to_string()]);
    assert_eq!(sizes(&cache, "/"), vec![("a".to_string(), 10)]);
    let todo = cache.reconcile(&vec![snap("A"), snap("B")]);
    assert_eq!(todo.len(), 1);
    assert_eq!(todo[0].id, "B");
    ingest(&mut cache, "B", &[("/a/x", 999), ("/b/y", 5)]);
    assert_eq!(sizes(&cache, "/"), vec![("a".to_string(), 999), ("b".to_string(), 5)]);
}

#[test]
fn finishing_again_replaces_a_snapshot() {
    let mut cache = Cache::new();
    ingest(&mut cache, "A", &[("/a/x", 10)]);
    ingest(&mut cache, "A", &[("/a/x", 3)]);
    assert_eq!(ids(&cache), vec!["A".to_string()]);
    assert_eq!(sizes(&cache, "/"), vec![("a".to_string(), 3)]);
}

#[test]
fn delete_snapshot_removes_its_files() {
    let mut cache = Cache::new();
    ingest(&mut cache, "A", &[("/a/x", 10)]);
    ingest(&mut cache, "B", &[("/b/y", 20)]);
    cache.delete_snapshot("A");
    assert_eq!(ids(&cache), vec!["B".to_string()]);
    assert_eq!(sizes(&cache, "/"), vec![("b".to_string(), 20)]);
    cache.delete_snapshot("missing");
    assert_eq!(ids(&cache), vec!["B".to_string()]);
}

#[test]
fn stored_parts_restore_the_index() {
    let mut cache = Cache::new();
    ingest(&mut cache, "A", &[("/a/x", 10)]);
    ingest(&mut cache, "B", &[("/b/y", 20)]);
    let copy = Cache::restore(cache.get_snapshots(), cache.get_observations()).unwrap();
    assert_eq!(ids(&copy), ids(&cache));
    assert_eq!(sizes(&copy, "/"), sizes(&cache, "/"));
}

#[test]
fn inconsistent_parts_are_refused() {
    let obs = |s: &str| Observation { snapshot: s.to_string(), path: vec!["/".to_string(), "a".to_string()], size: 1 };
    assert!(Cache::restore(vec!["A".to_string(), "A".to_string()], vec![]).is_none());
    assert!(Cache::restore(vec!["A".to_string()], vec![obs("B")]).is_none());
    let c = Cache::restore(vec!["A".to_string()], vec![obs("A")]).unwrap();
    assert_eq!(sizes(&c, "/"), vec![("a".to_string(), 1)]);
}
