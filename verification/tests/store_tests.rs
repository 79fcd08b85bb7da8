use vecstore::store::{Entry, VectorStore};

fn entry(id: &str, vector: &[u32]) -> Entry {
    Entry { id: id.to_string(), vector: vector.to_vec() }
}

fn sorted_ids(store: &VectorStore) -> Vec<String> {
    let mut ids: Vec<String> = store.snapshot().into_iter().map(|e| e.id).collect();
    ids.sort();
    ids
}

#[test]
fn new_store_is_empty() {
    let store = VectorStore::new();
    assert_eq!(store.len(), 0);
    assert!(store.is_empty());
    assert!(store.snapshot().is_empty());
    assert!(!store.contains("a"));
    assert_eq!(store.get("a"), None);
}

#[test]
fn upsert_inserts_then_overwrites() {
    let mut store = VectorStore::new();
    store.upsert("a".to_string(), vec![1, 2, 3]);
    assert_eq!(store.len(), 1);
    assert!(!store.is_empty());
    assert!(store.contains("a"));
    assert_eq!(store.get("a"), Some(&vec![1, 2, 3]));
    store.upsert("a".to_string(), vec![9]);
    assert_eq!(store.len(), 1);
    assert_eq!(store.get("a"), Some(&vec![9]));
}

#[test]
fn upsert_accepts_any_number_of_components() {
    let mut store = VectorStore::new();
    store.upsert("none".to_string(), vec![]);
    store.upsert("many".to_string(), vec![0; 20]);
    assert_eq!(store.len(), 2);
    assert_eq!(store.get("none"), Some(&vec![]));
    assert_eq!(store.get("many").map(|v| v.len()), Some(20));
}

#[test]
fn upsert_twice_is_idempotent() {
    let mut store = VectorStore::new();
    store.upsert("x".to_string(), vec![5, 6]);
    store.upsert("y".to_string(), vec![7]);
    let size_once = store.len();
    let entry_once = store.get("x").cloned();
    store.upsert("x".to_string(), vec![5, 6]);
    assert_eq!(store.len(), size_once);
    assert_eq!(store.len(), 2);
    assert_eq!(store.get("x").cloned(), entry_once);
    assert_eq!(store.get("x"), Some(&vec![5, 6]));
    assert_eq!(store.get("y"), Some(&vec![7]));
}

#[test]
fn identifiers_are_compared_in_full() {
    let mut store = VectorStore::new();
    store.upsert("ab".to_string(), vec![1]);
    store.upsert("a".to_string(), vec![2]);
    store.upsert("".to_string(), vec![3]);
    store.upsert("\u{e9}".to_string(), vec![4]);
    store.upsert("e\u{301}".to_string(), vec![5]);
    assert_eq!(store.len(), 5);
    assert_eq!(store.get("ab"), Some(&vec![1]));
    assert_eq!(store.get("a"), Some(&vec![2]));
    assert_eq!(store.get(""), Some(&vec![3]));
    assert_eq!(store.get("\u{e9}"), Some(&vec![4]));
    assert_eq!(store.get("e\u{301}"), Some(&vec![5]));
    assert_eq!(store.get("b"), None);
}

#[test]
fn bulk_of_new_identifiers_grows_by_batch_length() {
    let mut store = VectorStore::new();
    store.upsert("seed".to_string(), vec![0]);
    let held = store.upsert_many(vec![entry("a", &[1]), entry("b", &[2]), entry("c", &[3])]);
    assert_eq!(held, 4);
    assert_eq!(store.len(), 4);
    assert_eq!(sorted_ids(&store), vec!["a", "b", "c", "seed"]);
}

#[test]
fn bulk_of_held_and_new_grows_by_new_only() {
    let mut store = VectorStore::new();
    assert_eq!(store.upsert_many(vec![entry("a", &[1]), entry("b", &[2]), entry("c", &[3])]), 3);
    let held = store.upsert_many(vec![
        entry("b", &[20]),
        entry("d", &[4]),
        entry("a", &[10]),
        entry("e", &[5]),
    ]);
    assert_eq!(held, 5);
    assert_eq!(store.get("a"), Some(&vec![10]));
    assert_eq!(store.get("b"), Some(&vec![20]));
    assert_eq!(store.get("c"), Some(&vec![3]));
    assert_eq!(store.get("d"), Some(&vec![4]));
    assert_eq!(store.get("e"), Some(&vec![5]));
}

#[test]
fn bulk_returns_store_size_not_batch_size() {
    let mut store = VectorStore::new();
    store.upsert("a".to_string(), vec![1]);
    store.upsert("b".to_string(), vec![2]);
    assert_eq!(store.upsert_many(vec![entry("a", &[3])]), 2);
    assert_eq!(store.upsert_many(vec![]), 2);
}

#[test]
fn bulk_last_write_wins_within_a_batch() {
    let mut store = VectorStore::new();
    let held = store.upsert_many(vec![entry("a", &[1]), entry("b", &[2]), entry("a", &[3])]);
    assert_eq!(held, 2);
    assert_eq!(store.get("a"), Some(&vec![3]));
    assert_eq!(store.get("b"), Some(&vec![2]));
}

#[test]
fn snapshot_is_an_independent_copy() {
    let mut store = VectorStore::new();
    store.upsert("a".to_string(), vec![1, 2]);
    store.upsert("b".to_string(), vec![3]);
    let mut snapshot = store.snapshot();
    assert_eq!(snapshot.len(), 2);
    store.upsert("a".to_string(), vec![9]);
    store.upsert("c".to_string(), vec![4]);
    snapshot.sort_by(|x, y| x.id.cmp(&y.id));
    assert_eq!(snapshot, vec![entry("a", &[1, 2]), entry("b", &[3])]);
    snapshot[0].vector.push(7);
    assert_eq!(store.get("a"), Some(&vec![9]));
    assert_eq!(store.len(), 3);
}

#[test]
fn replace_discards_what_was_held() {
    let mut store = VectorStore::new();
    store.upsert("old".to_string(), vec![1]);
    store.upsert("both".to_string(), vec![2]);
    store.replace(vec![entry("both", &[20]), entry("new", &[3])]);
    assert_eq!(store.len(), 2);
    assert_eq!(store.get("old"), None);
    assert_eq!(store.get("both"), Some(&vec![20]));
    assert_eq!(store.get("new"), Some(&vec![3]));
    store.replace(vec![]);
    assert!(store.is_empty());
}

#[test]
fn replace_with_snapshot_reproduces_the_store() {
    let mut first = VectorStore::new();
    first.upsert_many(vec![entry("a", &[1, 2]), entry("b", &[3, 4]), entry("c", &[])]);
    let mut second = VectorStore::new();
    second.upsert("stale".to_string(), vec![0]);
    second.replace(first.snapshot());
    assert_eq!(second.len(), 3);
    let mut left = first.snapshot();
    let mut right = second.snapshot();
    left.sort_by(|x, y| x.id.cmp(&y.id));
    right.sort_by(|x, y| x.id.cmp(&y.id));
    assert_eq!(left, right);
}
