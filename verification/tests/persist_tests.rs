use std::collections::HashMap;
use vecstore::persist::{load, LoadOutcome, StoredFile};
use vecstore::store::{Entry, VectorStore};

fn entry(id: &str, vector: &[f32]) -> Entry {
    Entry { id: id.to_string(), vector: vector.iter().map(|x| x.to_bits()).collect() }
}

fn sample_store() -> VectorStore {
    let mut store = VectorStore::new();
    store.upsert_many(vec![
        entry("a", &[0.1, 0.2, 0.3, 0.4, 0.5, 0.6, 0.7, 0.8]),
        entry("b", &[1.0, 0.0, -1.0, 0.25, 3.5, 0.0, 0.0, 0.40784314]),
    ]);
    store
}

fn sorted(mut entries: Vec<Entry>) -> Vec<Entry> {
    entries.sort_by(|x, y| x.id.cmp(&y.id));
    entries
}

fn render(snapshot: &[Entry]) -> String {
    let map: HashMap<String, Vec<f32>> = snapshot
        .iter()
        .map(|e| (e.id.clone(), e.vector.iter().map(|x| f32::from_bits(*x)).collect()))
        .collect();
    serde_json::to_string_pretty(&map).unwrap()
}

fn parse(text: &str) -> StoredFile {
    match serde_json::from_str::<HashMap<String, Vec<f32>>>(text) {
        Ok(map) => StoredFile::Parsed(
            map.into_iter()
                .map(|(id, v)| Entry { id, vector: v.iter().map(|x| x.to_bits()).collect() })
                .collect(),
        ),
        Err(_) => StoredFile::Malformed,
    }
}

#[test]
fn status_words() {
    assert_eq!(LoadOutcome::Loaded.status(), "loaded");
    assert_eq!(LoadOutcome::LoadError.status(), "load_error");
    assert_eq!(LoadOutcome::NoFile.status(), "no_file");
}

#[test]
fn load_missing_file_leaves_store_unchanged() {
    let mut store = sample_store();
    let before = sorted(store.snapshot());
    assert_eq!(load(&mut store, StoredFile::Missing), LoadOutcome::NoFile);
    assert_eq!(sorted(store.snapshot()), before);
    assert_eq!(store.len(), 2);
}

#[test]
fn load_corrupt_file_leaves_store_unchanged() {
    let mut store = sample_store();
    let before = sorted(store.snapshot());
    assert_eq!(load(&mut store, StoredFile::Malformed), LoadOutcome::LoadError);
    assert_eq!(sorted(store.snapshot()), before);
    for text in ["", "not json", "[1, 2]", "{\"a\": \"text\"}", "{\"a\": [1.0, \"x\"]}", "{\"a\": [1.0"] {
        assert_eq!(load(&mut store, parse(text)), LoadOutcome::LoadError, "{:?}", text);
        assert_eq!(sorted(store.snapshot()), before);
    }
}

#[test]
fn load_parsed_replaces_everything() {
    let mut store = sample_store();
    let outcome = load(
        &mut store,
        StoredFile::Parsed(vec![entry("b", &[9.0]), entry("c", &[1.0, 2.0])]),
    );
    assert_eq!(outcome, LoadOutcome::Loaded);
    assert_eq!(sorted(store.snapshot()), vec![entry("b", &[9.0]), entry("c", &[1.0, 2.0])]);
    assert!(!store.contains("a"));
}

#[test]
fn load_empty_mapping_clears_the_store() {
    let mut store = sample_store();
    assert_eq!(load(&mut store, parse("{}")), LoadOutcome::Loaded);
    assert!(store.is_empty());
}

#[test]
fn load_into_empty_store() {
    let mut store = VectorStore::new();
    assert_eq!(load(&mut store, StoredFile::Missing), LoadOutcome::NoFile);
    assert!(store.is_empty());
    assert_eq!(load(&mut store, parse("{\"k\": [0.5, 1.5]}")), LoadOutcome::Loaded);
    assert_eq!(sorted(store.snapshot()), vec![entry("k", &[0.5, 1.5])]);
}

#[test]
fn save_then_load_round_trip() {
    let store = sample_store();
    let text = render(&store.snapshot());
    let mut cleared = VectorStore::new();
    assert_eq!(load(&mut cleared, parse(&text)), LoadOutcome::Loaded);
    let left = sorted(store.snapshot());
    let right = sorted(cleared.snapshot());
    assert_eq!(left.len(), right.len());
    for (x, y) in left.iter().zip(right.iter()) {
        assert_eq!(x.id, y.id);
        assert_eq!(x.vector.len(), y.vector.len());
        for (p, q) in x.vector.iter().zip(y.vector.iter()) {
            assert!((f32::from_bits(*p) - f32::from_bits(*q)).abs() <= 1e-6);
        }
    }
}

#[test]
fn load_ignores_the_order_of_entries() {
    let mut first = VectorStore::new();
    let mut second = VectorStore::new();
    let a = entry("a", &[1.0, 2.0]);
    let b = entry("b", &[3.0]);
    let c = entry("c", &[]);
    assert_eq!(
        load(&mut first, StoredFile::Parsed(vec![a.clone(), b.clone(), c.clone()])),
        LoadOutcome::Loaded
    );
    assert_eq!(load(&mut second, StoredFile::Parsed(vec![c, a, b])), LoadOutcome::Loaded);
    assert_eq!(sorted(first.snapshot()), sorted(second.snapshot()));
    assert_eq!(first.len(), 3);
}
