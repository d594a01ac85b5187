use paste_store::error::StoreError;
use paste_store::record::Paste;
use paste_store::store::Store;

fn paste(title: &str, content: &[u8]) -> Paste {
    Paste::new(title.to_string(), content.to_vec())
}

fn titles(store: &Store) -> Vec<String> {
    store.list_keys()
}

#[test]
fn new_store_is_empty() {
    let store = Store::new(4);
    assert_eq!(store.len(), 0);
    assert!(store.is_empty());
    assert_eq!(store.max_entries(), 4);
    assert_eq!(store.list_keys(), Vec::<String>::new());
    assert_eq!(store.get_all_pastes(), Vec::<Paste>::new());
}

#[test]
fn insert_then_get_returns_the_payload() {
    let mut store = Store::new(4);
    store.insert("alpha".to_string(), b"first".to_vec());
    assert_eq!(store.len(), 1);
    assert!(!store.is_empty());
    assert_eq!(store.get_paste_by_title("alpha"), Some(paste("alpha", b"first")));
}

#[test]
fn get_of_an_absent_key_is_none() {
    let mut store = Store::new(4);
    assert_eq!(store.get_paste_by_title("alpha"), None);
    store.insert("alpha".to_string(), b"first".to_vec());
    assert_eq!(store.get_paste_by_title("beta"), None);
    assert_eq!(store.get_paste_by_title("alph"), None);
    assert_eq!(store.get_paste_by_title("alphaa"), None);
    assert_eq!(store.get_paste_by_title(""), None);
}

#[test]
fn get_does_not_change_the_store() {
    let mut store = Store::new(3);
    store.insert("a".to_string(), b"x".to_vec());
    store.insert("b".to_string(), b"y".to_vec());
    let before = store.get_all_pastes();
    let _ = store.get_paste_by_title("a");
    let _ = store.get_paste_by_title("zzz");
    assert_eq!(store.get_all_pastes(), before);
    assert_eq!(titles(&store), vec!["a".to_string(), "b".to_string()]);
}

#[test]
fn size_never_exceeds_capacity() {
    let capacity = 3;
    let mut store = Store::new(capacity);
    let mut inserted: usize = 0;
    for n in 0..10u8 {
        store.insert(format!("key{}", n), vec![n]);
        inserted += 1;
        assert!(store.len() <= capacity);
        let expected = if inserted < capacity { inserted } else { capacity };
        assert_eq!(store.len(), expected);
    }
    assert_eq!(
        titles(&store),
        vec!["key7".to_string(), "key8".to_string(), "key9".to_string()]
    );
}

#[test]
fn one_more_than_capacity_evicts_the_first() {
    let capacity = 3;
    let mut store = Store::new(capacity);
    store.insert("k0".to_string(), b"v0".to_vec());
    store.insert("k1".to_string(), b"v1".to_vec());
    store.insert("k2".to_string(), b"v2".to_vec());
    store.insert("k3".to_string(), b"v3".to_vec());
    assert_eq!(store.get_paste_by_title("k0"), None);
    assert_eq!(store.get_paste_by_title("k1"), Some(paste("k1", b"v1")));
    assert_eq!(store.get_paste_by_title("k2"), Some(paste("k2", b"v2")));
    assert_eq!(store.get_paste_by_title("k3"), Some(paste("k3", b"v3")));
    assert_eq!(
        store.get_all_pastes(),
        vec![paste("k1", b"v1"), paste("k2", b"v2"), paste("k3", b"v3")]
    );
}

#[test]
fn capacity_of_one_keeps_only_the_newest() {
    let mut store = Store::new(1);
    store.insert("a".to_string(), b"x".to_vec());
    store.insert("b".to_string(), b"y".to_vec());
    assert_eq!(store.get_all_pastes(), vec![paste("b", b"y")]);
    assert_eq!(store.get_paste_by_title("a"), None);
}

#[test]
fn reinsert_moves_the_key_to_the_end() {
    let mut store = Store::new(5);
    store.insert("A".to_string(), b"1".to_vec());
    store.insert("B".to_string(), b"2".to_vec());
    store.insert("C".to_string(), b"3".to_vec());
    store.insert("A".to_string(), b"1".to_vec());
    assert_eq!(
        titles(&store),
        vec!["B".to_string(), "C".to_string(), "A".to_string()]
    );
    assert_eq!(store.len(), 3);
}

#[test]
fn reinsert_replaces_the_payload() {
    let mut store = Store::new(5);
    store.insert("A".to_string(), b"old".to_vec());
    store.insert("B".to_string(), b"2".to_vec());
    store.insert("A".to_string(), b"new".to_vec());
    assert_eq!(store.get_paste_by_title("A"), Some(paste("A", b"new")));
    assert_eq!(
        store.get_all_pastes(),
        vec![paste("B", b"2"), paste("A", b"new")]
    );
}

#[test]
fn reinsert_at_full_capacity_evicts_nothing() {
    let mut store = Store::new(3);
    store.insert("A".to_string(), b"1".to_vec());
    store.insert("B".to_string(), b"2".to_vec());
    store.insert("C".to_string(), b"3".to_vec());
    store.insert("B".to_string(), b"4".to_vec());
    assert_eq!(
        store.get_all_pastes(),
        vec![paste("A", b"1"), paste("C", b"3"), paste("B", b"4")]
    );
}

#[test]
fn reinserted_key_outlives_older_keys() {
    let mut store = Store::new(2);
    store.insert("A".to_string(), b"1".to_vec());
    store.insert("B".to_string(), b"2".to_vec());
    store.insert("A".to_string(), b"3".to_vec());
    store.insert("C".to_string(), b"4".to_vec());
    assert_eq!(
        store.get_all_pastes(),
        vec![paste("A", b"3"), paste("C", b"4")]
    );
}

#[test]
fn empty_key_and_empty_payload_are_stored() {
    let mut store = Store::new(2);
    store.insert(String::new(), Vec::new());
    assert_eq!(store.get_paste_by_title(""), Some(paste("", b"")));
    assert_eq!(titles(&store), vec![String::new()]);
}

#[test]
fn payload_bytes_are_kept_exactly() {
    let all: Vec<u8> = (0..=255u8).collect();
    let mut store = Store::new(2);
    store.insert("bin".to_string(), all.clone());
    assert_eq!(store.get_paste_by_title("bin").map(|p| p.content), Some(all));
}

#[test]
fn three_inserts_into_capacity_two_and_reload() {
    let mut store = Store::new(2);
    store.insert("a".to_string(), b"x".to_vec());
    store.insert("b".to_string(), b"y".to_vec());
    store.insert("c".to_string(), b"z".to_vec());
    assert_eq!(store.get_all_pastes(), vec![paste("b", b"y"), paste("c", b"z")]);
    assert_eq!(titles(&store), vec!["b".to_string(), "c".to_string()]);
    assert_eq!(store.get_paste_by_title("a"), None);

    let snapshot = store.snapshot();
    let (reloaded, recovered) = Store::initialize(Ok(snapshot), 2);
    assert_eq!(recovered, None);
    assert_eq!(reloaded.get_all_pastes(), store.get_all_pastes());
    assert_eq!(titles(&reloaded), vec!["b".to_string(), "c".to_string()]);
    assert_eq!(reloaded.max_entries(), 2);
}

#[test]
fn snapshot_of_a_store_is_the_encoding_of_its_records() {
    let mut store = Store::new(3);
    store.insert("a".to_string(), b"x".to_vec());
    store.insert("b".to_string(), b"y".to_vec());
    assert_eq!(
        store.snapshot(),
        paste_store::codec::encode(&store.get_all_pastes())
    );
}

#[test]
fn missing_snapshot_starts_empty() {
    let (mut store, recovered) = Store::initialize(Err(StoreError::NotFound), 3);
    assert_eq!(recovered, Some(StoreError::NotFound));
    assert!(store.is_empty());
    assert_eq!(store.max_entries(), 3);
    store.insert("a".to_string(), b"x".to_vec());
    assert_eq!(store.get_all_pastes(), vec![paste("a", b"x")]);
}

#[test]
fn unreadable_snapshot_starts_empty() {
    let (mut store, recovered) = Store::initialize(Err(StoreError::IoError), 3);
    assert_eq!(recovered, Some(StoreError::IoError));
    assert!(store.is_empty());
    store.insert("a".to_string(), b"x".to_vec());
    assert_eq!(store.len(), 1);
}

#[test]
fn garbage_snapshot_starts_empty() {
    let garbage = b"[[\"a\",[120]],[\"b\",[121]]]".to_vec();
    let (mut store, recovered) = Store::initialize(Ok(garbage), 3);
    assert_eq!(recovered, Some(StoreError::CorruptSnapshot));
    assert!(store.is_empty());
    store.insert("a".to_string(), b"x".to_vec());
    assert_eq!(store.get_paste_by_title("a"), Some(paste("a", b"x")));
}

#[test]
fn truncated_snapshot_starts_empty() {
    let mut source = Store::new(3);
    source.insert("a".to_string(), b"x".to_vec());
    source.insert("b".to_string(), b"y".to_vec());
    let mut snapshot = source.snapshot();
    snapshot.pop();
    let (mut store, recovered) = Store::initialize(Ok(snapshot), 3);
    assert_eq!(recovered, Some(StoreError::CorruptSnapshot));
    assert!(store.is_empty());
    store.insert("c".to_string(), b"z".to_vec());
    assert_eq!(titles(&store), vec!["c".to_string()]);
}

#[test]
fn empty_file_starts_empty() {
    let (store, recovered) = Store::initialize(Ok(Vec::new()), 3);
    assert_eq!(recovered, Some(StoreError::CorruptSnapshot));
    assert!(store.is_empty());
}

#[test]
fn snapshot_of_an_empty_store_reloads_as_empty() {
    let store = Store::new(3);
    let (reloaded, recovered) = Store::initialize(Ok(store.snapshot()), 3);
    assert_eq!(recovered, None);
    assert!(reloaded.is_empty());
}

#[test]
fn hydration_does_not_enforce_capacity_until_the_next_insert() {
    let mut large = Store::new(5);
    for n in 0..5u8 {
        large.insert(format!("k{}", n), vec![n]);
    }
    let (mut small, recovered) = Store::initialize(Ok(large.snapshot()), 2);
    assert_eq!(recovered, None);
    assert_eq!(small.len(), 5);
    assert_eq!(small.max_entries(), 2);
    assert_eq!(small.get_all_pastes(), large.get_all_pastes());

    small.insert("k5".to_string(), vec![5]);
    assert_eq!(small.len(), 2);
    assert_eq!(
        small.get_all_pastes(),
        vec![paste("k4", &[4]), paste("k5", &[5])]
    );
}

#[test]
fn evict_trims_an_over_full_store_to_its_newest_records() {
    let records = vec![
        paste("a", b"1"),
        paste("b", b"2"),
        paste("c", b"3"),
        paste("d", b"4"),
    ];
    let mut store = Store::hydrate(&records, 2);
    assert_eq!(store.len(), 4);
    store.evict();
    assert_eq!(store.get_all_pastes(), vec![paste("c", b"3"), paste("d", b"4")]);
    store.evict();
    assert_eq!(store.get_all_pastes(), vec![paste("c", b"3"), paste("d", b"4")]);
}

#[test]
fn evict_leaves_a_store_within_capacity_alone() {
    let mut store = Store::new(3);
    store.insert("a".to_string(), b"1".to_vec());
    store.evict();
    assert_eq!(store.get_all_pastes(), vec![paste("a", b"1")]);
}

#[test]
fn hydrate_keeps_order_and_the_later_of_two_equal_keys() {
    let records = vec![
        paste("a", b"1"),
        paste("b", b"2"),
        paste("a", b"3"),
        paste("c", b"4"),
    ];
    let store = Store::hydrate(&records, 10);
    assert_eq!(
        store.get_all_pastes(),
        vec![paste("b", b"2"), paste("a", b"3"), paste("c", b"4")]
    );
}

#[test]
fn list_keys_is_oldest_first() {
    let mut store = Store::new(4);
    store.insert("zeta".to_string(), b"1".to_vec());
    store.insert("alpha".to_string(), b"2".to_vec());
    store.insert("mid".to_string(), b"3".to_vec());
    assert_eq!(
        store.list_keys(),
        vec!["zeta".to_string(), "alpha".to_string(), "mid".to_string()]
    );
}

#[test]
fn keys_that_differ_only_past_ascii_are_distinct() {
    let mut store = Store::new(4);
    store.insert("caf\u{e9}".to_string(), b"1".to_vec());
    store.insert("cafe".to_string(), b"2".to_vec());
    assert_eq!(store.len(), 2);
    assert_eq!(
        store.get_paste_by_title("caf\u{e9}"),
        Some(paste("caf\u{e9}", b"1"))
    );
    assert_eq!(store.get_paste_by_title("cafe"), Some(paste("cafe", b"2")));
}
