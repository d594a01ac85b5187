use paste_store::keygen::{
    fallback_id, generate_id, usable_word, KeyGenerator, FALLBACK_LENGTH, WORD_LENGTH,
};
use paste_store::record::Paste;

fn is_word(id: &str) -> bool {
    !id.is_empty() && id.chars().count() <= WORD_LENGTH && id.chars().all(|c| c.is_ascii_lowercase())
}

fn is_fallback(id: &str) -> bool {
    id.chars().count() == FALLBACK_LENGTH && id.chars().all(|c| c.is_ascii_alphanumeric())
}

#[test]
fn key_lengths() {
    assert_eq!(WORD_LENGTH, 10);
    assert_eq!(FALLBACK_LENGTH, 6);
}

#[test]
fn a_word_that_is_not_empty_is_usable() {
    assert_eq!(usable_word(Some("abc".to_string())), Some("abc".to_string()));
    assert_eq!(
        usable_word(Some("pronounced".to_string())),
        Some("pronounced".to_string())
    );
}

#[test]
fn an_empty_word_is_not_usable() {
    assert_eq!(usable_word(Some(String::new())), None);
}

#[test]
fn no_word_is_not_usable() {
    assert_eq!(usable_word(None), None);
}

#[test]
fn fallback_ids_are_six_letters_or_digits() {
    for _ in 0..200 {
        let id = fallback_id();
        assert!(is_fallback(&id), "unexpected fallback id {:?}", id);
        assert_eq!(id.len(), 6);
    }
}

#[test]
fn fallback_ids_differ() {
    let ids: Vec<String> = (0..20).map(|_| fallback_id()).collect();
    assert!(ids.iter().any(|id| *id != ids[0]));
}

#[test]
fn generated_ids_are_words_or_fallbacks() {
    let mut generator = KeyGenerator::new();
    for _ in 0..200 {
        let id = generate_id(&mut generator);
        assert!(is_word(&id) || is_fallback(&id), "unexpected id {:?}", id);
        assert!(!id.is_empty());
        assert!(id.is_ascii());
    }
}

#[test]
fn generated_ids_differ() {
    let mut generator = KeyGenerator::new();
    let ids: Vec<String> = (0..20).map(|_| generate_id(&mut generator)).collect();
    assert!(ids.iter().any(|id| *id != ids[0]));
}

#[test]
fn generated_ids_serve_as_keys() {
    let mut generator = KeyGenerator::new();
    let mut store = paste_store::store::Store::new(8);
    let id = generate_id(&mut generator);
    store.insert(id.clone(), b"content".to_vec());
    assert_eq!(
        store.get_paste_by_title(&id),
        Some(Paste::new(id.clone(), b"content".to_vec()))
    );
}
