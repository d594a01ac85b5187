use paste_store::error::StoreError;
use paste_store::record::Paste;
use paste_store::text::{same_text, text_from_ascii};

#[test]
fn same_text_compares_characters() {
    assert!(same_text("", ""));
    assert!(same_text("abc", "abc"));
    assert!(!same_text("abc", "abd"));
    assert!(!same_text("abc", "ab"));
    assert!(!same_text("ab", "abc"));
    assert!(!same_text("", "a"));
    assert!(same_text("h\u{e9}llo", "h\u{e9}llo"));
    assert!(!same_text("h\u{e9}llo", "hello"));
}

#[test]
fn ascii_bytes_spell_their_text() {
    assert_eq!(text_from_ascii(b"aZ09".to_vec()), "aZ09".to_string());
    assert_eq!(text_from_ascii(Vec::new()), String::new());
    assert_eq!(text_from_ascii(vec![0, 127]), "\u{0}\u{7f}".to_string());
}

#[test]
fn errors_describe_themselves() {
    assert_eq!(StoreError::NotFound.describe(), "snapshot not found");
    assert_eq!(StoreError::CorruptSnapshot.describe(), "snapshot is corrupt");
    assert_eq!(
        StoreError::IoError.describe(),
        "snapshot could not be read or written"
    );
}

#[test]
fn a_copy_of_a_record_equals_it() {
    let paste = Paste::new("key".to_string(), vec![1, 2, 3]);
    let copy = paste.clone();
    assert_eq!(copy, paste);
    assert_eq!(copy.title, "key");
    assert_eq!(copy.content, vec![1, 2, 3]);
}
