//! Documents for the index, and what its answers are turned into.
use memmap_fs::search::{FieldKind, SearchProvider, StoredDocument, StoredValue};
use memmap_fs::text::{bytes_to_text, join_with_spaces, to_decimal};

fn found(id: Option<StoredValue>, key: Option<StoredValue>, score: f32) -> StoredDocument {
    StoredDocument { id, key, score_bits: score.to_bits() }
}

#[test]
fn the_index_has_four_fields() {
    let layout = SearchProvider::open();
    assert_eq!(layout.writer_heap_bytes, 50_000_000);
    let shown: Vec<(&str, FieldKind, bool)> =
        layout.fields.iter().map(|f| (f.name.as_str(), f.kind, f.searched)).collect();
    assert_eq!(
        shown,
        vec![
            ("id", FieldKind::Number, false),
            ("key", FieldKind::Keyword, false),
            ("text", FieldKind::FullText, true),
            ("tags", FieldKind::FullText, true),
        ]
    );
}

#[test]
fn memories_are_indexed_with_their_tags() {
    let document = SearchProvider::index_memory(3, "some text", &vec!["a".into(), "b c".into()]);
    assert_eq!(document.id, Some(3));
    assert_eq!(document.key, None);
    assert_eq!(document.text, "some text");
    assert_eq!(document.tags, Some("a b c".into()));
    assert_eq!(SearchProvider::index_memory(3, "", &vec![]).tags, Some("".into()));
}

#[test]
fn keyed_texts_are_indexed_without_an_id() {
    let document = SearchProvider::index("k", "t");
    assert_eq!(document.id, None);
    assert_eq!(document.key, Some("k".into()));
    assert_eq!(document.text, "t");
    assert_eq!(document.tags, None);
}

#[test]
fn memories_are_deleted_by_id() {
    let term = SearchProvider::delete_memory(12);
    assert_eq!((term.field.as_str(), term.id), ("id", 12));
}

#[test]
fn ids_come_in_the_order_of_the_documents() {
    let documents = vec![
        found(Some(StoredValue::U64(9)), None, 3.0),
        found(None, Some(StoredValue::Text("k".into())), 2.0),
        found(Some(StoredValue::Text("1".into())), None, 2.0),
        found(Some(StoredValue::Other), None, 2.0),
        found(Some(StoredValue::U64(2)), Some(StoredValue::Text("k".into())), 1.0),
    ];
    assert_eq!(SearchProvider::search(&documents, 5), vec![9, 2]);
    assert_eq!(SearchProvider::search(&documents, 4), vec![9]);
    assert!(SearchProvider::search(&vec![], 1).is_empty());
}

#[test]
fn hits_prefer_the_key() {
    let documents = vec![
        found(Some(StoredValue::U64(120)), None, 3.5),
        found(None, Some(StoredValue::Text("k".into())), 2.5),
        found(Some(StoredValue::U64(1)), Some(StoredValue::Text("both".into())), 1.5),
        // A key that is no text hides the id.
        found(Some(StoredValue::U64(1)), Some(StoredValue::Other), 1.0),
        found(Some(StoredValue::U64(1)), Some(StoredValue::U64(2)), 1.0),
        found(Some(StoredValue::Other), None, 1.0),
        found(None, None, 1.0),
    ];
    let hits = SearchProvider::search_hits(&documents, 20);
    let shown: Vec<(&str, f32)> =
        hits.iter().map(|h| (h.key.as_str(), f32::from_bits(h.score_bits))).collect();
    assert_eq!(shown, vec![("120", 3.5), ("k", 2.5), ("both", 1.5)]);
    assert_eq!(SearchProvider::search_hits(&documents, 2).len(), 2);
}

#[test]
fn numerals_are_decimal() {
    assert_eq!(to_decimal(0), "0");
    assert_eq!(to_decimal(9), "9");
    assert_eq!(to_decimal(10), "10");
    assert_eq!(to_decimal(907), "907");
    assert_eq!(to_decimal(u64::MAX), "18446744073709551615");
}

#[test]
fn parts_are_joined_by_single_spaces() {
    assert_eq!(join_with_spaces(&vec![]), "");
    assert_eq!(join_with_spaces(&vec!["a".into()]), "a");
    assert_eq!(join_with_spaces(&vec!["a".into(), "".into(), "b".into()]), "a  b");
}

#[test]
fn bytes_are_read_as_utf8() {
    assert_eq!(bytes_to_text(&b"plain".to_vec()), "plain");
    assert_eq!(bytes_to_text(&"\u{e9}\u{1f980}".as_bytes().to_vec()), "\u{e9}\u{1f980}");
    assert_eq!(bytes_to_text(&vec![b'a', 0xc3, b'b']), "a\u{fffd}b");
}
