//! The store end to end, with its files held in memory.
use std::collections::BTreeMap;

use memmap_fs::blocks::BlockStorage;
use memmap_fs::chunk_name::chunk_name;
use memmap_fs::engine::AgentState;
use memmap_fs::error::MemMapError;
use memmap_fs::fs::{PendingBlock, PendingEntry, MAX_RESULTS};
use memmap_fs::search::{Document, FieldKind, Hit, SearchProvider, StoredDocument, StoredValue};
use memmap_fs::storage::LogManager;
use memmap_fs::{MemMapFS, Session};
use tantivy::collector::TopDocs;
use tantivy::query::QueryParser;
use tantivy::schema::{Field, OwnedValue, Schema, Value, INDEXED, STORED, STRING, TEXT};
use tantivy::{Index, IndexWriter, ReloadPolicy, TantivyDocument, Term};

/// A full-text index in memory, laid out as the library says.
struct TextIndex {
    index: Index,
    writer: IndexWriter,
    fields: BTreeMap<String, Field>,
    searched: Vec<Field>,
}

impl TextIndex {
    fn open() -> TextIndex {
        let mut builder = Schema::builder();
        let mut fields = BTreeMap::new();
        let mut searched = Vec::new();
        let index_layout = SearchProvider::open();
        for layout in index_layout.fields {
            let field = match layout.kind {
                FieldKind::Number => builder.add_u64_field(&layout.name, STORED | INDEXED),
                FieldKind::Keyword => builder.add_text_field(&layout.name, STRING | STORED),
                FieldKind::FullText => builder.add_text_field(&layout.name, TEXT | STORED),
            };
            if layout.searched {
                searched.push(field);
            }
            fields.insert(layout.name, field);
        }
        let index = Index::create_in_ram(builder.build());
        let writer = index.writer(index_layout.writer_heap_bytes).expect("writer");
        TextIndex { index, writer, fields, searched }
    }

    fn index_document(&mut self, document: Document) {
        let mut stored = TantivyDocument::new();
        if let Some(id) = document.id {
            stored.add_u64(self.fields["id"], id);
        }
        if let Some(key) = document.key {
            stored.add_text(self.fields["key"], key);
        }
        stored.add_text(self.fields["text"], document.text);
        if let Some(tags) = document.tags {
            stored.add_text(self.fields["tags"], tags);
        }
        self.writer.add_document(stored).expect("add");
        self.writer.commit().expect("commit");
    }

    fn delete_memory(&mut self, id: u64) {
        let term = SearchProvider::delete_memory(id);
        self.writer.delete_term(Term::from_field_u64(self.fields[&term.field], term.id));
        self.writer.commit().expect("commit");
    }

    fn found(&self, query: &str, limit: usize) -> Vec<StoredDocument> {
        let reader: tantivy::IndexReader = self
            .index
            .reader_builder()
            .reload_policy(ReloadPolicy::OnCommitWithDelay)
            .try_into()
            .expect("reader");
        let searcher = reader.searcher();
        let parser = QueryParser::for_index(&self.index, self.searched.clone());
        let query = parser.parse_query(query).expect("query");
        let mut documents = Vec::new();
        for (score, address) in searcher.search(&query, &TopDocs::with_limit(limit)).expect("search") {
            let stored: TantivyDocument = searcher.doc(address).expect("doc");
            documents.push(StoredDocument {
                id: stored.get_first(self.fields["id"]).map(stored_value),
                key: stored.get_first(self.fields["key"]).map(stored_value),
                score_bits: score.to_bits(),
            });
        }
        documents
    }
}

fn stored_value(value: &OwnedValue) -> StoredValue {
    if let Some(n) = value.as_u64() {
        StoredValue::U64(n)
    } else if let Some(s) = value.as_str() {
        StoredValue::Text(s.to_string())
    } else {
        StoredValue::Other
    }
}

/// The files of a store.
struct Files {
    wal: Vec<u8>,
    chunks: BTreeMap<u32, Vec<u8>>,
    text: TextIndex,
}

impl Files {
    fn empty() -> Files {
        Files { wal: Vec::new(), chunks: BTreeMap::new(), text: TextIndex::open() }
    }

    fn open(&mut self) -> Result<MemMapFS, MemMapError> {
        let names: Vec<String> = self.chunks.keys().map(|id| chunk_name(*id)).collect();
        let id = BlockStorage::find_active_chunk(&names);
        let length = self.chunks.get(&id).map(|c| c.len() as u64);
        assert!(MemMapFS::can_init(&self.wal));
        let fs = MemMapFS::init(&self.wal, BlockStorage::open(id, length))?;
        self.wal.truncate(LogManager::complete_length(&self.wal));
        Ok(fs)
    }

    fn write_block(&mut self, fs: &mut MemMapFS, request: PendingBlock) -> PendingEntry {
        assert!(fs.awaits(&request));
        if request.write().rolled {
            self.chunks.insert(request.write().chunk_id, Vec::new());
            fs.chunk_opened(&request);
        }
        assert!(fs.reached(&request));
        let chunk = self.chunks.entry(request.write().chunk_id).or_default();
        assert_eq!(chunk.len() as u64, request.write().offset);
        chunk.extend_from_slice(request.data());
        fs.block_written(request).expect("entry")
    }

    fn log(&mut self, fs: &mut MemMapFS, entry: PendingEntry) -> Option<Document> {
        self.wal.extend_from_slice(entry.bytes());
        fs.entry_logged(entry)
    }

    fn append_memory(&mut self, fs: &mut MemMapFS, text: &str, tags: Vec<String>) -> u64 {
        assert!(fs.can_append_memory(text));
        let request = fs.append_memory(text, tags);
        let entry = self.write_block(fs, request);
        let document = self.log(fs, entry).expect("document");
        let id = document.id.expect("id");
        self.text.index_document(document);
        id
    }

    fn append_stream(&mut self, fs: &mut MemMapFS, key: &str, data: &[u8]) {
        assert!(fs.can_append_stream(data));
        let request = fs.append_stream(key, data);
        let entry = self.write_block(fs, request);
        assert!(self.log(fs, entry).is_none());
    }

    fn set_kv(&mut self, fs: &mut MemMapFS, key: &str, value: &[u8]) {
        let entry = fs.set_kv(key.into(), value.to_vec()).expect("set_kv");
        assert!(self.log(fs, entry).is_none());
    }

    fn delete_kv(&mut self, fs: &mut MemMapFS, key: &str) {
        let entry = fs.delete_kv(key.into()).expect("delete_kv");
        assert!(self.log(fs, entry).is_none());
    }

    fn put_session(&mut self, fs: &mut MemMapFS, session: &Session) {
        let entry = fs.put_session(session).expect("put_session");
        assert!(self.log(fs, entry).is_none());
    }

    fn query_memory(&self, fs: &MemMapFS, query: &str) -> Result<Vec<String>, MemMapError> {
        let mut query = fs.query_memory(&self.text.found(query, MAX_RESULTS));
        while let Some(meta) = query.next_block(fs) {
            query.supply(&meta, self.chunks.get(&meta.chunk_id).map(|c| c.as_slice()))?;
        }
        Ok(query.results())
    }

    fn read_stream(&self, fs: &MemMapFS, key: &str, buffer: usize) -> Vec<u8> {
        let mut reader = fs.open_read(key).expect("open_read");
        let mut content = Vec::new();
        while let Some(id) = reader.next_chunk() {
            assert!(reader.addressable(buffer));
            let chunk = self.chunks.get(&id).map(|c| c.as_slice());
            let bytes = reader.read(buffer, chunk).expect("read");
            assert!(!bytes.is_empty() && bytes.len() <= buffer);
            content.extend_from_slice(&bytes);
        }
        content
    }

    fn index(&mut self, fs: &MemMapFS, key: &str, text: &str) {
        self.text.index_document(fs.index(key, text));
    }

    fn search(&self, fs: &MemMapFS, query: &str, limit: usize) -> Vec<Hit> {
        fs.search(&self.text.found(query, limit), limit)
    }
}

fn session(id: &str, intent_id: &str, created_at: u64, payload: &[u8]) -> Session {
    Session { id: id.into(), intent_id: intent_id.into(), created_at, payload: payload.to_vec() }
}

#[test]
fn test_append_and_query() {
    let mut files = Files::empty();
    let mut fs = files.open().expect("init");

    let id = files.append_memory(&mut fs, "The quick brown fox", vec!["animals".into()]);
    assert!(id > 0);

    let results = files.query_memory(&fs, "quick fox").expect("query");
    assert!(
        results.iter().any(|r| r.contains("quick brown fox")),
        "expected to find the appended memory, got: {results:?}"
    );
}

#[test]
fn test_multiple_memories() {
    let mut files = Files::empty();
    let mut fs = files.open().expect("init");

    let id1 = files.append_memory(&mut fs, "Rust is a systems language", vec!["rust".into()]);
    let id2 = files.append_memory(&mut fs, "Tokio is an async runtime", vec!["tokio".into()]);

    assert_ne!(id1, id2, "IDs must be unique");

    let results = files.query_memory(&fs, "async runtime").expect("query");
    assert!(
        results.iter().any(|r| r.contains("async runtime")),
        "expected Tokio result, got: {results:?}"
    );
}

#[test]
fn test_update_state() {
    let mut files = Files::empty();
    let mut fs = files.open().expect("init");

    fs.update_state(AgentState {
        status: "running".into(),
        active_memory_count: 42,
        last_updated_id: 7,
        extra: Default::default(),
    })
    .expect("update_state");
}

#[test]
fn test_wal_recovery() {
    let mut files = Files::empty();

    // First session: write some data.
    {
        let mut fs = files.open().expect("init session 1");
        files.append_memory(&mut fs, "Persistent memory", vec!["wal".into()]);
    }

    // Second session: the log is replayed.
    {
        let fs = files.open().expect("init session 2");
        // The block bytes should still be readable.
        let results = files.query_memory(&fs, "Persistent").expect("query");
        assert!(
            results.iter().any(|r| r.contains("Persistent memory")),
            "WAL recovery failed, got: {results:?}"
        );
    }
}

#[test]
fn test_kv_store() {
    let mut files = Files::empty();

    // First session: write KV data.
    {
        let mut fs = files.open().expect("init session 1");

        // Non-existent key
        assert_eq!(fs.get_kv("foo"), None);

        // Set and get
        files.set_kv(&mut fs, "foo", b"bar");
        assert_eq!(fs.get_kv("foo"), Some(b"bar".to_vec()));

        // Set another
        files.set_kv(&mut fs, "hello", b"world");
        assert_eq!(fs.get_kv("hello"), Some(b"world".to_vec()));

        // Delete
        files.delete_kv(&mut fs, "foo");
        assert_eq!(fs.get_kv("foo"), None);
    }

    // Second session: recover and check WAL replay for KV store
    {
        let fs = files.open().expect("init session 2");

        // 'foo' was deleted, should still be None
        assert_eq!(fs.get_kv("foo"), None);

        // 'hello' was not deleted, should be 'world'
        assert_eq!(fs.get_kv("hello"), Some(b"world".to_vec()));
    }
}

#[test]
fn test_session_metadata() {
    let mut files = Files::empty();
    let mut fs = files.open().expect("init");

    let s1 = session("session_1", "intent_a", 1000, b"data 1");
    let s2 = session("session_2", "intent_b", 2000, b"data 2");
    let s3 = session("session_3", "intent_a", 1500, b"data 3");

    files.put_session(&mut fs, &s1);
    files.put_session(&mut fs, &s2);
    files.put_session(&mut fs, &s3);

    // Test get_session
    assert_eq!(fs.get_session("session_1").expect("get s1").as_ref(), Some(&s1));
    assert_eq!(fs.get_session("session_2").expect("get s2").as_ref(), Some(&s2));
    assert_eq!(fs.get_session("non_existent").expect("get none").as_ref(), None);

    // Test list_sessions (should be sorted by created_at desc: s2 (2000), s3 (1500), s1 (1000))
    let all = fs.list_sessions(10).expect("list all");
    assert_eq!(all.len(), 3);
    assert_eq!(all[0].id, "session_2");
    assert_eq!(all[1].id, "session_3");
    assert_eq!(all[2].id, "session_1");

    // Test list_sessions limit
    let limited = fs.list_sessions(2).expect("list limited");
    assert_eq!(limited.len(), 2);
    assert_eq!(limited[0].id, "session_2");
    assert_eq!(limited[1].id, "session_3");

    // Test list_by_intent for "intent_a" (should be sorted by created_at desc: s3 (1500), s1 (1000))
    let filtered = fs.list_by_intent("intent_a").expect("list intent_a");
    assert_eq!(filtered.len(), 2);
    assert_eq!(filtered[0].id, "session_3");
    assert_eq!(filtered[1].id, "session_1");
}

#[test]
fn test_streaming_read_write() {
    let mut files = Files::empty();
    let mut fs = files.open().expect("init");

    let key = "sessions/session_123/stdout";

    // Write streaming segments
    files.append_stream(&mut fs, key, b"hello ");
    files.append_stream(&mut fs, key, b"world!");
    files.append_stream(&mut fs, key, b" this is a stream.");

    // Open stream for reading
    let content = String::from_utf8(files.read_stream(&fs, key, 32)).expect("utf8");

    assert_eq!(content, "hello world! this is a stream.");
}

#[test]
fn test_key_indexing_search() {
    let mut files = Files::empty();
    let fs = files.open().expect("init");

    files.index(&fs, "key_1", "The quick brown fox jumps over the lazy dog");
    files.index(&fs, "key_2", "Rust is a fast systems programming language");
    files.index(&fs, "key_3", "Tantivy is written in Rust");

    // Search for "quick fox"
    let hits1 = files.search(&fs, "quick fox", 5);
    assert_eq!(hits1.len(), 1);
    assert_eq!(hits1[0].key, "key_1");

    // Search for "Rust" (should match key_2 and key_3)
    let hits2 = files.search(&fs, "Rust", 5);
    assert_eq!(hits2.len(), 2);
    let keys: Vec<String> = hits2.iter().map(|h| h.key.clone()).collect();
    assert!(keys.contains(&"key_2".to_string()));
    assert!(keys.contains(&"key_3".to_string()));
}

#[test]
fn hits_carry_scores_and_ids() {
    let mut files = Files::empty();
    let mut fs = files.open().expect("init");
    let id = files.append_memory(&mut fs, "alpha beta", vec!["gamma".into(), "delta".into()]);

    // A memory is found by its text and by each of its tags, under its id.
    for query in ["alpha", "gamma", "delta"] {
        let hits = files.search(&fs, query, 3);
        assert_eq!(hits.len(), 1);
        assert_eq!(hits[0].key, id.to_string());
        assert!(f32::from_bits(hits[0].score_bits) > 0.0);
    }
}

#[test]
fn deleted_memories_are_not_found() {
    let mut files = Files::empty();
    let mut fs = files.open().expect("init");
    let first = files.append_memory(&mut fs, "one word", vec![]);
    files.append_memory(&mut fs, "another word", vec![]);
    assert_eq!(files.query_memory(&fs, "word").expect("query").len(), 2);

    files.text.delete_memory(first);
    assert_eq!(files.query_memory(&fs, "word").expect("query"), vec!["another word"]);
}

#[test]
fn keyed_texts_are_no_memories() {
    let mut files = Files::empty();
    let mut fs = files.open().expect("init");
    files.index(&fs, "note", "shared topic");
    files.append_memory(&mut fs, "shared memory", vec![]);

    assert_eq!(files.query_memory(&fs, "shared").expect("query"), vec!["shared memory"]);
    assert_eq!(files.search(&fs, "shared", 5).len(), 2);
}

#[test]
fn a_query_returns_at_most_twenty_memories() {
    let mut files = Files::empty();
    let mut fs = files.open().expect("init");
    for n in 0..25 {
        files.append_memory(&mut fs, &format!("common number{n}"), vec![]);
    }
    assert_eq!(MAX_RESULTS, 20);
    assert_eq!(files.query_memory(&fs, "common").expect("query").len(), 20);

    // Also where the index offers more documents.
    let documents = files.text.found("common", 25);
    assert_eq!(documents.len(), 25);
    let mut query = fs.query_memory(&documents);
    while let Some(meta) = query.next_block(&fs) {
        query.supply(&meta, files.chunks.get(&0).map(|c| c.as_slice())).expect("supply");
    }
    assert_eq!(query.results().len(), 20);
}

#[test]
fn equal_memories_are_returned_twenty_times() {
    let mut files = Files::empty();
    let mut fs = files.open().expect("init");
    for _ in 0..21 {
        files.append_memory(&mut fs, "alpha", vec![]);
    }
    assert_eq!(files.query_memory(&fs, "alpha").expect("query"), vec!["alpha"; 20]);
}

#[test]
fn ids_and_hits_give_the_same_answer() {
    let mut files = Files::empty();
    let mut fs = files.open().expect("init");
    for n in 0..6 {
        files.append_memory(&mut fs, &format!("topic memory{n}"), vec![]);
        files.index(&fs, &format!("key{n}"), "topic text");
    }
    let documents = files.text.found("topic", 12);
    let hits = fs.search(&documents, 12);
    assert_eq!(hits.len(), 12);
    let ids = SearchProvider::search(&documents, 12);
    let numerals: Vec<String> = ids.iter().map(|id| id.to_string()).collect();
    let keys: Vec<String> =
        hits.iter().map(|h| h.key.clone()).filter(|k| !k.starts_with("key")).collect();
    assert_eq!(numerals, keys);

    // A smaller limit gives the first of them.
    for limit in 1..12 {
        let fewer = fs.search(&documents, limit);
        assert_eq!(fewer.len(), limit);
        assert!(fewer.iter().zip(&hits).all(|(a, b)| a.key == b.key));
    }
}

#[test]
fn a_full_chunk_is_followed_by_the_next() {
    let mut files = Files::empty();
    let mut fs = files.open().expect("init");
    let large = vec![7u8; 64 * 1024 * 1024 - 2];
    files.append_stream(&mut fs, "s", &large);

    // The chunk could not be opened: nothing has moved.
    let failed = fs.append_stream("s", b"lost");
    assert!(failed.write().rolled);
    drop(failed);
    files.append_stream(&mut fs, "s", b"ab");
    assert_eq!(files.chunks.len(), 1);

    files.append_stream(&mut fs, "s", b"cd");
    files.append_memory(&mut fs, "in the second chunk", vec![]);
    assert_eq!(files.chunks[&1], b"cdin the second chunk");
    assert_eq!(files.query_memory(&fs, "second").expect("query"), vec!["in the second chunk"]);
    let content = files.read_stream(&fs, "s", 1 << 20);
    assert_eq!(content.len(), large.len() + 4);
    assert!(content.ends_with(b"\x07abcd"));

    // Reopening goes on in the second chunk.
    let mut fs = files.open().expect("reopen");
    files.append_stream(&mut fs, "s", b"e");
    assert_eq!(files.chunks[&1], b"cdin the second chunke");
}

#[test]
fn unlogged_requests_do_not_show() {
    let mut files = Files::empty();
    let mut fs = files.open().expect("init");

    // The block is written, the log entry is not.
    let request = fs.append_memory("lost", vec![]);
    let entry = files.write_block(&mut fs, request);
    assert!(!entry.bytes().is_empty());
    let request = fs.append_stream("s", b"lost too");
    files.write_block(&mut fs, request);
    let _ = fs.set_kv("k".into(), b"v".to_vec()).expect("set_kv");
    let _ = fs.put_session(&session("s", "i", 1, b"")).expect("put_session");

    assert_eq!(fs.get_kv("k"), None);
    assert_eq!(fs.get_session("s").expect("get"), None);
    assert!(files.read_stream(&fs, "s", 8).is_empty());

    // The id is not assigned again while the store is open.
    assert_eq!(files.append_memory(&mut fs, "kept", vec![]), 2);
    assert_eq!(files.query_memory(&fs, "kept").expect("query"), vec!["kept"]);

    // Nor do they show after a restart.
    let fs = files.open().expect("reopen");
    assert_eq!(fs.get_kv("k"), None);
    assert_eq!(files.query_memory(&fs, "kept").expect("query"), vec!["kept"]);
}

#[test]
fn everything_survives_a_restart() {
    let mut files = Files::empty();
    {
        let mut fs = files.open().expect("init");
        files.append_memory(&mut fs, "first memory", vec!["t".into()]);
        files.set_kv(&mut fs, "k", b"1");
        files.append_stream(&mut fs, "log", b"abc");
        files.append_memory(&mut fs, "second memory", vec![]);
        files.put_session(&mut fs, &session("s", "i", 9, b"p"));
        files.append_stream(&mut fs, "log", b"def");
        files.set_kv(&mut fs, "k", b"2");
    }
    // The last entry of the log was cut short.
    let torn = {
        let fs = files.open().expect("init");
        fs.set_kv("k".into(), b"3".to_vec()).expect("set_kv").bytes().clone()
    };
    files.wal.extend_from_slice(&torn[..torn.len() - 1]);

    let mut fs = files.open().expect("reopen");
    let mut texts = files.query_memory(&fs, "memory").expect("query");
    texts.sort();
    assert_eq!(texts, vec!["first memory", "second memory"]);
    assert_eq!(fs.get_kv("k"), Some(b"2".to_vec()));
    assert_eq!(fs.get_session("s").expect("get"), Some(session("s", "i", 9, b"p")));
    for buffer in 1..8 {
        assert_eq!(files.read_stream(&fs, "log", buffer), b"abcdef");
    }
    // The next id follows the recovered ones.
    assert_eq!(files.append_memory(&mut fs, "third", vec![]), 3);
}

#[test]
fn writes_after_a_crash_survive_the_next_one() {
    let mut files = Files::empty();
    for n in 0..5u8 {
        let mut fs = files.open().expect("init");
        for m in 0..n {
            assert_eq!(fs.get_kv(&format!("key{m}")), Some(vec![m]));
        }
        assert_eq!(fs.get_kv("torn"), None);
        files.set_kv(&mut fs, &format!("key{n}"), &[n]);
        // The machine stops while an entry is being written.
        let torn = fs.set_kv("torn".into(), vec![n; 9]).expect("set_kv").bytes().clone();
        let cut = [1, 7, 8, 9, torn.len() - 1][n as usize];
        files.wal.extend_from_slice(&torn[..cut]);
    }
    let fs = files.open().expect("init");
    for n in 0..5u8 {
        assert_eq!(fs.get_kv(&format!("key{n}")), Some(vec![n]));
    }
}

#[test]
fn a_missing_block_fails_the_query() {
    let mut files = Files::empty();
    let mut fs = files.open().expect("init");
    files.append_memory(&mut fs, "some text", vec![]);
    files.append_memory(&mut fs, "more text", vec![]);

    // The chunk file is too short for the second block.
    let chunk = files.chunks.get_mut(&0).expect("chunk");
    chunk.truncate(12);
    assert!(matches!(
        files.query_memory(&fs, "more"),
        Err(MemMapError::BlockNotFound { chunk_id: 0, offset: 9 })
    ));
    assert_eq!(files.query_memory(&fs, "some").expect("query"), vec!["some text"]);

    // The chunk file is gone.
    files.chunks.clear();
    assert!(matches!(
        files.query_memory(&fs, "some"),
        Err(MemMapError::BlockNotFound { chunk_id: 0, offset: 0 })
    ));
}

#[test]
fn texts_come_back_as_they_were_given() {
    let mut files = Files::empty();
    let mut fs = files.open().expect("init");
    let text = "na\u{ef}ve \u{4e16}\u{754c} \u{1f980} unicode";
    files.append_memory(&mut fs, text, vec![]);
    assert_eq!(files.query_memory(&fs, "unicode").expect("query"), vec![text]);

    // Bytes that are not UTF-8 are replaced.
    files.chunks.get_mut(&0).expect("chunk")[0] = 0xff;
    let results = files.query_memory(&fs, "unicode").expect("query");
    assert_eq!(results, vec!["\u{fffd}a\u{ef}ve \u{4e16}\u{754c} \u{1f980} unicode"]);
}

#[test]
fn ids_without_metadata_are_passed_over() {
    let mut files = Files::empty();
    let mut fs = files.open().expect("init");
    files.append_memory(&mut fs, "known", vec![]);
    let found = |id: u64| StoredDocument {
        id: Some(StoredValue::U64(id)),
        key: None,
        score_bits: 0,
    };
    let mut query = fs.query_memory(&vec![found(8), found(1), found(9), found(1), found(7)]);
    let mut read = 0;
    while let Some(meta) = query.next_block(&fs) {
        assert_eq!(meta.id, 1);
        query.supply(&meta, files.chunks.get(&0).map(|c| c.as_slice())).expect("supply");
        read += 1;
    }
    assert_eq!(read, 2);
    assert_eq!(query.results(), vec!["known", "known"]);
}

#[test]
fn corrupt_log_is_refused() {
    let mut files = Files::empty();
    {
        let mut fs = files.open().expect("init");
        files.set_kv(&mut fs, "a", b"b");
    }
    let end = files.wal.len() as u64;
    // A complete entry whose variant index is unknown.
    files.wal.extend_from_slice(&[4, 0, 0, 0, 0, 0, 0, 0, 9, 0, 0, 0]);
    match files.open() {
        Err(MemMapError::CorruptWal { offset, reason }) => {
            assert_eq!(offset, end);
            assert_eq!(reason, "invalid value: integer `9`, expected variant index 0 <= i < 5");
        }
        _ => panic!("expected a corrupt log"),
    }
}

#[test]
fn a_log_with_the_last_id_cannot_be_recovered() {
    let mut wal = vec![40, 0, 0, 0, 0, 0, 0, 0];
    wal.extend_from_slice(&[0, 0, 0, 0]);
    wal.extend_from_slice(&u64::MAX.to_le_bytes());
    wal.extend_from_slice(&[0; 28]);
    assert!(!MemMapFS::can_init(&wal));
    wal[12] = 0xfe;
    assert!(MemMapFS::can_init(&wal));
    let fs = MemMapFS::init(&wal, BlockStorage::open(0, None)).expect("init");
    // No id is left.
    assert!(!fs.can_append_memory("x"));
    assert!(fs.can_append_stream(b"x"));
}
