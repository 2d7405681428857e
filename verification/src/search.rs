//! What goes into the full-text index, and what is made of its answers.
use vstd::prelude::*;

use crate::laws::{each_found_document_is_a_hit, ids_are_those_of_the_documents};
use crate::text::{decimal, join_with_spaces, joined, texts, to_decimal};

verus! {

/// How many bytes the index writer may buffer: enough for typical agent
/// workloads.
pub const WRITER_HEAP_BYTES: usize = 50_000_000;

/// How a field is indexed. Every field is stored as well.
#[derive(Debug, Clone, Copy, PartialEq, Eq, Structural)]
pub enum FieldKind {
    /// An unsigned number that documents can be found and deleted by.
    Number,
    /// A string that is indexed as a whole.
    Keyword,
    /// A text that is split into words.
    FullText,
}

/// One field of the index.
#[derive(Debug)]
pub struct FieldLayout {
    pub name: String,
    pub kind: FieldKind,
    /// Queries look into this field where they name none.
    pub searched: bool,
}

/// What a [`FieldLayout`] says.
pub struct FieldView {
    pub name: Seq<char>,
    pub kind: FieldKind,
    pub searched: bool,
}

impl View for FieldLayout {
    type V = FieldView;

    open spec fn view(&self) -> FieldView {
        FieldView { name: self.name@, kind: self.kind, searched: self.searched }
    }
}

/// What an index is opened with.
#[derive(Debug)]
pub struct IndexLayout {
    /// The fields, in the order in which they are declared.
    pub fields: Vec<FieldLayout>,
    /// How many bytes the writer may buffer.
    pub writer_heap_bytes: usize,
}

/// What each of `fields` says, in order.
pub open spec fn field_views(fields: Seq<FieldLayout>) -> Seq<FieldView> {
    fields.map_values(|f: FieldLayout| f@)
}

/// The fields of the index: the id of a memory, the key of a text that is none,
/// the text itself, and tags. Queries look into texts and tags.
pub open spec fn index_fields() -> Seq<FieldView> {
    seq![
        FieldView { name: "id"@, kind: FieldKind::Number, searched: false },
        FieldView { name: "key"@, kind: FieldKind::Keyword, searched: false },
        FieldView { name: "text"@, kind: FieldKind::FullText, searched: true },
        FieldView { name: "tags"@, kind: FieldKind::FullText, searched: true },
    ]
}

/// A document for the index. A field that is `None` is left out.
#[derive(Debug)]
pub struct Document {
    pub id: Option<u64>,
    pub key: Option<String>,
    pub text: String,
    pub tags: Option<String>,
}

/// What a [`Document`] says.
pub struct DocumentView {
    pub id: Option<u64>,
    pub key: Option<Seq<char>>,
    pub text: Seq<char>,
    pub tags: Option<Seq<char>>,
}

/// The characters of a string, where there is one.
pub open spec fn text_of(s: Option<String>) -> Option<Seq<char>> {
    match s {
        Some(s) => Some(s@),
        None => None,
    }
}

impl View for Document {
    type V = DocumentView;

    open spec fn view(&self) -> DocumentView {
        DocumentView {
            id: self.id,
            key: text_of(self.key),
            text: self.text@,
            tags: text_of(self.tags),
        }
    }
}

/// The document of a memory.
pub open spec fn memory_document(id: u64, text: Seq<char>, tags: Seq<Seq<char>>) -> DocumentView {
    DocumentView { id: Some(id), key: None, text, tags: Some(joined(tags)) }
}

/// The document of a text with a custom key.
pub open spec fn keyed_document(key: Seq<char>, text: Seq<char>) -> DocumentView {
    DocumentView { id: None, key: Some(key), text, tags: None }
}

/// A number that documents are found by, and the field that holds it.
#[derive(Debug)]
pub struct IdTerm {
    pub field: String,
    pub id: u64,
}

/// The document has the number of `term` in its field.
pub open spec fn has_term(document: DocumentView, term: IdTerm) -> bool {
    term.field@ == "id"@ && document.id == Some(term.id)
}

/// The first value of a field in a document that a query found.
#[derive(Debug)]
pub enum StoredValue {
    U64(u64),
    Text(String),
    Other,
}

/// A document that a query found: its id and its key, as far as it has them,
/// and the bits of its score.
#[derive(Debug)]
pub struct StoredDocument {
    pub id: Option<StoredValue>,
    pub key: Option<StoredValue>,
    pub score_bits: u32,
}

/// A full-text search result. The score is an IEEE 754 single, as its bits.
#[derive(Debug)]
pub struct Hit {
    pub key: String,
    pub score_bits: u32,
}

/// What a [`Hit`] says.
pub struct HitView {
    pub key: Seq<char>,
    pub score_bits: u32,
}

impl View for Hit {
    type V = HitView;

    open spec fn view(&self) -> HitView {
        HitView { key: self.key@, score_bits: self.score_bits }
    }
}

impl Clone for Hit {
    fn clone(&self) -> (copy: Self)
        ensures
            copy@ == self@,
            copy.key@ == self.key@,
            copy.score_bits == self.score_bits,
    {
        Hit { key: self.key.clone(), score_bits: self.score_bits }
    }
}

/// What each of `hits` says, in order.
pub open spec fn hit_views(hits: Seq<Hit>) -> Seq<HitView> {
    hits.map_values(|h: Hit| h@)
}

/// The id of the memory that a document stands for, where it stands for one.
pub open spec fn found_id(document: StoredDocument) -> Option<u64> {
    match document.id {
        Some(StoredValue::U64(id)) => Some(id),
        _ => None,
    }
}

/// The ids of the memories among `documents`, in order.
pub open spec fn found_ids(documents: Seq<StoredDocument>) -> Seq<u64>
    decreases documents.len(),
{
    if documents.len() == 0 {
        Seq::empty()
    } else {
        let before = found_ids(documents.drop_last());
        match found_id(documents.last()) {
            Some(id) => before.push(id),
            None => before,
        }
    }
}

/// The hit that a document gives: its key, or its id as a numeral where it has
/// no key at all.
pub open spec fn found_hit(document: StoredDocument) -> Option<HitView> {
    let score_bits = document.score_bits;
    match document.key {
        Some(StoredValue::Text(key)) => Some(HitView { key: key@, score_bits }),
        Some(_) => None,
        None => match found_id(document) {
            Some(id) => Some(HitView { key: decimal(id as nat), score_bits }),
            None => None,
        },
    }
}

/// The hits that `documents` give, in order.
pub open spec fn found_hits(documents: Seq<StoredDocument>) -> Seq<HitView>
    decreases documents.len(),
{
    if documents.len() == 0 {
        Seq::empty()
    } else {
        let before = found_hits(documents.drop_last());
        match found_hit(documents.last()) {
            Some(hit) => before.push(hit),
            None => before,
        }
    }
}

/// The first `limit` of `documents`, or all of them where there are no more.
pub open spec fn first_documents(documents: Seq<StoredDocument>, limit: nat) -> Seq<
    StoredDocument,
> {
    if limit < documents.len() {
        documents.take(limit as int)
    } else {
        documents
    }
}

/// The full-text index, as far as it can be told without its files.
pub struct SearchProvider;

impl SearchProvider {
    /// What the index is opened, or created, with.
    pub fn open() -> (layout: IndexLayout)
        ensures
            field_views(layout.fields@) == index_fields(),
            layout.writer_heap_bytes == WRITER_HEAP_BYTES,
            layout.writer_heap_bytes == 50_000_000,
            layout.fields@.len() == 4,
            layout.fields@[0].name@ == "id"@ && layout.fields@[0].kind == FieldKind::Number,
            layout.fields@[1].name@ == "key"@ && layout.fields@[1].kind == FieldKind::Keyword,
            layout.fields@[2].name@ == "text"@ && layout.fields@[2].kind == FieldKind::FullText,
            layout.fields@[3].name@ == "tags"@ && layout.fields@[3].kind == FieldKind::FullText,
            !layout.fields@[0].searched && !layout.fields@[1].searched,
            layout.fields@[2].searched && layout.fields@[3].searched,
    {
        let mut fields: Vec<FieldLayout> = Vec::new();
        fields.push(
            FieldLayout { name: "id".to_owned(), kind: FieldKind::Number, searched: false },
        );
        fields.push(
            FieldLayout { name: "key".to_owned(), kind: FieldKind::Keyword, searched: false },
        );
        fields.push(
            FieldLayout { name: "text".to_owned(), kind: FieldKind::FullText, searched: true },
        );
        fields.push(
            FieldLayout { name: "tags".to_owned(), kind: FieldKind::FullText, searched: true },
        );
        assert(field_views(fields@) =~= index_fields());
        IndexLayout { fields, writer_heap_bytes: WRITER_HEAP_BYTES }
    }

    /// The document under which a memory is indexed: its id, its text, and its
    /// tags with spaces between them.
    pub fn index_memory(id: u64, text: &str, tags: &Vec<String>) -> (document: Document)
        ensures
            document@ == memory_document(id, text@, texts(tags@)),
            document.id == Some(id),
            document.key is None,
            document.text@ == text@,
            document.tags is Some,
            document.tags->Some_0@ == joined(texts(tags@)),
    {
        Document {
            id: Some(id),
            key: None,
            text: text.to_owned(),
            tags: Some(join_with_spaces(tags)),
        }
    }

    /// The document under which a text with a custom key is indexed.
    pub fn index(key: &str, text: &str) -> (document: Document)
        ensures
            document@ == keyed_document(key@, text@),
            document.id is None,
            document.key is Some,
            document.key->Some_0@ == key@,
            document.text@ == text@,
            document.tags is None,
    {
        Document { id: None, key: Some(key.to_owned()), text: text.to_owned(), tags: None }
    }

    /// What the documents of the memory `id` are found by when they are deleted.
    pub fn delete_memory(id: u64) -> (term: IdTerm)
        ensures
            term.field@ == "id"@,
            term.id == id,
    {
        IdTerm { field: "id".to_owned(), id }
    }

    /// The ids of the memories among the first `limit` documents that a query
    /// found, most relevant first as the documents are. Documents without an id
    /// are passed over.
    pub fn search(documents: &Vec<StoredDocument>, limit: usize) -> (ids: Vec<u64>)
        requires
            limit > 0,
        ensures
            ids@ == found_ids(first_documents(documents@, limit as nat)),
            ids@.len() <= limit,
            ids@ == documents@.take(
                (if limit < documents@.len() {
                    limit as int
                } else {
                    documents@.len() as int
                }),
            ).filter(|d: StoredDocument| d.id is Some && d.id->Some_0 is U64).map_values(
                |d: StoredDocument| d.id->Some_0->U64_0,
            ),
    {
        let count: usize = if limit < documents.len() {
            limit
        } else {
            documents.len()
        };
        let mut ids: Vec<u64> = Vec::new();
        let mut i: usize = 0;
        assert(documents@.take(0) =~= Seq::empty());
        while i < count
            invariant
                i <= count <= documents@.len(),
                ids@ == found_ids(documents@.take(i as int)),
                ids@.len() <= i,
            decreases count - i,
        {
            assert(documents@.take(i + 1).drop_last() =~= documents@.take(i as int));
            if let Some(StoredValue::U64(id)) = &documents[i].id {
                ids.push(*id);
            }
            i = i + 1;
        }
        assert(documents@.take(count as int) =~= first_documents(documents@, limit as nat));
        proof {
            ids_are_those_of_the_documents(documents@.take(count as int));
        }
        ids
    }

    /// The hits among the first `limit` documents that a query found, in the
    /// order of the documents.
    pub fn search_hits(documents: &Vec<StoredDocument>, limit: usize) -> (hits: Vec<Hit>)
        requires
            limit > 0,
        ensures
            hit_views(hits@) == found_hits(first_documents(documents@, limit as nat)),
            hits@.len() <= limit,
            (forall|i: int|
                0 <= i < documents@.len() ==> {
                    ||| (#[trigger] documents@[i]).key is Some && documents@[i].key->Some_0 is Text
                    ||| documents@[i].key is None && documents@[i].id is Some
                        && documents@[i].id->Some_0 is U64
                }) ==> {
                &&& hits@.len() == (if limit < documents@.len() {
                    limit as nat
                } else {
                    documents@.len()
                })
                &&& forall|i: int|
                    0 <= i < hits@.len() ==> {
                        &&& (#[trigger] hits@[i]).score_bits == documents@[i].score_bits
                        &&& documents@[i].key is Some ==> hits@[i].key@
                            == documents@[i].key->Some_0->Text_0@
                        &&& documents@[i].key is None ==> hits@[i].key@ == decimal(
                            documents@[i].id->Some_0->U64_0 as nat,
                        )
                    }
            },
    {
        let count: usize = if limit < documents.len() {
            limit
        } else {
            documents.len()
        };
        let mut hits: Vec<Hit> = Vec::new();
        let mut i: usize = 0;
        assert(documents@.take(0) =~= Seq::empty());
        assert(hit_views(hits@) =~= Seq::empty());
        while i < count
            invariant
                i <= count <= documents@.len(),
                hit_views(hits@) == found_hits(documents@.take(i as int)),
                hits@.len() <= i,
            decreases count - i,
        {
            let ghost before = hit_views(hits@);
            assert(documents@.take(i + 1).drop_last() =~= documents@.take(i as int));
            let document = &documents[i];
            match &document.key {
                Some(value) => {
                    if let StoredValue::Text(key) = value {
                        hits.push(Hit { key: key.clone(), score_bits: document.score_bits });
                    }
                },
                None => {
                    if let Some(StoredValue::U64(id)) = &document.id {
                        hits.push(Hit { key: to_decimal(*id), score_bits: document.score_bits });
                    }
                },
            }
            assert(hit_views(hits@) =~= found_hits(documents@.take(i + 1)));
            i = i + 1;
        }
        assert(documents@.take(count as int) =~= first_documents(documents@, limit as nat));
        proof {
            if forall|i: int|
                0 <= i < documents@.len() ==> {
                    ||| (#[trigger] documents@[i]).key is Some && documents@[i].key->Some_0 is Text
                    ||| documents@[i].key is None && documents@[i].id is Some
                        && documents@[i].id->Some_0 is U64
                } {
                each_found_document_is_a_hit(documents@, limit as nat);
                assert forall|i: int| 0 <= i < hits@.len() implies {
                    &&& (#[trigger] hits@[i]).score_bits == documents@[i].score_bits
                    &&& documents@[i].key is Some ==> hits@[i].key@
                        == documents@[i].key->Some_0->Text_0@
                    &&& documents@[i].key is None ==> hits@[i].key@ == decimal(
                        documents@[i].id->Some_0->U64_0 as nat,
                    )
                } by {
                    assert(hit_views(hits@)[i] == hits@[i]@);
                }
            }
        }
        hits
    }
}

/// What an indexed memory comes back as: a stored document with its id and no
/// key.
pub open spec fn stands_for(stored: StoredDocument, document: DocumentView) -> bool {
    &&& match document.id {
        Some(id) => stored.id == Some(StoredValue::U64(id)),
        None => stored.id is None,
    }
    &&& match document.key {
        Some(key) => stored.key matches Some(StoredValue::Text(k)) && k@ == key,
        None => stored.key is None,
    }
}

/// A memory that a query finds is found under its own id, and as a hit under
/// the numeral of that id.
pub proof fn memories_are_found_by_id(
    stored: StoredDocument,
    id: u64,
    text: Seq<char>,
    tags: Seq<Seq<char>>,
)
    requires
        stands_for(stored, memory_document(id, text, tags)),
    ensures
        found_id(stored) == Some(id),
        found_hit(stored) == Some(
            HitView { key: decimal(id as nat), score_bits: stored.score_bits },
        ),
{
}

/// A text with a custom key that a query finds is a hit under that key, and is
/// taken for no memory.
pub proof fn keyed_texts_are_found_by_key(stored: StoredDocument, key: Seq<char>, text: Seq<char>)
    requires
        stands_for(stored, keyed_document(key, text)),
    ensures
        found_id(stored) is None,
        found_hit(stored) == Some(HitView { key, score_bits: stored.score_bits }),
{
}

/// The document was indexed for a memory.
pub open spec fn is_memory(stored: StoredDocument) -> bool {
    exists|id: u64, text: Seq<char>, tags: Seq<Seq<char>>|
        stands_for(stored, #[trigger] memory_document(id, text, tags))
}

/// The document was indexed for a text with a custom key.
pub open spec fn is_keyed_text(stored: StoredDocument) -> bool {
    exists|key: Seq<char>, text: Seq<char>|
        stands_for(stored, #[trigger] keyed_document(key, text))
}

/// Every document is one that the library had indexed.
pub open spec fn all_indexed(documents: Seq<StoredDocument>) -> bool {
    forall|i: int|
        0 <= i < documents.len() ==> is_memory(#[trigger] documents[i]) || is_keyed_text(
            documents[i],
        )
}

/// What the found document `stored` gives: a memory an id and a hit under its
/// numeral, a keyed text a hit and no id.
proof fn lemma_indexed_document(stored: StoredDocument)
    requires
        is_memory(stored) || is_keyed_text(stored),
    ensures
        found_hit(stored) is Some,
        is_memory(stored) <==> found_id(stored) is Some,
        found_id(stored) matches Some(id) ==> found_hit(stored)->Some_0.key == decimal(id as nat),
{
    if is_memory(stored) {
        let (id, text, tags) = choose|id: u64, text: Seq<char>, tags: Seq<Seq<char>>|
            stands_for(stored, #[trigger] memory_document(id, text, tags));
        memories_are_found_by_id(stored, id, text, tags);
    } else {
        let (key, text) = choose|key: Seq<char>, text: Seq<char>|
            stands_for(stored, #[trigger] keyed_document(key, text));
        keyed_texts_are_found_by_key(stored, key, text);
    }
}

/// No document that was found is dropped: each gives one hit, in its place and
/// with its score.
pub proof fn every_document_gives_a_hit(documents: Seq<StoredDocument>)
    requires
        all_indexed(documents),
    ensures
        found_hits(documents).len() == documents.len(),
        forall|i: int|
            0 <= i < documents.len() ==> found_hit(documents[i]) == Some(
                #[trigger] found_hits(documents)[i],
            ),
    decreases documents.len(),
{
    if documents.len() > 0 {
        let fewer = documents.drop_last();
        assert forall|i: int| 0 <= i < fewer.len() implies is_memory(#[trigger] fewer[i])
            || is_keyed_text(fewer[i]) by {
            assert(fewer[i] == documents[i]);
        }
        every_document_gives_a_hit(fewer);
        assert(documents[documents.len() - 1] == documents.last());
        lemma_indexed_document(documents.last());
        assert forall|i: int| 0 <= i < documents.len() implies found_hit(documents[i]) == Some(
            #[trigger] found_hits(documents)[i],
        ) by {
            if i < fewer.len() {
                assert(fewer[i] == documents[i]);
                assert(found_hits(documents)[i] == found_hits(fewer)[i]);
            }
        }
    }
}

/// The limit is the only cut-off: with a smaller one, the hits are the first of
/// those with the larger one, as many as the limit allows.
pub proof fn limit_is_the_only_cut(documents: Seq<StoredDocument>, smaller: nat, larger: nat)
    requires
        all_indexed(documents),
        1 <= smaller <= larger,
    ensures
        ({
            let few = found_hits(first_documents(documents, smaller));
            let many = found_hits(first_documents(documents, larger));
            &&& few.len() == if smaller < many.len() {
                smaller
            } else {
                many.len()
            }
            &&& few == many.take(few.len() as int)
        }),
{
    let a = first_documents(documents, smaller);
    let b = first_documents(documents, larger);
    assert forall|i: int| 0 <= i < a.len() implies is_memory(#[trigger] a[i]) || is_keyed_text(
        a[i],
    ) by {
        assert(a[i] == documents[i]);
    }
    assert forall|i: int| 0 <= i < b.len() implies is_memory(#[trigger] b[i]) || is_keyed_text(
        b[i],
    ) by {
        assert(b[i] == documents[i]);
    }
    every_document_gives_a_hit(a);
    every_document_gives_a_hit(b);
    let few = found_hits(a);
    let many = found_hits(b);
    assert forall|i: int| 0 <= i < few.len() implies few[i] == many[i] by {
        assert(a[i] == b[i]);
        assert(found_hit(a[i]) == Some(few[i]));
        assert(found_hit(b[i]) == Some(many[i]));
    }
    assert(few =~= many.take(few.len() as int));
}

/// The keys of those of `hits` whose document, the one in the same place, was
/// indexed for a memory.
pub open spec fn memory_keys(documents: Seq<StoredDocument>, hits: Seq<HitView>) -> Seq<Seq<char>>
    recommends
        documents.len() == hits.len(),
    decreases documents.len(),
{
    if documents.len() == 0 {
        Seq::empty()
    } else {
        let before = memory_keys(documents.drop_last(), hits.drop_last());
        if is_memory(documents.last()) {
            before.push(hits.last().key)
        } else {
            before
        }
    }
}

/// A search for memories and a search for hits give the same answer: the ids, as
/// numerals, are in order the keys of exactly those hits that are memories.
pub proof fn ids_are_keys_of_memory_hits(documents: Seq<StoredDocument>)
    requires
        all_indexed(documents),
    ensures
        found_ids(documents).map_values(|id: u64| decimal(id as nat)) == memory_keys(
            documents,
            found_hits(documents),
        ),
    decreases documents.len(),
{
    let numeral = |id: u64| decimal(id as nat);
    if documents.len() > 0 {
        let fewer = documents.drop_last();
        assert forall|i: int| 0 <= i < fewer.len() implies is_memory(#[trigger] fewer[i])
            || is_keyed_text(fewer[i]) by {
            assert(fewer[i] == documents[i]);
        }
        ids_are_keys_of_memory_hits(fewer);
        assert(documents[documents.len() - 1] == documents.last());
        lemma_indexed_document(documents.last());
        assert(found_hits(documents).drop_last() =~= found_hits(fewer));
        if let Some(id) = found_id(documents.last()) {
            assert(found_ids(documents).map_values(numeral) =~= found_ids(fewer).map_values(
                numeral,
            ).push(decimal(id as nat)));
        }
    }
    assert(found_ids(documents).map_values(numeral) =~= memory_keys(
        documents,
        found_hits(documents),
    ));
}

/// Deleting a memory from the index hits its own document and no other: neither
/// that of another memory nor a text with a custom key.
pub proof fn deletion_hits_one_memory(
    term: IdTerm,
    id: u64,
    text: Seq<char>,
    tags: Seq<Seq<char>>,
    key: Seq<char>,
)
    requires
        term.field@ == "id"@,
    ensures
        has_term(memory_document(id, text, tags), term) <==> term.id == id,
        !has_term(keyed_document(key, text), term),
{
}

} // verus!
