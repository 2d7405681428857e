//! What each operation promises, told by what goes in and what comes out.
//!
//! The contracts elsewhere speak of spec functions such as `applied` or
//! `found_hits`. The laws here say what those give in plain terms of sequences,
//! maps and numbers, for all inputs.
use vstd::prelude::*;
use vstd::utf8::*;

use crate::blocks::{
    after_write, at_end, block_at, chunk_bytes, cursor_at, cursor_behind, files_in_range,
    placeable, placement, BlockWrite, Cursor,
};
use crate::bytes::{begins_with, le_bytes, le_value, lemma_le_bytes_len};
use crate::chunk_name::{
    chunk_id_of, chunk_name_of, ends_in, padded, parsed_u32, without_extension,
};
use crate::codec::{bytes_field, decoded, payload_of, text_field, unknown_tag_text};
use crate::engine::{
    applied, blank_state, empty_engine, replayable, replayed_onto, session_of, session_place,
    stream_of, with_session, AgentState, EngineView, MemoryMetadata, StreamSegment,
};
use crate::fs::{
    after_request, answer, block_command, block_document, document_view, in_range, known_from,
    outcome, plain_entry, recoverable, BlockRequest, EntryRequest, OwnerView, QueryView, StoreView,
};
use crate::search::{
    field_views, first_documents, found_hit, found_hits, found_id, found_ids, hit_views,
    index_fields, keyed_document, memory_document, Document, FieldKind, FieldLayout, Hit, HitView,
    StoredDocument, StoredValue,
};
use crate::session::{
    newest_first, newest_first_sorts, newest_sessions, session_views, with_intent, Session,
    SessionView,
};
use crate::storage::{
    command_views, complete_end, entry_at, entry_of, log_of, names_unknown_tag, payload_at,
    payload_len_at, replayed, without_torn, CommandView, WalCommand,
};
use crate::stream::{
    ended, in_block, moved_on, next_part, settled, stream_content, stream_start, unread,
    StreamPosition,
};
use crate::text::{
    all_digits, decimal, digits_value, joined, lemma_decimal_spells, lemma_leading_zeros,
    text_of_bytes, texts, utf8_lossy,
};

verus! {

// ---- What the views tell -------------------------------------------------------

/// The view of a session tells all its fields.
pub proof fn session_view_tells_all(s: Session)
    ensures
        s@.id == s.id@,
        s@.intent_id == s.intent_id@,
        s@.created_at == s.created_at,
        s@.payload == s.payload@,
{
}

/// The view of a memory's metadata tells all its fields, every tag among them.
pub proof fn metadata_view_tells_all(m: MemoryMetadata)
    ensures
        m@.id == m.id,
        m@.chunk_id == m.chunk_id,
        m@.offset == m.offset,
        m@.length == m.length,
        m@.tags.len() == m.tags@.len(),
        forall|i: int| 0 <= i < m.tags@.len() ==> #[trigger] m@.tags[i] == m.tags@[i]@,
{
}

/// The view of a log command tells all its fields.
pub proof fn command_view_tells_all(c: WalCommand)
    ensures
        match c {
            WalCommand::AppendMemory { id, chunk_id, offset, length, tags } => {
                &&& c@ matches CommandView::AppendMemory {
                    id: i,
                    chunk_id: k,
                    offset: o,
                    length: l,
                    tags: t,
                }
                &&& i == id && k == chunk_id && o == offset && l == length
                &&& t.len() == tags@.len()
                &&& forall|j: int| 0 <= j < t.len() ==> #[trigger] t[j] == tags@[j]@
            },
            WalCommand::SetKv { key, value } => c@ == (CommandView::SetKv {
                key: key@,
                value: value@,
            }),
            WalCommand::DeleteKv { key } => c@ == (CommandView::DeleteKv { key: key@ }),
            WalCommand::AppendStream { key, chunk_id, offset, length } => c@ == (
            CommandView::AppendStream { key: key@, chunk_id, offset, length }),
            WalCommand::PutSession { session } => {
                &&& c@ matches CommandView::PutSession { session: s }
                &&& s.id == session.id@
                &&& s.intent_id == session.intent_id@
                &&& s.created_at == session.created_at
                &&& s.payload == session.payload@
            },
        },
{
}

/// The view of an agent's state tells all its fields; before anything is
/// published they are empty and zero.
pub proof fn state_view_tells_all(s: AgentState)
    ensures
        s@.status == s.status@,
        s@.active_memory_count == s.active_memory_count,
        s@.last_updated_id == s.last_updated_id,
        s@.extra == s.extra@,
        blank_state().status.len() == 0,
        blank_state().active_memory_count == 0,
        blank_state().last_updated_id == 0,
        forall|k: String| !(#[trigger] blank_state().extra.contains_key(k)),
{
}

/// The view of a document tells all its fields.
pub proof fn document_view_tells_all(d: Document)
    ensures
        d@.id == d.id,
        d@.text == d.text@,
        d.key is None <==> d@.key is None,
        d.key matches Some(k) ==> d@.key == Some(k@),
        d.tags is None <==> d@.tags is None,
        d.tags matches Some(t) ==> d@.tags == Some(t@),
        document_view(Some(d)) == Some(d@),
        document_view(None) is None,
{
}

/// The views of hits and index fields tell all their fields.
pub proof fn hit_and_field_views_tell_all(h: Hit, f: FieldLayout)
    ensures
        h@.key == h.key@,
        h@.score_bits == h.score_bits,
        f@.name == f.name@,
        f@.kind == f.kind,
        f@.searched == f.searched,
{
}

/// What lists say is what each of their elements says, in order.
pub proof fn list_views_tell_all(
    strings: Seq<String>,
    sessions: Seq<Session>,
    commands: Seq<WalCommand>,
    hits: Seq<Hit>,
    fields: Seq<FieldLayout>,
)
    ensures
        texts(strings).len() == strings.len(),
        forall|i: int| 0 <= i < strings.len() ==> #[trigger] texts(strings)[i] == strings[i]@,
        session_views(sessions).len() == sessions.len(),
        forall|i: int|
            0 <= i < sessions.len() ==> #[trigger] session_views(sessions)[i] == sessions[i]@,
        command_views(commands).len() == commands.len(),
        forall|i: int|
            0 <= i < commands.len() ==> #[trigger] command_views(commands)[i] == commands[i]@,
        hit_views(hits).len() == hits.len(),
        forall|i: int| 0 <= i < hits.len() ==> #[trigger] hit_views(hits)[i] == hits[i]@,
        field_views(fields).len() == fields.len(),
        forall|i: int| 0 <= i < fields.len() ==> #[trigger] field_views(fields)[i] == fields[i]@,
{
}

// ---- What a logged command does ---------------------------------------------------

/// An engine that nothing has happened to holds nothing, and assigns the id one.
pub proof fn empty_engine_holds_nothing(id: u64, key: Seq<char>)
    ensures
        !empty_engine().memories.contains_key(id),
        !empty_engine().kv.contains_key(key),
        !empty_engine().streams.contains_key(key),
        empty_engine().sessions.len() == 0,
        empty_engine().next_id == 1,
{
}

/// Setting a key gives it that very value, and touches nothing else.
pub proof fn set_key_has_its_value(
    engine: EngineView,
    key: Seq<char>,
    value: Seq<u8>,
    other: Seq<char>,
)
    ensures
        ({
            let after = applied(engine, CommandView::SetKv { key, value });
            &&& after.kv.contains_key(key)
            &&& after.kv[key] == value
            &&& other != key ==> after.kv.contains_key(other) == engine.kv.contains_key(other)
            &&& other != key ==> after.kv[other] == engine.kv[other]
            &&& after.memories == engine.memories
            &&& after.streams == engine.streams
            &&& after.sessions == engine.sessions
            &&& after.next_id == engine.next_id
        }),
{
}

/// A deleted key has no value, and nothing else is touched.
pub proof fn deleted_key_has_no_value(engine: EngineView, key: Seq<char>, other: Seq<char>)
    ensures
        ({
            let after = applied(engine, CommandView::DeleteKv { key });
            &&& !after.kv.contains_key(key)
            &&& other != key ==> after.kv.contains_key(other) == engine.kv.contains_key(other)
            &&& other != key && engine.kv.contains_key(other) ==> after.kv[other]
                == engine.kv[other]
            &&& after.memories == engine.memories
            &&& after.streams == engine.streams
            &&& after.sessions == engine.sessions
            &&& after.next_id == engine.next_id
        }),
{
}

/// A logged memory is filed under its id with the place and the tags that were
/// logged, and nothing but it and the next id is touched.
pub proof fn logged_memory_is_filed(
    engine: EngineView,
    id: u64,
    chunk_id: u32,
    offset: u64,
    length: u64,
    tags: Seq<Seq<char>>,
    other: u64,
)
    ensures
        ({
            let after = applied(
                engine,
                CommandView::AppendMemory { id, chunk_id, offset, length, tags },
            );
            &&& after.memories.contains_key(id)
            &&& after.memories[id].id == id
            &&& after.memories[id].chunk_id == chunk_id
            &&& after.memories[id].offset == offset
            &&& after.memories[id].length == length
            &&& after.memories[id].tags == tags
            &&& other != id ==> after.memories.contains_key(other) == engine.memories.contains_key(
                other,
            )
            &&& other != id ==> after.memories[other] == engine.memories[other]
            &&& after.kv == engine.kv
            &&& after.streams == engine.streams
            &&& after.sessions == engine.sessions
            &&& after.next_id >= engine.next_id
            &&& after.next_id > id
            &&& after.next_id == engine.next_id || after.next_id == id + 1
        }),
{
}

/// A block that is logged for a stream is its last one; the blocks before it,
/// the other streams and all else are as they were.
pub proof fn logged_segment_is_last(
    engine: EngineView,
    key: Seq<char>,
    chunk_id: u32,
    offset: u64,
    length: u64,
    other: Seq<char>,
)
    ensures
        ({
            let after = applied(
                engine,
                CommandView::AppendStream { key, chunk_id, offset, length },
            );
            let blocks = stream_of(after, key);
            &&& blocks.len() == stream_of(engine, key).len() + 1
            &&& blocks.last().chunk_id == chunk_id
            &&& blocks.last().offset == offset
            &&& blocks.last().length == length
            &&& blocks.drop_last() == stream_of(engine, key)
            &&& other != key ==> stream_of(after, other) == stream_of(engine, other)
            &&& after.memories == engine.memories
            &&& after.kv == engine.kv
            &&& after.sessions == engine.sessions
            &&& after.next_id == engine.next_id
        }),
{
    let before = stream_of(engine, key);
    let segment = StreamSegment { chunk_id, offset, length };
    assert(before.push(segment).drop_last() =~= before);
}

/// The blocks of a stream are those that are held under its key, and none where
/// nothing is held there.
pub proof fn stream_is_what_is_held(engine: EngineView, key: Seq<char>)
    ensures
        engine.streams.contains_key(key) ==> stream_of(engine, key) == engine.streams[key],
        !engine.streams.contains_key(key) ==> stream_of(engine, key).len() == 0,
{
}

proof fn lemma_place(sessions: Seq<SessionView>, id: Seq<char>)
    ensures
        match session_place(sessions, id) {
            Some(i) => 0 <= i < sessions.len() && sessions[i].id == id,
            None => forall|i: int| 0 <= i < sessions.len() ==> #[trigger] sessions[i].id != id,
        },
    decreases sessions.len(),
{
    if sessions.len() > 0 && sessions.last().id != id {
        let fewer = sessions.drop_last();
        lemma_place(fewer, id);
        if session_place(fewer, id) is None {
            assert forall|i: int| 0 <= i < sessions.len() implies #[trigger] sessions[i].id
                != id by {
                if i < fewer.len() {
                    assert(fewer[i] == sessions[i]);
                }
            }
        }
    }
}

/// Looking up an id finds a stored session with that id, and fails only where
/// there is none.
pub proof fn lookup_finds_stored_session(sessions: Seq<SessionView>, id: Seq<char>)
    ensures
        match session_of(sessions, id) {
            Some(s) => s.id == id && sessions.contains(s),
            None => forall|i: int| 0 <= i < sessions.len() ==> #[trigger] sessions[i].id != id,
        },
{
    lemma_place(sessions, id);
    if let Some(i) = session_place(sessions, id) {
        assert(sessions[i] == session_of(sessions, id)->Some_0);
    }
}

/// Once a session is logged, looking up its id gives that session with all its
/// fields, and looking up any other id gives what it gave before. The sessions
/// stay in their places, and nothing else is touched.
pub proof fn logged_session_is_got(
    engine: EngineView,
    session: SessionView,
    id: Seq<char>,
    intent_id: Seq<char>,
    created_at: u64,
    payload: Seq<u8>,
    other: Seq<char>,
)
    requires
        forall|i: int, j: int|
            #![trigger engine.sessions[i], engine.sessions[j]]
            0 <= i < j < engine.sessions.len() ==> engine.sessions[i].id
                != engine.sessions[j].id,
        session.id == id,
        session.intent_id == intent_id,
        session.created_at == created_at,
        session.payload == payload,
    ensures
        ({
            let after = applied(engine, CommandView::PutSession { session });
            &&& session_of(after.sessions, id) matches Some(got)
            &&& got.id == id
            &&& got.intent_id == intent_id
            &&& got.created_at == created_at
            &&& got.payload == payload
            &&& other != id ==> session_of(after.sessions, other) == session_of(
                engine.sessions,
                other,
            )
            &&& forall|i: int|
                #![trigger engine.sessions[i]]
                #![trigger after.sessions[i]]
                0 <= i < engine.sessions.len() && engine.sessions[i].id != id
                    ==> after.sessions[i] == engine.sessions[i]
            &&& forall|i: int, j: int|
                #![trigger after.sessions[i], after.sessions[j]]
                0 <= i < j < after.sessions.len() ==> after.sessions[i].id
                    != after.sessions[j].id
            &&& after.sessions.len() == engine.sessions.len() + (if session_of(
                engine.sessions,
                id,
            ) is Some {
                0int
            } else {
                1int
            })
            &&& after.memories == engine.memories
            &&& after.kv == engine.kv
            &&& after.streams == engine.streams
            &&& after.next_id == engine.next_id
        }),
{
    let after = applied(engine, CommandView::PutSession { session });
    crate::engine::put_session_can_be_got(engine.sessions, session, other);
    lemma_place(engine.sessions, id);
}

/// Once a session is logged, looking up its id gives that session, whatever was
/// stored before.
pub proof fn any_put_session_is_got(engine: EngineView, session: SessionView)
    ensures
        session_of(
            applied(engine, CommandView::PutSession { session }).sessions,
            session.id,
        ) == Some(session),
{
    let sessions = engine.sessions;
    let after = with_session(sessions, session);
    lemma_place(sessions, session.id);
    match session_place(sessions, session.id) {
        Some(i) => {
            lemma_place_after_update(sessions, session);
        },
        None => {
            assert(after.last() == session);
        },
    }
}

proof fn lemma_place_after_update(sessions: Seq<SessionView>, session: SessionView)
    requires
        session_place(sessions, session.id) is Some,
    ensures
        session_place(
            sessions.update(session_place(sessions, session.id)->Some_0, session),
            session.id,
        ) == session_place(sessions, session.id),
    decreases sessions.len(),
{
    lemma_place(sessions, session.id);
    let i = session_place(sessions, session.id)->Some_0;
    let after = sessions.update(i, session);
    if sessions.last().id != session.id {
        let fewer = sessions.drop_last();
        lemma_place(fewer, session.id);
        lemma_place_after_update(fewer, session);
        assert(after.drop_last() =~= fewer.update(i, session));
        assert(after.last() == sessions.last());
    } else {
        assert(after.last() == session);
    }
}

/// Replaying no command changes nothing; replaying one applies it; replaying
/// more is replaying the first of them and then the others.
pub proof fn replay_applies_one_by_one(
    engine: EngineView,
    command: CommandView,
    first: Seq<CommandView>,
    second: Seq<CommandView>,
)
    ensures
        replayed_onto(engine, Seq::empty()) == engine,
        replayed_onto(engine, seq![command]) == applied(engine, command),
        replayed_onto(engine, first + second) == replayed_onto(
            replayed_onto(engine, first),
            second,
        ),
{
    assert(seq![command].drop_last() =~= Seq::<CommandView>::empty());
    assert(replayed_onto(engine, Seq::empty()) == engine);
    crate::engine::replay_can_be_split(engine, first, second);
}

/// Every command can be replayed but a memory with the last id there is.
pub proof fn only_the_last_id_is_refused(command: CommandView)
    ensures
        replayable(command) <==> !(command is AppendMemory && command->AppendMemory_id
            == 0xffff_ffff_ffff_ffff),
{
}

/// A log can be recovered unless it holds a memory with the last id there is.
pub proof fn only_logs_with_the_last_id_are_refused(log: Seq<u8>)
    ensures
        recoverable(log) <==> !(replayed(log, 0) is Ok && exists|i: int|
            0 <= i < replayed(log, 0)->Ok_0.len() && (#[trigger] replayed(log, 0)->Ok_0[i]
                is AppendMemory) && replayed(log, 0)->Ok_0[i]->AppendMemory_id
                == 0xffff_ffff_ffff_ffff),
{
    if replayed(log, 0) is Ok {
        let all = replayed(log, 0)->Ok_0;
        if recoverable(log) {
            assert forall|i: int| 0 <= i < all.len() && (#[trigger] all[i] is AppendMemory)
                implies all[i]->AppendMemory_id != 0xffff_ffff_ffff_ffff by {
                assert(replayable(all[i]));
            }
        } else {
            let i = choose|i: int| 0 <= i < all.len() && !replayable(#[trigger] all[i]);
            assert(all[i] is AppendMemory);
        }
    }
}

// ---- From a request to what is logged and indexed ----------------------------------

/// The entry of a command that needs no document carries that very command and
/// its bytes.
pub proof fn plain_entry_carries_its_command(command: CommandView)
    ensures
        plain_entry(command).command == command,
        plain_entry(command).bytes == entry_of(command),
        plain_entry(command).document is None,
{
}

/// A value that is set is the one that is got once its entry is logged, and
/// again once its bytes are replayed.
pub proof fn set_value_is_got(
    store: StoreView,
    key: Seq<char>,
    value: Seq<u8>,
    entry: EntryRequest,
    other: Seq<char>,
)
    requires
        entry == plain_entry(CommandView::SetKv { key, value }),
    ensures
        ({
            let live = applied(store.engine, entry.command);
            let replayed = replayed_onto(store.engine, seq![entry.command]);
            &&& live.kv.contains_key(key) && live.kv[key] == value
            &&& replayed.kv.contains_key(key) && replayed.kv[key] == value
            &&& other != key ==> live.kv.contains_key(other) == store.engine.kv.contains_key(other)
            &&& other != key ==> live.kv[other] == store.engine.kv[other]
        }),
{
    replay_applies_one_by_one(store.engine, entry.command, Seq::empty(), Seq::empty());
}

/// For a memory, the place of its block, its id and its tags are logged as they
/// are, and the whole text is indexed under the id, with the tags.
pub proof fn memory_is_logged_and_indexed_whole(
    write: BlockWrite,
    data: Seq<u8>,
    id: u64,
    text: Seq<char>,
    tags: Seq<Seq<char>>,
)
    ensures
        ({
            let owner = OwnerView::Memory { id, text, tags };
            let request = BlockRequest { write, data, owner };
            &&& block_command(request) == (CommandView::AppendMemory {
                id,
                chunk_id: write.chunk_id,
                offset: write.offset,
                length: write.length,
                tags,
            })
            &&& block_document(owner) matches Some(d)
            &&& d.id == Some(id)
            &&& d.key is None
            &&& d.text == text
            &&& d.tags == Some(joined(tags))
            &&& in_range(request) <==> write.offset + write.length <= 0xffff_ffff_ffff_ffff && id
                < 0xffff_ffff_ffff_ffff
        }),
{
}

/// For a stream, the place of the block and the key are logged as they are, and
/// nothing is indexed.
pub proof fn stream_block_is_logged_whole(write: BlockWrite, data: Seq<u8>, key: Seq<char>)
    ensures
        ({
            let owner = OwnerView::Stream { key };
            let request = BlockRequest { write, data, owner };
            &&& block_command(request) == (CommandView::AppendStream {
                key,
                chunk_id: write.chunk_id,
                offset: write.offset,
                length: write.length,
            })
            &&& block_document(owner) is None
            &&& in_range(request) <==> write.offset + write.length <= 0xffff_ffff_ffff_ffff
        }),
{
}

/// Once the block is written and logged, blocks are appended behind it.
pub proof fn completed_request_moves_cursor(store: StoreView, request: BlockRequest)
    requires
        request.write.offset + request.write.length <= u64::MAX,
    ensures
        after_request(store, request).cursor.chunk_id == request.write.chunk_id,
        after_request(store, request).cursor.offset == request.write.offset
            + request.write.length,
        after_request(store, request).publisher == store.publisher,
        after_request(store, request).engine == applied(store.engine, block_command(request)),
{
}

// ---- Documents -----------------------------------------------------------------------

/// The document of a memory has its id, exactly its text and its tags with
/// spaces between them; that of a keyed text has the key and exactly the text.
pub proof fn documents_hold_whole_texts(
    id: u64,
    text: Seq<char>,
    tags: Seq<Seq<char>>,
    key: Seq<char>,
)
    ensures
        memory_document(id, text, tags).id == Some(id),
        memory_document(id, text, tags).key is None,
        memory_document(id, text, tags).text == text,
        memory_document(id, text, tags).tags == Some(joined(tags)),
        keyed_document(key, text).id is None,
        keyed_document(key, text).key == Some(key),
        keyed_document(key, text).text == text,
        keyed_document(key, text).tags is None,
{
}

/// The index has four fields, each stored: a number, a keyword and two texts,
/// and queries look into the texts.
pub proof fn index_has_four_fields()
    ensures
        index_fields().len() == 4,
        index_fields()[0].name == "id"@,
        index_fields()[0].kind == FieldKind::Number,
        !index_fields()[0].searched,
        index_fields()[1].name == "key"@,
        index_fields()[1].kind == FieldKind::Keyword,
        !index_fields()[1].searched,
        index_fields()[2].name == "text"@,
        index_fields()[2].kind == FieldKind::FullText,
        index_fields()[2].searched,
        index_fields()[3].name == "tags"@,
        index_fields()[3].kind == FieldKind::FullText,
        index_fields()[3].searched,
{
}

/// Joining puts one space between neighbours and nothing else: nothing gives
/// nothing, one part itself, and one more part follows behind a space.
pub proof fn joining_adds_single_spaces(parts: Seq<Seq<char>>, part: Seq<char>)
    ensures
        joined(Seq::empty()).len() == 0,
        joined(seq![part]) == part,
        parts.len() > 0 ==> joined(parts.push(part)) == joined(parts) + seq![' '] + part,
{
    assert(parts.push(part).drop_last() =~= parts);
    if parts.len() > 0 {
        assert(joined(parts).push(' ') + part =~= joined(parts) + seq![' '] + part);
    }
}

/// Each of the joined parts stands in the result as it is, behind the parts
/// before it and before those behind it, with single spaces between.
pub proof fn each_part_stands_in_joined(parts: Seq<Seq<char>>, i: int)
    requires
        0 <= i < parts.len(),
    ensures
        joined(parts) == (if i == 0 {
            Seq::empty()
        } else {
            joined(parts.take(i)).push(' ')
        }) + parts[i] + (if i == parts.len() - 1 {
            Seq::empty()
        } else {
            seq![' '] + joined(parts.skip(i + 1))
        }),
    decreases parts.len(),
{
    let before = if i == 0 {
        Seq::empty()
    } else {
        joined(parts.take(i)).push(' ')
    };
    if i == parts.len() - 1 {
        if i == 0 {
            assert(joined(parts) =~= before + parts[i] + Seq::<char>::empty());
        } else {
            assert(parts.drop_last() =~= parts.take(i));
            assert(joined(parts) =~= before + parts[i] + Seq::<char>::empty());
        }
    } else {
        let fewer = parts.drop_last();
        each_part_stands_in_joined(fewer, i);
        assert(fewer.take(i) =~= parts.take(i));
        assert(fewer[i] == parts[i]);
        let rest = parts.skip(i + 1);
        assert(rest.drop_last() =~= fewer.skip(i + 1));
        assert(rest.last() == parts.last());
        if i == fewer.len() - 1 {
            assert(rest =~= seq![parts.last()]);
            assert(joined(rest) == parts.last());
            assert(joined(parts) =~= before + parts[i] + (seq![' '] + joined(rest)));
        } else {
            let tail = joined(fewer.skip(i + 1));
            assert(joined(rest) == tail.push(' ') + parts.last());
            assert(joined(parts) =~= before + parts[i] + (seq![' '] + joined(rest)));
        }
    }
}

// ---- Searching -------------------------------------------------------------------------

/// A limit keeps the first documents, as many as it says or as there are.
pub proof fn limit_keeps_the_first(documents: Seq<StoredDocument>, limit: nat)
    ensures
        first_documents(documents, limit).len() == (if limit < documents.len() {
            limit
        } else {
            documents.len()
        }),
        forall|i: int|
            0 <= i < first_documents(documents, limit).len() ==> #[trigger] first_documents(
                documents,
                limit,
            )[i] == documents[i],
{
}

/// What a found document gives, by what it holds.
pub proof fn found_document_gives_what_it_holds(d: StoredDocument)
    ensures
        d.id matches Some(StoredValue::U64(id)) ==> found_id(d) == Some(id),
        !(d.id is Some && d.id->Some_0 is U64) ==> found_id(d) is None,
        d.key matches Some(StoredValue::Text(key)) ==> found_hit(d) == Some(
            HitView { key: key@, score_bits: d.score_bits },
        ),
        d.key is Some && !(d.key->Some_0 is Text) ==> found_hit(d) is None,
        d.key is None && d.id is Some && d.id->Some_0 is U64 ==> found_hit(d) == Some(
            HitView {
                key: decimal(d.id->Some_0->U64_0 as nat),
                score_bits: d.score_bits,
            },
        ),
        d.key is None && !(d.id is Some && d.id->Some_0 is U64) ==> found_hit(d) is None,
{
}

/// The ids of a search are those of the documents that have a number for an id,
/// in order and none left out.
pub proof fn ids_are_those_of_the_documents(documents: Seq<StoredDocument>)
    ensures
        found_ids(documents) == documents.filter(
            |d: StoredDocument| d.id is Some && d.id->Some_0 is U64,
        ).map_values(|d: StoredDocument| d.id->Some_0->U64_0),
    decreases documents.len(),
{
    reveal(Seq::filter);
    let has_id = |d: StoredDocument| d.id is Some && d.id->Some_0 is U64;
    let id_of = |d: StoredDocument| d.id->Some_0->U64_0;
    if documents.len() > 0 {
        let fewer = documents.drop_last();
        ids_are_those_of_the_documents(fewer);
        if has_id(documents.last()) {
            assert(fewer.filter(has_id).push(documents.last()).map_values(id_of)
                =~= fewer.filter(has_id).map_values(id_of).push(id_of(documents.last())));
        }
    }
    assert(found_ids(documents) =~= documents.filter(has_id).map_values(id_of));
}

/// Where every document has a text for a key, or no key and a number for an id,
/// each of the first `limit` of them gives one hit, in its place: under its key,
/// or the numeral of its id, and with its score. There are as many hits as the
/// limit allows and documents are found.
pub proof fn each_found_document_is_a_hit(documents: Seq<StoredDocument>, limit: nat)
    requires
        forall|i: int|
            0 <= i < documents.len() ==> {
                ||| (#[trigger] documents[i]).key is Some && documents[i].key->Some_0 is Text
                ||| documents[i].key is None && documents[i].id is Some
                    && documents[i].id->Some_0 is U64
            },
    ensures
        ({
            let hits = found_hits(first_documents(documents, limit));
            &&& hits.len() == (if limit < documents.len() {
                limit
            } else {
                documents.len()
            })
            &&& forall|i: int|
                0 <= i < hits.len() ==> {
                    &&& (#[trigger] hits[i]).score_bits == documents[i].score_bits
                    &&& documents[i].key is Some ==> hits[i].key
                        == documents[i].key->Some_0->Text_0@
                    &&& documents[i].key is None ==> hits[i].key == decimal(
                        documents[i].id->Some_0->U64_0 as nat,
                    )
                }
        }),
{
    let first = first_documents(documents, limit);
    limit_keeps_the_first(documents, limit);
    assert forall|i: int| 0 <= i < first.len() implies found_hit(#[trigger] first[i]) is Some by {
        found_document_gives_what_it_holds(documents[i]);
        assert(first[i] == documents[i]);
    }
    lemma_all_give_hits(first);
    let hits = found_hits(first);
    assert forall|i: int| 0 <= i < hits.len() implies {
        &&& (#[trigger] hits[i]).score_bits == documents[i].score_bits
        &&& documents[i].key is Some ==> hits[i].key == documents[i].key->Some_0->Text_0@
        &&& documents[i].key is None ==> hits[i].key == decimal(
            documents[i].id->Some_0->U64_0 as nat,
        )
    } by {
        assert(found_hit(first[i]) == Some(hits[i]));
        found_document_gives_what_it_holds(documents[i]);
    }
}

proof fn lemma_all_give_hits(documents: Seq<StoredDocument>)
    requires
        forall|i: int| 0 <= i < documents.len() ==> found_hit(#[trigger] documents[i]) is Some,
    ensures
        found_hits(documents).len() == documents.len(),
        forall|i: int|
            0 <= i < documents.len() ==> found_hit(documents[i]) == Some(
                #[trigger] found_hits(documents)[i],
            ),
    decreases documents.len(),
{
    if documents.len() > 0 {
        let fewer = documents.drop_last();
        assert forall|i: int| 0 <= i < fewer.len() implies found_hit(
            #[trigger] fewer[i],
        ) is Some by {
            assert(fewer[i] == documents[i]);
        }
        lemma_all_give_hits(fewer);
        assert(found_hit(documents[documents.len() - 1]) is Some);
        assert forall|i: int| 0 <= i < documents.len() implies found_hit(documents[i]) == Some(
            #[trigger] found_hits(documents)[i],
        ) by {
            if i < fewer.len() {
                assert(fewer[i] == documents[i]);
                assert(found_hits(documents)[i] == found_hits(fewer)[i]);
            }
        }
    }
}

/// Whatever the documents hold, the hits are those of the documents that have a
/// text for a key, or no key and a number for an id, in order and none left
/// out.
pub proof fn hits_are_those_of_the_documents(documents: Seq<StoredDocument>)
    ensures
        found_hits(documents) == documents.filter(
            |d: StoredDocument|
                (d.key is Some && d.key->Some_0 is Text) || (d.key is None && d.id is Some
                    && d.id->Some_0 is U64),
        ).map_values(
            |d: StoredDocument|
                HitView {
                    key: if d.key is Some {
                        d.key->Some_0->Text_0@
                    } else {
                        decimal(d.id->Some_0->U64_0 as nat)
                    },
                    score_bits: d.score_bits,
                },
        ),
    decreases documents.len(),
{
    reveal(Seq::filter);
    let gives = |d: StoredDocument|
        (d.key is Some && d.key->Some_0 is Text) || (d.key is None && d.id is Some
            && d.id->Some_0 is U64);
    let hit = |d: StoredDocument|
        HitView {
            key: if d.key is Some {
                d.key->Some_0->Text_0@
            } else {
                decimal(d.id->Some_0->U64_0 as nat)
            },
            score_bits: d.score_bits,
        };
    if documents.len() > 0 {
        let fewer = documents.drop_last();
        hits_are_those_of_the_documents(fewer);
        if gives(documents.last()) {
            assert(fewer.filter(gives).push(documents.last()).map_values(hit) =~= fewer.filter(
                gives,
            ).map_values(hit).push(hit(documents.last())));
        }
    }
    assert(found_hits(documents) =~= documents.filter(gives).map_values(hit));
}

/// Numerals are those of the decimal system: of digits, without leading zeros,
/// each digit worth ten times the next.
pub proof fn numerals_are_decimal(n: nat, digits: Seq<char>, digit: char)
    ensures
        decimal(n).len() > 0,
        forall|i: int| 0 <= i < decimal(n).len() ==> '0' <= #[trigger] decimal(n)[i] <= '9',
        digits_value(decimal(n)) == n,
        decimal(n).len() > 1 ==> decimal(n)[0] != '0',
        digits_value(Seq::empty()) == 0,
        '0' <= digit <= '9' ==> digits_value(digits.push(digit)) == 10 * digits_value(digits) + (
        digit as nat - '0' as nat),
        all_digits(digits) <==> forall|i: int|
            0 <= i < digits.len() ==> '0' <= #[trigger] digits[i] <= '9',
    decreases n,
{
    lemma_decimal_spells(n);
    assert(digits.push(digit).drop_last() =~= digits);
    assert forall|i: int| 0 <= i < decimal(n).len() implies '0' <= #[trigger] decimal(n)[i]
        <= '9' by {
        assert(crate::text::is_digit(decimal(n)[i]));
    }
    if n >= 10 {
        numerals_are_decimal(n / 10, Seq::empty(), '0');
        let m = n / 10;
        if m < 10 {
            assert(m >= 1);
            assert(decimal(m)[0] == crate::text::digit_char(m));
        } else {
            lemma_decimal_spells(m / 10);
            assert(decimal(m).len() == decimal(m / 10).len() + 1);
        }
        assert(decimal(n)[0] == decimal(m)[0]);
    }
    if all_digits(digits) {
        assert forall|i: int| 0 <= i < digits.len() implies '0' <= #[trigger] digits[i] <= '9' by {
            assert(crate::text::is_digit(digits[i]));
        }
    }
}

// ---- Queries ----------------------------------------------------------------------------

/// Before the next memory only ids of no memory are passed over.
pub proof fn only_unknown_ids_are_passed_over(engine: EngineView, ids: Seq<u64>)
    ensures
        ({
            let rest = known_from(engine, ids);
            let passed = ids.len() - rest.len();
            &&& 0 <= passed
            &&& rest == ids.skip(passed)
            &&& forall|i: int|
                0 <= i < passed ==> !engine.memories.contains_key(#[trigger] ids[i])
            &&& rest.len() > 0 ==> engine.memories.contains_key(rest[0])
        }),
    decreases ids.len(),
{
    let rest = known_from(engine, ids);
    if ids.len() > 0 && !engine.memories.contains_key(ids[0]) {
        let tail = ids.drop_first();
        only_unknown_ids_are_passed_over(engine, tail);
        let passed = ids.len() - rest.len();
        assert(tail.skip(passed - 1) =~= ids.skip(passed));
        assert forall|i: int| 0 <= i < passed implies !engine.memories.contains_key(
            #[trigger] ids[i],
        ) by {
            if i > 0 {
                assert(tail[i - 1] == ids[i]);
            }
        }
    } else {
        assert(ids.skip(0) =~= ids);
    }
}

/// A query answers with the text of each memory, in order: the one that the
/// bytes at its place in its chunk file stand for. Ids of no memory make no
/// difference.
pub proof fn answer_holds_each_text(
    engine: EngineView,
    ids: Seq<u64>,
    disk: Map<u32, Seq<u8>>,
    unknown: u64,
)
    requires
        forall|i: int| 0 <= i < ids.len() ==> engine.memories.contains_key(#[trigger] ids[i]),
        forall|i: int|
            0 <= i < ids.len() ==> {
                let m = engine.memories[#[trigger] ids[i]];
                disk.contains_key(m.chunk_id) && m.offset + m.length <= disk[m.chunk_id].len()
            },
    ensures
        answer(engine, ids, disk) matches Some(found) && found.len() == ids.len() && forall|i: int|
            0 <= i < ids.len() ==> {
                let m = engine.memories[ids[i]];
                #[trigger] found[i] == text_of_bytes(
                    disk[m.chunk_id].subrange(m.offset as int, m.offset + m.length),
                )
            },
        !engine.memories.contains_key(unknown) ==> answer(engine, seq![unknown] + ids, disk)
            == answer(engine, ids, disk),
    decreases ids.len(),
{
    let more = seq![unknown] + ids;
    assert(more.drop_first() =~= ids);
    if ids.len() > 0 {
        let rest = ids.drop_first();
        assert forall|i: int| 0 <= i < rest.len() implies engine.memories.contains_key(
            #[trigger] rest[i],
        ) by {
            assert(rest[i] == ids[i + 1]);
        }
        assert forall|i: int| 0 <= i < rest.len() implies {
            let m = engine.memories[#[trigger] rest[i]];
            disk.contains_key(m.chunk_id) && m.offset + m.length <= disk[m.chunk_id].len()
        } by {
            assert(rest[i] == ids[i + 1]);
        }
        answer_holds_each_text(engine, rest, disk, unknown);
        assert(engine.memories.contains_key(ids[0]));
        let found = answer(engine, ids, disk)->Some_0;
        let later = answer(engine, rest, disk)->Some_0;
        assert forall|i: int| 0 <= i < ids.len() implies {
            let m = engine.memories[ids[i]];
            #[trigger] found[i] == text_of_bytes(
                disk[m.chunk_id].subrange(m.offset as int, m.offset + m.length),
            )
        } by {
            if i > 0 {
                assert(found[i] == later[i - 1]);
                assert(rest[i - 1] == ids[i]);
            }
        }
    }
}

/// A memory whose block is missing, or reaches beyond its chunk file, leaves the
/// query without an answer.
pub proof fn missing_block_leaves_no_answer(
    engine: EngineView,
    ids: Seq<u64>,
    disk: Map<u32, Seq<u8>>,
    i: int,
)
    requires
        0 <= i < ids.len(),
        engine.memories.contains_key(ids[i]),
        ({
            let m = engine.memories[ids[i]];
            !disk.contains_key(m.chunk_id) || m.offset + m.length > disk[m.chunk_id].len()
        }),
    ensures
        answer(engine, ids, disk) is None,
    decreases ids.len(),
{
    if i > 0 {
        assert(ids.drop_first()[i - 1] == ids[i]);
        missing_block_leaves_no_answer(engine, ids.drop_first(), disk, i - 1);
    }
}

/// Bytes stand for the text that they encode, and for `utf8_lossy` of them only
/// where they encode none.
pub proof fn bytes_stand_for_their_text(bytes: Seq<u8>, text: Seq<char>)
    ensures
        text_of_bytes(encode_utf8(text)) == text,
        valid_utf8(bytes) ==> text_of_bytes(bytes) == decode_utf8(bytes),
        !valid_utf8(bytes) ==> text_of_bytes(bytes) == utf8_lossy(bytes),
{
    encode_utf8_valid_utf8(text);
    encode_utf8_decode_utf8(text);
}

// ---- Sessions -------------------------------------------------------------------------------

proof fn lemma_filter_count(list: Seq<SessionView>, intent_id: Seq<char>, s: SessionView)
    ensures
        with_intent(list, intent_id).to_multiset().count(s) == (if s.intent_id == intent_id {
            list.to_multiset().count(s)
        } else {
            0
        }),
    decreases list.len(),
{
    broadcast use vstd::seq_lib::group_to_multiset_ensures;

    reveal(Seq::filter);
    if list.len() > 0 {
        lemma_filter_count(list.drop_last(), intent_id, s);
        assert(list =~= list.drop_last().push(list.last()));
    } else {
        assert(list.to_multiset().count(s) == 0);
    }
}

/// The sessions that serve an intent are those stored sessions that have it for
/// their intent, each as often as it is stored.
pub proof fn selected_sessions_are_those_of_the_intent(
    list: Seq<SessionView>,
    intent_id: Seq<char>,
    s: SessionView,
)
    ensures
        with_intent(list, intent_id).contains(s) <==> list.contains(s) && s.intent_id == intent_id,
        with_intent(list, intent_id).to_multiset().count(s) == (if s.intent_id == intent_id {
            list.to_multiset().count(s)
        } else {
            0
        }),
{
    broadcast use vstd::seq_lib::group_to_multiset_ensures;

    let some = with_intent(list, intent_id);
    lemma_filter_count(list, intent_id, s);
    assert(some.contains(s) <==> some.to_multiset().count(s) > 0);
    assert(list.contains(s) <==> list.to_multiset().count(s) > 0);
}

/// The list for an intent holds a session as often as it is stored where it
/// serves that intent, and not at all where it serves another, whatever its
/// other fields are; no session stands behind an older one.
pub proof fn intent_list_is_exact(list: Seq<SessionView>, intent_id: Seq<char>, s: SessionView)
    ensures
        ({
            let found = newest_first(with_intent(list, intent_id));
            &&& found.to_multiset().count(s) == (if s.intent_id == intent_id {
                list.to_multiset().count(s)
            } else {
                0
            })
            &&& found.contains(s) <==> list.contains(s) && s.intent_id == intent_id
            &&& forall|i: int, j: int|
                0 <= i <= j < found.len() ==> (#[trigger] found[i]).created_at >= (
                #[trigger] found[j]).created_at
        }),
{
    broadcast use vstd::seq_lib::group_to_multiset_ensures;

    let some = with_intent(list, intent_id);
    let found = newest_first(some);
    lemma_filter_count(list, intent_id, s);
    newest_first_sorts(some);
    assert(found.contains(s) <==> found.to_multiset().count(s) > 0);
    assert(list.contains(s) <==> list.to_multiset().count(s) > 0);
    assert(crate::session::is_newest_first(found));
}

/// Listing everything gives each session as often as it is stored, no session
/// behind an older one, and sessions of the same age in the order in which they
/// are stored.
pub proof fn full_list_is_exact(list: Seq<SessionView>, time: u64)
    ensures
        ({
            let found = newest_first(list);
            &&& found.to_multiset() == list.to_multiset()
            &&& found.len() == list.len()
            &&& forall|i: int, j: int|
                0 <= i <= j < found.len() ==> (#[trigger] found[i]).created_at >= (
                #[trigger] found[j]).created_at
            &&& found.filter(|s: SessionView| s.created_at == time) == list.filter(
                |s: SessionView| s.created_at == time,
            )
        }),
{
    newest_first_sorts(list);
    crate::session::newest_first_keeps_order(list, time);
    assert(crate::session::is_newest_first(newest_first(list)));
}

/// A list with a limit holds as many sessions as the limit allows and are
/// stored, and each of them as often as the full list has it there: it is the
/// front of the full list, so that no session is left out for an older one.
pub proof fn limited_list_holds_the_newest(list: Seq<SessionView>, limit: nat, s: SessionView)
    ensures
        ({
            let found = newest_sessions(list, limit);
            &&& found.len() == (if limit < list.len() {
                limit
            } else {
                list.len()
            })
            &&& found == newest_first(list).take(found.len() as int)
            &&& found.contains(s) ==> list.contains(s)
            &&& list.contains(s) && !found.contains(s) ==> forall|i: int|
                0 <= i < found.len() ==> (#[trigger] found[i]).created_at >= s.created_at
            &&& forall|i: int, j: int|
                0 <= i <= j < found.len() ==> (#[trigger] found[i]).created_at >= (
                #[trigger] found[j]).created_at
        }),
{
    broadcast use vstd::seq_lib::group_to_multiset_ensures;

    let all = newest_first(list);
    let found = newest_sessions(list, limit);
    newest_first_sorts(list);
    full_list_is_exact(list, 0);
    assert(found =~= all.take(found.len() as int));
    assert(all.contains(s) <==> list.contains(s)) by {
        assert(all.contains(s) <==> all.to_multiset().count(s) > 0);
        assert(list.contains(s) <==> list.to_multiset().count(s) > 0);
    }
    if found.contains(s) {
        let k = choose|k: int| 0 <= k < found.len() && found[k] == s;
        assert(all[k] == s);
    }
    if list.contains(s) && !found.contains(s) {
        let k = choose|k: int| 0 <= k < all.len() && all[k] == s;
        if k < found.len() {
            assert(found[k] == s);
        }
        assert forall|i: int| 0 <= i < found.len() implies (#[trigger] found[i]).created_at
            >= s.created_at by {
            assert(found[i] == all[i]);
        }
    }
    assert forall|i: int, j: int| 0 <= i <= j < found.len() implies (
    #[trigger] found[i]).created_at >= (#[trigger] found[j]).created_at by {
        assert(found[i] == all[i] && found[j] == all[j]);
    }
}

// ---- Blocks and chunk files -----------------------------------------------------------------

/// A block goes behind the last one where the chunk stays within 64 MiB, and to
/// the start of the next chunk where it would not; its length is its own.
pub proof fn blocks_fill_chunks_of_64_mib(cursor: Cursor, length: u64)
    ensures
        placeable(cursor, length) <==> {
            &&& cursor.offset + length <= 0xffff_ffff_ffff_ffff
            &&& cursor.offset + length <= 67_108_864 || cursor.chunk_id < 0xffff_ffff
        },
        placeable(cursor, length) ==> {
            let write = placement(cursor, length);
            &&& write.length == length
            &&& cursor.offset + length <= 67_108_864 ==> !write.rolled && write.chunk_id
                == cursor.chunk_id && write.offset == cursor.offset
            &&& cursor.offset + length > 67_108_864 ==> write.rolled && write.chunk_id
                == cursor.chunk_id + 1 && write.offset == 0
            &&& cursor_at(write).chunk_id == write.chunk_id
            &&& cursor_at(write).offset == write.offset
            &&& cursor_behind(write).chunk_id == write.chunk_id
            &&& cursor_behind(write).offset == write.offset + length
        },
{
}

/// What the chunk files hold: a block is the bytes at its place, and appending
/// adds bytes to the end of one chunk and changes no other.
pub proof fn chunk_files_are_appended_to(
    disk: Map<u32, Seq<u8>>,
    write: BlockWrite,
    data: Seq<u8>,
    chunk_id: u32,
    offset: u64,
    length: u64,
)
    ensures
        block_at(disk, chunk_id, offset, length) == (if disk.contains_key(chunk_id) && offset
            + length <= disk[chunk_id].len() {
            Some(disk[chunk_id].subrange(offset as int, offset + length))
        } else {
            None
        }),
        after_write(disk, write, data).contains_key(write.chunk_id),
        disk.contains_key(write.chunk_id) ==> after_write(disk, write, data)[write.chunk_id]
            == disk[write.chunk_id] + data,
        !disk.contains_key(write.chunk_id) ==> after_write(disk, write, data)[write.chunk_id]
            == data,
        chunk_id != write.chunk_id ==> after_write(disk, write, data).contains_key(chunk_id)
            == disk.contains_key(chunk_id),
        chunk_id != write.chunk_id ==> after_write(disk, write, data)[chunk_id]
            == disk[chunk_id],
        disk.contains_key(chunk_id) ==> chunk_bytes(disk, chunk_id) == disk[chunk_id],
        !disk.contains_key(chunk_id) ==> chunk_bytes(disk, chunk_id).len() == 0,
{
    assert(Seq::<u8>::empty() + data =~= data);
}

/// The cursor is at the end where no chunk comes after its own and its offset is
/// the length of that chunk.
pub proof fn end_is_behind_all_chunks(cursor: Cursor, disk: Map<u32, Seq<u8>>)
    requires
        forall|id: u32| #[trigger] disk.contains_key(id) ==> id <= cursor.chunk_id,
        disk.contains_key(cursor.chunk_id) ==> disk[cursor.chunk_id].len() == cursor.offset,
        !disk.contains_key(cursor.chunk_id) ==> cursor.offset == 0,
    ensures
        at_end(cursor, disk),
{
}

/// The name of a chunk file is `chunk_`, the number of the chunk in decimal
/// digits, with zeros before it up to four digits, and `.bin`.
pub proof fn chunk_names_are_padded_numerals(id: u32)
    ensures
        ({
            let name = chunk_name_of(id);
            let digits = name.subrange(6, name.len() - 4);
            &&& name.len() >= 14
            &&& name.take(6) == "chunk_"@
            &&& name.skip(name.len() - 4) == ".bin"@
            &&& forall|i: int| 0 <= i < digits.len() ==> '0' <= #[trigger] digits[i] <= '9'
            &&& digits_value(digits) == id
            &&& digits.len() > 4 ==> digits[0] != '0'
        }),
{
    reveal_strlit("chunk_");
    reveal_strlit(".bin");
    let number = decimal(id as nat);
    let name = chunk_name_of(id);
    let digits = name.subrange(6, name.len() - 4);
    numerals_are_decimal(id as nat, Seq::empty(), '0');
    let zeros = (if number.len() < 4 {
        4 - number.len()
    } else {
        0
    }) as nat;
    lemma_leading_zeros(zeros, number);
    assert(digits =~= padded(number));
    assert(padded(number) == Seq::new(zeros, |i: int| '0') + number);
    assert(name.take(6) =~= "chunk_"@);
    assert(name.skip(name.len() - 4) =~= ".bin"@);
    assert forall|i: int| 0 <= i < digits.len() implies '0' <= #[trigger] digits[i] <= '9' by {
        if i >= zeros {
            assert(digits[i] == number[i - zeros]);
        }
    }
}

/// Which chunk a file name stands for: behind `chunk_` a number in decimal
/// digits that fits in 32 bits, with or without a plus sign.
pub proof fn numbers_behind_the_prefix_are_chunks(digits: Seq<char>)
    requires
        digits.len() > 0,
        forall|i: int| 0 <= i < digits.len() ==> '0' <= #[trigger] digits[i] <= '9',
    ensures
        digits_value(digits) <= 0xffff_ffff ==> chunk_id_of("chunk_"@ + digits) == Some(
            digits_value(digits) as u32,
        ),
        digits_value(digits) <= 0xffff_ffff ==> chunk_id_of("chunk_"@ + seq!['+'] + digits) == Some(
            digits_value(digits) as u32,
        ),
        digits_value(digits) > 0xffff_ffff ==> chunk_id_of("chunk_"@ + digits) is None,
        digits_value(digits) > 0xffff_ffff ==> chunk_id_of("chunk_"@ + seq!['+'] + digits) is None,
{
    reveal_strlit("chunk_");
    let plain = "chunk_"@ + digits;
    let signed = "chunk_"@ + seq!['+'] + digits;
    assert(plain.take(6) =~= "chunk_"@);
    assert(signed.take(6) =~= "chunk_"@);
    assert(plain.skip(6) =~= digits);
    assert(signed.skip(6) =~= seq!['+'] + digits);
    assert((seq!['+'] + digits).drop_first() =~= digits);
    assert(all_digits(digits));
    lemma_no_extension(digits);
    lemma_no_extension(seq!['+'] + digits);
}

proof fn lemma_no_extension(s: Seq<char>)
    requires
        s.len() > 0,
        s.last() != 'n',
    ensures
        without_extension(s) == s,
{
    if s.len() >= 4 && ends_in(s, seq!['.', 'b', 'i', 'n']) {
        assert(s.skip(s.len() - 4)[3] == s.last());
    }
}

/// An extension `.bin` at the end of a name makes no difference.
pub proof fn extension_makes_no_difference(rest: Seq<char>)
    ensures
        chunk_id_of("chunk_"@ + rest + ".bin"@) == chunk_id_of("chunk_"@ + rest),
{
    reveal_strlit("chunk_");
    reveal_strlit(".bin");
    let long = "chunk_"@ + rest + ".bin"@;
    let short = "chunk_"@ + rest;
    assert(long.take(6) =~= "chunk_"@);
    assert(short.take(6) =~= "chunk_"@);
    assert(short.skip(6) =~= rest);
    let s = rest + ".bin"@;
    assert(long.skip(6) =~= s);
    assert(s.skip(s.len() - 4) =~= seq!['.', 'b', 'i', 'n']);
    assert(s.take(s.len() - 4) =~= rest);
}

/// A name that does not end in `.bin` stands for a chunk only where it is
/// `chunk_` and the digits of its number, with or without a plus sign.
pub proof fn other_names_are_no_chunks(name: Seq<char>)
    requires
        chunk_id_of(name) is Some,
        name.len() >= 4 ==> name.skip(name.len() - 4) != ".bin"@,
    ensures
        name.len() > 6,
        name.take(6) == "chunk_"@,
        name[6] == '+' ==> {
            let digits = name.skip(7);
            &&& digits.len() > 0
            &&& forall|i: int| 0 <= i < digits.len() ==> '0' <= #[trigger] digits[i] <= '9'
            &&& digits_value(digits) == chunk_id_of(name)->Some_0
        },
        name[6] != '+' ==> {
            let digits = name.skip(6);
            &&& digits.len() > 0
            &&& forall|i: int| 0 <= i < digits.len() ==> '0' <= #[trigger] digits[i] <= '9'
            &&& digits_value(digits) == chunk_id_of(name)->Some_0
        },
{
    reveal_strlit("chunk_");
    reveal_strlit(".bin");
    let s = name.skip(6);
    if s.len() >= 4 && ends_in(s, seq!['.', 'b', 'i', 'n']) {
        assert(s.skip(s.len() - 4) =~= name.skip(name.len() - 4));
        assert(".bin"@ =~= seq!['.', 'b', 'i', 'n']);
    }
    assert(without_extension(s) == s);
    assert(parsed_u32(s) is Some);
    assert(name[6] == s[0]);
    assert(s.drop_first() =~= name.skip(7));
    if s[0] == '+' {
        lemma_digit_range(name.skip(7));
    } else {
        lemma_digit_range(s);
    }
}

proof fn lemma_digit_range(digits: Seq<char>)
    requires
        all_digits(digits),
    ensures
        forall|i: int| 0 <= i < digits.len() ==> '0' <= #[trigger] digits[i] <= '9',
{
    assert forall|i: int| 0 <= i < digits.len() implies '0' <= #[trigger] digits[i] <= '9' by {
        assert(crate::text::is_digit(digits[i]));
    }
}

// ---- Streams -----------------------------------------------------------------------------------

/// A stream starts before the first byte of its first block; without blocks it
/// holds nothing.
pub proof fn streams_start_at_their_first_byte(
    segments: Seq<StreamSegment>,
    disk: Map<u32, Seq<u8>>,
)
    ensures
        stream_start(segments).segments == segments,
        stream_start(segments).index == 0,
        stream_start(segments).offset == 0,
        in_block(stream_start(segments)),
        stream_content(Seq::<StreamSegment>::empty(), disk) == Some(Seq::<u8>::empty()),
{
}

/// A position moves on from blocks that have been read to their end, and from no
/// others.
pub proof fn only_read_blocks_are_left(p: StreamPosition)
    requires
        0 <= p.index <= p.segments.len(),
    ensures
        ({
            let q = settled(p);
            &&& q.segments == p.segments
            &&& p.index <= q.index <= p.segments.len()
            &&& q.index == p.index ==> q.offset == p.offset
            &&& q.index > p.index ==> q.offset == 0 && p.segments[p.index].length == p.offset
            &&& forall|i: int|
                p.index < i < q.index ==> (#[trigger] p.segments[i]).length == 0
            &&& q.index < p.segments.len() ==> p.segments[q.index].length != q.offset
            &&& ended(q) <==> q.index >= q.segments.len()
        }),
    decreases p.segments.len() - p.index,
{
    if p.index < p.segments.len() && p.segments[p.index].length == p.offset {
        only_read_blocks_are_left(StreamPosition { index: p.index + 1, offset: 0, ..p });
    }
}

/// A read takes what is left of its block, or as much as there is room for, from
/// where the last one ended; the next read goes on behind it.
pub proof fn read_takes_as_much_as_it_can(p: StreamPosition, capacity: nat)
    requires
        0 <= p.index < p.segments.len(),
        p.offset <= p.segments[p.index].length,
        p.segments[p.index].offset + p.offset <= u64::MAX,
    ensures
        ({
            let part = next_part(p, capacity);
            let left = p.segments[p.index].length - p.offset;
            &&& part.chunk_id == p.segments[p.index].chunk_id
            &&& part.offset == p.segments[p.index].offset + p.offset
            &&& part.length == (if capacity < left {
                capacity as int
            } else {
                left
            })
            &&& moved_on(p, part.length).offset == p.offset + part.length
            &&& moved_on(p, part.length).index == p.index
            &&& moved_on(p, part.length).segments == p.segments
            &&& in_block(p)
        }),
{
}

/// What is unread begins with the rest of the current block and goes on with the
/// blocks behind it.
pub proof fn unread_bytes_are_those_of_the_blocks(p: StreamPosition, disk: Map<u32, Seq<u8>>)
    requires
        0 <= p.index < p.segments.len(),
        ({
            let s = p.segments[p.index];
            disk.contains_key(s.chunk_id) && s.offset + s.length <= disk[s.chunk_id].len()
        }),
        unread(StreamPosition { index: p.index + 1, offset: 0, ..p }, disk) is Some,
    ensures
        ({
            let s = p.segments[p.index];
            unread(p, disk) == Some(
                disk[s.chunk_id].subrange(s.offset as int, s.offset + s.length).skip(
                    p.offset as int,
                ) + unread(StreamPosition { index: p.index + 1, offset: 0, ..p }, disk)->Some_0,
            )
        }),
{
}

// ---- The log ----------------------------------------------------------------------------------

/// Numbers are stored least significant byte first.
pub proof fn least_significant_byte_comes_first(value: nat, n: nat, byte: u8, rest: Seq<u8>)
    ensures
        le_bytes(value, n).len() == n,
        n > 0 ==> le_bytes(value, n)[0] == value % 256,
        n > 0 ==> le_bytes(value, n).drop_first() == le_bytes(value / 256, (n - 1) as nat),
        le_value(Seq::empty()) == 0,
        le_value(seq![byte] + rest) == byte + 256 * le_value(rest),
{
    lemma_le_bytes_len(value, n);
    if n > 0 {
        assert(le_bytes(value, n).drop_first() =~= le_bytes(value / 256, (n - 1) as nat));
    }
    assert((seq![byte] + rest).drop_first() =~= rest);
}

/// An entry is the length of its payload in eight bytes and the payload; entries
/// follow each other in the log.
pub proof fn entries_follow_each_other(
    command: CommandView,
    first: Seq<CommandView>,
    bytes: Seq<u8>,
    text: Seq<char>,
)
    ensures
        entry_of(command).len() == 8 + payload_of(command).len(),
        entry_of(command).take(8) == le_bytes(payload_of(command).len(), 8),
        entry_of(command).skip(8) == payload_of(command),
        bytes_field(bytes).take(8) == le_bytes(bytes.len(), 8),
        bytes_field(bytes).skip(8) == bytes,
        text_field(text).skip(8) == encode_utf8(text),
        log_of(Seq::empty()).len() == 0,
        log_of(first.push(command)) == log_of(first) + entry_of(command),
{
    lemma_le_bytes_len(payload_of(command).len(), 8);
    lemma_le_bytes_len(bytes.len(), 8);
    lemma_le_bytes_len(encode_utf8(text).len(), 8);
    assert(entry_of(command).take(8) =~= le_bytes(payload_of(command).len(), 8));
    assert(entry_of(command).skip(8) =~= payload_of(command));
    assert(bytes_field(bytes).take(8) =~= le_bytes(bytes.len(), 8));
    assert(bytes_field(bytes).skip(8) =~= bytes);
    assert(text_field(text).skip(8) =~= encode_utf8(text));
    crate::storage::append_extends_log(first, command);
}

/// The payload of each command begins with the number of its kind, and its
/// fields follow in order.
pub proof fn payloads_are_laid_out_in_order(
    id: u64,
    chunk_id: u32,
    offset: u64,
    length: u64,
    key: Seq<char>,
    value: Seq<u8>,
    session: SessionView,
)
    ensures
        payload_of(CommandView::SetKv { key, value }) =~= le_bytes(1, 4) + text_field(key)
            + bytes_field(value),
        payload_of(CommandView::DeleteKv { key }) =~= le_bytes(2, 4) + text_field(key),
        payload_of(CommandView::AppendStream { key, chunk_id, offset, length }) =~= le_bytes(3, 4)
            + text_field(key) + le_bytes(chunk_id as nat, 4) + le_bytes(offset as nat, 8)
            + le_bytes(length as nat, 8),
        payload_of(CommandView::PutSession { session }) =~= le_bytes(4, 4) + text_field(session.id)
            + text_field(session.intent_id) + le_bytes(session.created_at as nat, 8)
            + bytes_field(session.payload),
        payload_of(
            CommandView::AppendMemory { id, chunk_id, offset, length, tags: Seq::empty() },
        ) =~= le_bytes(0, 4) + le_bytes(id as nat, 8) + le_bytes(chunk_id as nat, 4) + le_bytes(
            offset as nat,
            8,
        ) + le_bytes(length as nat, 8) + le_bytes(0, 8),
{
}

/// One more tag of a memory adds itself to the payload and one to the count.
pub proof fn payload_holds_every_tag(
    id: u64,
    chunk_id: u32,
    offset: u64,
    length: u64,
    tags: Seq<Seq<char>>,
)
    ensures
        payload_of(CommandView::AppendMemory { id, chunk_id, offset, length, tags }).take(32)
            =~= le_bytes(0, 4) + le_bytes(id as nat, 8) + le_bytes(chunk_id as nat, 4) + le_bytes(
            offset as nat,
            8,
        ) + le_bytes(length as nat, 8),
        payload_of(CommandView::AppendMemory { id, chunk_id, offset, length, tags }).skip(32)
            =~= le_bytes(tags.len(), 8) + crate::codec::text_fields(tags),
        crate::codec::text_fields(Seq::empty()).len() == 0,
        tags.len() > 0 ==> crate::codec::text_fields(tags) == text_field(tags[0])
            + crate::codec::text_fields(tags.drop_first()),
{
    lemma_le_bytes_len(0, 4);
    lemma_le_bytes_len(id as nat, 8);
    lemma_le_bytes_len(chunk_id as nat, 4);
    lemma_le_bytes_len(offset as nat, 8);
    lemma_le_bytes_len(length as nat, 8);
}

/// What bytes decode to is a command whose payload they begin with; they decode
/// to none only where they begin with the payload of no command.
pub proof fn bytes_decode_to_what_they_begin_with(bytes: Seq<u8>, command: CommandView)
    ensures
        decoded(bytes) matches Some(c) ==> payload_of(c).len() <= bytes.len() && bytes.take(
            payload_of(c).len() as int,
        ) == payload_of(c),
        payload_of(command).len() <= bytes.len() <= u64::MAX && bytes.take(
            payload_of(command).len() as int,
        ) == payload_of(command) ==> decoded(bytes) == Some(command),
        begins_with(bytes, payload_of(command)) <==> payload_of(command).len() <= bytes.len()
            && bytes.take(payload_of(command).len() as int) == payload_of(command),
{
    if payload_of(command).len() <= bytes.len() <= u64::MAX && bytes.take(
        payload_of(command).len() as int,
    ) == payload_of(command) {
        assert(begins_with(bytes, payload_of(command)));
        let c = choose|c: CommandView| begins_with(bytes, #[trigger] payload_of(c));
        crate::codec::payload_determines_command(bytes, c, command);
    }
}

/// A log that is too short for a length prefix, or whose prefix announces more
/// than there is, replays to nothing.
pub proof fn incomplete_log_replays_to_nothing(log: Seq<u8>)
    requires
        log.len() < 8 || le_value(log.take(8)) > log.len() - 8,
    ensures
        replayed(log, 0) == Ok::<Seq<CommandView>, int>(Seq::empty()),
        without_torn(log).len() == 0,
{
    if log.len() >= 8 {
        assert(log.subrange(0, 8) =~= log.take(8));
    }
}

/// A log that begins with a complete entry replays to the command of that entry
/// and then to what the rest of it replays to.
pub proof fn replay_takes_one_entry_at_a_time(payload: Seq<u8>, rest: Seq<u8>)
    requires
        payload.len() <= u64::MAX,
    ensures
        ({
            let log = le_bytes(payload.len(), 8) + payload + rest;
            match (decoded(payload), replayed(rest, 0)) {
                (Some(c), Ok(commands)) => replayed(log, 0) == Ok::<Seq<CommandView>, int>(
                    seq![c] + commands,
                ),
                (Some(_), Err(offset)) => replayed(log, 0) == Err::<Seq<CommandView>, int>(
                    8 + payload.len() + offset,
                ),
                (None, _) => replayed(log, 0) == Err::<Seq<CommandView>, int>(0),
            }
        }),
{
    let head = le_bytes(payload.len(), 8) + payload;
    let log = head + rest;
    lemma_le_bytes_len(payload.len(), 8);
    crate::bytes::lemma_le_bounds();
    crate::bytes::lemma_le_round_trip(payload.len(), 8);
    assert(log.subrange(0, 8) =~= le_bytes(payload.len(), 8));
    assert(log.subrange(8, 8int + payload.len()) =~= payload);
    lemma_shifted_replay(head, rest, 0);
}

/// Bytes before a log shift where its entries start, and nothing else.
proof fn lemma_shifted_replay(head: Seq<u8>, rest: Seq<u8>, pos: int)
    requires
        0 <= pos <= rest.len(),
    ensures
        match replayed(rest, pos) {
            Ok(commands) => replayed(head + rest, head.len() + pos) == Ok::<
                Seq<CommandView>,
                int,
            >(commands),
            Err(offset) => replayed(head + rest, head.len() + pos) == Err::<
                Seq<CommandView>,
                int,
            >(head.len() + offset),
        },
    decreases rest.len() - pos,
{
    let log = head + rest;
    let at = head.len() + pos;
    if pos + 8 <= rest.len() {
        assert(log.subrange(at, at + 8) =~= rest.subrange(pos, pos + 8));
    }
    assert(entry_at(log, at) == entry_at(rest, pos));
    if entry_at(rest, pos) {
        let next = pos + 8 + payload_len_at(rest, pos);
        assert(payload_at(log, at) =~= payload_at(rest, pos));
        lemma_shifted_replay(head, rest, next);
    }
}

/// The complete entries of a log are all that is left of it when what was cut
/// short at its end is cut off.
pub proof fn cutting_keeps_complete_entries(payload: Seq<u8>, rest: Seq<u8>)
    requires
        payload.len() <= u64::MAX,
    ensures
        without_torn(le_bytes(payload.len(), 8) + payload + rest) == le_bytes(payload.len(), 8)
            + payload + without_torn(rest),
{
    let head = le_bytes(payload.len(), 8) + payload;
    let log = head + rest;
    lemma_le_bytes_len(payload.len(), 8);
    crate::bytes::lemma_le_bounds();
    crate::bytes::lemma_le_round_trip(payload.len(), 8);
    assert(log.subrange(0, 8) =~= le_bytes(payload.len(), 8));
    lemma_shifted_end(head, rest, 0);
    assert(without_torn(log) =~= head + without_torn(rest));
}

proof fn lemma_shifted_end(head: Seq<u8>, rest: Seq<u8>, pos: int)
    requires
        0 <= pos <= rest.len(),
    ensures
        complete_end(head + rest, head.len() + pos) == head.len() + complete_end(rest, pos),
        pos <= complete_end(rest, pos) <= rest.len(),
    decreases rest.len() - pos,
{
    let log = head + rest;
    let at = head.len() + pos;
    if pos + 8 <= rest.len() {
        assert(log.subrange(at, at + 8) =~= rest.subrange(pos, pos + 8));
    }
    assert(entry_at(log, at) == entry_at(rest, pos));
    if entry_at(rest, pos) {
        lemma_shifted_end(head, rest, pos + 8 + payload_len_at(rest, pos));
    }
}

/// A payload with an unknown kind is refused with a reason that names the number
/// of the kind: five and above are unknown.
pub proof fn unknown_kinds_are_named(tag: u32, payload: Seq<u8>, reason: Seq<char>)
    requires
        names_unknown_tag(payload, reason),
        tag >= 5,
        payload.len() >= 4,
        payload.take(4) == le_bytes(tag as nat, 4),
    ensures
        reason == "invalid value: integer `"@ + decimal(tag as nat)
            + "`, expected variant index 0 <= i < 5"@,
{
    lemma_le_bytes_len(tag as nat, 4);
    assert(begins_with(payload, le_bytes(tag as nat, 4)));
    assert(reason == unknown_tag_text(tag));
}

/// Files whose lengths are in range are taken for such, and so is a position at
/// the end of a stream.
pub proof fn files_and_ends_are_in_range(disk: Map<u32, Seq<u8>>, p: StreamPosition)
    ensures
        (forall|id: u32|
            #![trigger disk[id]]
            disk.contains_key(id) ==> disk[id].len() <= 0xffff_ffff_ffff_ffff) ==> files_in_range(
            disk,
        ),
        p.index == p.segments.len() ==> in_block(p),
{
    if forall|id: u32|
        #![trigger disk[id]]
        disk.contains_key(id) ==> disk[id].len() <= 0xffff_ffff_ffff_ffff {
        assert forall|id: u32| #[trigger] disk.contains_key(id) implies disk[id].len()
            <= u64::MAX by {
            assert(disk[id].len() <= 0xffff_ffff_ffff_ffff);
        }
    }
}

/// A query comes to the texts that it has, followed by those that are still to
/// be read.
pub proof fn outcome_follows_results(engine: EngineView, q: QueryView, disk: Map<u32, Seq<u8>>)
    ensures
        answer(engine, q.remaining, disk) matches Some(t) ==> outcome(engine, q, disk) == Some(
            q.results + t,
        ),
        answer(engine, q.remaining, disk) is None ==> outcome(engine, q, disk) is None,
{
}

} // verus!
