//! The store as a whole.
//!
//! [`MemMapFS`] decides what is to be written, and where; its caller does the
//! writing. A request that stores bytes goes through two steps. First the block
//! is placed and written to its chunk file, which is opened before where it is a
//! new one ([`MemMapFS::chunk_opened`]); then, once
//! [`MemMapFS::block_written`] has been told, the log entry is written. Only
//! when [`MemMapFS::entry_logged`] has been told does the request show in what
//! the store holds, so that nothing shows that would not survive a restart.
use tokio::sync::watch::{Receiver, Sender};
use vstd::prelude::*;
use vstd::slice::slice_to_vec;
use vstd::utf8::*;

use crate::blocks::{
    after_write, at_end, block_at, cursor_at, cursor_behind, later_writes_keep_blocks, placeable,
    placement, written_block_reads_back, BlockStorage, BlockWrite, Cursor,
};
use crate::engine::{
    agrees_with_log, applied, blank_state, empty_engine, next_id_is_fresh,
    recovered_next_id_is_fresh, replayable, replayed_onto, session_of, stream_of, AgentState,
    EngineView, MemMapEngine, MemoryMetadata, StreamSegment,
};
use crate::error::MemMapError;
use crate::laws::{any_put_session_is_got, only_unknown_ids_are_passed_over};
use crate::search::{
    first_documents, found_hits, found_id, found_ids, hit_views, keyed_document, memory_document,
    Document, DocumentView, Hit, SearchProvider, StoredDocument,
};
use crate::session::{
    newest_first, newest_sessions, session_views, with_intent, Session, SessionView,
};
use crate::storage::{
    command_views, entry_of, log_of, names_unknown_tag, payload_at, recovered_log_can_be_extended,
    replayed, without_torn, CommandView, LogManager, WalCommand,
};
use crate::stream::{
    later_writes_keep_streams, segment_extends_stream, stream_content, stream_start, StreamReader,
};
use crate::text::{
    bytes_to_text, decimal, joined, text_of_bytes, text_survives_encoding, texts,
};
use crate::watch::{copy_receiver, feeds, latest_state, seen_state};

verus! {

/// How many memories a query returns at most.
pub const MAX_RESULTS: usize = 20;

// ---- Requests on their way to the files ---------------------------------------

/// What a block is written for.
enum BlockOwner {
    Memory { id: u64, text: String, tags: Vec<String> },
    Stream { key: String },
}

/// What a block is written for.
pub enum OwnerView {
    Memory { id: u64, text: Seq<char>, tags: Seq<Seq<char>> },
    Stream { key: Seq<char> },
}

/// A block on its way to its chunk file.
pub struct PendingBlock {
    write: BlockWrite,
    data: Vec<u8>,
    owner: BlockOwner,
}

/// What a [`PendingBlock`] says: where the block goes, its bytes, and what it is
/// written for.
pub struct BlockRequest {
    pub write: BlockWrite,
    pub data: Seq<u8>,
    pub owner: OwnerView,
}

impl View for PendingBlock {
    type V = BlockRequest;

    closed spec fn view(&self) -> BlockRequest {
        BlockRequest {
            write: self.write,
            data: self.data@,
            owner: match self.owner {
                BlockOwner::Memory { id, text, tags } => {
                    OwnerView::Memory { id, text: text@, tags: texts(tags@) }
                },
                BlockOwner::Stream { key } => OwnerView::Stream { key: key@ },
            },
        }
    }
}

impl PendingBlock {
    /// Where the block goes.
    pub fn write(&self) -> (write: BlockWrite)
        ensures
            write == self@.write,
    {
        self.write
    }

    /// The bytes to append to the chunk file.
    pub fn data(&self) -> (data: &Vec<u8>)
        ensures
            data@ == self@.data,
    {
        &self.data
    }
}

/// The request can be completed: neither its end nor its id is out of range.
pub open spec fn in_range(request: BlockRequest) -> bool {
    &&& request.write.offset + request.write.length <= u64::MAX
    &&& request.owner matches OwnerView::Memory { id, .. } ==> id < u64::MAX
}

/// The command that is logged for a block.
pub open spec fn block_command(request: BlockRequest) -> CommandView {
    let BlockWrite { chunk_id, offset, length, .. } = request.write;
    match request.owner {
        OwnerView::Memory { id, tags, .. } => {
            CommandView::AppendMemory { id, chunk_id, offset, length, tags }
        },
        OwnerView::Stream { key } => CommandView::AppendStream { key, chunk_id, offset, length },
    }
}

/// The document that is indexed for a block.
pub open spec fn block_document(owner: OwnerView) -> Option<DocumentView> {
    match owner {
        OwnerView::Memory { id, text, tags } => Some(memory_document(id, text, tags)),
        OwnerView::Stream { .. } => None,
    }
}

/// An entry on its way to the log.
pub struct PendingEntry {
    command: WalCommand,
    bytes: Vec<u8>,
    document: Option<Document>,
}

/// What a [`PendingEntry`] says: the command, its log entry, and the document to
/// be indexed once it is logged.
pub struct EntryRequest {
    pub command: CommandView,
    pub bytes: Seq<u8>,
    pub document: Option<DocumentView>,
}

/// What a document says, where there is one.
pub open spec fn document_view(document: Option<Document>) -> Option<DocumentView> {
    match document {
        Some(d) => Some(d@),
        None => None,
    }
}

impl View for PendingEntry {
    type V = EntryRequest;

    closed spec fn view(&self) -> EntryRequest {
        EntryRequest {
            command: self.command@,
            bytes: self.bytes@,
            document: document_view(self.document),
        }
    }
}

/// The entry that logs `command` and nothing else.
pub open spec fn plain_entry(command: CommandView) -> EntryRequest {
    EntryRequest { command, bytes: entry_of(command), document: None }
}

impl PendingEntry {
    /// The bytes to append to the log.
    pub fn bytes(&self) -> (bytes: &Vec<u8>)
        ensures
            bytes@ == self@.bytes,
    {
        &self.bytes
    }

    /// The entry of `command`.
    fn of(command: WalCommand, document: Option<Document>) -> (r: Result<Self, MemMapError>)
        ensures
            r is Ok,
            r->Ok_0@ == (EntryRequest {
                command: command@,
                bytes: entry_of(command@),
                document: document_view(document),
            }),
            replayed(r->Ok_0@.bytes, 0) == Ok::<Seq<CommandView>, int>(seq![command@]),
    {
        match LogManager::append(&command) {
            Ok(bytes) => Ok(PendingEntry { command, bytes, document }),
            Err(e) => Err(e),
        }
    }
}

// ---- The store -----------------------------------------------------------------

/// What the store holds, where it appends, and the sender through which it
/// publishes the agent's state.
#[verifier::ext_equal]
pub struct StoreView {
    pub engine: EngineView,
    pub cursor: Cursor,
    pub publisher: Sender<AgentState>,
}

/// The decisions of a store: its index, the place where it appends, and its
/// publishing channel.
pub struct MemMapFS {
    engine: MemMapEngine,
    block_storage: BlockStorage,
    state_rx: Receiver<AgentState>,
}

impl View for MemMapFS {
    type V = StoreView;

    closed spec fn view(&self) -> StoreView {
        StoreView {
            engine: self.engine@,
            cursor: self.block_storage@,
            publisher: self.engine.publisher(),
        }
    }
}

/// Every command that a log holds can be replayed.
pub open spec fn recoverable(log: Seq<u8>) -> bool {
    replayed(log, 0) matches Ok(commands) ==> forall|i: int|
        0 <= i < commands.len() ==> replayable(#[trigger] commands[i])
}

impl MemMapFS {
    /// The index is well formed, and the receiver that copies are made of is of
    /// the store's own channel and has not yet marked any update as seen.
    pub closed spec fn wf(&self) -> bool {
        &&& self.engine.wf()
        &&& feeds(self.engine.publisher(), self.state_rx)
        &&& seen_state(self.state_rx) == blank_state()
    }

    /// Whether [`Self::init`] can recover from a log with the bytes `log`.
    pub fn can_init(log: &[u8]) -> (b: bool)
        ensures
            b == recoverable(log@),
    {
        match LogManager::replay(log) {
            Err(_) => true,
            Ok(commands) => {
                let ghost views = command_views(commands@);
                let mut i: usize = 0;
                while i < commands.len()
                    invariant
                        i <= commands@.len(),
                        views == command_views(commands@),
                        replayed(log@, 0) == Ok::<Seq<CommandView>, int>(views),
                        forall|j: int| 0 <= j < i ==> replayable(#[trigger] views[j]),
                    decreases commands@.len() - i,
                {
                    if let WalCommand::AppendMemory { id, .. } = &commands[i] {
                        if *id == u64::MAX {
                            proof {
                                let all = replayed(log@, 0)->Ok_0;
                                assert(all == views);
                                assert(!replayable(all[i as int]));
                            }
                            return false;
                        }
                    }
                    i = i + 1;
                }
                true
            },
        }
    }

    /// Recovers a store from its log, by replaying every command, and from the
    /// end of its chunk files. Before the log is written to again, the caller
    /// cuts it to [`LogManager::complete_length`].
    pub fn init(log: &[u8], block_storage: BlockStorage) -> (r: Result<Self, MemMapError>)
        requires
            recoverable(log@),
        ensures
            match r {
                Ok(store) => {
                    &&& store.wf()
                    &&& replayed(log@, 0) matches Ok(commands)
                    &&& store@.engine == replayed_onto(empty_engine(), commands)
                    &&& store@.cursor == block_storage@
                    &&& latest_state(store@.publisher) == blank_state()
                },
                Err(MemMapError::CorruptWal { offset, reason }) => {
                    &&& replayed(log@, 0) == Err::<Seq<CommandView>, int>(offset as int)
                    &&& names_unknown_tag(payload_at(log@, offset as int), reason@)
                },
                Err(_) => false,
            },
    {
        let commands = match LogManager::replay(log) {
            Ok(commands) => commands,
            Err(e) => {
                return Err(e);
            },
        };
        let (mut engine, state_rx) = MemMapEngine::new();
        proof {
            let all = replayed(log@, 0)->Ok_0;
            assert(all == command_views(commands@));
            assert forall|i: int| 0 <= i < commands@.len() implies replayable(
                #[trigger] commands@[i]@,
            ) by {
                assert(replayable(all[i]));
            }
        }
        engine.replay_commands(commands.as_slice());
        Ok(MemMapFS { engine, block_storage, state_rx })
    }

    /// Whether there is an id and a place for a memory with the text `text`.
    pub fn can_append_memory(&self, text: &str) -> (b: bool)
        ensures
            b == (self@.engine.next_id < u64::MAX && placeable(
                self@.cursor,
                encode_utf8(text@).len() as u64,
            )),
    {
        let length: usize = text.as_bytes().len();
        self.engine.has_next_id() && self.block_storage.can_append(length as u64)
    }

    /// Takes in a new memory: assigns it the next id, and places its text in a
    /// chunk file. Of what the store holds only the next id changes.
    pub fn append_memory(&mut self, text: &str, tags: Vec<String>) -> (request: PendingBlock)
        requires
            old(self).wf(),
            old(self)@.engine.next_id < u64::MAX,
            placeable(old(self)@.cursor, encode_utf8(text@).len() as u64),
        ensures
            final(self).wf(),
            in_range(request@),
            request@ == (BlockRequest {
                write: placement(old(self)@.cursor, encode_utf8(text@).len() as u64),
                data: encode_utf8(text@),
                owner: OwnerView::Memory {
                    id: old(self)@.engine.next_id as u64,
                    text: text@,
                    tags: texts(tags@),
                },
            }),
            final(self)@ == (StoreView {
                engine: EngineView {
                    next_id: old(self)@.engine.next_id + 1,
                    ..old(self)@.engine
                },
                ..old(self)@
            }),
    {
        let id: u64 = self.engine.next_memory_id();
        let data = slice_to_vec(text.as_bytes());
        let write = self.block_storage.append(data.as_slice());
        PendingBlock { write, data, owner: BlockOwner::Memory { id, text: text.to_owned(), tags } }
    }

    /// Whether there is a place for `data`.
    pub fn can_append_stream(&self, data: &[u8]) -> (b: bool)
        ensures
            b == placeable(self@.cursor, data@.len() as u64),
    {
        self.block_storage.can_append(data.len() as u64)
    }

    /// Takes in `data` for the end of the stream `key`, and places it in a chunk
    /// file. What the store holds does not change yet.
    pub fn append_stream(&self, key: &str, data: &[u8]) -> (request: PendingBlock)
        requires
            placeable(self@.cursor, data@.len() as u64),
        ensures
            in_range(request@),
            request@ == (BlockRequest {
                write: placement(self@.cursor, data@.len() as u64),
                data: data@,
                owner: OwnerView::Stream { key: key@ },
            }),
    {
        let write = self.block_storage.append(data);
        PendingBlock {
            write,
            data: slice_to_vec(data),
            owner: BlockOwner::Stream { key: key.to_owned() },
        }
    }

    /// Whether `request` is where a block of its length would be placed now.
    pub fn awaits(&self, request: &PendingBlock) -> (b: bool)
        ensures
            b == (placeable(self@.cursor, request@.write.length) && request@.write == placement(
                self@.cursor,
                request@.write.length,
            )),
    {
        self.block_storage.awaits(&request.write)
    }

    /// Goes on with `request`, whose block goes to a new chunk, once the last
    /// chunk file is flushed and that of the new chunk is open: blocks are now
    /// appended there.
    pub fn chunk_opened(&mut self, request: &PendingBlock)
        requires
            old(self).wf(),
            request@.write.rolled,
            placeable(old(self)@.cursor, request@.write.length),
            request@.write == placement(old(self)@.cursor, request@.write.length),
        ensures
            final(self).wf(),
            final(self)@ == (StoreView { cursor: cursor_at(request@.write), ..old(self)@ }),
    {
        self.block_storage.roll_chunk(&request.write);
    }

    /// Whether the block of `request` goes to where blocks are appended.
    pub fn reached(&self, request: &PendingBlock) -> (b: bool)
        ensures
            b == (self@.cursor == cursor_at(request@.write) && request@.write.offset
                + request@.write.length <= u64::MAX),
    {
        self.block_storage.reached(&request.write)
    }

    /// Goes on with `request` once its block has been written: the next block
    /// goes behind it, and the entry that is to be logged is returned.
    pub fn block_written(&mut self, request: PendingBlock) -> (r: Result<PendingEntry, MemMapError>)
        requires
            old(self).wf(),
            in_range(request@),
            old(self)@.cursor == cursor_at(request@.write),
        ensures
            final(self).wf(),
            r is Ok,
            r->Ok_0@ == (EntryRequest {
                command: block_command(request@),
                bytes: entry_of(block_command(request@)),
                document: block_document(request@.owner),
            }),
            replayable(r->Ok_0@.command),
            match request@.owner {
                OwnerView::Memory { id, text, tags } => {
                    &&& r->Ok_0@.command == (CommandView::AppendMemory {
                        id,
                        chunk_id: request@.write.chunk_id,
                        offset: request@.write.offset,
                        length: request@.write.length,
                        tags,
                    })
                    &&& r->Ok_0@.document matches Some(d)
                    &&& d.id == Some(id)
                    &&& d.key is None
                    &&& d.text == text
                    &&& d.tags == Some(joined(tags))
                },
                OwnerView::Stream { key } => {
                    &&& r->Ok_0@.command == (CommandView::AppendStream {
                        key,
                        chunk_id: request@.write.chunk_id,
                        offset: request@.write.offset,
                        length: request@.write.length,
                    })
                    &&& r->Ok_0@.document is None
                },
            },
            replayed(r->Ok_0@.bytes, 0) == Ok::<Seq<CommandView>, int>(seq![r->Ok_0@.command]),
            final(self)@ == (StoreView { cursor: cursor_behind(request@.write), ..old(self)@ }),
            final(self)@.cursor.offset == request@.write.offset + request@.write.length,
    {
        self.block_storage.written(&request.write);
        let BlockWrite { chunk_id, offset, length, .. } = request.write;
        match request.owner {
            BlockOwner::Memory { id, text, tags } => {
                let document = SearchProvider::index_memory(id, text.as_str(), &tags);
                PendingEntry::of(
                    WalCommand::AppendMemory { id, chunk_id, offset, length, tags },
                    Some(document),
                )
            },
            BlockOwner::Stream { key } => PendingEntry::of(
                WalCommand::AppendStream { key, chunk_id, offset, length },
                None,
            ),
        }
    }

    /// Takes in a new value for `key`.
    pub fn set_kv(&self, key: String, value: Vec<u8>) -> (r: Result<PendingEntry, MemMapError>)
        ensures
            r is Ok,
            r->Ok_0@ == plain_entry(CommandView::SetKv { key: key@, value: value@ }),
            r->Ok_0@.command == (CommandView::SetKv { key: key@, value: value@ }),
            replayed(r->Ok_0@.bytes, 0) == Ok::<Seq<CommandView>, int>(
                seq![CommandView::SetKv { key: key@, value: value@ }],
            ),
            forall|engine: EngineView|
                (#[trigger] applied(engine, r->Ok_0@.command)).kv == engine.kv.insert(
                    key@,
                    value@,
                ),
    {
        PendingEntry::of(WalCommand::SetKv { key, value }, None)
    }

    /// Takes in the deletion of `key`.
    pub fn delete_kv(&self, key: String) -> (r: Result<PendingEntry, MemMapError>)
        ensures
            r is Ok,
            r->Ok_0@ == plain_entry(CommandView::DeleteKv { key: key@ }),
            r->Ok_0@.command == (CommandView::DeleteKv { key: key@ }),
            replayed(r->Ok_0@.bytes, 0) == Ok::<Seq<CommandView>, int>(
                seq![CommandView::DeleteKv { key: key@ }],
            ),
            forall|engine: EngineView|
                (#[trigger] applied(engine, r->Ok_0@.command)).kv == engine.kv.remove(key@),
    {
        PendingEntry::of(WalCommand::DeleteKv { key }, None)
    }

    /// Takes in a session, to be stored under its id.
    pub fn put_session(&self, session: &Session) -> (r: Result<PendingEntry, MemMapError>)
        ensures
            r is Ok,
            r->Ok_0@ == plain_entry(CommandView::PutSession { session: session@ }),
            r->Ok_0@.command == (CommandView::PutSession { session: session@ }),
            replayed(r->Ok_0@.bytes, 0) == Ok::<Seq<CommandView>, int>(
                seq![CommandView::PutSession { session: session@ }],
            ),
            forall|engine: EngineView|
                session_of(
                    (#[trigger] applied(engine, r->Ok_0@.command)).sessions,
                    session.id@,
                ) == Some(
                    SessionView {
                        id: session.id@,
                        intent_id: session.intent_id@,
                        created_at: session.created_at,
                        payload: session.payload@,
                    },
                ),
    {
        proof {
            assert forall|engine: EngineView|
                session_of(
                    (#[trigger] applied(
                        engine,
                        CommandView::PutSession { session: session@ },
                    )).sessions,
                    session.id@,
                ) == Some(session@) by {
                any_put_session_is_got(engine, session@);
            }
        }
        PendingEntry::of(WalCommand::PutSession { session: session.clone() }, None)
    }

    /// Completes a request once its entry is in the log: what the store holds
    /// now shows it. The document that is to be indexed, if any, is returned.
    pub fn entry_logged(&mut self, entry: PendingEntry) -> (document: Option<Document>)
        requires
            old(self).wf(),
            replayable(entry@.command),
        ensures
            final(self).wf(),
            document_view(document) == entry@.document,
            final(self)@ == (StoreView {
                engine: applied(old(self)@.engine, entry@.command),
                ..old(self)@
            }),
    {
        self.engine.apply(&entry.command);
        entry.document
    }

    /// The value of `key`, where it has one.
    pub fn get_kv(&self, key: &str) -> (value: Option<Vec<u8>>)
        ensures
            match value {
                Some(v) => self@.engine.kv.contains_key(key@) && v@ == self@.engine.kv[key@],
                None => !self@.engine.kv.contains_key(key@),
            },
    {
        self.engine.get_kv(key)
    }

    /// The session `id`, where there is one.
    pub fn get_session(&self, id: &str) -> (r: Result<Option<Session>, MemMapError>)
        ensures
            match r {
                Ok(Some(session)) => session_of(self@.engine.sessions, id@) == Some(session@),
                Ok(None) => session_of(self@.engine.sessions, id@) is None,
                Err(_) => false,
            },
            match r {
                Ok(Some(s)) => s.id@ == id@ && self@.engine.sessions.contains(s@),
                Ok(None) => forall|i: int|
                    0 <= i < self@.engine.sessions.len()
                        ==> #[trigger] self@.engine.sessions[i].id != id@,
                Err(_) => false,
            },
    {
        Ok(self.engine.get_session(id))
    }

    /// The `limit` newest sessions, the newest first.
    pub fn list_sessions(&self, limit: usize) -> (r: Result<Vec<Session>, MemMapError>)
        ensures
            r is Ok,
            session_views(r->Ok_0@) == newest_sessions(self@.engine.sessions, limit as nat),
            r->Ok_0@.len() == (if limit < self@.engine.sessions.len() {
                limit as nat
            } else {
                self@.engine.sessions.len()
            }),
            forall|i: int, j: int|
                0 <= i <= j < r->Ok_0@.len() ==> (#[trigger] r->Ok_0@[i]).created_at >= (
                #[trigger] r->Ok_0@[j]).created_at,
            forall|s: SessionView| #[trigger]
                session_views(r->Ok_0@).contains(s) ==> self@.engine.sessions.contains(s),
            forall|s: SessionView, i: int|
                #![trigger self@.engine.sessions.contains(s), r->Ok_0@[i]]
                self@.engine.sessions.contains(s) && !session_views(r->Ok_0@).contains(s) && 0
                    <= i < r->Ok_0@.len() ==> r->Ok_0@[i].created_at >= s.created_at,
    {
        Ok(self.engine.list_sessions(limit))
    }

    /// The sessions that serve the intent `intent_id`, the newest first.
    pub fn list_by_intent(&self, intent_id: &str) -> (r: Result<Vec<Session>, MemMapError>)
        ensures
            r is Ok,
            session_views(r->Ok_0@) == newest_first(
                with_intent(self@.engine.sessions, intent_id@),
            ),
            forall|s: SessionView| #[trigger]
                session_views(r->Ok_0@).contains(s) <==> self@.engine.sessions.contains(s)
                    && s.intent_id == intent_id@,
            forall|s: SessionView| #[trigger]
                session_views(r->Ok_0@).to_multiset().count(s) == (if s.intent_id == intent_id@ {
                    self@.engine.sessions.to_multiset().count(s)
                } else {
                    0
                }),
            forall|i: int, j: int|
                0 <= i <= j < r->Ok_0@.len() ==> (#[trigger] r->Ok_0@[i]).created_at >= (
                #[trigger] r->Ok_0@[j]).created_at,
    {
        Ok(self.engine.list_by_intent(intent_id))
    }

    /// Opens a reader at the start of the stream `key`. A stream that nothing
    /// was appended to is empty.
    pub fn open_read(&self, key: &str) -> (r: Result<StreamReader, MemMapError>)
        requires
            self.wf(),
        ensures
            r is Ok,
            r->Ok_0@ == stream_start(stream_of(self@.engine, key@)),
            r->Ok_0@.index == 0 && r->Ok_0@.offset == 0,
            self@.engine.streams.contains_key(key@) ==> r->Ok_0@.segments
                == self@.engine.streams[key@],
            !self@.engine.streams.contains_key(key@) ==> r->Ok_0@.segments.len() == 0,
    {
        Ok(StreamReader::open(self.engine.segments(key)))
    }

    /// Publishes `state` to all subscribers, and keeps it for later ones.
    pub fn update_state(&mut self, state: AgentState) -> (r: Result<(), MemMapError>)
        requires
            old(self).wf(),
        ensures
            r is Ok,
            final(self).wf(),
            final(self)@ == (StoreView { publisher: final(self)@.publisher, ..old(self)@ }),
            latest_state(final(self)@.publisher) == state@,
            forall|receiver: Receiver<AgentState>| #[trigger]
                feeds(final(self)@.publisher, receiver) == feeds(old(self)@.publisher, receiver),
    {
        self.engine.broadcast_state(state)
    }

    /// A receiver of the states that the store publishes. It has marked none of
    /// the updates since the store was opened as seen.
    pub fn subscribe_state(&self) -> (receiver: Receiver<AgentState>)
        requires
            self.wf(),
        ensures
            feeds(self@.publisher, receiver),
            seen_state(receiver) == blank_state(),
    {
        copy_receiver(&self.state_rx)
    }

    /// The state that was published last.
    pub fn current_state(&self) -> (state: AgentState)
        ensures
            state@ == latest_state(self@.publisher),
    {
        self.engine.current_state()
    }

    /// The document under which `text` is indexed with a custom key.
    pub fn index(&self, key: &str, text: &str) -> (document: Document)
        ensures
            document@ == keyed_document(key@, text@),
            document.key is Some,
            document.key->Some_0@ == key@,
            document.text@ == text@,
            document.id is None,
            document.tags is None,
    {
        SearchProvider::index(key, text)
    }

    /// The hits of a search for which the index found `documents`, `limit` of
    /// them at most.
    pub fn search(&self, documents: &Vec<StoredDocument>, limit: usize) -> (hits: Vec<Hit>)
        requires
            limit > 0,
        ensures
            hit_views(hits@) == found_hits(first_documents(documents@, limit as nat)),
            hits@.len() <= limit,
            (forall|i: int|
                0 <= i < documents@.len() ==> {
                    ||| (#[trigger] documents@[i]).key is Some && documents@[i].key->Some_0 is Text
                    ||| documents@[i].key is None && documents@[i].id is Some
                        && documents@[i].id->Some_0 is U64
                }) ==> {
                &&& hits@.len() == (if limit < documents@.len() {
                    limit as nat
                } else {
                    documents@.len()
                })
                &&& forall|i: int|
                    0 <= i < hits@.len() ==> {
                        &&& (#[trigger] hits@[i]).score_bits == documents@[i].score_bits
                        &&& documents@[i].key is Some ==> hits@[i].key@
                            == documents@[i].key->Some_0->Text_0@
                        &&& documents@[i].key is None ==> hits@[i].key@ == decimal(
                            documents@[i].id->Some_0->U64_0 as nat,
                        )
                    }
            },
    {
        SearchProvider::search_hits(documents, limit)
    }

    /// Starts answering a query for which the index found `documents`. The
    /// answer is made of the first [`MAX_RESULTS`] of them.
    pub fn query_memory(&self, documents: &Vec<StoredDocument>) -> (query: QueryMemory)
        ensures
            query.wf(),
            query@ == (QueryView {
                remaining: found_ids(first_documents(documents@, MAX_RESULTS as nat)),
                results: Seq::empty(),
            }),
            query@.remaining.len() <= MAX_RESULTS,
            query@.remaining == documents@.take(
                (if documents@.len() > 20 {
                    20int
                } else {
                    documents@.len() as int
                }),
            ).filter(|d: StoredDocument| d.id is Some && d.id->Some_0 is U64).map_values(
                |d: StoredDocument| d.id->Some_0->U64_0,
            ),
    {
        let query = QueryMemory {
            ids: SearchProvider::search(documents, MAX_RESULTS),
            next: 0,
            results: Vec::new(),
        };
        assert(query@.remaining =~= query.ids@);
        assert(query@.results =~= Seq::empty());
        query
    }
}

// ---- Answering a query -----------------------------------------------------------

/// A query that is being answered: the ids of the memories that are still to be
/// read, and the texts of those that have been.
pub struct QueryMemory {
    ids: Vec<u64>,
    next: usize,
    results: Vec<String>,
}

/// What a [`QueryMemory`] says.
pub struct QueryView {
    pub remaining: Seq<u64>,
    pub results: Seq<Seq<char>>,
}

impl View for QueryMemory {
    type V = QueryView;

    closed spec fn view(&self) -> QueryView {
        QueryView { remaining: self.ids@.skip(self.next as int), results: texts(self.results@) }
    }
}

/// `ids` without the ones at its front that are of no memory.
pub open spec fn known_from(engine: EngineView, ids: Seq<u64>) -> Seq<u64>
    decreases ids.len(),
{
    if ids.len() > 0 && !engine.memories.contains_key(ids[0]) {
        known_from(engine, ids.drop_first())
    } else {
        ids
    }
}

impl QueryMemory {
    /// The places counted by `next` are places of ids, and no more than
    /// [`MAX_RESULTS`] memories have been or will be read.
    pub closed spec fn wf(&self) -> bool {
        &&& self.next <= self.ids@.len()
        &&& self.results@.len() + (self.ids@.len() - self.next) <= MAX_RESULTS
    }

    /// The memory that is to be read next, or `None` once all have been. Ids of
    /// no memory are passed over.
    pub fn next_block(&mut self, store: &MemMapFS) -> (meta: Option<MemoryMetadata>)
        requires
            old(self).wf(),
        ensures
            final(self).wf(),
            final(self)@.remaining == known_from(store@.engine, old(self)@.remaining),
            final(self)@.results == old(self)@.results,
            final(self)@.remaining.len() <= old(self)@.remaining.len(),
            final(self)@.remaining == old(self)@.remaining.skip(
                old(self)@.remaining.len() - final(self)@.remaining.len(),
            ),
            forall|i: int|
                0 <= i < old(self)@.remaining.len() - final(self)@.remaining.len()
                    ==> !store@.engine.memories.contains_key(#[trigger] old(self)@.remaining[i]),
            match meta {
                Some(m) => {
                    &&& final(self)@.remaining.len() > 0
                    &&& store@.engine.memories.contains_key(final(self)@.remaining[0])
                    &&& m@ == store@.engine.memories[final(self)@.remaining[0]]
                },
                None => final(self)@.remaining.len() == 0,
            },
    {
        while self.next < self.ids.len()
            invariant
                self.results@ == old(self).results@,
                self.wf(),
                known_from(store@.engine, self@.remaining) == known_from(
                    store@.engine,
                    old(self)@.remaining,
                ),
            decreases self.ids@.len() - self.next,
        {
            let id: u64 = self.ids[self.next];
            assert(self@.remaining[0] == id);
            if let Some(meta) = store.engine.get_metadata(id) {
                proof {
                    only_unknown_ids_are_passed_over(store@.engine, old(self)@.remaining);
                }
                return Some(meta.clone());
            }
            assert(self.ids@.skip(self.next + 1) =~= self@.remaining.drop_first());
            self.next = self.next + 1;
        }
        proof {
            only_unknown_ids_are_passed_over(store@.engine, old(self)@.remaining);
        }
        None
    }

    /// Adds the text of the memory at `meta` to the results. `chunk` holds the
    /// contents of its chunk file, or is `None` where there is no such file.
    pub fn supply(&mut self, meta: &MemoryMetadata, chunk: Option<&[u8]>) -> (r: Result<
        (),
        MemMapError,
    >)
        requires
            old(self).wf(),
            old(self)@.remaining.len() > 0,
            chunk is Some ==> meta.offset + meta.length <= usize::MAX,
        ensures
            final(self).wf(),
            match r {
                Ok(()) => {
                    &&& chunk matches Some(c)
                    &&& meta.offset + meta.length <= c@.len()
                    &&& final(self)@.remaining == old(self)@.remaining.drop_first()
                    &&& final(self)@.results == old(self)@.results.push(
                        text_of_bytes(c@.subrange(meta.offset as int, meta.offset + meta.length)),
                    )
                },
                Err(e) => {
                    &&& (chunk matches Some(c) ==> meta.offset + meta.length > c@.len())
                    &&& e == (MemMapError::BlockNotFound {
                        chunk_id: meta.chunk_id,
                        offset: meta.offset,
                    })
                    &&& final(self)@ == old(self)@
                },
            },
    {
        match BlockStorage::read(meta.chunk_id, meta.offset, meta.length, chunk) {
            Ok(bytes) => {
                let ghost before = self@;
                let text = bytes_to_text(&bytes);
                let ghost said = text@;
                self.results.push(text);
                assert(self.next < self.ids.len());
                self.next = self.next + 1;
                assert(self@.results =~= before.results.push(said));
                assert(self@.remaining =~= before.remaining.drop_first());
                Ok(())
            },
            Err(e) => Err(e),
        }
    }

    /// The texts that were found, [`MAX_RESULTS`] of them at most.
    pub fn results(self) -> (results: Vec<String>)
        requires
            self.wf(),
        ensures
            results@.len() <= MAX_RESULTS,
            texts(results@) == self@.results,
    {
        self.results
    }
}

/// The texts of the memories `ids`, in order and without the ids of no memory,
/// where the chunk files hold them all.
pub open spec fn answer(engine: EngineView, ids: Seq<u64>, disk: Map<u32, Seq<u8>>) -> Option<
    Seq<Seq<char>>,
>
    decreases ids.len(),
{
    if ids.len() == 0 {
        Some(Seq::empty())
    } else {
        let rest = answer(engine, ids.drop_first(), disk);
        if !engine.memories.contains_key(ids[0]) {
            rest
        } else {
            let m = engine.memories[ids[0]];
            match (block_at(disk, m.chunk_id, m.offset, m.length), rest) {
                (Some(block), Some(texts)) => Some(seq![text_of_bytes(block)] + texts),
                _ => None,
            }
        }
    }
}

/// What the query `q` comes to: the texts that it has, and those of the memories
/// that are still to be read.
pub open spec fn outcome(engine: EngineView, q: QueryView, disk: Map<u32, Seq<u8>>) -> Option<
    Seq<Seq<char>>,
> {
    match answer(engine, q.remaining, disk) {
        Some(texts) => Some(q.results + texts),
        None => None,
    }
}

proof fn lemma_known_from(engine: EngineView, ids: Seq<u64>, disk: Map<u32, Seq<u8>>)
    ensures
        answer(engine, known_from(engine, ids), disk) == answer(engine, ids, disk),
        known_from(engine, ids).len() > 0 ==> engine.memories.contains_key(
            known_from(engine, ids)[0],
        ),
    decreases ids.len(),
{
    if ids.len() > 0 && !engine.memories.contains_key(ids[0]) {
        lemma_known_from(engine, ids.drop_first(), disk);
    }
}

/// Each step of a query brings it closer to the same outcome: a step that reads
/// a block keeps the outcome, a block that is missing means that there is none,
/// and when nothing is left to read the results are the outcome.
pub proof fn query_steps_reach_outcome(
    engine: EngineView,
    q: QueryView,
    disk: Map<u32, Seq<u8>>,
)
    ensures
        ({
            let ids = known_from(engine, q.remaining);
            let m = engine.memories[ids[0]];
            if ids.len() == 0 {
                outcome(engine, q, disk) == Some(q.results)
            } else {
                match block_at(disk, m.chunk_id, m.offset, m.length) {
                    Some(block) => outcome(engine, q, disk) == outcome(
                        engine,
                        QueryView {
                            remaining: ids.drop_first(),
                            results: q.results.push(text_of_bytes(block)),
                        },
                        disk,
                    ),
                    None => outcome(engine, q, disk) is None,
                }
            }
        }),
{
    let ids = known_from(engine, q.remaining);
    lemma_known_from(engine, q.remaining, disk);
    if ids.len() == 0 {
        assert(q.results + Seq::<Seq<char>>::empty() =~= q.results);
    } else {
        let m = engine.memories[ids[0]];
        if let Some(block) = block_at(disk, m.chunk_id, m.offset, m.length) {
            if let Some(texts) = answer(engine, ids.drop_first(), disk) {
                assert(q.results + (seq![text_of_bytes(block)] + texts) =~= q.results.push(
                    text_of_bytes(block),
                ) + texts);
            }
        }
    }
}

proof fn lemma_answer_len(engine: EngineView, ids: Seq<u64>, disk: Map<u32, Seq<u8>>)
    requires
        answer(engine, ids, disk) is Some,
    ensures
        answer(engine, ids, disk).unwrap().len() <= ids.len(),
        (forall|i: int| 0 <= i < ids.len() ==> engine.memories.contains_key(#[trigger] ids[i]))
            ==> answer(engine, ids, disk).unwrap().len() == ids.len(),
    decreases ids.len(),
{
    if ids.len() > 0 {
        let rest = ids.drop_first();
        lemma_answer_len(engine, rest, disk);
        if forall|i: int| 0 <= i < ids.len() ==> engine.memories.contains_key(#[trigger] ids[i]) {
            assert forall|i: int| 0 <= i < rest.len() implies engine.memories.contains_key(
                #[trigger] rest[i],
            ) by {
                assert(rest[i] == ids[i + 1]);
            }
            assert(engine.memories.contains_key(ids[0]));
        }
    }
}

proof fn lemma_found_ids_of_memories(engine: EngineView, documents: Seq<StoredDocument>)
    requires
        forall|i: int|
            0 <= i < documents.len() ==> (found_id(#[trigger] documents[i]) matches Some(id)
                && engine.memories.contains_key(id)),
    ensures
        found_ids(documents).len() == documents.len(),
        forall|i: int|
            0 <= i < documents.len() ==> engine.memories.contains_key(
                #[trigger] found_ids(documents)[i],
            ),
    decreases documents.len(),
{
    if documents.len() > 0 {
        let fewer = documents.drop_last();
        assert forall|i: int| 0 <= i < fewer.len() implies (found_id(
            #[trigger] fewer[i],
        ) matches Some(id) && engine.memories.contains_key(id)) by {
            assert(fewer[i] == documents[i]);
        }
        lemma_found_ids_of_memories(engine, fewer);
        assert(found_id(documents[documents.len() - 1]) is Some);
        assert forall|i: int| 0 <= i < documents.len() implies engine.memories.contains_key(
            #[trigger] found_ids(documents)[i],
        ) by {
            if i < fewer.len() {
                assert(found_ids(documents)[i] == found_ids(fewer)[i]);
            }
        }
    }
}

/// A query returns twenty texts at most, and exactly twenty where it finds that
/// many memories or more; where it finds fewer, it returns each of them.
pub proof fn query_returns_twenty_at_most(
    engine: EngineView,
    documents: Seq<StoredDocument>,
    disk: Map<u32, Seq<u8>>,
)
    requires
        answer(
            engine,
            found_ids(first_documents(documents, MAX_RESULTS as nat)),
            disk,
        ) is Some,
    ensures
        ({
            let ids = found_ids(first_documents(documents, MAX_RESULTS as nat));
            let texts = answer(engine, ids, disk).unwrap();
            &&& texts.len() <= 20
            &&& (forall|i: int|
                0 <= i < documents.len() ==> (found_id(#[trigger] documents[i]) matches Some(id)
                    && engine.memories.contains_key(id))) ==> texts.len() == if documents.len()
                < 20 {
                documents.len()
            } else {
                20
            }
        }),
{
    let first = first_documents(documents, MAX_RESULTS as nat);
    lemma_found_ids_len(first);
    lemma_answer_len(engine, found_ids(first), disk);
    if forall|i: int|
        0 <= i < documents.len() ==> (found_id(#[trigger] documents[i]) matches Some(id)
            && engine.memories.contains_key(id)) {
        assert forall|i: int| 0 <= i < first.len() implies (found_id(
            #[trigger] first[i],
        ) matches Some(id) && engine.memories.contains_key(id)) by {
            assert(first[i] == documents[i]);
        }
        lemma_found_ids_of_memories(engine, first);
    }
}

proof fn lemma_found_ids_len(documents: Seq<StoredDocument>)
    ensures
        found_ids(documents).len() <= documents.len(),
    decreases documents.len(),
{
    if documents.len() > 0 {
        lemma_found_ids_len(documents.drop_last());
    }
}

// ---- What the store promises over time ---------------------------------------------

/// The store once the block of `request` is written and its command logged.
pub open spec fn after_request(store: StoreView, request: BlockRequest) -> StoreView {
    StoreView {
        engine: applied(store.engine, block_command(request)),
        cursor: cursor_behind(request.write),
        ..store
    }
}

proof fn lemma_answer_kept(
    engine: EngineView,
    id: u64,
    command: CommandView,
    ids: Seq<u64>,
    disk: Map<u32, Seq<u8>>,
    write: BlockWrite,
    data: Seq<u8>,
)
    requires
        command matches CommandView::AppendMemory { id: i, .. } ==> i == id,
        !ids.contains(id),
        answer(engine, ids, disk) is Some,
    ensures
        answer(applied(engine, command), ids, after_write(disk, write, data)) == answer(
            engine,
            ids,
            disk,
        ),
    decreases ids.len(),
{
    if ids.len() > 0 {
        let rest = ids.drop_first();
        assert(!rest.contains(id)) by {
            if rest.contains(id) {
                let k = choose|k: int| 0 <= k < rest.len() && rest[k] == id;
                assert(ids[k + 1] == id);
            }
        }
        assert(ids[0] != id);
        lemma_answer_kept(engine, id, command, rest, disk, write, data);
        if engine.memories.contains_key(ids[0]) {
            let m = engine.memories[ids[0]];
            later_writes_keep_blocks(disk, write, data, m.chunk_id, m.offset, m.length);
        }
    }
}

/// A memory that was appended is returned, as it was given, by every query that
/// finds its id; its id is that of no memory before it, and what queries for
/// the other memories return does not change. The next block again goes to the
/// end of the last chunk file. That the id is assigned before the command is
/// logged makes no difference.
pub proof fn appended_memory_is_returned(
    store: StoreView,
    request: BlockRequest,
    disk: Map<u32, Seq<u8>>,
    text: Seq<char>,
    tags: Seq<Seq<char>>,
    ids: Seq<u64>,
)
    requires
        next_id_is_fresh(store.engine),
        store.engine.next_id < u64::MAX,
        encode_utf8(text).len() <= u64::MAX,
        placeable(store.cursor, encode_utf8(text).len() as u64),
        at_end(store.cursor, disk),
        request == (BlockRequest {
            write: placement(store.cursor, encode_utf8(text).len() as u64),
            data: encode_utf8(text),
            owner: OwnerView::Memory { id: store.engine.next_id as u64, text, tags },
        }),
        forall|i: int| 0 <= i < ids.len() ==> store.engine.memories.contains_key(#[trigger] ids[i]),
        answer(store.engine, ids, disk) is Some,
    ensures
        ({
            let id = store.engine.next_id as u64;
            let after = after_request(store, request);
            let disk2 = after_write(disk, request.write, request.data);
            &&& after.engine == applied(
                EngineView { next_id: store.engine.next_id + 1, ..store.engine },
                block_command(request),
            )
            &&& id > 0
            &&& !store.engine.memories.contains_key(id)
            &&& answer(after.engine, seq![id], disk2) == Some(seq![text])
            &&& answer(after.engine, ids, disk2) == answer(store.engine, ids, disk)
            &&& next_id_is_fresh(after.engine)
            &&& at_end(after.cursor, disk2)
        }),
{
    let id = store.engine.next_id as u64;
    let after = after_request(store, request);
    let disk2 = after_write(disk, request.write, request.data);
    written_block_reads_back(store.cursor, disk, request.data);
    text_survives_encoding(text);
    let one = seq![id];
    assert(one.drop_first() =~= Seq::<u64>::empty());
    assert(answer(after.engine, one.drop_first(), disk2) == Some(Seq::<Seq<char>>::empty()));
    assert(seq![text] + Seq::<Seq<char>>::empty() =~= seq![text]);
    assert(!ids.contains(id));
    lemma_answer_kept(
        store.engine,
        id,
        block_command(request),
        ids,
        disk,
        request.write,
        request.data,
    );
}

/// What is appended to a stream is read from it after all that was appended
/// before; the other streams do not change. The next block again goes to the
/// end of the last chunk file.
pub proof fn appended_bytes_are_streamed(
    store: StoreView,
    request: BlockRequest,
    disk: Map<u32, Seq<u8>>,
    key: Seq<char>,
    data: Seq<u8>,
    other: Seq<char>,
)
    requires
        data.len() <= u64::MAX,
        placeable(store.cursor, data.len() as u64),
        at_end(store.cursor, disk),
        request == (BlockRequest {
            write: placement(store.cursor, data.len() as u64),
            data,
            owner: OwnerView::Stream { key },
        }),
        stream_content(stream_of(store.engine, key), disk) is Some,
        stream_content(stream_of(store.engine, other), disk) is Some,
    ensures
        ({
            let after = after_request(store, request);
            let disk2 = after_write(disk, request.write, data);
            &&& stream_content(stream_of(after.engine, key), disk2) == Some(
                stream_content(stream_of(store.engine, key), disk).unwrap() + data,
            )
            &&& other != key ==> stream_content(stream_of(after.engine, other), disk2)
                == stream_content(stream_of(store.engine, other), disk)
            &&& at_end(after.cursor, disk2)
        }),
{
    let disk2 = after_write(disk, request.write, data);
    let segments = stream_of(store.engine, key);
    let BlockWrite { chunk_id, offset, length, .. } = request.write;
    let segment = StreamSegment { chunk_id, offset, length };
    written_block_reads_back(store.cursor, disk, data);
    later_writes_keep_streams(segments, disk, request.write, data);
    later_writes_keep_streams(stream_of(store.engine, other), disk, request.write, data);
    segment_extends_stream(segments, segment, disk2, data);
}

/// A restart keeps what the store holds. The store was opened on `log` and cut
/// off what was incomplete there; it then logged `more`, and stopped while `cut`
/// bytes of another entry had been written. Where its index agrees with the
/// commands that it recovered and logged, recovery gives back the same memories,
/// values, streams and sessions, and assigns no id that a recovered memory has.
/// The recovered store is again one that this holds of.
pub proof fn restart_keeps_contents(
    engine: EngineView,
    log: Seq<u8>,
    more: Seq<CommandView>,
    torn: CommandView,
    cut: int,
)
    requires
        replayed(log, 0) is Ok,
        agrees_with_log(engine, replayed(log, 0)->Ok_0 + more),
        0 <= cut < entry_of(torn).len(),
        log.len() + log_of(more).len() + entry_of(torn).len() <= u64::MAX,
    ensures
        ({
            let commands = replayed(log, 0)->Ok_0 + more;
            let next = without_torn(log) + log_of(more) + entry_of(torn).take(cut);
            let recovered = replayed_onto(empty_engine(), commands);
            &&& replayed(next, 0) == Ok::<Seq<CommandView>, int>(commands)
            &&& recovered.memories == engine.memories
            &&& recovered.kv == engine.kv
            &&& recovered.streams == engine.streams
            &&& recovered.sessions == engine.sessions
            &&& next_id_is_fresh(recovered)
            &&& agrees_with_log(recovered, commands)
        }),
{
    recovered_log_can_be_extended(log, more, torn, cut);
    recovered_next_id_is_fresh(replayed(log, 0)->Ok_0 + more);
}

} // verus!
