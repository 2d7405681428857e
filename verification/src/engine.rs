//! The in-memory index, rebuilt by replaying the log.
use std::collections::{BTreeMap, HashMap};
use tokio::sync::watch::{Receiver, Sender};
use vstd::hash_map::StringHashMap;
use vstd::prelude::*;

use crate::error::MemMapError;
use crate::laws::{
    intent_list_is_exact, limited_list_holds_the_newest, lookup_finds_stored_session,
};
use crate::session::{
    newest_first, newest_first_sorts, newest_sessions, select_intent, session_views,
    sort_newest_first, with_intent, Session, SessionView,
};
use crate::storage::{command_views, CommandView, WalCommand};
use crate::text::{copy_bytes, copy_strings, texts};
use crate::watch::{
    borrow_state, feeds, latest_state, open_channel, seen_state, send_state, subscribe,
};

verus! {

broadcast use {vstd::std_specs::btree::group_btree_axioms, vstd::laws_cmp::group_laws_cmp};

/// Where the block of a memory stands, and how it is tagged.
#[derive(Debug)]
pub struct MemoryMetadata {
    pub id: u64,
    pub chunk_id: u32,
    pub offset: u64,
    pub length: u64,
    pub tags: Vec<String>,
}

/// What a [`MemoryMetadata`] says.
pub struct MemoryView {
    pub id: u64,
    pub chunk_id: u32,
    pub offset: u64,
    pub length: u64,
    pub tags: Seq<Seq<char>>,
}

impl View for MemoryMetadata {
    type V = MemoryView;

    open spec fn view(&self) -> MemoryView {
        MemoryView {
            id: self.id,
            chunk_id: self.chunk_id,
            offset: self.offset,
            length: self.length,
            tags: texts(self.tags@),
        }
    }
}

impl Clone for MemoryMetadata {
    fn clone(&self) -> (copy: Self)
        ensures
            copy@ == self@,
            copy.id == self.id,
            copy.chunk_id == self.chunk_id,
            copy.offset == self.offset,
            copy.length == self.length,
            texts(copy.tags@) == texts(self.tags@),
    {
        MemoryMetadata {
            id: self.id,
            chunk_id: self.chunk_id,
            offset: self.offset,
            length: self.length,
            tags: copy_strings(&self.tags),
        }
    }
}

/// One block of a stream.
#[derive(Debug, Clone, Copy, PartialEq, Eq)]
pub struct StreamSegment {
    pub chunk_id: u32,
    pub offset: u64,
    pub length: u64,
}

/// The state that an agent shows to its observers.
#[derive(Debug)]
pub struct AgentState {
    pub status: String,
    pub active_memory_count: u64,
    pub last_updated_id: u64,
    pub extra: HashMap<String, String>,
}

/// What an [`AgentState`] says.
#[verifier::ext_equal]
pub struct StateView {
    pub status: Seq<char>,
    pub active_memory_count: u64,
    pub last_updated_id: u64,
    pub extra: Map<String, String>,
}

impl View for AgentState {
    type V = StateView;

    open spec fn view(&self) -> StateView {
        StateView {
            status: self.status@,
            active_memory_count: self.active_memory_count,
            last_updated_id: self.last_updated_id,
            extra: self.extra@,
        }
    }
}

/// The state before anything was published.
pub open spec fn blank_state() -> StateView {
    StateView {
        status: Seq::empty(),
        active_memory_count: 0,
        last_updated_id: 0,
        extra: Map::empty(),
    }
}

impl Default for AgentState {
    fn default() -> (state: Self)
        ensures
            state@ == blank_state(),
    {
        AgentState {
            status: String::new(),
            active_memory_count: 0,
            last_updated_id: 0,
            extra: HashMap::new(),
        }
    }
}

impl Clone for AgentState {
    fn clone(&self) -> (copy: Self)
        ensures
            copy@ == self@,
            copy.status@ == self.status@,
            copy.active_memory_count == self.active_memory_count,
            copy.last_updated_id == self.last_updated_id,
            copy.extra@ == self.extra@,
    {
        AgentState {
            status: self.status.clone(),
            active_memory_count: self.active_memory_count,
            last_updated_id: self.last_updated_id,
            extra: self.extra.clone(),
        }
    }
}

/// What the engine holds: the memories by id, the key/value pairs, the blocks
/// of each stream in order, the sessions in the order in which their ids first
/// came up, and the id that is assigned next.
#[verifier::ext_equal]
pub struct EngineView {
    pub memories: Map<u64, MemoryView>,
    pub kv: Map<Seq<char>, Seq<u8>>,
    pub streams: Map<Seq<char>, Seq<StreamSegment>>,
    pub sessions: Seq<SessionView>,
    pub next_id: nat,
}

/// An engine that nothing has happened to.
pub open spec fn empty_engine() -> EngineView {
    EngineView {
        memories: Map::empty(),
        kv: Map::empty(),
        streams: Map::empty(),
        sessions: Seq::empty(),
        next_id: 1,
    }
}

/// The blocks of the stream `key`; none where there is no such stream.
pub open spec fn stream_of(engine: EngineView, key: Seq<char>) -> Seq<StreamSegment> {
    if engine.streams.contains_key(key) {
        engine.streams[key]
    } else {
        Seq::empty()
    }
}

/// The place of the session `id` in `sessions`.
pub open spec fn session_place(sessions: Seq<SessionView>, id: Seq<char>) -> Option<int>
    decreases sessions.len(),
{
    if sessions.len() == 0 {
        None
    } else if sessions.last().id == id {
        Some(sessions.len() - 1)
    } else {
        session_place(sessions.drop_last(), id)
    }
}

/// The session `id`, where there is one.
pub open spec fn session_of(sessions: Seq<SessionView>, id: Seq<char>) -> Option<SessionView> {
    match session_place(sessions, id) {
        Some(i) => Some(sessions[i]),
        None => None,
    }
}

/// `sessions` with `session` in place of the one with its id, or at the end
/// where there is none.
pub open spec fn with_session(sessions: Seq<SessionView>, session: SessionView) -> Seq<
    SessionView,
> {
    match session_place(sessions, session.id) {
        Some(i) => sessions.update(i, session),
        None => sessions.push(session),
    }
}

/// The engine after a logged command.
pub open spec fn applied(engine: EngineView, command: CommandView) -> EngineView {
    match command {
        CommandView::AppendMemory { id, chunk_id, offset, length, tags } => EngineView {
            memories: engine.memories.insert(
                id,
                MemoryView { id, chunk_id, offset, length, tags },
            ),
            next_id: if id >= engine.next_id {
                id as nat + 1
            } else {
                engine.next_id
            },
            ..engine
        },
        CommandView::SetKv { key, value } => EngineView {
            kv: engine.kv.insert(key, value),
            ..engine
        },
        CommandView::DeleteKv { key } => EngineView { kv: engine.kv.remove(key), ..engine },
        CommandView::AppendStream { key, chunk_id, offset, length } => EngineView {
            streams: engine.streams.insert(
                key,
                stream_of(engine, key).push(StreamSegment { chunk_id, offset, length }),
            ),
            ..engine
        },
        CommandView::PutSession { session } => EngineView {
            sessions: with_session(engine.sessions, session),
            ..engine
        },
    }
}

/// The engine after the logged `commands`, taken in order.
pub open spec fn replayed_onto(engine: EngineView, commands: Seq<CommandView>) -> EngineView
    decreases commands.len(),
{
    if commands.len() == 0 {
        engine
    } else {
        applied(replayed_onto(engine, commands.drop_last()), commands.last())
    }
}

/// The command can be replayed: the id that follows it is within range.
pub open spec fn replayable(command: CommandView) -> bool {
    command matches CommandView::AppendMemory { id, .. } ==> id < u64::MAX
}

/// In-memory index and key/value store, rebuilt by replaying the log on startup
/// and kept up to date on every write.
pub struct MemMapEngine {
    metadata_index: BTreeMap<u64, MemoryMetadata>,
    kv_store: StringHashMap<Vec<u8>>,
    stream_slots: StringHashMap<usize>,
    stream_segments: Vec<Vec<StreamSegment>>,
    sessions: Vec<Session>,
    state_tx: Sender<AgentState>,
    next_id: u64,
}

impl View for MemMapEngine {
    type V = EngineView;

    closed spec fn view(&self) -> EngineView {
        EngineView {
            memories: self.metadata_index@.map_values(|m: MemoryMetadata| m@),
            kv: self.kv_store@.map_values(|v: Vec<u8>| v@),
            streams: self.stream_slots@.map_values(|i: usize| self.stream_segments@[i as int]@),
            sessions: session_views(self.sessions@),
            next_id: self.next_id as nat,
        }
    }
}

impl MemMapEngine {
    /// Every stream has a list of its own, and no session id occurs twice.
    pub closed spec fn wf(&self) -> bool {
        &&& forall|k: Seq<char>| #[trigger]
            self.stream_slots@.contains_key(k) ==> self.stream_slots@[k]
                < self.stream_segments@.len()
        &&& forall|k: Seq<char>, l: Seq<char>|
            #![trigger self.stream_slots@[k], self.stream_slots@[l]]
            self.stream_slots@.contains_key(k) && self.stream_slots@.contains_key(l) && k != l
                ==> self.stream_slots@[k] != self.stream_slots@[l]
        &&& forall|i: int, j: int|
            #![trigger self.sessions@[i], self.sessions@[j]]
            0 <= i < j < self.sessions@.len() ==> self.sessions@[i]@.id != self.sessions@[j]@.id
    }

    /// The sender through which states are published.
    pub closed spec fn publisher(&self) -> Sender<AgentState> {
        self.state_tx
    }

    /// The state that was published last.
    pub open spec fn broadcast(&self) -> StateView {
        latest_state(self.publisher())
    }

    /// A fresh, empty engine, and a receiver of the states that it publishes.
    pub fn new() -> (made: (Self, Receiver<AgentState>))
        ensures
            made.0.wf(),
            made.0@ == empty_engine(),
            made.0.broadcast() == blank_state(),
            seen_state(made.1) == blank_state(),
            feeds(made.0.publisher(), made.1),
    {
        let (state_tx, state_rx) = open_channel(AgentState::default());
        let engine = MemMapEngine {
            metadata_index: BTreeMap::new(),
            kv_store: StringHashMap::new(),
            stream_slots: StringHashMap::new(),
            stream_segments: Vec::new(),
            sessions: Vec::new(),
            state_tx,
            next_id: 1,
        };
        assert(engine@ =~= empty_engine());
        (engine, state_rx)
    }

    /// Whether there is an id left to allocate.
    pub fn has_next_id(&self) -> (b: bool)
        ensures
            b == (self@.next_id < u64::MAX),
    {
        self.next_id < u64::MAX
    }

    /// Allocates the next memory id. Ids count up from one.
    pub fn next_memory_id(&mut self) -> (id: u64)
        requires
            old(self).wf(),
            old(self)@.next_id < u64::MAX,
        ensures
            final(self).wf(),
            id == old(self)@.next_id,
            final(self)@ == (EngineView { next_id: id as nat + 1, ..old(self)@ }),
            final(self).publisher() == old(self).publisher(),
    {
        let id: u64 = self.next_id;
        self.next_id = self.next_id + 1;
        id
    }

    /// Inserts the metadata of a newly written memory block.
    pub fn insert_metadata(&mut self, meta: MemoryMetadata)
        requires
            old(self).wf(),
        ensures
            final(self).wf(),
            final(self)@ == (EngineView {
                memories: old(self)@.memories.insert(meta.id, meta@),
                ..old(self)@
            }),
            final(self).publisher() == old(self).publisher(),
    {
        let ghost before = self@;
        let ghost said = meta@;
        let id: u64 = meta.id;
        self.metadata_index.insert(id, meta);
        assert(self@.memories =~= before.memories.insert(id, said));
    }

    /// The metadata of a memory, where there is one with this id.
    pub fn get_metadata(&self, id: u64) -> (meta: Option<&MemoryMetadata>)
        ensures
            match meta {
                Some(m) => self@.memories.contains_key(id) && m@ == self@.memories[id],
                None => !self@.memories.contains_key(id),
            },
    {
        self.metadata_index.get(&id)
    }

    /// The ids of all memories, in ascending order.
    pub fn all_ids(&self) -> (ids: Vec<u64>)
        ensures
            ids@.to_set() == self@.memories.dom(),
            forall|i: int, j: int| 0 <= i < j < ids@.len() ==> ids@[i] < ids@[j],
    {
        let mut ids: Vec<u64> = Vec::new();
        let keys = self.metadata_index.keys();
        let ghost order = vstd::std_specs::iter::IteratorSpec::remaining(&keys);
        for id in it: keys
            invariant
                it.seq() == order,
                ids@.len() == it.index(),
                forall|i: int| 0 <= i < ids@.len() ==> ids@[i] == *(#[trigger] order[i]),
        {
            ids.push(*id);
        }
        proof {
            assert(ids@ =~= order.unref());
            assert(ids@.to_set() =~= self.metadata_index@.dom());
            assert forall|i: int, j: int| 0 <= i < j < ids@.len() implies ids@[i] < ids@[j] by {
                assert(vstd::laws_cmp::obeys_cmp::<&u64>());
                assert(vstd::std_specs::cmp::OrdSpec::cmp_spec(&order[i], &order[j]) is Less);
            }
        }
        ids
    }

    /// Replays logged commands to rebuild the in-memory state. The broadcast
    /// state is left alone, so that observers see live updates only.
    pub fn replay_commands(&mut self, commands: &[WalCommand])
        requires
            old(self).wf(),
            forall|i: int| 0 <= i < commands@.len() ==> replayable(#[trigger] commands@[i]@),
        ensures
            final(self).wf(),
            final(self)@ == replayed_onto(old(self)@, command_views(commands@)),
            final(self).publisher() == old(self).publisher(),
    {
        let ghost before = self@;
        let ghost publisher = self.publisher();
        let ghost views = command_views(commands@);
        let count: usize = commands.len();
        let mut i: usize = 0;
        while i < count
            invariant
                i <= count == commands@.len(),
                views == command_views(commands@),
                forall|j: int| 0 <= j < commands@.len() ==> replayable(#[trigger] commands@[j]@),
                self.wf(),
                self@ == replayed_onto(before, views.take(i as int)),
                self.publisher() == publisher,
            decreases count - i,
        {
            self.apply(&commands[i]);
            proof {
                assert(views.take(i + 1).drop_last() =~= views.take(i as int));
            }
            i = i + 1;
        }
        assert(views.take(count as int) =~= views);
    }

    /// Replays one logged command.
    pub fn apply(&mut self, command: &WalCommand)
        requires
            old(self).wf(),
            replayable(command@),
        ensures
            final(self).wf(),
            final(self)@ == applied(old(self)@, command@),
            final(self).publisher() == old(self).publisher(),
    {
        let ghost before = self@;
        match command {
            WalCommand::AppendMemory { id, chunk_id, offset, length, tags } => {
                self.insert_metadata(
                    MemoryMetadata {
                        id: *id,
                        chunk_id: *chunk_id,
                        offset: *offset,
                        length: *length,
                        tags: copy_strings(tags),
                    },
                );
                if *id >= self.next_id {
                    self.next_id = *id + 1;
                }
                assert(self@ =~= applied(before, command@));
            },
            WalCommand::SetKv { key, value } => {
                self.insert_kv(key.clone(), copy_bytes(value));
            },
            WalCommand::DeleteKv { key } => {
                self.remove_kv(key.as_str());
            },
            WalCommand::AppendStream { key, chunk_id, offset, length } => {
                self.push_segment(
                    key.as_str(),
                    StreamSegment { chunk_id: *chunk_id, offset: *offset, length: *length },
                );
            },
            WalCommand::PutSession { session } => {
                self.insert_session(session.clone());
            },
        }
    }

    /// Sets the value of `key`.
    pub fn insert_kv(&mut self, key: String, value: Vec<u8>)
        requires
            old(self).wf(),
        ensures
            final(self).wf(),
            final(self)@ == (EngineView {
                kv: old(self)@.kv.insert(key@, value@),
                ..old(self)@
            }),
            final(self).publisher() == old(self).publisher(),
    {
        let ghost before = self@;
        let ghost (k, v) = (key@, value@);
        self.kv_store.insert(key, value);
        assert(self@.kv =~= before.kv.insert(k, v));
    }

    /// Removes `key` and its value.
    pub fn remove_kv(&mut self, key: &str)
        requires
            old(self).wf(),
        ensures
            final(self).wf(),
            final(self)@ == (EngineView { kv: old(self)@.kv.remove(key@), ..old(self)@ }),
            final(self).publisher() == old(self).publisher(),
    {
        let ghost before = self@;
        self.kv_store.remove(key);
        assert(self@.kv =~= before.kv.remove(key@));
    }

    /// The value of `key`, where it has one.
    pub fn get_kv(&self, key: &str) -> (value: Option<Vec<u8>>)
        ensures
            match value {
                Some(v) => self@.kv.contains_key(key@) && v@ == self@.kv[key@],
                None => !self@.kv.contains_key(key@),
            },
    {
        match self.kv_store.get(key) {
            Some(value) => Some(copy_bytes(value)),
            None => None,
        }
    }

    /// Adds a block to the end of the stream `key`.
    pub fn push_segment(&mut self, key: &str, segment: StreamSegment)
        requires
            old(self).wf(),
        ensures
            final(self).wf(),
            final(self)@ == (EngineView {
                streams: old(self)@.streams.insert(
                    key@,
                    stream_of(old(self)@, key@).push(segment),
                ),
                ..old(self)@
            }),
            final(self).publisher() == old(self).publisher(),
    {
        let ghost before = self@;
        let found: Option<usize> = match self.stream_slots.get(key) {
            Some(i) => Some(*i),
            None => None,
        };
        match found {
            Some(i) => {
                self.stream_segments[i].push(segment);
            },
            None => {
                let i: usize = self.stream_segments.len();
                let mut segments: Vec<StreamSegment> = Vec::new();
                segments.push(segment);
                self.stream_segments.push(segments);
                self.stream_slots.insert(key.to_owned(), i);
            },
        }
        assert(self@.streams =~= before.streams.insert(
            key@,
            stream_of(before, key@).push(segment),
        ));
    }

    /// The blocks of the stream `key`; none where there is no such stream.
    pub fn segments(&self, key: &str) -> (segments: Vec<StreamSegment>)
        requires
            self.wf(),
        ensures
            segments@ == stream_of(self@, key@),
    {
        match self.stream_slots.get(key) {
            Some(i) => {
                let segments = self.stream_segments[*i].clone();
                assert(segments@ =~= stream_of(self@, key@));
                segments
            },
            None => Vec::new(),
        }
    }

    /// Stores `session` under its id.
    pub fn insert_session(&mut self, session: Session)
        requires
            old(self).wf(),
        ensures
            final(self).wf(),
            final(self)@ == (EngineView {
                sessions: with_session(old(self)@.sessions, session@),
                ..old(self)@
            }),
            final(self).publisher() == old(self).publisher(),
    {
        let ghost before = self@;
        let ghost said = session@;
        let place = self.find_session(session.id.as_str());
        match place {
            Some(i) => {
                self.sessions[i] = session;
            },
            None => {
                self.sessions.push(session);
            },
        }
        assert(self@.sessions =~= with_session(before.sessions, said));
    }

    /// The place of the session `id`.
    fn find_session(&self, id: &str) -> (place: Option<usize>)
        ensures
            match place {
                Some(i) => session_place(self@.sessions, id@) == Some(i as int) && i
                    < self.sessions@.len() && self.sessions@[i as int]@.id == id@,
                None => session_place(self@.sessions, id@) is None && forall|i: int|
                    0 <= i < self.sessions@.len() ==> #[trigger] self.sessions@[i]@.id != id@,
            },
    {
        let wanted = id.to_owned();
        let ghost all = self@.sessions;
        let mut left: usize = self.sessions.len();
        assert(all.take(left as int) =~= all);
        while left > 0
            invariant
                left <= self.sessions@.len(),
                all == self@.sessions,
                wanted@ == id@,
                session_place(all, id@) == session_place(all.take(left as int), id@),
                forall|i: int|
                    left <= i < self.sessions@.len() ==> #[trigger] self.sessions@[i]@.id != id@,
            decreases left,
        {
            let i: usize = left - 1;
            assert(all.take(left as int).drop_last() =~= all.take(i as int));
            if self.sessions[i].id.eq(&wanted) {
                return Some(i);
            }
            left = i;
        }
        None
    }

    /// The session `id`, where there is one.
    pub fn get_session(&self, id: &str) -> (session: Option<Session>)
        ensures
            match session {
                Some(s) => session_of(self@.sessions, id@) == Some(s@),
                None => session_of(self@.sessions, id@) is None,
            },
            match session {
                Some(s) => s.id@ == id@ && self@.sessions.contains(s@),
                None => forall|i: int|
                    0 <= i < self@.sessions.len() ==> #[trigger] self@.sessions[i].id != id@,
            },
    {
        proof {
            lookup_finds_stored_session(self@.sessions, id@);
        }
        match self.find_session(id) {
            Some(i) => Some(self.sessions[i].clone()),
            None => None,
        }
    }

    /// The `limit` newest sessions, the newest first.
    pub fn list_sessions(&self, limit: usize) -> (list: Vec<Session>)
        ensures
            session_views(list@) == newest_sessions(self@.sessions, limit as nat),
            list@.len() == (if limit < self@.sessions.len() {
                limit as nat
            } else {
                self@.sessions.len()
            }),
            forall|i: int, j: int|
                0 <= i <= j < list@.len() ==> (#[trigger] list@[i]).created_at >= (
                #[trigger] list@[j]).created_at,
            forall|s: SessionView| #[trigger]
                session_views(list@).contains(s) ==> self@.sessions.contains(s),
            forall|s: SessionView, i: int|
                #![trigger self@.sessions.contains(s), list@[i]]
                self@.sessions.contains(s) && !session_views(list@).contains(s) && 0 <= i
                    < list@.len() ==> list@[i].created_at >= s.created_at,
    {
        let mut list = sort_newest_first(&self.sessions);
        let ghost all = session_views(list@);
        proof {
            newest_first_sorts(self@.sessions);
        }
        if limit < list.len() {
            list.truncate(limit);
        }
        assert(session_views(list@) =~= newest_sessions(self@.sessions, limit as nat));
        proof {
            let found = session_views(list@);
            assert(forall|i: int| 0 <= i < list@.len() ==> #[trigger] list@[i]@ == found[i]);
            assert forall|i: int, j: int| 0 <= i <= j < list@.len() implies (
            #[trigger] list@[i]).created_at >= (#[trigger] list@[j]).created_at by {
                limited_list_holds_the_newest(self@.sessions, limit as nat, list@[i]@);
                assert(found[i] == list@[i]@ && found[j] == list@[j]@);
            }
            assert forall|s: SessionView| #[trigger] found.contains(s) implies
                self@.sessions.contains(s) by {
                limited_list_holds_the_newest(self@.sessions, limit as nat, s);
            }
            assert forall|s: SessionView, i: int|
                #![trigger self@.sessions.contains(s), list@[i]]
                self@.sessions.contains(s) && !found.contains(s) && 0 <= i
                    < list@.len() implies list@[i].created_at >= s.created_at by {
                limited_list_holds_the_newest(self@.sessions, limit as nat, s);
                assert(found[i] == list@[i]@);
            }
        }
        list
    }

    /// The sessions that serve the intent `intent_id`, the newest first.
    pub fn list_by_intent(&self, intent_id: &str) -> (list: Vec<Session>)
        ensures
            session_views(list@) == newest_first(with_intent(self@.sessions, intent_id@)),
            forall|s: SessionView| #[trigger]
                session_views(list@).contains(s) <==> self@.sessions.contains(s) && s.intent_id
                    == intent_id@,
            forall|s: SessionView| #[trigger]
                session_views(list@).to_multiset().count(s) == (if s.intent_id == intent_id@ {
                    self@.sessions.to_multiset().count(s)
                } else {
                    0
                }),
            forall|i: int, j: int|
                0 <= i <= j < list@.len() ==> (#[trigger] list@[i]).created_at >= (
                #[trigger] list@[j]).created_at,
    {
        let list = sort_newest_first(&select_intent(&self.sessions, intent_id));
        proof {
            assert forall|s: SessionView|
                (#[trigger] session_views(list@).contains(s) <==> self@.sessions.contains(s)
                    && s.intent_id == intent_id@) by {
                intent_list_is_exact(self@.sessions, intent_id@, s);
            }
            assert forall|s: SessionView| #[trigger]
                session_views(list@).to_multiset().count(s) == (if s.intent_id == intent_id@ {
                    self@.sessions.to_multiset().count(s)
                } else {
                    0
                }) by {
                intent_list_is_exact(self@.sessions, intent_id@, s);
            }
        }
        list
    }

    /// Publishes `state` to all observers. It is kept where there are none, and
    /// shown to those who subscribe later.
    pub fn broadcast_state(&mut self, state: AgentState) -> (r: Result<(), MemMapError>)
        requires
            old(self).wf(),
        ensures
            r is Ok,
            final(self).wf(),
            final(self)@ == old(self)@,
            final(self).broadcast() == state@,
            forall|receiver: Receiver<AgentState>| #[trigger]
                feeds(final(self).publisher(), receiver) == feeds(
                    old(self).publisher(),
                    receiver,
                ),
    {
        send_state(&mut self.state_tx, state);
        assert(self@ =~= old(self)@);
        Ok(())
    }

    /// A new receiver of the states that are published. It shows the current
    /// one at once.
    pub fn subscribe_state(&self) -> (receiver: Receiver<AgentState>)
        ensures
            feeds(self.publisher(), receiver),
            seen_state(receiver) == self.broadcast(),
    {
        subscribe(&self.state_tx)
    }

    /// The state that was published last.
    pub fn current_state(&self) -> (state: AgentState)
        ensures
            state@ == self.broadcast(),
    {
        borrow_state(&self.state_tx)
    }
}

// ---- What the engine promises over time --------------------------------------

/// The engine holds what replaying `commands` would give; ids may have been
/// assigned beyond the ones that are logged.
pub open spec fn agrees_with_log(engine: EngineView, commands: Seq<CommandView>) -> bool {
    let replayed = replayed_onto(empty_engine(), commands);
    &&& engine.memories == replayed.memories
    &&& engine.kv == replayed.kv
    &&& engine.streams == replayed.streams
    &&& engine.sessions == replayed.sessions
    &&& engine.next_id >= replayed.next_id
}

/// Applying a command once it is logged keeps the engine in agreement with the
/// log.
pub proof fn logged_commands_keep_agreement(
    engine: EngineView,
    commands: Seq<CommandView>,
    command: CommandView,
)
    requires
        agrees_with_log(engine, commands),
    ensures
        agrees_with_log(applied(engine, command), commands.push(command)),
{
    assert(commands.push(command).drop_last() =~= commands);
}

/// Assigning an id, logged or not, keeps the engine in agreement with the log.
pub proof fn assigned_ids_keep_agreement(engine: EngineView, commands: Seq<CommandView>)
    requires
        agrees_with_log(engine, commands),
    ensures
        agrees_with_log(EngineView { next_id: engine.next_id + 1, ..engine }, commands),
{
}

/// The id that is assigned next is not zero and beyond the ids of all memories.
pub open spec fn next_id_is_fresh(engine: EngineView) -> bool {
    &&& engine.next_id >= 1
    &&& forall|id: u64| #[trigger] engine.memories.contains_key(id) ==> id < engine.next_id
}

/// Whatever is logged, the next id stays fresh, and it never goes back.
pub proof fn next_id_stays_fresh(engine: EngineView, command: CommandView)
    requires
        next_id_is_fresh(engine),
    ensures
        next_id_is_fresh(applied(engine, command)),
        applied(engine, command).next_id >= engine.next_id,
{
}

/// After recovery from any log the next id is fresh: it collides with none of
/// the memories that were recovered.
pub proof fn recovered_next_id_is_fresh(commands: Seq<CommandView>)
    ensures
        next_id_is_fresh(replayed_onto(empty_engine(), commands)),
    decreases commands.len(),
{
    if commands.len() > 0 {
        recovered_next_id_is_fresh(commands.drop_last());
    }
}

/// Every memory is filed under its own id.
pub open spec fn filed_under_ids(engine: EngineView) -> bool {
    forall|id: u64| #[trigger]
        engine.memories.contains_key(id) ==> engine.memories[id].id == id
}

/// After recovery from any log every memory is filed under its own id.
pub proof fn recovered_memories_are_filed_under_ids(commands: Seq<CommandView>)
    ensures
        filed_under_ids(replayed_onto(empty_engine(), commands)),
    decreases commands.len(),
{
    if commands.len() > 0 {
        recovered_memories_are_filed_under_ids(commands.drop_last());
    }
}

/// `command` sets or deletes `key`.
pub open spec fn touches_key(command: CommandView, key: Seq<char>) -> bool {
    match command {
        CommandView::SetKv { key: k, .. } => k == key,
        CommandView::DeleteKv { key: k } => k == key,
        _ => false,
    }
}

/// Commands that do not touch `key` leave its value alone.
pub proof fn other_commands_keep_key(
    engine: EngineView,
    commands: Seq<CommandView>,
    key: Seq<char>,
)
    requires
        forall|i: int| 0 <= i < commands.len() ==> !touches_key(#[trigger] commands[i], key),
    ensures
        replayed_onto(engine, commands).kv.contains_key(key) == engine.kv.contains_key(key),
        engine.kv.contains_key(key) ==> replayed_onto(engine, commands).kv[key] == engine.kv[key],
    decreases commands.len(),
{
    if commands.len() > 0 {
        let fewer = commands.drop_last();
        assert forall|i: int| 0 <= i < fewer.len() implies !touches_key(
            #[trigger] fewer[i],
            key,
        ) by {
            assert(fewer[i] == commands[i]);
        }
        other_commands_keep_key(engine, fewer, key);
        assert(!touches_key(commands[commands.len() - 1], key));
    }
}

/// A key has the value that it was last set to, and none once it was deleted,
/// whatever is done to other keys, memories, streams and sessions since.
pub proof fn key_has_last_value(
    engine: EngineView,
    key: Seq<char>,
    value: Seq<u8>,
    later: Seq<CommandView>,
)
    requires
        forall|i: int| 0 <= i < later.len() ==> !touches_key(#[trigger] later[i], key),
    ensures
        ({
            let set = replayed_onto(applied(engine, CommandView::SetKv { key, value }), later);
            set.kv.contains_key(key) && set.kv[key] == value
        }),
        !replayed_onto(applied(engine, CommandView::DeleteKv { key }), later).kv.contains_key(key),
{
    other_commands_keep_key(applied(engine, CommandView::SetKv { key, value }), later, key);
    other_commands_keep_key(applied(engine, CommandView::DeleteKv { key }), later, key);
}

/// No two sessions have the same id.
pub open spec fn session_ids_distinct(sessions: Seq<SessionView>) -> bool {
    forall|i: int, j: int|
        #![trigger sessions[i], sessions[j]]
        0 <= i < j < sessions.len() ==> sessions[i].id != sessions[j].id
}

proof fn lemma_session_place(sessions: Seq<SessionView>, id: Seq<char>)
    ensures
        match session_place(sessions, id) {
            Some(i) => 0 <= i < sessions.len() && sessions[i].id == id,
            None => forall|i: int| 0 <= i < sessions.len() ==> #[trigger] sessions[i].id != id,
        },
    decreases sessions.len(),
{
    if sessions.len() > 0 && sessions.last().id != id {
        let fewer = sessions.drop_last();
        lemma_session_place(fewer, id);
        if session_place(fewer, id) is None {
            assert forall|i: int| 0 <= i < sessions.len() implies #[trigger] sessions[i].id
                != id by {
                if i < fewer.len() {
                    assert(fewer[i] == sessions[i]);
                }
            }
        }
    }
}

/// Among sessions with distinct ids, the place of a session is where its id is.
proof fn lemma_session_found(sessions: Seq<SessionView>, i: int)
    requires
        session_ids_distinct(sessions),
        0 <= i < sessions.len(),
    ensures
        session_place(sessions, sessions[i].id) == Some(i),
{
    lemma_session_place(sessions, sessions[i].id);
    if let Some(j) = session_place(sessions, sessions[i].id) {
        assert(sessions[j].id == sessions[i].id);
        assert(!(j < i) && !(i < j));
    } else {
        assert(sessions[i].id != sessions[i].id);
    }
}

/// A session that was put can be got by its id, as it was put; the other
/// sessions are as they were, and no id occurs twice.
pub proof fn put_session_can_be_got(
    sessions: Seq<SessionView>,
    session: SessionView,
    other: Seq<char>,
)
    requires
        session_ids_distinct(sessions),
    ensures
        session_ids_distinct(with_session(sessions, session)),
        session_of(with_session(sessions, session), session.id) == Some(session),
        other != session.id ==> session_of(with_session(sessions, session), other) == session_of(
            sessions,
            other,
        ),
{
    let after = with_session(sessions, session);
    lemma_session_place(sessions, session.id);
    lemma_session_place(sessions, other);
    lemma_session_place(after, other);
    match session_place(sessions, session.id) {
        Some(i) => {
            assert(after[i] == session);
            lemma_session_found(after, i);
        },
        None => {
            assert(after[sessions.len() as int] == session);
            lemma_session_found(after, sessions.len() as int);
        },
    }
    if other != session.id {
        match session_place(sessions, other) {
            Some(j) => {
                assert(after[j] == sessions[j]);
                lemma_session_found(after, j);
            },
            None => {
                if let Some(j) = session_place(after, other) {
                    assert(after[j].id == other);
                    if j < sessions.len() {
                        assert(sessions[j].id == other);
                    }
                }
            },
        }
    }
}

/// After recovery from any log no session id occurs twice.
pub proof fn recovered_session_ids_are_distinct(commands: Seq<CommandView>)
    ensures
        session_ids_distinct(replayed_onto(empty_engine(), commands).sessions),
    decreases commands.len(),
{
    if commands.len() > 0 {
        recovered_session_ids_are_distinct(commands.drop_last());
        if let CommandView::PutSession { session } = commands.last() {
            put_session_can_be_got(
                replayed_onto(empty_engine(), commands.drop_last()).sessions,
                session,
                session.id,
            );
        }
    }
}

/// A block that is appended to a stream goes to its end, and to no other
/// stream.
pub proof fn appended_segments_stay_in_order(
    engine: EngineView,
    key: Seq<char>,
    segment: StreamSegment,
    other: Seq<char>,
)
    ensures
        ({
            let StreamSegment { chunk_id, offset, length } = segment;
            let after = applied(
                engine,
                CommandView::AppendStream { key, chunk_id, offset, length },
            );
            &&& stream_of(after, key) == stream_of(engine, key).push(segment)
            &&& other != key ==> stream_of(after, other) == stream_of(engine, other)
        }),
{
}

/// Replaying a log in two parts is the same as replaying it at once.
pub proof fn replay_can_be_split(
    engine: EngineView,
    first: Seq<CommandView>,
    second: Seq<CommandView>,
)
    ensures
        replayed_onto(engine, first + second) == replayed_onto(
            replayed_onto(engine, first),
            second,
        ),
    decreases second.len(),
{
    if second.len() == 0 {
        assert(first + second =~= first);
    } else {
        replay_can_be_split(engine, first, second.drop_last());
        assert((first + second).drop_last() =~= first + second.drop_last());
    }
}

} // verus!
