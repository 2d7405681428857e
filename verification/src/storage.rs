//! The write-ahead log.
use vstd::prelude::*;

use crate::bytes::{
    begins_with, le_bytes, le_value, lemma_le_bounds, lemma_le_bytes_len, lemma_le_round_trip,
    u64_from_le, u64_to_le,
};
use crate::codec::{
    bytes_field, decode_command, decode_inverts_encode, decoded, encode_command, payload_of,
    unknown_tag_text, PUT_SESSION,
};
use crate::error::MemMapError;
use crate::session::{Session, SessionView};
use crate::text::{copy_bytes, copy_strings, texts};

verus! {

/// A single entry of the write-ahead log.
#[derive(Debug)]
pub enum WalCommand {
    /// A new memory block was written.
    AppendMemory { id: u64, chunk_id: u32, offset: u64, length: u64, tags: Vec<String> },
    /// A key/value pair was upserted into the KV store.
    SetKv { key: String, value: Vec<u8> },
    /// A key was removed from the KV store.
    DeleteKv { key: String },
    /// A block was appended to a stream.
    AppendStream { key: String, chunk_id: u32, offset: u64, length: u64 },
    /// A session was stored under its id.
    PutSession { session: Session },
}

/// What a [`WalCommand`] says.
pub enum CommandView {
    AppendMemory { id: u64, chunk_id: u32, offset: u64, length: u64, tags: Seq<Seq<char>> },
    SetKv { key: Seq<char>, value: Seq<u8> },
    DeleteKv { key: Seq<char> },
    AppendStream { key: Seq<char>, chunk_id: u32, offset: u64, length: u64 },
    PutSession { session: SessionView },
}

impl View for WalCommand {
    type V = CommandView;

    open spec fn view(&self) -> CommandView {
        match *self {
            WalCommand::AppendMemory { id, chunk_id, offset, length, tags } => {
                CommandView::AppendMemory { id, chunk_id, offset, length, tags: texts(tags@) }
            },
            WalCommand::SetKv { key, value } => CommandView::SetKv { key: key@, value: value@ },
            WalCommand::DeleteKv { key } => CommandView::DeleteKv { key: key@ },
            WalCommand::AppendStream { key, chunk_id, offset, length } => {
                CommandView::AppendStream { key: key@, chunk_id, offset, length }
            },
            WalCommand::PutSession { session } => CommandView::PutSession { session: session@ },
        }
    }
}

impl Clone for WalCommand {
    fn clone(&self) -> (copy: Self)
        ensures
            copy@ == self@,
    {
        match self {
            WalCommand::AppendMemory { id, chunk_id, offset, length, tags } => {
                WalCommand::AppendMemory {
                    id: *id,
                    chunk_id: *chunk_id,
                    offset: *offset,
                    length: *length,
                    tags: copy_strings(tags),
                }
            },
            WalCommand::SetKv { key, value } => {
                WalCommand::SetKv { key: key.clone(), value: copy_bytes(value) }
            },
            WalCommand::DeleteKv { key } => WalCommand::DeleteKv { key: key.clone() },
            WalCommand::AppendStream { key, chunk_id, offset, length } => {
                WalCommand::AppendStream {
                    key: key.clone(),
                    chunk_id: *chunk_id,
                    offset: *offset,
                    length: *length,
                }
            },
            WalCommand::PutSession { session } => {
                WalCommand::PutSession { session: session.clone() }
            },
        }
    }
}

/// What each of `commands` says, in order.
pub open spec fn command_views(commands: Seq<WalCommand>) -> Seq<CommandView> {
    commands.map_values(|c: WalCommand| c@)
}

// ---- The write-ahead log ---------------------------------------------------

/// The log entry of a command: the length of its payload as a `u64`, then the
/// payload.
pub open spec fn entry_of(c: CommandView) -> Seq<u8> {
    bytes_field(payload_of(c))
}

/// A log that holds the entries of `commands`, one after the other.
pub open spec fn log_of(commands: Seq<CommandView>) -> Seq<u8>
    decreases commands.len(),
{
    if commands.len() == 0 {
        Seq::empty()
    } else {
        entry_of(commands[0]) + log_of(commands.drop_first())
    }
}

/// The length that the entry at `pos` announces for its payload.
pub open spec fn payload_len_at(log: Seq<u8>, pos: int) -> int {
    le_value(log.subrange(pos, pos + 8)) as int
}

/// There is a complete entry at `pos`: a length prefix and as many bytes as it
/// announces.
pub open spec fn entry_at(log: Seq<u8>, pos: int) -> bool {
    &&& 0 <= pos
    &&& pos + 8 <= log.len()
    &&& pos + 8 + payload_len_at(log, pos) <= log.len()
}

/// The payload of the entry at `pos`.
pub open spec fn payload_at(log: Seq<u8>, pos: int) -> Seq<u8> {
    log.subrange(pos + 8, pos + 8 + payload_len_at(log, pos))
}

/// The commands of the complete entries from `pos` on, or the offset of the
/// first one of them that holds no command.
pub open spec fn replayed(log: Seq<u8>, pos: int) -> Result<Seq<CommandView>, int>
    decreases log.len() - pos,
{
    if !entry_at(log, pos) {
        Ok(Seq::empty())
    } else {
        match decoded(payload_at(log, pos)) {
            None => Err(pos),
            Some(c) => after(seq![c], replayed(log, pos + 8 + payload_len_at(log, pos))),
        }
    }
}

/// The outcome `rest` with the commands `done` before it.
pub open spec fn after(
    done: Seq<CommandView>,
    rest: Result<Seq<CommandView>, int>,
) -> Result<Seq<CommandView>, int> {
    match rest {
        Ok(commands) => Ok(done + commands),
        Err(offset) => Err(offset),
    }
}

/// Where the complete entries from `pos` on end.
pub open spec fn complete_end(log: Seq<u8>, pos: int) -> int
    decreases log.len() - pos,
{
    if !entry_at(log, pos) {
        pos
    } else {
        complete_end(log, pos + 8 + payload_len_at(log, pos))
    }
}

/// The log without the record that was cut short at its end, if there is one.
pub open spec fn without_torn(log: Seq<u8>) -> Seq<u8> {
    log.take(complete_end(log, 0))
}

/// Where `payload` starts with an unknown variant index, `reason` names it.
/// Nothing is said of the reason where a known command is malformed: it is
/// bincode's text, which depends on the width of the machine's addresses.
pub open spec fn names_unknown_tag(payload: Seq<u8>, reason: Seq<char>) -> bool {
    forall|tag: u32|
        #![trigger unknown_tag_text(tag)]
        tag > PUT_SESSION && begins_with(payload, le_bytes(tag as nat, 4)) ==> reason
            == unknown_tag_text(tag)
}

/// The framing of the log file `state.wal`.
pub struct LogManager;

impl LogManager {
    /// The bytes to write at the end of the log to record `command`: a `u64`
    /// length prefix, then the payload. The prefix lets [`Self::replay`] detect
    /// a record that was cut short.
    pub fn append(command: &WalCommand) -> (r: Result<Vec<u8>, MemMapError>)
        ensures
            r is Ok,
            r->Ok_0@ == entry_of(command@),
            replayed(r->Ok_0@, 0) == Ok::<Seq<CommandView>, int>(seq![command@]),
    {
        let mut payload = match encode_command(command) {
            Ok(payload) => payload,
            Err(e) => {
                return Err(e);
            },
        };
        let mut entry = u64_to_le(payload.len() as u64);
        entry.append(&mut payload);
        proof {
            let none = Seq::<u8>::empty();
            assert(entry.len() == entry_of(command@).len());
            assert(!entry_at(none, 0));
            lemma_one_more_entry(none, command@);
            lemma_concat_empty(entry_of(command@));
            assert(without_torn(none) =~= none);
            assert(Seq::<CommandView>::empty().push(command@) =~= seq![command@]);
        }
        Ok(entry)
    }

    /// The commands of a log with the bytes `contents`, in order. A record that
    /// is cut short at the end of the log is ignored; an entry that holds no
    /// command is an error.
    pub fn replay(contents: &[u8]) -> (r: Result<Vec<WalCommand>, MemMapError>)
        ensures
            match r {
                Ok(commands) => replayed(contents@, 0) == Ok::<Seq<CommandView>, int>(
                    command_views(commands@),
                ),
                Err(MemMapError::CorruptWal { offset, reason }) => {
                    &&& replayed(contents@, 0) == Err::<Seq<CommandView>, int>(offset as int)
                    &&& names_unknown_tag(payload_at(contents@, offset as int), reason@)
                },
                Err(_) => false,
            },
    {
        let size: usize = contents.len();
        let mut commands: Vec<WalCommand> = Vec::new();
        let mut pos: usize = 0;
        proof {
            assert(command_views(commands@) =~= Seq::empty());
            lemma_after_nothing(replayed(contents@, 0));
        }
        while size - pos >= 8
            invariant
                pos <= size == contents@.len(),
                replayed(contents@, 0) == after(
                    command_views(commands@),
                    replayed(contents@, pos as int),
                ),
            ensures
                replayed(contents@, 0) == Ok::<Seq<CommandView>, int>(command_views(commands@)),
            decreases size - pos,
        {
            let payload_len: u64 = u64_from_le(contents, pos);
            if payload_len > (size - pos - 8) as u64 {
                proof {
                    assert(command_views(commands@) + Seq::empty() =~= command_views(commands@));
                }
                break;
            }
            let start: usize = pos + 8;
            let end: usize = start + payload_len as usize;
            let payload = vstd::slice::slice_subrange(contents, start, end);
            match decode_command(payload) {
                Ok(command) => {
                    let ghost done = command_views(commands@);
                    let ghost rest = replayed(contents@, end as int);
                    commands.push(command);
                    proof {
                        assert(command_views(commands@) =~= done + seq![command@]);
                        lemma_after_after(done, seq![command@], rest);
                    }
                },
                Err(reason) => {
                    return Err(MemMapError::CorruptWal { offset: pos as u64, reason });
                },
            }
            pos = end;
        }
        Ok(commands)
    }

    /// How many bytes of a log with the bytes `contents` are complete entries.
    /// What follows was cut short, and is to be cut off before the log is
    /// written to again: an entry behind it could not be found.
    pub fn complete_length(contents: &[u8]) -> (end: usize)
        ensures
            end == complete_end(contents@, 0),
            contents@.take(end as int) == without_torn(contents@),
            end <= contents@.len(),
            replayed(contents@, 0) is Ok ==> {
                &&& replayed(contents@.take(end as int), 0) == replayed(contents@, 0)
                &&& forall|c: CommandView|
                    contents@.len() + (#[trigger] entry_of(c)).len() <= u64::MAX ==> replayed(
                        contents@.take(end as int) + entry_of(c),
                        0,
                    ) == Ok::<Seq<CommandView>, int>(replayed(contents@, 0)->Ok_0.push(c))
            },
    {
        let size: usize = contents.len();
        let mut pos: usize = 0;
        while size - pos >= 8
            invariant
                pos <= size == contents@.len(),
                complete_end(contents@, 0) == complete_end(contents@, pos as int),
            ensures
                pos <= size,
                complete_end(contents@, 0) == pos,
            decreases size - pos,
        {
            let payload_len: u64 = u64_from_le(contents, pos);
            if payload_len > (size - pos - 8) as u64 {
                break;
            }
            pos = pos + 8 + payload_len as usize;
        }
        proof {
            if replayed(contents@, 0) is Ok {
                let kept = without_torn(contents@);
                lemma_kept_entries(contents@, 0, Seq::empty());
                lemma_concat_empty(kept);
                assert(!entry_at(kept, pos as int));
                assert(replayed(contents@, 0)->Ok_0 + Seq::<CommandView>::empty() =~= replayed(
                    contents@,
                    0,
                )->Ok_0);
                assert forall|c: CommandView|
                    contents@.len() + (#[trigger] entry_of(c)).len() <= u64::MAX implies replayed(
                    kept + entry_of(c),
                    0,
                ) == Ok::<Seq<CommandView>, int>(replayed(contents@, 0)->Ok_0.push(c)) by {
                    lemma_one_more_entry(contents@, c);
                }
            }
        }
        pos
    }
}

proof fn lemma_after_nothing(rest: Result<Seq<CommandView>, int>)
    ensures
        after(Seq::empty(), rest) == rest,
{
    if let Ok(commands) = rest {
        assert(Seq::<CommandView>::empty() + commands =~= commands);
    }
}

proof fn lemma_after_after(
    first: Seq<CommandView>,
    second: Seq<CommandView>,
    rest: Result<Seq<CommandView>, int>,
)
    ensures
        after(first, after(second, rest)) == after(first + second, rest),
{
    if let Ok(commands) = rest {
        assert(first + (second + commands) =~= (first + second) + commands);
    }
}

/// An entry with the payload `p` at the end of `before` is complete, and its
/// payload is `p`.
proof fn lemma_entry(before: Seq<u8>, p: Seq<u8>, rest: Seq<u8>)
    requires
        p.len() <= u64::MAX,
    ensures
        ({
            let log = before + bytes_field(p) + rest;
            let pos = before.len() as int;
            &&& entry_at(log, pos)
            &&& payload_len_at(log, pos) == p.len()
            &&& payload_at(log, pos) == p
        }),
{
    let log = before + bytes_field(p) + rest;
    let pos = before.len() as int;
    lemma_le_bounds();
    lemma_le_bytes_len(p.len(), 8);
    lemma_le_round_trip(p.len(), 8);
    assert(log.subrange(pos, pos + 8) =~= le_bytes(p.len(), 8));
    assert(log.subrange(pos + 8, pos + 8 + p.len()) =~= p);
}

/// Replay takes the entries of `commands` one by one, whatever stands before
/// and after them.
proof fn lemma_replay_entries(before: Seq<u8>, commands: Seq<CommandView>, rest: Seq<u8>)
    requires
        log_of(commands).len() <= u64::MAX,
    ensures
        replayed(before + log_of(commands) + rest, before.len() as int) == after(
            commands,
            replayed(
                before + log_of(commands) + rest,
                (before.len() + log_of(commands).len()) as int,
            ),
        ),
    decreases commands.len(),
{
    let log = before + log_of(commands) + rest;
    if commands.len() == 0 {
        assert(commands =~= Seq::empty());
        lemma_after_nothing(replayed(log, before.len() as int));
    } else {
        let c = commands[0];
        let more = commands.drop_first();
        let p = payload_of(c);
        let next = before + entry_of(c);
        lemma_le_bytes_len(p.len(), 8);
        assert(log =~= before + bytes_field(p) + (log_of(more) + rest));
        lemma_entry(before, p, log_of(more) + rest);
        assert(p + Seq::empty() =~= p);
        decode_inverts_encode(c, Seq::empty());
        assert(log =~= next + log_of(more) + rest);
        lemma_replay_entries(next, more, rest);
        let end = (before.len() + log_of(commands).len()) as int;
        lemma_after_after(seq![c], more, replayed(log, end));
        assert(seq![c] + more =~= commands);
    }
}

proof fn lemma_concat_assoc(a: Seq<u8>, b: Seq<u8>, c: Seq<u8>)
    ensures
        a + (b + c) == (a + b) + c,
{
    assert(a + (b + c) =~= (a + b) + c);
}

proof fn lemma_concat_empty(a: Seq<u8>)
    ensures
        a + Seq::<u8>::empty() == a,
        Seq::<u8>::empty() + a == a,
{
    assert(a + Seq::<u8>::empty() =~= a);
    assert(Seq::<u8>::empty() + a =~= a);
}

/// Recording one more command extends the log by its entry and touches nothing
/// that was there.
pub proof fn append_extends_log(commands: Seq<CommandView>, c: CommandView)
    ensures
        log_of(commands.push(c)) == log_of(commands) + entry_of(c),
    decreases commands.len(),
{
    let longer = commands.push(c);
    if commands.len() == 0 {
        assert(longer.drop_first() =~= Seq::empty());
        assert(log_of(longer) == entry_of(c) + log_of(Seq::empty()));
        lemma_concat_empty(entry_of(c));
    } else {
        let more = commands.drop_first();
        append_extends_log(more, c);
        assert(longer.drop_first() =~= more.push(c));
        assert(longer[0] == commands[0]);
        lemma_concat_assoc(entry_of(commands[0]), log_of(more), entry_of(c));
    }
}

/// Cutting off a torn record keeps the commands of the complete entries, also
/// where other bytes follow in its place.
proof fn lemma_kept_entries(log: Seq<u8>, pos: int, rest: Seq<u8>)
    requires
        0 <= pos <= log.len(),
        replayed(log, pos) is Ok,
    ensures
        pos <= complete_end(log, pos) <= log.len(),
        replayed(log.take(complete_end(log, pos)) + rest, pos) == after(
            replayed(log, pos)->Ok_0,
            replayed(log.take(complete_end(log, pos)) + rest, complete_end(log, pos)),
        ),
    decreases log.len() - pos,
{
    let end = complete_end(log, pos);
    let new = log.take(end) + rest;
    if !entry_at(log, pos) {
        lemma_after_nothing(replayed(new, pos));
    } else {
        let next = pos + 8 + payload_len_at(log, pos);
        let c = decoded(payload_at(log, pos))->Some_0;
        lemma_kept_entries(log, next, rest);
        assert(new.subrange(pos, pos + 8) =~= log.subrange(pos, pos + 8));
        assert(new.subrange(pos + 8, next) =~= log.subrange(pos + 8, next));
        lemma_after_after(seq![c], replayed(log, next)->Ok_0, replayed(new, end));
    }
}

/// There is no complete entry where only a part of one was written.
proof fn lemma_torn_entry(before: Seq<u8>, torn: CommandView, cut: int)
    requires
        0 <= cut < entry_of(torn).len() <= u64::MAX,
    ensures
        !entry_at(before + entry_of(torn).take(cut), before.len() as int),
{
    let log = before + entry_of(torn).take(cut);
    let end = before.len() as int;
    let p = payload_of(torn);
    lemma_le_bounds();
    lemma_le_bytes_len(p.len(), 8);
    lemma_le_round_trip(p.len(), 8);
    if cut >= 8 {
        assert(log.subrange(end, end + 8) =~= le_bytes(p.len(), 8));
    }
}

proof fn lemma_one_more_entry(log: Seq<u8>, c: CommandView)
    requires
        replayed(log, 0) is Ok,
        log.len() + entry_of(c).len() <= u64::MAX,
    ensures
        replayed(without_torn(log) + entry_of(c), 0) == Ok::<Seq<CommandView>, int>(
            replayed(log, 0)->Ok_0.push(c),
        ),
{
    let one = seq![c];
    let none = Seq::<u8>::empty();
    let kept = without_torn(log);
    assert(one.drop_first() =~= Seq::<CommandView>::empty());
    assert(log_of(one) == entry_of(c) + log_of(Seq::empty()));
    lemma_concat_empty(entry_of(c));
    lemma_kept_entries(log, 0, entry_of(c));
    lemma_replay_entries(kept, one, none);
    lemma_concat_empty(kept + entry_of(c));
    let new = kept + entry_of(c);
    assert(!entry_at(new, new.len() as int));
    assert(one + Seq::<CommandView>::empty() =~= one);
    assert(replayed(log, 0)->Ok_0 + one =~= replayed(log, 0)->Ok_0.push(c));
}

/// What is recorded after a recovery is found again by the next one. Whatever
/// was cut short at the end of `log` is cut off; the entries of `more` follow,
/// and then the first `cut` bytes of a record that was being written when the
/// machine stopped. Replay gives back the commands of `log`, then `more`.
pub proof fn recovered_log_can_be_extended(
    log: Seq<u8>,
    more: Seq<CommandView>,
    torn: CommandView,
    cut: int,
)
    requires
        replayed(log, 0) is Ok,
        0 <= cut < entry_of(torn).len(),
        log.len() + log_of(more).len() + entry_of(torn).len() <= u64::MAX,
    ensures
        replayed(without_torn(log) + log_of(more) + entry_of(torn).take(cut), 0) == Ok::<
            Seq<CommandView>,
            int,
        >(replayed(log, 0)->Ok_0 + more),
{
    let kept = without_torn(log);
    let rest = entry_of(torn).take(cut);
    let new = kept + log_of(more) + rest;
    lemma_concat_assoc(kept, log_of(more), rest);
    lemma_kept_entries(log, 0, log_of(more) + rest);
    lemma_replay_entries(kept, more, rest);
    lemma_torn_entry(kept + log_of(more), torn, cut);
    assert(more + Seq::<CommandView>::empty() =~= more);
}

/// Replay gives back every command that was recorded, in order. A record that
/// was being written when the machine stopped, of which only the first `cut`
/// bytes reached the log, is ignored; with `cut` zero nothing was cut short.
pub proof fn replay_recovers_recorded_commands(
    commands: Seq<CommandView>,
    torn: CommandView,
    cut: int,
)
    requires
        0 <= cut < entry_of(torn).len(),
        (log_of(commands) + entry_of(torn)).len() <= u64::MAX,
    ensures
        replayed(log_of(commands) + entry_of(torn).take(cut), 0) == Ok::<Seq<CommandView>, int>(
            commands,
        ),
{
    let none = Seq::<u8>::empty();
    assert(!entry_at(none, 0));
    recovered_log_can_be_extended(none, commands, torn, cut);
    assert(without_torn(none) + log_of(commands) =~= log_of(commands));
    assert(Seq::<CommandView>::empty() + commands =~= commands);
}

/// What happens to a log between two restarts: commands are recorded, and of one
/// more record only the first `cut` bytes are written.
pub struct Run {
    pub commands: Seq<CommandView>,
    pub torn: CommandView,
    pub cut: int,
}

/// The log after `runs`, one after the other. Each starts by cutting off what
/// the one before it left incomplete.
pub open spec fn log_after(runs: Seq<Run>) -> Seq<u8>
    decreases runs.len(),
{
    if runs.len() == 0 {
        Seq::empty()
    } else {
        let run = runs.last();
        without_torn(log_after(runs.drop_last())) + log_of(run.commands) + entry_of(
            run.torn,
        ).take(run.cut)
    }
}

/// All commands that were recorded in `runs`.
pub open spec fn recorded_in(runs: Seq<Run>) -> Seq<CommandView>
    decreases runs.len(),
{
    if runs.len() == 0 {
        Seq::empty()
    } else {
        recorded_in(runs.drop_last()) + runs.last().commands
    }
}

/// Of each torn record a part is missing, and the log never outgrows a file.
pub open spec fn runs_fit(runs: Seq<Run>) -> bool
    decreases runs.len(),
{
    if runs.len() == 0 {
        true
    } else {
        let run = runs.last();
        &&& runs_fit(runs.drop_last())
        &&& 0 <= run.cut < entry_of(run.torn).len()
        &&& log_after(runs.drop_last()).len() + log_of(run.commands).len() + entry_of(
            run.torn,
        ).len() <= u64::MAX
    }
}

/// However often the machine stops while a record is being written, replay gives
/// back every command that was recorded, in order.
pub proof fn crashes_lose_no_command(runs: Seq<Run>)
    requires
        runs_fit(runs),
    ensures
        replayed(log_after(runs), 0) == Ok::<Seq<CommandView>, int>(recorded_in(runs)),
    decreases runs.len(),
{
    if runs.len() == 0 {
        assert(!entry_at(log_after(runs), 0));
    } else {
        let run = runs.last();
        crashes_lose_no_command(runs.drop_last());
        recovered_log_can_be_extended(
            log_after(runs.drop_last()),
            run.commands,
            run.torn,
            run.cut,
        );
    }
}

/// A complete entry that holds no command makes replay fail, and the error
/// names the offset at which the entry starts.
pub proof fn replay_reports_corruption(commands: Seq<CommandView>, p: Seq<u8>, rest: Seq<u8>)
    requires
        decoded(p) is None,
        p.len() <= u64::MAX,
        log_of(commands).len() <= u64::MAX,
    ensures
        replayed(log_of(commands) + bytes_field(p) + rest, 0) == Err::<Seq<CommandView>, int>(
            log_of(commands).len() as int,
        ),
{
    let none = Seq::<u8>::empty();
    let log = log_of(commands) + bytes_field(p) + rest;
    assert(none + log_of(commands) + (bytes_field(p) + rest) =~= log);
    lemma_replay_entries(none, commands, bytes_field(p) + rest);
    lemma_entry(log_of(commands), p, rest);
}

} // verus!
