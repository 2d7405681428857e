//! Log commands as bincode payloads.
//!
//! A command is stored as bincode stores an enum: the index of the variant as
//! a `u32`, then the fields in order. Integers take their full width, least
//! significant byte first; a string, a byte vector and a list of strings each
//! start with their length as a `u64`.
use vstd::prelude::*;
use vstd::utf8::*;

use crate::bytes::{
    begins_with, le_bound, le_bytes, lemma_le_bounds, lemma_le_bytes_len, lemma_le_round_trip,
};
use crate::error::MemMapError;
use crate::session::Session;
use crate::storage::{CommandView, WalCommand};
use crate::text::{decimal, texts, to_decimal};

verus! {

/// The variant index of each command.
pub const APPEND_MEMORY: u32 = 0;

pub const SET_KV: u32 = 1;

pub const DELETE_KV: u32 = 2;

pub const APPEND_STREAM: u32 = 3;

pub const PUT_SESSION: u32 = 4;

/// A byte vector: its length, then the bytes.
pub open spec fn bytes_field(b: Seq<u8>) -> Seq<u8> {
    le_bytes(b.len(), 8) + b
}

/// A string: the length of its UTF-8 form, then that form.
pub open spec fn text_field(s: Seq<char>) -> Seq<u8> {
    bytes_field(encode_utf8(s))
}

/// Strings one after the other.
pub open spec fn text_fields(list: Seq<Seq<char>>) -> Seq<u8>
    decreases list.len(),
{
    if list.len() == 0 {
        Seq::empty()
    } else {
        text_field(list[0]) + text_fields(list.drop_first())
    }
}

/// A list of strings: how many, then each of them.
pub open spec fn list_field(list: Seq<Seq<char>>) -> Seq<u8> {
    le_bytes(list.len(), 8) + text_fields(list)
}

/// The payload of an `AppendMemory` command with variant index `tag`.
pub open spec fn memory_payload(
    tag: u32,
    id: u64,
    chunk_id: u32,
    offset: u64,
    length: u64,
    tags: Seq<Seq<char>>,
) -> Seq<u8> {
    le_bytes(tag as nat, 4) + (le_bytes(id as nat, 8) + (le_bytes(chunk_id as nat, 4) + (le_bytes(
        offset as nat,
        8,
    ) + (le_bytes(length as nat, 8) + list_field(tags)))))
}

/// The payload of a `SetKv` command with variant index `tag`.
pub open spec fn set_payload(tag: u32, key: Seq<char>, value: Seq<u8>) -> Seq<u8> {
    le_bytes(tag as nat, 4) + (text_field(key) + bytes_field(value))
}

/// The payload of a `DeleteKv` command with variant index `tag`.
pub open spec fn delete_payload(tag: u32, key: Seq<char>) -> Seq<u8> {
    le_bytes(tag as nat, 4) + text_field(key)
}

/// The payload of an `AppendStream` command with variant index `tag`.
pub open spec fn stream_payload(
    tag: u32,
    key: Seq<char>,
    chunk_id: u32,
    offset: u64,
    length: u64,
) -> Seq<u8> {
    le_bytes(tag as nat, 4) + (text_field(key) + (le_bytes(chunk_id as nat, 4) + (le_bytes(
        offset as nat,
        8,
    ) + le_bytes(length as nat, 8))))
}

/// The payload of a `PutSession` command with variant index `tag`.
pub open spec fn session_payload(
    tag: u32,
    id: Seq<char>,
    intent_id: Seq<char>,
    created_at: u64,
    payload: Seq<u8>,
) -> Seq<u8> {
    le_bytes(tag as nat, 4) + (text_field(id) + (text_field(intent_id) + (le_bytes(
        created_at as nat,
        8,
    ) + bytes_field(payload))))
}

/// The bytes that stand for a command in the log.
pub open spec fn payload_of(c: CommandView) -> Seq<u8> {
    match c {
        CommandView::AppendMemory { id, chunk_id, offset, length, tags } => memory_payload(
            APPEND_MEMORY,
            id,
            chunk_id,
            offset,
            length,
            tags,
        ),
        CommandView::SetKv { key, value } => set_payload(SET_KV, key, value),
        CommandView::DeleteKv { key } => delete_payload(DELETE_KV, key),
        CommandView::AppendStream { key, chunk_id, offset, length } => stream_payload(
            APPEND_STREAM,
            key,
            chunk_id,
            offset,
            length,
        ),
        CommandView::PutSession { session } => session_payload(
            PUT_SESSION,
            session.id,
            session.intent_id,
            session.created_at,
            session.payload,
        ),
    }
}

// ---- bincode -------------------------------------------------------------

/// `bincode::serialize` on the fields of an `AppendMemory` command. It succeeds,
/// since it is given no size limit and writes to memory, and lays the fields
/// out one after the other.
#[verifier::external_body]
fn serialize_memory(
    tag: u32,
    id: u64,
    chunk_id: u32,
    offset: u64,
    length: u64,
    tags: &Vec<String>,
) -> (r: Result<Vec<u8>, bincode::Error>)
    ensures
        r is Ok,
        r->Ok_0@ == memory_payload(tag, id, chunk_id, offset, length, texts(tags@)),
{
    bincode::serialize(&(tag, id, chunk_id, offset, length, tags))
}

/// `bincode::serialize` on the fields of a `SetKv` command. It succeeds, since
/// it is given no size limit and writes to memory, and lays the fields out one
/// after the other.
#[verifier::external_body]
fn serialize_set(tag: u32, key: &String, value: &Vec<u8>) -> (r: Result<Vec<u8>, bincode::Error>)
    ensures
        r is Ok,
        r->Ok_0@ == set_payload(tag, key@, value@),
{
    bincode::serialize(&(tag, key, value))
}

/// `bincode::serialize` on the field of a `DeleteKv` command. It succeeds, since
/// it is given no size limit and writes to memory, and lays the fields out one
/// after the other.
#[verifier::external_body]
fn serialize_delete(tag: u32, key: &String) -> (r: Result<Vec<u8>, bincode::Error>)
    ensures
        r is Ok,
        r->Ok_0@ == delete_payload(tag, key@),
{
    bincode::serialize(&(tag, key))
}

/// `bincode::serialize` on the fields of an `AppendStream` command. It succeeds,
/// since it is given no size limit and writes to memory, and lays the fields
/// out one after the other.
#[verifier::external_body]
fn serialize_stream(tag: u32, key: &String, chunk_id: u32, offset: u64, length: u64) -> (r: Result<
    Vec<u8>,
    bincode::Error,
>)
    ensures
        r is Ok,
        r->Ok_0@ == stream_payload(tag, key@, chunk_id, offset, length),
{
    bincode::serialize(&(tag, key, chunk_id, offset, length))
}

/// `bincode::serialize` on the fields of a `PutSession` command. It succeeds,
/// since it is given no size limit and writes to memory, and lays the fields
/// out one after the other.
#[verifier::external_body]
fn serialize_session(
    tag: u32,
    id: &String,
    intent_id: &String,
    created_at: u64,
    payload: &Vec<u8>,
) -> (r: Result<Vec<u8>, bincode::Error>)
    ensures
        r is Ok,
        r->Ok_0@ == session_payload(tag, id@, intent_id@, created_at, payload@),
{
    bincode::serialize(&(tag, id, intent_id, created_at, payload))
}

/// `bincode::deserialize` to a `u32`: the number that the first four bytes
/// spell, whatever follows them; an error where there are fewer.
#[verifier::external_body]
fn deserialize_tag(bytes: &[u8]) -> (r: Result<u32, bincode::Error>)
    ensures
        match r {
            Ok(tag) => begins_with(bytes@, le_bytes(tag as nat, 4)),
            Err(_) => bytes@.len() < 4,
        },
{
    bincode::deserialize(bytes)
}

/// `bincode::deserialize` to the fields of an `AppendMemory` command: the
/// fields whose layout the bytes begin with, whatever follows; an error where
/// the bytes begin with the layout of no such fields.
#[verifier::external_body]
fn deserialize_memory(bytes: &[u8]) -> (r: Result<
    (u32, u64, u32, u64, u64, Vec<String>),
    bincode::Error,
>)
    ensures
        match r {
            Ok(f) => begins_with(bytes@, memory_payload(f.0, f.1, f.2, f.3, f.4, texts(f.5@))),
            Err(_) => forall|
                tag: u32,
                id: u64,
                chunk_id: u32,
                offset: u64,
                length: u64,
                tags: Seq<Seq<char>>,
            |
                !begins_with(
                    bytes@,
                    #[trigger] memory_payload(tag, id, chunk_id, offset, length, tags),
                ),
        },
{
    bincode::deserialize(bytes)
}

/// `bincode::deserialize` to the fields of a `SetKv` command: the fields whose
/// layout the bytes begin with, whatever follows; an error where the bytes
/// begin with the layout of no such fields.
#[verifier::external_body]
fn deserialize_set(bytes: &[u8]) -> (r: Result<(u32, String, Vec<u8>), bincode::Error>)
    ensures
        match r {
            Ok(f) => begins_with(bytes@, set_payload(f.0, f.1@, f.2@)),
            Err(_) => forall|tag: u32, key: Seq<char>, value: Seq<u8>|
                !begins_with(bytes@, #[trigger] set_payload(tag, key, value)),
        },
{
    bincode::deserialize(bytes)
}

/// `bincode::deserialize` to the field of a `DeleteKv` command: the fields whose
/// layout the bytes begin with, whatever follows; an error where the bytes
/// begin with the layout of no such fields.
#[verifier::external_body]
fn deserialize_delete(bytes: &[u8]) -> (r: Result<(u32, String), bincode::Error>)
    ensures
        match r {
            Ok(f) => begins_with(bytes@, delete_payload(f.0, f.1@)),
            Err(_) => forall|tag: u32, key: Seq<char>|
                !begins_with(bytes@, #[trigger] delete_payload(tag, key)),
        },
{
    bincode::deserialize(bytes)
}

/// `bincode::deserialize` to the fields of an `AppendStream` command: the
/// fields whose layout the bytes begin with, whatever follows; an error where
/// the bytes begin with the layout of no such fields.
#[verifier::external_body]
fn deserialize_stream(bytes: &[u8]) -> (r: Result<(u32, String, u32, u64, u64), bincode::Error>)
    ensures
        match r {
            Ok(f) => begins_with(bytes@, stream_payload(f.0, f.1@, f.2, f.3, f.4)),
            Err(_) => forall|tag: u32, key: Seq<char>, chunk_id: u32, offset: u64, length: u64|
                !begins_with(bytes@, #[trigger] stream_payload(tag, key, chunk_id, offset, length)),
        },
{
    bincode::deserialize(bytes)
}

/// `bincode::deserialize` to the fields of a `PutSession` command: the fields
/// whose layout the bytes begin with, whatever follows; an error where the
/// bytes begin with the layout of no such fields.
#[verifier::external_body]
fn deserialize_session(bytes: &[u8]) -> (r: Result<
    (u32, String, String, u64, Vec<u8>),
    bincode::Error,
>)
    ensures
        match r {
            Ok(f) => begins_with(bytes@, session_payload(f.0, f.1@, f.2@, f.3, f.4@)),
            Err(_) => forall|
                tag: u32,
                id: Seq<char>,
                intent_id: Seq<char>,
                created_at: u64,
                payload: Seq<u8>,
            |
                !begins_with(
                    bytes@,
                    #[trigger] session_payload(tag, id, intent_id, created_at, payload),
                ),
        },
{
    bincode::deserialize(bytes)
}

/// The text of a bincode error, by its `Display`. The wording is bincode's and
/// depends on the width of the machine's addresses; nothing is said of it.
#[verifier::external_body]
fn error_text(error: &bincode::Error) -> String {
    error.to_string()
}

// ---- A layout determines its fields ---------------------------------------

proof fn lemma_split(b: Seq<u8>, p1: Seq<u8>, r1: Seq<u8>, p2: Seq<u8>, r2: Seq<u8>)
    requires
        begins_with(b, p1 + r1),
        begins_with(b, p2 + r2),
        p1.len() == p2.len(),
    ensures
        p1 == p2,
        b.skip(p1.len() as int).len() <= b.len(),
        begins_with(b.skip(p1.len() as int), r1),
        begins_with(b.skip(p1.len() as int), r2),
{
    let n = p1.len() as int;
    assert(p1 =~= b.take(n)) by {
        assert forall|i: int| 0 <= i < n implies p1[i] == b[i] by {
            assert((p1 + r1)[i] == b.take((p1 + r1).len() as int)[i]);
        }
    }
    assert(p2 =~= b.take(n)) by {
        assert forall|i: int| 0 <= i < n implies p2[i] == b[i] by {
            assert((p2 + r2)[i] == b.take((p2 + r2).len() as int)[i]);
        }
    }
    lemma_tail(b, p1, r1);
    lemma_tail(b, p2, r2);
}

proof fn lemma_tail(b: Seq<u8>, p: Seq<u8>, r: Seq<u8>)
    requires
        begins_with(b, p + r),
    ensures
        begins_with(b.skip(p.len() as int), r),
{
    let n = p.len() as int;
    assert(b.skip(n).take(r.len() as int) =~= r) by {
        assert forall|i: int| 0 <= i < r.len() implies b.skip(n)[i] == r[i] by {
            assert((p + r)[n + i] == b.take((p + r).len() as int)[n + i]);
        }
    }
}

proof fn lemma_int_field(
    b: Seq<u8>,
    width: nat,
    v1: nat,
    r1: Seq<u8>,
    v2: nat,
    r2: Seq<u8>,
)
    requires
        begins_with(b, le_bytes(v1, width) + r1),
        begins_with(b, le_bytes(v2, width) + r2),
        v1 < le_bound(width),
        v2 < le_bound(width),
    ensures
        v1 == v2,
        b.skip(width as int).len() <= b.len(),
        begins_with(b.skip(width as int), r1),
        begins_with(b.skip(width as int), r2),
{
    lemma_le_bytes_len(v1, width);
    lemma_le_bytes_len(v2, width);
    lemma_split(b, le_bytes(v1, width), r1, le_bytes(v2, width), r2);
    lemma_le_round_trip(v1, width);
    lemma_le_round_trip(v2, width);
}

proof fn lemma_bytes_field(b: Seq<u8>, x: Seq<u8>, r1: Seq<u8>, y: Seq<u8>, r2: Seq<u8>)
    requires
        b.len() <= u64::MAX,
        begins_with(b, bytes_field(x) + r1),
        begins_with(b, bytes_field(y) + r2),
    ensures
        x == y,
        b.skip(8int + x.len()).len() <= b.len(),
        begins_with(b.skip(8int + x.len()), r1),
        begins_with(b.skip(8int + x.len()), r2),
{
    lemma_le_bounds();
    lemma_le_bytes_len(x.len(), 8);
    lemma_le_bytes_len(y.len(), 8);
    assert(bytes_field(x) + r1 =~= le_bytes(x.len(), 8) + (x + r1));
    assert(bytes_field(y) + r2 =~= le_bytes(y.len(), 8) + (y + r2));
    lemma_int_field(b, 8, x.len(), x + r1, y.len(), y + r2);
    let rest = b.skip(8);
    lemma_split(rest, x, r1, y, r2);
    assert(rest.skip(x.len() as int) =~= b.skip(8int + x.len()));
}

proof fn lemma_text_field(b: Seq<u8>, x: Seq<char>, r1: Seq<u8>, y: Seq<char>, r2: Seq<u8>)
    requires
        b.len() <= u64::MAX,
        begins_with(b, text_field(x) + r1),
        begins_with(b, text_field(y) + r2),
    ensures
        x == y,
        b.skip(8int + encode_utf8(x).len()).len() <= b.len(),
        begins_with(b.skip(8int + encode_utf8(x).len()), r1),
        begins_with(b.skip(8int + encode_utf8(x).len()), r2),
{
    lemma_bytes_field(b, encode_utf8(x), r1, encode_utf8(y), r2);
    encode_utf8_decode_utf8(x);
    encode_utf8_decode_utf8(y);
}

proof fn lemma_text_fields(b: Seq<u8>, x: Seq<Seq<char>>, y: Seq<Seq<char>>)
    requires
        b.len() <= u64::MAX,
        x.len() == y.len(),
        begins_with(b, text_fields(x)),
        begins_with(b, text_fields(y)),
    ensures
        x == y,
    decreases x.len(),
{
    if x.len() > 0 {
        let xs = x.drop_first();
        let ys = y.drop_first();
        lemma_text_field(b, x[0], text_fields(xs), y[0], text_fields(ys));
        lemma_text_fields(b.skip(8int + encode_utf8(x[0]).len()), xs, ys);
        assert(x =~= seq![x[0]] + xs);
        assert(y =~= seq![y[0]] + ys);
    }
    assert(x =~= y);
}

proof fn lemma_text_fields_len(list: Seq<Seq<char>>)
    ensures
        text_fields(list).len() >= list.len(),
    decreases list.len(),
{
    if list.len() > 0 {
        lemma_le_bytes_len(encode_utf8(list[0]).len(), 8);
        lemma_text_fields_len(list.drop_first());
    }
}

/// The fields that follow the variant index.
spec fn fields_of(c: CommandView) -> Seq<u8> {
    payload_of(c).skip(4)
}

proof fn lemma_payload_shape(c: CommandView)
    ensures
        payload_of(c) == le_bytes(tag_of(c) as nat, 4) + fields_of(c),
        payload_of(c).len() >= 4,
{
    lemma_le_bytes_len(tag_of(c) as nat, 4);
    assert(payload_of(c).take(4) =~= le_bytes(tag_of(c) as nat, 4));
    assert(payload_of(c) =~= payload_of(c).take(4) + payload_of(c).skip(4));
}

/// The variant index of a command.
pub open spec fn tag_of(c: CommandView) -> u32 {
    match c {
        CommandView::AppendMemory { .. } => APPEND_MEMORY,
        CommandView::SetKv { .. } => SET_KV,
        CommandView::DeleteKv { .. } => DELETE_KV,
        CommandView::AppendStream { .. } => APPEND_STREAM,
        CommandView::PutSession { .. } => PUT_SESSION,
    }
}

proof fn lemma_memory_payload(
    b: Seq<u8>,
    f: (u32, u64, u32, u64, u64, Seq<Seq<char>>),
    g: (u32, u64, u32, u64, u64, Seq<Seq<char>>),
)
    requires
        b.len() <= u64::MAX,
        begins_with(b, memory_payload(f.0, f.1, f.2, f.3, f.4, f.5)),
        begins_with(b, memory_payload(g.0, g.1, g.2, g.3, g.4, g.5)),
    ensures
        f == g,
{
    lemma_le_bounds();
    let f5 = list_field(f.5);
    let g5 = list_field(g.5);
    let f4 = le_bytes(f.4 as nat, 8) + f5;
    let g4 = le_bytes(g.4 as nat, 8) + g5;
    let f3 = le_bytes(f.3 as nat, 8) + f4;
    let g3 = le_bytes(g.3 as nat, 8) + g4;
    let f2 = le_bytes(f.2 as nat, 4) + f3;
    let g2 = le_bytes(g.2 as nat, 4) + g3;
    let f1 = le_bytes(f.1 as nat, 8) + f2;
    let g1 = le_bytes(g.1 as nat, 8) + g2;
    lemma_int_field(b, 4, f.0 as nat, f1, g.0 as nat, g1);
    let b1 = b.skip(4);
    lemma_int_field(b1, 8, f.1 as nat, f2, g.1 as nat, g2);
    let b2 = b1.skip(8);
    lemma_int_field(b2, 4, f.2 as nat, f3, g.2 as nat, g3);
    let b3 = b2.skip(4);
    lemma_int_field(b3, 8, f.3 as nat, f4, g.3 as nat, g4);
    let b4 = b3.skip(8);
    lemma_int_field(b4, 8, f.4 as nat, f5, g.4 as nat, g5);
    let b5 = b4.skip(8);
    lemma_text_fields_len(f.5);
    lemma_text_fields_len(g.5);
    lemma_int_field(b5, 8, f.5.len(), text_fields(f.5), g.5.len(), text_fields(g.5));
    lemma_text_fields(b5.skip(8), f.5, g.5);
}

proof fn lemma_set_payload(
    b: Seq<u8>,
    f: (u32, Seq<char>, Seq<u8>),
    g: (u32, Seq<char>, Seq<u8>),
)
    requires
        b.len() <= u64::MAX,
        begins_with(b, set_payload(f.0, f.1, f.2)),
        begins_with(b, set_payload(g.0, g.1, g.2)),
    ensures
        f == g,
{
    lemma_le_bounds();
    let end = Seq::<u8>::empty();
    lemma_int_field(
        b,
        4,
        f.0 as nat,
        text_field(f.1) + bytes_field(f.2),
        g.0 as nat,
        text_field(g.1) + bytes_field(g.2),
    );
    let b1 = b.skip(4);
    lemma_text_field(b1, f.1, bytes_field(f.2), g.1, bytes_field(g.2));
    let b2 = b1.skip(8int + encode_utf8(f.1).len());
    assert(bytes_field(f.2) =~= bytes_field(f.2) + end);
    assert(bytes_field(g.2) =~= bytes_field(g.2) + end);
    lemma_bytes_field(b2, f.2, end, g.2, end);
}

proof fn lemma_delete_payload(b: Seq<u8>, f: (u32, Seq<char>), g: (u32, Seq<char>))
    requires
        b.len() <= u64::MAX,
        begins_with(b, delete_payload(f.0, f.1)),
        begins_with(b, delete_payload(g.0, g.1)),
    ensures
        f == g,
{
    lemma_le_bounds();
    let end = Seq::<u8>::empty();
    lemma_int_field(b, 4, f.0 as nat, text_field(f.1), g.0 as nat, text_field(g.1));
    assert(text_field(f.1) =~= text_field(f.1) + end);
    assert(text_field(g.1) =~= text_field(g.1) + end);
    lemma_text_field(b.skip(4), f.1, end, g.1, end);
}

proof fn lemma_stream_payload(
    b: Seq<u8>,
    f: (u32, Seq<char>, u32, u64, u64),
    g: (u32, Seq<char>, u32, u64, u64),
)
    requires
        b.len() <= u64::MAX,
        begins_with(b, stream_payload(f.0, f.1, f.2, f.3, f.4)),
        begins_with(b, stream_payload(g.0, g.1, g.2, g.3, g.4)),
    ensures
        f == g,
{
    lemma_le_bounds();
    let end = Seq::<u8>::empty();
    let f4 = le_bytes(f.4 as nat, 8);
    let g4 = le_bytes(g.4 as nat, 8);
    let f3 = le_bytes(f.3 as nat, 8) + f4;
    let g3 = le_bytes(g.3 as nat, 8) + g4;
    let f2 = le_bytes(f.2 as nat, 4) + f3;
    let g2 = le_bytes(g.2 as nat, 4) + g3;
    lemma_int_field(b, 4, f.0 as nat, text_field(f.1) + f2, g.0 as nat, text_field(g.1) + g2);
    let b1 = b.skip(4);
    lemma_text_field(b1, f.1, f2, g.1, g2);
    let b2 = b1.skip(8int + encode_utf8(f.1).len());
    lemma_int_field(b2, 4, f.2 as nat, f3, g.2 as nat, g3);
    let b3 = b2.skip(4);
    lemma_int_field(b3, 8, f.3 as nat, f4, g.3 as nat, g4);
    let b4 = b3.skip(8);
    assert(f4 =~= f4 + end);
    assert(g4 =~= g4 + end);
    lemma_int_field(b4, 8, f.4 as nat, end, g.4 as nat, end);
}

proof fn lemma_session_payload(
    b: Seq<u8>,
    f: (u32, Seq<char>, Seq<char>, u64, Seq<u8>),
    g: (u32, Seq<char>, Seq<char>, u64, Seq<u8>),
)
    requires
        b.len() <= u64::MAX,
        begins_with(b, session_payload(f.0, f.1, f.2, f.3, f.4)),
        begins_with(b, session_payload(g.0, g.1, g.2, g.3, g.4)),
    ensures
        f == g,
{
    lemma_le_bounds();
    let end = Seq::<u8>::empty();
    let f3 = le_bytes(f.3 as nat, 8) + bytes_field(f.4);
    let g3 = le_bytes(g.3 as nat, 8) + bytes_field(g.4);
    let f2 = text_field(f.2) + f3;
    let g2 = text_field(g.2) + g3;
    lemma_int_field(b, 4, f.0 as nat, text_field(f.1) + f2, g.0 as nat, text_field(g.1) + g2);
    let b1 = b.skip(4);
    lemma_text_field(b1, f.1, f2, g.1, g2);
    let b2 = b1.skip(8int + encode_utf8(f.1).len());
    lemma_text_field(b2, f.2, f3, g.2, g3);
    let b3 = b2.skip(8int + encode_utf8(f.2).len());
    lemma_int_field(b3, 8, f.3 as nat, bytes_field(f.4), g.3 as nat, bytes_field(g.4));
    let b4 = b3.skip(8);
    assert(bytes_field(f.4) =~= bytes_field(f.4) + end);
    assert(bytes_field(g.4) =~= bytes_field(g.4) + end);
    lemma_bytes_field(b4, f.4, end, g.4, end);
}

/// Bytes begin with the variant index of the command they hold.
proof fn lemma_leading_tag(b: Seq<u8>, tag: u32, c: CommandView)
    requires
        begins_with(b, le_bytes(tag as nat, 4)),
        begins_with(b, payload_of(c)),
    ensures
        tag == tag_of(c),
{
    let end = Seq::<u8>::empty();
    lemma_le_bounds();
    lemma_payload_shape(c);
    assert(le_bytes(tag as nat, 4) =~= le_bytes(tag as nat, 4) + end);
    lemma_int_field(b, 4, tag as nat, end, tag_of(c) as nat, fields_of(c));
}

/// No byte sequence holds two different commands: whatever follows it, the
/// payload of a command begins with the payload of no other.
pub proof fn payload_determines_command(b: Seq<u8>, c: CommandView, d: CommandView)
    requires
        b.len() <= u64::MAX,
        begins_with(b, payload_of(c)),
        begins_with(b, payload_of(d)),
    ensures
        c == d,
{
    lemma_payload_shape(c);
    let tag = tag_of(c);
    assert(begins_with(b, le_bytes(tag as nat, 4))) by {
        lemma_le_bytes_len(tag as nat, 4);
        lemma_le_bytes_len(tag_of(c) as nat, 4);
        assert(b.take(4) =~= b.take(payload_of(c).len() as int).take(4));
        assert(payload_of(c).take(4) =~= le_bytes(tag as nat, 4));
    }
    lemma_leading_tag(b, tag, d);
    match (c, d) {
        (
            CommandView::AppendMemory { id, chunk_id, offset, length, tags },
            CommandView::AppendMemory { id: i, chunk_id: k, offset: o, length: l, tags: t },
        ) => {
            lemma_memory_payload(
                b,
                (tag, id, chunk_id, offset, length, tags),
                (tag, i, k, o, l, t),
            );
        },
        (CommandView::SetKv { key, value }, CommandView::SetKv { key: k, value: v }) => {
            lemma_set_payload(b, (tag, key, value), (tag, k, v));
        },
        (CommandView::DeleteKv { key }, CommandView::DeleteKv { key: k }) => {
            lemma_delete_payload(b, (tag, key), (tag, k));
        },
        (
            CommandView::AppendStream { key, chunk_id, offset, length },
            CommandView::AppendStream { key: k, chunk_id: n, offset: o, length: l },
        ) => {
            lemma_stream_payload(b, (tag, key, chunk_id, offset, length), (tag, k, n, o, l));
        },
        (CommandView::PutSession { session: s }, CommandView::PutSession { session: t }) => {
            lemma_session_payload(
                b,
                (tag, s.id, s.intent_id, s.created_at, s.payload),
                (tag, t.id, t.intent_id, t.created_at, t.payload),
            );
        },
        _ => {},
    }
}

// ---- Encoding and decoding commands ---------------------------------------

/// The command that `b` holds, where it holds one: the command whose payload
/// `b` begins with.
pub open spec fn decoded(b: Seq<u8>) -> Option<CommandView> {
    if exists|c: CommandView| begins_with(b, #[trigger] payload_of(c)) {
        Some(choose|c: CommandView| begins_with(b, #[trigger] payload_of(c)))
    } else {
        None
    }
}

/// What a payload decodes to is the command it was made from, also where other
/// bytes follow.
pub proof fn decode_inverts_encode(c: CommandView, rest: Seq<u8>)
    requires
        (payload_of(c) + rest).len() <= u64::MAX,
    ensures
        decoded(payload_of(c) + rest) == Some(c),
{
    let b = payload_of(c) + rest;
    assert(b.take(payload_of(c).len() as int) =~= payload_of(c));
    assert(begins_with(b, payload_of(c)));
    let d = choose|d: CommandView| begins_with(b, #[trigger] payload_of(d));
    payload_determines_command(b, c, d);
}

proof fn lemma_decoded(b: Seq<u8>, c: CommandView)
    requires
        b.len() <= u64::MAX,
        begins_with(b, payload_of(c)),
    ensures
        decoded(b) == Some(c),
{
    let d = choose|d: CommandView| begins_with(b, #[trigger] payload_of(d));
    payload_determines_command(b, c, d);
}

/// The payload of `command`.
pub fn encode_command(command: &WalCommand) -> (r: Result<Vec<u8>, MemMapError>)
    ensures
        r is Ok,
        r->Ok_0@ == payload_of(command@),
{
    let encoded = match command {
        WalCommand::AppendMemory { id, chunk_id, offset, length, tags } => serialize_memory(
            APPEND_MEMORY,
            *id,
            *chunk_id,
            *offset,
            *length,
            tags,
        ),
        WalCommand::SetKv { key, value } => serialize_set(SET_KV, key, value),
        WalCommand::DeleteKv { key } => serialize_delete(DELETE_KV, key),
        WalCommand::AppendStream { key, chunk_id, offset, length } => serialize_stream(
            APPEND_STREAM,
            key,
            *chunk_id,
            *offset,
            *length,
        ),
        WalCommand::PutSession { session } => serialize_session(
            PUT_SESSION,
            &session.id,
            &session.intent_id,
            session.created_at,
            &session.payload,
        ),
    };
    match encoded {
        Ok(payload) => Ok(payload),
        Err(e) => Err(MemMapError::Bincode(e)),
    }
}

/// Why a payload with the unknown variant index `tag` is refused.
pub open spec fn unknown_tag_text(tag: u32) -> Seq<char> {
    "invalid value: integer `"@ + decimal(tag as nat)
        + "`, expected variant index 0 <= i < 5"@
}

fn unknown_tag_reason(tag: u32) -> (s: String)
    ensures
        s@ == unknown_tag_text(tag),
{
    let mut s = String::new();
    s.append("invalid value: integer `");
    s.append(to_decimal(tag as u64).as_str());
    s.append("`, expected variant index 0 <= i < 5");
    assert(s@ =~= unknown_tag_text(tag));
    s
}

/// The command that `payload` holds, or why it holds none. The reason is
/// fixed where the variant index is unknown; elsewhere it is bincode's text.
pub fn decode_command(payload: &[u8]) -> (r: Result<WalCommand, String>)
    ensures
        match r {
            Ok(command) => decoded(payload@) == Some(command@),
            Err(reason) => {
                &&& decoded(payload@) is None
                &&& forall|tag: u32|
                    #![trigger unknown_tag_text(tag)]
                    tag > PUT_SESSION && begins_with(payload@, le_bytes(tag as nat, 4))
                        ==> reason@ == unknown_tag_text(tag)
            },
        },
{
    let count: usize = payload.len();
    let ghost b = payload@;
    let tag: u32 = match deserialize_tag(payload) {
        Ok(tag) => tag,
        Err(e) => {
            proof {
                assert forall|c: CommandView| !begins_with(b, #[trigger] payload_of(c)) by {
                    lemma_payload_shape(c);
                }
                assert forall|t: u32| !begins_with(b, #[trigger] le_bytes(t as nat, 4)) by {
                    lemma_le_bytes_len(t as nat, 4);
                }
            }
            return Err(error_text(&e));
        },
    };
    proof {
        assert forall|c: CommandView|
            begins_with(b, #[trigger] payload_of(c)) implies tag_of(c) == tag by {
            lemma_leading_tag(b, tag, c);
        }
        assert forall|t: u32| begins_with(b, #[trigger] le_bytes(t as nat, 4)) implies t == tag by {
            let end = Seq::<u8>::empty();
            lemma_le_bounds();
            assert(le_bytes(tag as nat, 4) =~= le_bytes(tag as nat, 4) + end);
            assert(le_bytes(t as nat, 4) =~= le_bytes(t as nat, 4) + end);
            lemma_int_field(b, 4, tag as nat, end, t as nat, end);
        }
    }
    if tag == APPEND_MEMORY {
        match deserialize_memory(payload) {
            Ok(f) => {
                proof {
                    lemma_le_bytes_len(f.0 as nat, 4);
                    lemma_same_tag(
                        b,
                        f.0,
                        tag,
                        memory_payload(f.0, f.1, f.2, f.3, f.4, texts(f.5@)),
                    );
                    lemma_decoded(
                        b,
                        CommandView::AppendMemory {
                            id: f.1,
                            chunk_id: f.2,
                            offset: f.3,
                            length: f.4,
                            tags: texts(f.5@),
                        },
                    );
                }
                Ok(
                    WalCommand::AppendMemory {
                        id: f.1,
                        chunk_id: f.2,
                        offset: f.3,
                        length: f.4,
                        tags: f.5,
                    },
                )
            },
            Err(e) => Err(error_text(&e)),
        }
    } else if tag == SET_KV {
        match deserialize_set(payload) {
            Ok(f) => {
                proof {
                    lemma_le_bytes_len(f.0 as nat, 4);
                    lemma_same_tag(b, f.0, tag, set_payload(f.0, f.1@, f.2@));
                    lemma_decoded(b, CommandView::SetKv { key: f.1@, value: f.2@ });
                }
                Ok(WalCommand::SetKv { key: f.1, value: f.2 })
            },
            Err(e) => Err(error_text(&e)),
        }
    } else if tag == DELETE_KV {
        match deserialize_delete(payload) {
            Ok(f) => {
                proof {
                    lemma_le_bytes_len(f.0 as nat, 4);
                    lemma_same_tag(b, f.0, tag, delete_payload(f.0, f.1@));
                    lemma_decoded(b, CommandView::DeleteKv { key: f.1@ });
                }
                Ok(WalCommand::DeleteKv { key: f.1 })
            },
            Err(e) => Err(error_text(&e)),
        }
    } else if tag == APPEND_STREAM {
        match deserialize_stream(payload) {
            Ok(f) => {
                proof {
                    lemma_le_bytes_len(f.0 as nat, 4);
                    lemma_same_tag(b, f.0, tag, stream_payload(f.0, f.1@, f.2, f.3, f.4));
                    lemma_decoded(
                        b,
                        CommandView::AppendStream {
                            key: f.1@,
                            chunk_id: f.2,
                            offset: f.3,
                            length: f.4,
                        },
                    );
                }
                Ok(
                    WalCommand::AppendStream {
                        key: f.1,
                        chunk_id: f.2,
                        offset: f.3,
                        length: f.4,
                    },
                )
            },
            Err(e) => Err(error_text(&e)),
        }
    } else if tag == PUT_SESSION {
        match deserialize_session(payload) {
            Ok(f) => {
                let session = Session {
                    id: f.1,
                    intent_id: f.2,
                    created_at: f.3,
                    payload: f.4,
                };
                proof {
                    lemma_le_bytes_len(f.0 as nat, 4);
                    lemma_same_tag(
                        b,
                        f.0,
                        tag,
                        session_payload(
                            f.0,
                            session@.id,
                            session@.intent_id,
                            session@.created_at,
                            session@.payload,
                        ),
                    );
                    lemma_decoded(b, CommandView::PutSession { session: session@ });
                }
                Ok(WalCommand::PutSession { session })
            },
            Err(e) => Err(error_text(&e)),
        }
    } else {
        Err(unknown_tag_reason(tag))
    }
}

/// Two variant indices that the same bytes begin with are the same.
proof fn lemma_same_tag(b: Seq<u8>, t1: u32, t2: u32, layout: Seq<u8>)
    requires
        begins_with(b, layout),
        layout.len() >= 4,
        layout.take(4) =~= le_bytes(t1 as nat, 4),
        begins_with(b, le_bytes(t2 as nat, 4)),
    ensures
        t1 == t2,
{
    lemma_le_bounds();
    lemma_le_bytes_len(t1 as nat, 4);
    lemma_le_bytes_len(t2 as nat, 4);
    assert(b.take(4) =~= b.take(layout.len() as int).take(4));
    lemma_le_round_trip(t1 as nat, 4);
    lemma_le_round_trip(t2 as nat, 4);
}

} // verus!
