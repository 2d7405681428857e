//! Agent sessions and the order in which they are listed.
use vstd::prelude::*;

use crate::laws::selected_sessions_are_those_of_the_intent;
use crate::text::copy_bytes;

verus! {

/// One agent session.
#[derive(Debug, PartialEq, Eq)]
pub struct Session {
    pub id: String,
    pub intent_id: String,
    pub created_at: u64,
    pub payload: Vec<u8>,
}

/// What a [`Session`] says.
pub struct SessionView {
    pub id: Seq<char>,
    pub intent_id: Seq<char>,
    pub created_at: u64,
    pub payload: Seq<u8>,
}

impl View for Session {
    type V = SessionView;

    open spec fn view(&self) -> SessionView {
        SessionView {
            id: self.id@,
            intent_id: self.intent_id@,
            created_at: self.created_at,
            payload: self.payload@,
        }
    }
}

impl Clone for Session {
    fn clone(&self) -> (copy: Session)
        ensures
            copy@ == self@,
            copy.id@ == self.id@,
            copy.intent_id@ == self.intent_id@,
            copy.created_at == self.created_at,
            copy.payload@ == self.payload@,
    {
        Session {
            id: self.id.clone(),
            intent_id: self.intent_id.clone(),
            created_at: self.created_at,
            payload: copy_bytes(&self.payload),
        }
    }
}

/// What each of `sessions` says, in order.
pub open spec fn session_views(sessions: Seq<Session>) -> Seq<SessionView> {
    sessions.map_values(|s: Session| s@)
}

/// `list` with `session` before the first one that is older, reading from the
/// end.
pub open spec fn inserted(list: Seq<SessionView>, session: SessionView) -> Seq<SessionView>
    decreases list.len(),
{
    if list.len() == 0 || list.last().created_at >= session.created_at {
        list.push(session)
    } else {
        inserted(list.drop_last(), session).push(list.last())
    }
}

/// The sessions from the newest to the oldest. Sessions of the same age keep
/// their order.
pub open spec fn newest_first(list: Seq<SessionView>) -> Seq<SessionView>
    decreases list.len(),
{
    if list.len() == 0 {
        Seq::empty()
    } else {
        inserted(newest_first(list.drop_last()), list.last())
    }
}

/// The `limit` newest of the sessions, or all of them where there are no more.
pub open spec fn newest_sessions(list: Seq<SessionView>, limit: nat) -> Seq<SessionView> {
    if limit < list.len() {
        newest_first(list).take(limit as int)
    } else {
        newest_first(list)
    }
}

/// The sessions that serve the intent `intent_id`, in order.
pub open spec fn with_intent(list: Seq<SessionView>, intent_id: Seq<char>) -> Seq<SessionView> {
    list.filter(|s: SessionView| s.intent_id == intent_id)
}

/// No session stands behind an older one.
pub open spec fn is_newest_first(list: Seq<SessionView>) -> bool {
    forall|i: int, j: int|
        0 <= i <= j < list.len() ==> (#[trigger] list[i]).created_at >= (
        #[trigger] list[j]).created_at
}

proof fn lemma_inserted(list: Seq<SessionView>, session: SessionView)
    requires
        is_newest_first(list),
    ensures
        is_newest_first(inserted(list, session)),
        inserted(list, session).to_multiset() == list.to_multiset().insert(session),
        inserted(list, session).len() == list.len() + 1,
        forall|i: int|
            0 <= i < inserted(list, session).len() ==> {
                ||| #[trigger] inserted(list, session)[i] == session
                ||| list.contains(inserted(list, session)[i])
            },
    decreases list.len(),
{
    broadcast use vstd::seq_lib::group_to_multiset_ensures;

    let all = inserted(list, session);
    if list.len() == 0 || list.last().created_at >= session.created_at {
        assert forall|i: int| 0 <= i < all.len() implies {
            ||| #[trigger] all[i] == session
            ||| list.contains(all[i])
        } by {
            if i < list.len() {
                assert(all[i] == list[i]);
            }
        }
    } else {
        let init = list.drop_last();
        let more = inserted(init, session);
        lemma_inserted(init, session);
        assert(list =~= init.push(list.last()));
        assert(all.to_multiset() =~= list.to_multiset().insert(session));
        assert forall|i: int| 0 <= i < all.len() implies {
            ||| #[trigger] all[i] == session
            ||| list.contains(all[i])
        } by {
            if i < more.len() {
                assert(all[i] == more[i]);
                if more[i] != session {
                    let k = choose|k: int| 0 <= k < init.len() && init[k] == more[i];
                    assert(list[k] == all[i]);
                }
            } else {
                assert(list[list.len() - 1] == all[i]);
            }
        }
        assert forall|i: int, j: int| 0 <= i <= j < all.len() implies (
        #[trigger] all[i]).created_at >= (#[trigger] all[j]).created_at by {
            if j == more.len() && i < j {
                assert(all[i] == more[i]);
                if more[i] != session {
                    let k = choose|k: int| 0 <= k < init.len() && init[k] == more[i];
                    assert(list[k].created_at >= list[list.len() - 1].created_at);
                }
            } else if j < more.len() {
                assert(all[i] == more[i] && all[j] == more[j]);
            }
        }
    }
}

/// A listing holds each session exactly once, no session behind an older one.
pub proof fn newest_first_sorts(list: Seq<SessionView>)
    ensures
        is_newest_first(newest_first(list)),
        newest_first(list).to_multiset() == list.to_multiset(),
        newest_first(list).len() == list.len(),
    decreases list.len(),
{
    broadcast use vstd::seq_lib::group_to_multiset_ensures;

    if list.len() > 0 {
        newest_first_sorts(list.drop_last());
        lemma_inserted(newest_first(list.drop_last()), list.last());
        assert(list =~= list.drop_last().push(list.last()));
    } else {
        assert(list =~= Seq::empty());
    }
}

/// The sessions that were created at `time`, in order.
pub open spec fn created_at(list: Seq<SessionView>, time: u64) -> Seq<SessionView> {
    list.filter(|s: SessionView| s.created_at == time)
}

proof fn lemma_created_at_push(list: Seq<SessionView>, session: SessionView, time: u64)
    ensures
        created_at(list.push(session), time) == (if session.created_at == time {
            created_at(list, time).push(session)
        } else {
            created_at(list, time)
        }),
{
    reveal(Seq::filter);
    assert(list.push(session).drop_last() =~= list);
}

proof fn lemma_inserted_created_at(list: Seq<SessionView>, session: SessionView, time: u64)
    ensures
        created_at(inserted(list, session), time) == created_at(list.push(session), time),
    decreases list.len(),
{
    if list.len() > 0 && list.last().created_at < session.created_at {
        let init = list.drop_last();
        lemma_inserted_created_at(init, session, time);
        lemma_created_at_push(inserted(init, session), list.last(), time);
        lemma_created_at_push(init, session, time);
        lemma_created_at_push(init, list.last(), time);
        lemma_created_at_push(list, session, time);
        assert(init.push(list.last()) =~= list);
    }
}

/// Sessions that were created at the same time are listed in the order in which
/// they stood.
pub proof fn newest_first_keeps_order(list: Seq<SessionView>, time: u64)
    ensures
        created_at(newest_first(list), time) == created_at(list, time),
    decreases list.len(),
{
    if list.len() > 0 {
        let init = list.drop_last();
        newest_first_keeps_order(init, time);
        lemma_inserted_created_at(newest_first(init), list.last(), time);
        lemma_created_at_push(newest_first(init), list.last(), time);
        lemma_created_at_push(init, list.last(), time);
        assert(init.push(list.last()) =~= list);
    } else {
        assert(list =~= Seq::empty());
    }
}

/// Puts `session` in its place in a listing.
fn insert_by_age(list: &mut Vec<Session>, session: Session)
    ensures
        session_views(final(list)@) == inserted(session_views(old(list)@), session@),
{
    let ghost before = session_views(list@);
    let mut at: usize = list.len();
    assert(before.take(at as int) =~= before);
    assert(before.skip(at as int) =~= Seq::empty());
    assert(inserted(before, session@) =~= inserted(before.take(at as int), session@)
        + before.skip(at as int));
    while at > 0 && list[at - 1].created_at < session.created_at
        invariant
            at <= list@.len(),
            before == session_views(list@),
            inserted(before, session@) == inserted(before.take(at as int), session@)
                + before.skip(at as int),
        decreases at,
    {
        proof {
            let head = before.take(at as int);
            assert(head.last() == list@[at - 1]@);
            assert(head.drop_last() =~= before.take(at - 1));
            assert(inserted(head, session@) == inserted(before.take(at - 1), session@).push(
                before[at - 1],
            ));
            assert(inserted(before.take(at - 1), session@).push(before[at - 1]) + before.skip(
                at as int,
            ) =~= inserted(before.take(at - 1), session@) + before.skip(at - 1));
        }
        at = at - 1;
    }
    let ghost said = session@;
    proof {
        let head = before.take(at as int);
        if at > 0 {
            assert(head.last() == list@[at - 1]@);
        }
        assert(inserted(head, said) == head.push(said));
    }
    list.insert(at, session);
    assert(session_views(list@) =~= before.take(at as int).push(said) + before.skip(at as int));
}

/// The sessions of `list` from the newest to the oldest.
pub fn sort_newest_first(list: &Vec<Session>) -> (sorted: Vec<Session>)
    ensures
        session_views(sorted@) == newest_first(session_views(list@)),
        session_views(sorted@).to_multiset() == session_views(list@).to_multiset(),
        forall|i: int, j: int|
            0 <= i <= j < sorted@.len() ==> (#[trigger] sorted@[i]).created_at >= (
            #[trigger] sorted@[j]).created_at,
{
    let mut sorted: Vec<Session> = Vec::new();
    let ghost all = session_views(list@);
    let mut i: usize = 0;
    assert(all.take(0) =~= Seq::empty());
    assert(session_views(sorted@) =~= Seq::empty());
    while i < list.len()
        invariant
            i <= list@.len(),
            all == session_views(list@),
            session_views(sorted@) == newest_first(all.take(i as int)),
        decreases list@.len() - i,
    {
        insert_by_age(&mut sorted, list[i].clone());
        assert(all.take(i + 1).drop_last() =~= all.take(i as int));
        i = i + 1;
    }
    assert(all.take(list@.len() as int) =~= all);
    proof {
        newest_first_sorts(all);
        assert forall|i: int, j: int| 0 <= i <= j < sorted@.len() implies (
        #[trigger] sorted@[i]).created_at >= (#[trigger] sorted@[j]).created_at by {
            assert(session_views(sorted@)[i] == sorted@[i]@);
            assert(session_views(sorted@)[j] == sorted@[j]@);
        }
    }
    sorted
}

/// The sessions of `list` that serve the intent `intent_id`.
pub fn select_intent(list: &Vec<Session>, intent_id: &str) -> (selected: Vec<Session>)
    ensures
        session_views(selected@) == with_intent(session_views(list@), intent_id@),
        session_views(selected@) == session_views(list@).filter(
            |s: SessionView| s.intent_id == intent_id@,
        ),
        forall|s: SessionView| #[trigger]
            session_views(selected@).contains(s) <==> session_views(list@).contains(s)
                && s.intent_id == intent_id@,
{
    let wanted = intent_id.to_owned();
    let mut selected: Vec<Session> = Vec::new();
    let ghost all = session_views(list@);
    let ghost pred = |s: SessionView| s.intent_id == intent_id@;
    let mut i: usize = 0;
    assert(all.take(0).filter(pred) =~= Seq::empty()) by {
        reveal(Seq::filter);
    }
    assert(session_views(selected@) =~= Seq::empty());
    while i < list.len()
        invariant
            i <= list@.len(),
            wanted@ == intent_id@,
            all == session_views(list@),
            pred == (|s: SessionView| s.intent_id == intent_id@),
            session_views(selected@) == all.take(i as int).filter(pred),
        decreases list@.len() - i,
    {
        let ghost before = session_views(selected@);
        proof {
            assert(all.take(i + 1).drop_last() =~= all.take(i as int));
            assert(all.take(i + 1).last() == list@[i as int]@);
            reveal(Seq::filter);
        }
        if list[i].intent_id.eq(&wanted) {
            selected.push(list[i].clone());
            assert(session_views(selected@) =~= before.push(list@[i as int]@));
        }
        i = i + 1;
    }
    assert(all.take(list@.len() as int) =~= all);
    proof {
        assert forall|s: SessionView| #[trigger]
            session_views(selected@).contains(s) <==> all.contains(s) && s.intent_id
                == intent_id@ by {
            selected_sessions_are_those_of_the_intent(all, intent_id@, s);
        }
    }
    selected
}

} // verus!
