//! The channel on which an agent's state is published.
use tokio::sync::watch::{Receiver, Sender};
use vstd::prelude::*;

use crate::engine::{AgentState, StateView};

verus! {

/// The sending half of a Tokio watch channel. Nothing is known of a value of
/// this type beyond [`latest_state`] and [`feeds`].
#[verifier::external_type_specification]
#[verifier::external_body]
#[verifier::reject_recursive_types(T)]
pub struct ExWatchSender<T>(tokio::sync::watch::Sender<T>);

/// The receiving half of a Tokio watch channel. Nothing is known of a value of
/// this type beyond [`seen_state`] and [`feeds`].
#[verifier::external_type_specification]
#[verifier::external_body]
#[verifier::reject_recursive_types(T)]
pub struct ExWatchReceiver<T>(tokio::sync::watch::Receiver<T>);

/// The state that a channel holds, by its only sender: the one that was sent
/// last, or the one that the channel was made with.
pub uninterp spec fn latest_state(sender: tokio::sync::watch::Sender<AgentState>) -> StateView;

/// The state that a receiver has marked as seen: the one that was current when
/// it, or the receiver that it is a copy of, was made.
pub uninterp spec fn seen_state(receiver: tokio::sync::watch::Receiver<AgentState>) -> StateView;

/// The receiver is of the channel of the sender: it shows what is sent there.
pub uninterp spec fn feeds(
    sender: tokio::sync::watch::Sender<AgentState>,
    receiver: tokio::sync::watch::Receiver<AgentState>,
) -> bool;

/// `tokio::sync::watch::channel`: the two halves of a channel that holds
/// `initial`, which the receiver has marked as seen.
#[verifier::external_body]
pub(crate) fn open_channel(initial: AgentState) -> (halves: (
    Sender<AgentState>,
    Receiver<AgentState>,
))
    ensures
        latest_state(halves.0) == initial@,
        seen_state(halves.1) == initial@,
        feeds(halves.0, halves.1),
{
    tokio::sync::watch::channel(initial)
}

/// `tokio::sync::watch::Sender::send_replace`: the channel holds `state`, also
/// where there is no receiver, and the state that it held before is returned.
/// The sender stays that of the same receivers.
#[verifier::external_body]
pub(crate) fn send_state(sender: &mut Sender<AgentState>, state: AgentState) -> (previous:
    AgentState)
    ensures
        previous@ == latest_state(*old(sender)),
        latest_state(*final(sender)) == state@,
        forall|receiver: Receiver<AgentState>| #[trigger]
            feeds(*final(sender), receiver) == feeds(*old(sender), receiver),
{
    sender.send_replace(state)
}

/// `tokio::sync::watch::Sender::borrow`: the state that the channel holds, as a
/// copy.
#[verifier::external_body]
pub(crate) fn borrow_state(sender: &Sender<AgentState>) -> (state: AgentState)
    ensures
        state@ == latest_state(*sender),
{
    sender.borrow().clone()
}

/// `tokio::sync::watch::Sender::subscribe`: a receiver of the channel that has
/// marked the state that the channel holds as seen.
#[verifier::external_body]
pub(crate) fn subscribe(sender: &Sender<AgentState>) -> (receiver: Receiver<AgentState>)
    ensures
        seen_state(receiver) == latest_state(*sender),
        feeds(*sender, receiver),
{
    sender.subscribe()
}

/// `Clone` of `tokio::sync::watch::Receiver`: a receiver of the same channel
/// that has marked the same state as seen.
#[verifier::external_body]
pub(crate) fn copy_receiver(receiver: &Receiver<AgentState>) -> (copy: Receiver<AgentState>)
    ensures
        seen_state(copy) == seen_state(*receiver),
        forall|sender: Sender<AgentState>| #[trigger]
            feeds(sender, copy) == feeds(sender, *receiver),
{
    receiver.clone()
}

} // verus!
