//! Live subscriptions: the boundary event shape, the translation of driver
//! notifications, and the background task's state machine.
//!
//! The task waits on two signals at once — a stop request and the next
//! notification — and publishes each translated notification until stopped,
//! until the feed ends, or until the consumer stops listening. A translation
//! failure ends this one subscription only. Whatever ends the task, its last
//! action is to deregister itself, so no stale registry entry can outlive
//! it.

use vstd::prelude::*;

use crate::errors::SubscribeError;
use crate::outcomes::SingleQueryResultExtractor;
use crate::wire::{wire_bytes, wire_wf, DecodeError, WireValue};

verus! {

/// What kind of change a live event reports.
#[derive(Debug, Clone, Copy, PartialEq, Eq, Structural)]
pub enum LiveAction {
    Create,
    Update,
    Delete,
    Killed,
}

/// One boundary-ready live event.
#[derive(Debug, Clone)]
pub struct LiveEvent {
    pub subscription_id: u64,
    pub query_id: String,
    pub action: LiveAction,
    pub data: Vec<u8>,
}

impl LiveEvent {
    /// Reads the changed-record payload back as a value of shape `T`.
    pub fn parse<T: SingleQueryResultExtractor>(&self) -> (r: Result<T, DecodeError>)
        ensures
            T::from_bytes_post(self.data@, r),
    {
        T::from_bytes(&self.data)
    }
}

/// One notification as the driver hands it over: the action, the driver's
/// identifier of the live statement it belongs to, and the changed record as
/// a native value model.
pub struct Notification {
    pub action: LiveAction,
    pub query_id: String,
    pub data: WireValue,
}

/// Translates one driver notification into a boundary event: the action is
/// carried over, the payload is serialized to wire bytes, and the event is
/// stamped with the subscription id. An unserializable payload fails.
pub fn notification_to_live_event(subscription_id: u64, notification: Notification) -> (r: Result<
    LiveEvent,
    SubscribeError,
>)
    ensures
        match r {
            Ok(ev) => {
                &&& wire_wf(notification.data@)
                &&& ev.subscription_id == subscription_id
                &&& ev.query_id@ == notification.query_id@
                &&& ev.action == notification.action
                &&& ev.data@ == wire_bytes(notification.data@)
            },
            Err(e) => !wire_wf(notification.data@) && e is Serialize,
        },
{
    let data = match crate::value::surreal_to_cbor_bytes(&notification.data) {
        Ok(bytes) => bytes,
        Err(e) => {
            return Err(SubscribeError::Serialize(e));
        },
    };
    Ok(
        LiveEvent {
            subscription_id,
            query_id: notification.query_id,
            action: notification.action,
            data,
        },
    )
}

/// Whether the subscription task keeps running after a step.
#[derive(Debug, Clone, Copy, PartialEq, Eq, Structural)]
pub enum TaskState {
    Running,
    Done,
}

/// What the running task's concurrent wait resolved to.
pub enum TaskEvent {
    /// The explicit stop request won the race.
    StopRequested,
    /// The driver closed the notification feed.
    FeedClosed,
    /// The next notification arrived.
    FeedItem(Notification),
    /// The consumer dropped the receiving end of the outbound channel.
    PublishRejected,
}

/// What the loop around the task must do after a step.
pub enum TaskAction {
    /// Publish this event onto the outbound channel, then wait again.
    Publish(LiveEvent),
    /// Remove this subscription's registry entry; the task is over.
    Deregister,
}

/// One step of the subscription task: a notification that translates is
/// published and the task keeps running; a stop request, the end of the
/// feed, a rejected publish, or a notification that fails to translate all
/// end the task — and every ending step's action is to deregister, so a
/// task that terminates always removes its own registry entry.
pub fn task_step(subscription_id: u64, state: TaskState, event: TaskEvent) -> (r: (
    TaskState,
    TaskAction,
))
    requires
        state is Running,
    ensures
        r.0 is Done ==> r.1 is Deregister,
        match event {
            TaskEvent::FeedItem(n) => {
                if wire_wf(n.data@) {
                    &&& r.0 is Running
                    &&& r.1 is Publish
                    &&& r.1->Publish_0.subscription_id == subscription_id
                    &&& r.1->Publish_0.query_id@ == n.query_id@
                    &&& r.1->Publish_0.action == n.action
                    &&& r.1->Publish_0.data@ == wire_bytes(n.data@)
                } else {
                    r.0 is Done && r.1 is Deregister
                }
            },
            _ => r.0 is Done && r.1 is Deregister,
        },
{
    match event {
        TaskEvent::StopRequested => (TaskState::Done, TaskAction::Deregister),
        TaskEvent::FeedClosed => (TaskState::Done, TaskAction::Deregister),
        TaskEvent::PublishRejected => (TaskState::Done, TaskAction::Deregister),
        TaskEvent::FeedItem(n) => match notification_to_live_event(subscription_id, n) {
            Ok(ev) => (TaskState::Running, TaskAction::Publish(ev)),
            Err(_) => (TaskState::Done, TaskAction::Deregister),
        },
    }
}

} // verus!
