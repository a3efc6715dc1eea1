//! Message identifiers and the request / response message types.

use vstd::prelude::*;

verus! {

/// A 128-bit message identifier, generated server-side when a payload is
/// enqueued. Identifiers are random, so they are globally unique within a
/// process lifetime with overwhelming probability, but nothing here relies
/// on that without saying so.
#[derive(Clone, Copy, Debug, PartialEq, Eq, Structural, Hash)]
pub struct MsgId {
    pub hi: u64,
    pub lo: u64,
}

/// Draws a fresh random identifier.
///
/// Relies on `uuid::Uuid::new_v4`, which builds a version-4 UUID from 128
/// random bits; `as_u64_pair` splits those bits into two words. The result
/// is random, so nothing is promised of it.
#[verifier::external_body]
pub fn fresh_id() -> MsgId {
    let (hi, lo) = uuid::Uuid::new_v4().as_u64_pair();
    MsgId { hi, lo }
}

/// A request from a client. Queue names are UTF-8 strings carried as their
/// byte encoding; the broker compares them bytewise, which for UTF-8 agrees
/// with string equality. Payloads are opaque bytes.
#[derive(Clone, Debug, PartialEq)]
pub enum ClientMessage {
    /// Create a new queue (idempotent).
    CreateQueue(Vec<u8>),
    /// Delete an existing queue.
    DeleteQueue(Vec<u8>),
    /// Enqueue a payload on an existing queue.
    Enqueue(Vec<u8>, Vec<u8>),
    /// Dequeue a payload, with a redelivery timeout in milliseconds.
    /// A timeout of 0 means that no redelivery timer is armed.
    Read(Vec<u8>, u64),
    /// Confirm a previously read payload so it is not redelivered.
    Confirm(MsgId),
}

/// A response from the server.
#[derive(Clone, Debug, PartialEq)]
pub enum ServerMessage {
    /// The requested queue was created (or already existed).
    QueueCreated,
    /// The requested queue was deleted.
    QueueDeleted,
    /// The payload was enqueued under this identifier.
    ObjectQueued(MsgId),
    /// A payload and its identifier, produced by a Read request.
    Read(MsgId, Vec<u8>),
    /// The Confirm arrived before the redelivery timeout.
    Confirmed,
    /// The redelivery timeout elapsed first and the payload was requeued.
    Requeued,
    /// The queue was at capacity; the rejected payload is returned.
    Full(MsgId, Vec<u8>),
    /// A Read was requested on a queue with no payloads.
    Empty,
    /// The named queue, or the given identifier, does not exist.
    NoSuchEntity,
}

/// Mathematical model of a request, with byte sequences for the buffers.
pub enum ReqModel {
    CreateQueue(Seq<u8>),
    DeleteQueue(Seq<u8>),
    Enqueue(Seq<u8>, Seq<u8>),
    Read(Seq<u8>, u64),
    Confirm(MsgId),
}

/// Mathematical model of a response.
pub enum RespModel {
    QueueCreated,
    QueueDeleted,
    ObjectQueued(MsgId),
    Read(MsgId, Seq<u8>),
    Confirmed,
    Requeued,
    Full(MsgId, Seq<u8>),
    Empty,
    NoSuchEntity,
}

impl View for ClientMessage {
    type V = ReqModel;

    open spec fn view(&self) -> ReqModel {
        match self {
            ClientMessage::CreateQueue(name) => ReqModel::CreateQueue(name@),
            ClientMessage::DeleteQueue(name) => ReqModel::DeleteQueue(name@),
            ClientMessage::Enqueue(name, data) => ReqModel::Enqueue(name@, data@),
            ClientMessage::Read(name, timeout) => ReqModel::Read(name@, *timeout),
            ClientMessage::Confirm(id) => ReqModel::Confirm(*id),
        }
    }
}

impl View for ServerMessage {
    type V = RespModel;

    open spec fn view(&self) -> RespModel {
        match self {
            ServerMessage::QueueCreated => RespModel::QueueCreated,
            ServerMessage::QueueDeleted => RespModel::QueueDeleted,
            ServerMessage::ObjectQueued(id) => RespModel::ObjectQueued(*id),
            ServerMessage::Read(id, data) => RespModel::Read(*id, data@),
            ServerMessage::Confirmed => RespModel::Confirmed,
            ServerMessage::Requeued => RespModel::Requeued,
            ServerMessage::Full(id, data) => RespModel::Full(*id, data@),
            ServerMessage::Empty => RespModel::Empty,
            ServerMessage::NoSuchEntity => RespModel::NoSuchEntity,
        }
    }
}

} // verus!
