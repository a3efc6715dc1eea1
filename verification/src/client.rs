//! The client side: request/response pipelining bookkeeping and the
//! interpretation of server replies as typed results.
//!
//! The stream itself lives outside the library: callers write the bytes
//! that `send` hands back, feed the bytes they read into the pipeline,
//! and take decoded responses out, in the order the requests were sent.

use vstd::prelude::*;
use crate::msg::{MsgId, ClientMessage, ServerMessage, RespModel};
use crate::codec::{dec_resp, Decoded, enc_req, MAX_CLIENT_MESSAGE_LEN};

verus! {

/// The name of a queue, as its UTF-8 bytes.
#[derive(Clone, Debug, PartialEq, Eq, PartialOrd, Ord, Hash)]
pub struct QueueId(pub Vec<u8>);

/// A payload handed out by a Read, with its identifier.
#[derive(Clone, Debug, PartialEq)]
pub struct Message {
    pub id: MsgId,
    pub data: Vec<u8>,
}

/// A failure reported to the user of the client.
#[derive(Debug, PartialEq)]
pub enum Error {
    /// The request exceeds the wire protocol's size bound.
    Encoding,
    /// A response from the server could not be decoded.
    Decoding,
    /// The named queue does not exist on the server.
    NoQueue(QueueId),
    /// The identifier is not an unconfirmed delivery on the server.
    NoObject(MsgId),
    /// The redelivery timeout elapsed first and the payload was requeued.
    Requeued,
    /// The queue holds no payloads.
    Empty,
    /// The queue was at capacity; the rejected payload comes back.
    Full(MsgId, Vec<u8>),
    /// A response was asked for when none is outstanding.
    NoResponseExpected,
    /// A stream-level failure.
    Io,
}

/// Model of the pipelining state.
#[verifier::ext_equal]
pub struct PipelineModel {
    /// How many responses are owed for requests already sent.
    pub expecting: u32,
    /// Bytes received from the server but not yet decoded.
    pub inbuf: Seq<u8>,
}

/// Pipelining bookkeeping over one stream: counts the responses still
/// owed and decodes them, in request order, from the received bytes.
pub struct Pipeline {
    expecting: u32,
    inbuf: Vec<u8>,
}

impl View for Pipeline {
    type V = PipelineModel;

    closed spec fn view(&self) -> PipelineModel {
        PipelineModel { expecting: self.expecting, inbuf: self.inbuf@ }
    }
}

impl Pipeline {
    /// A pipeline expecting nothing.
    pub fn new() -> (p: Pipeline)
        ensures
            p@ == (PipelineModel { expecting: 0, inbuf: Seq::empty() }),
    {
        Pipeline { expecting: 0, inbuf: Vec::new() }
    }

    /// Encode one request and count one more expected response; the
    /// caller writes the returned bytes to the stream.
    pub fn send(&mut self, msg: &ClientMessage) -> (r: Result<Vec<u8>, Error>)
        requires
            old(self)@.expecting < u32::MAX,
        ensures
            match r {
                Ok(b) => {
                    &&& b@ == enc_req(msg@)
                    &&& b@.len() <= MAX_CLIENT_MESSAGE_LEN
                    &&& final(self)@.expecting == old(self)@.expecting + 1
                    &&& final(self)@.inbuf == old(self)@.inbuf
                },
                Err(e) => {
                    &&& e == Error::Encoding
                    &&& enc_req(msg@).len() > MAX_CLIENT_MESSAGE_LEN
                    &&& *final(self) == *old(self)
                },
            },
    {
        match msg.encode() {
            Ok(b) => {
                self.expecting = self.expecting + 1;
                Ok(b)
            },
            Err(_) => Err(Error::Encoding),
        }
    }

    /// How many responses are still owed.
    pub fn incoming(&self) -> (r: u32)
        ensures
            r == self@.expecting,
    {
        self.expecting
    }

    /// Buffer bytes read from the stream.
    pub fn feed(&mut self, data: &[u8])
        ensures
            final(self)@.expecting == old(self)@.expecting,
            final(self)@.inbuf == old(self)@.inbuf + data@,
    {
        crate::codec::push_bytes(&mut self.inbuf, data);
    }

    /// Take one decoded response out of the buffered bytes, if a whole
    /// one has arrived; refuses when no response is owed.
    pub fn receive(&mut self) -> (r: Result<Option<ServerMessage>, Error>)
        ensures
            ({
                let d = dec_resp(old(self)@.inbuf);
                match r {
                    Ok(Option::Some(m)) => {
                        &&& old(self)@.expecting > 0
                        &&& d matches Decoded::Done(mm, n) && m@ == mm && final(self)@.inbuf == old(
                            self,
                        )@.inbuf.skip(n)
                        &&& final(self)@.expecting == old(self)@.expecting - 1
                    },
                    Ok(Option::None) => old(self)@.expecting > 0 && d is More && *final(self)
                        == *old(self),
                    Err(Error::NoResponseExpected) => old(self)@.expecting == 0 && *final(self)
                        == *old(self),
                    Err(Error::Decoding) => old(self)@.expecting > 0 && d is Bad && *final(self)
                        == *old(self),
                    _ => false,
                }
            }),
    {
        if self.expecting == 0 {
            return Err(Error::NoResponseExpected);
        }
        match ServerMessage::decode(self.inbuf.as_slice()) {
            Ok((m, n)) => {
                let rest = crate::connection::drop_prefix(&self.inbuf, n);
                self.inbuf = rest;
                self.expecting = self.expecting - 1;
                Ok(Some(m))
            },
            Err(crate::codec::DecodingError::Incomplete) => Ok(None),
            Err(crate::codec::DecodingError::Invalid) => Err(Error::Decoding),
        }
    }

    /// Iterate over the responses already buffered.
    pub fn iter(self) -> (it: ResponseIter)
        ensures
            it@ == self@,
    {
        ResponseIter { parent: self }
    }
}

/// Walks the responses buffered in a pipeline, in the order the requests
/// were sent, and stops when a whole response has not arrived.
pub struct ResponseIter {
    parent: Pipeline,
}

impl View for ResponseIter {
    type V = PipelineModel;

    closed spec fn view(&self) -> PipelineModel {
        self.parent@
    }
}

impl ResponseIter {
    /// The next buffered response: like `receive`, but exhaustion and
    /// decode failures both end the iteration quietly.
    pub fn next(&mut self) -> (r: Option<ServerMessage>)
        ensures
            ({
                let d = dec_resp(old(self)@.inbuf);
                match r {
                    Option::Some(m) => {
                        &&& old(self)@.expecting > 0
                        &&& d matches Decoded::Done(mm, n) && m@ == mm && final(self)@.inbuf == old(
                            self,
                        )@.inbuf.skip(n)
                        &&& final(self)@.expecting == old(self)@.expecting - 1
                    },
                    Option::None => (old(self)@.expecting == 0 || !(d is Done)) && *final(self)
                        == *old(self),
                }
            }),
    {
        match self.parent.receive() {
            Ok(Some(m)) => Some(m),
            Ok(None) => None,
            Err(_) => None,
        }
    }

    /// Buffer more bytes read from the stream.
    pub fn feed(&mut self, data: &[u8])
        ensures
            final(self)@.expecting == old(self)@.expecting,
            final(self)@.inbuf == old(self)@.inbuf + data@,
    {
        self.parent.feed(data);
    }

    /// Hand the pipeline back when done iterating.
    pub fn into_pipeline(self) -> (p: Pipeline)
        ensures
            p@ == self@,
    {
        self.parent
    }
}

/// A client that sends requests without waiting for their responses and
/// reads the responses back later, in request order.
pub struct PipelinedClient {
    pipeline: Pipeline,
}

impl View for PipelinedClient {
    type V = PipelineModel;

    closed spec fn view(&self) -> PipelineModel {
        self.pipeline@
    }
}

impl PipelinedClient {
    /// A pipelined client expecting nothing.
    pub fn new() -> (c: PipelinedClient)
        ensures
            c@ == (PipelineModel { expecting: 0, inbuf: Seq::empty() }),
    {
        PipelinedClient { pipeline: Pipeline::new() }
    }

    /// Encode one request to write out, without waiting for a response.
    pub fn send(&mut self, msg: &ClientMessage) -> (r: Result<Vec<u8>, Error>)
        requires
            old(self)@.expecting < u32::MAX,
        ensures
            match r {
                Ok(b) => {
                    &&& b@ == enc_req(msg@)
                    &&& b@.len() <= MAX_CLIENT_MESSAGE_LEN
                    &&& final(self)@.expecting == old(self)@.expecting + 1
                    &&& final(self)@.inbuf == old(self)@.inbuf
                },
                Err(e) => {
                    &&& e == Error::Encoding
                    &&& enc_req(msg@).len() > MAX_CLIENT_MESSAGE_LEN
                    &&& *final(self) == *old(self)
                },
            },
    {
        self.pipeline.send(msg)
    }

    /// Buffer bytes read from the stream.
    pub fn feed(&mut self, data: &[u8])
        ensures
            final(self)@.expecting == old(self)@.expecting,
            final(self)@.inbuf == old(self)@.inbuf + data@,
    {
        self.pipeline.feed(data);
    }

    /// Iterate over the buffered responses.
    pub fn iter(self) -> (it: ResponseIter)
        ensures
            it@ == self@,
    {
        self.pipeline.iter()
    }
}

/// The reply to a CreateQueue: the queue's handle. Any reply but
/// QueueCreated breaks the protocol and is for the caller to reject.
pub fn create_reply(name: Vec<u8>, resp: &ServerMessage) -> (r: QueueId)
    requires
        resp@ is QueueCreated,
    ensures
        r.0@ == name@,
{
    QueueId(name)
}

/// The reply to a DeleteQueue, as a typed result.
pub fn delete_reply(name: Vec<u8>, resp: &ServerMessage) -> (r: Result<(), Error>)
    requires
        resp@ is QueueDeleted || resp@ is NoSuchEntity,
    ensures
        match r {
            Ok(()) => resp@ is QueueDeleted,
            Err(e) => e matches Error::NoQueue(q) && resp@ is NoSuchEntity && q.0@ == name@,
        },
{
    match resp {
        ServerMessage::QueueDeleted => Ok(()),
        _ => Err(Error::NoQueue(QueueId(name))),
    }
}

/// The reply to an Enqueue, as a typed result: the identifier given to
/// the payload, or the payload back if the queue was full.
pub fn send_reply(name: Vec<u8>, resp: ServerMessage) -> (r: Result<MsgId, Error>)
    requires
        resp@ is ObjectQueued || resp@ is Full || resp@ is NoSuchEntity,
    ensures
        match r {
            Ok(id) => resp@ == RespModel::ObjectQueued(id),
            Err(e) => match e {
                Error::Full(id, d) => resp@ == RespModel::Full(id, d@),
                Error::NoQueue(q) => resp@ is NoSuchEntity && q.0@ == name@,
                _ => false,
            },
        },
{
    match resp {
        ServerMessage::ObjectQueued(id) => Ok(id),
        ServerMessage::Full(id, d) => Err(Error::Full(id, d)),
        _ => Err(Error::NoQueue(QueueId(name))),
    }
}

/// The reply to a Read, as a typed result: the payload and its
/// identifier, to be confirmed before the redelivery timeout.
pub fn read_reply(name: Vec<u8>, resp: ServerMessage) -> (r: Result<Message, Error>)
    requires
        resp@ is Read || resp@ is Empty || resp@ is NoSuchEntity,
    ensures
        match r {
            Ok(m) => resp@ == RespModel::Read(m.id, m.data@),
            Err(e) => match e {
                Error::Empty => resp@ is Empty,
                Error::NoQueue(q) => resp@ is NoSuchEntity && q.0@ == name@,
                _ => false,
            },
        },
{
    match resp {
        ServerMessage::Read(id, data) => Ok(Message { id, data }),
        ServerMessage::Empty => Err(Error::Empty),
        _ => Err(Error::NoQueue(QueueId(name))),
    }
}

/// The reply to a Confirm, as a typed result: confirmed in time, already
/// requeued, requeue retried into a full queue, or unknown identifier.
pub fn confirm_reply(id: MsgId, resp: ServerMessage) -> (r: Result<(), Error>)
    requires
        resp@ is Confirmed || resp@ is Requeued || resp@ is Full || resp@ is NoSuchEntity,
    ensures
        match r {
            Ok(()) => resp@ is Confirmed,
            Err(e) => match e {
                Error::Requeued => resp@ is Requeued,
                Error::Full(i, d) => resp@ == RespModel::Full(i, d@),
                Error::NoObject(i) => resp@ is NoSuchEntity && i == id,
                _ => false,
            },
        },
{
    match resp {
        ServerMessage::Confirmed => Ok(()),
        ServerMessage::Requeued => Err(Error::Requeued),
        ServerMessage::Full(i, d) => Err(Error::Full(i, d)),
        _ => Err(Error::NoObject(id)),
    }
}

} // verus!
