//! One connection: what its handler does with each buffer that it reads,
//! and when it stops.

use crate::command::CommandError;
use crate::db::Db;
use crate::dispatch::{answerable, holds_text, reply, store_after, try_dispatch, Store};
use crate::frame::{Frame, FrameView};
use crate::parser::{decode, Parser};
use crate::writer::{encode, Writer};
use vstd::prelude::*;

verus! {

/// The size of the buffer that a handler reads into.
pub const BUFFER_SIZE: usize = 1024;

/// The request that a buffer holds: the value that it decodes to, or, where
/// it decodes to none, an error that carries the description of the
/// failure.
pub open spec fn request_of(input: Seq<u8>) -> FrameView {
    match decode(input) {
        Ok(v) => v,
        Err(e) => FrameView::Error(e.description_spec()),
    }
}

/// The bytes that answer a buffer.
pub open spec fn response(store: Store, input: Seq<u8>) -> Seq<u8> {
    encode(reply(store, request_of(input)))
}

/// The request that a buffer holds.
pub fn request(input: &[u8]) -> (frame: Frame)
    ensures
        frame@ == request_of(input@),
{
    match Parser::parse(input) {
        Ok(frame) => frame,
        Err(e) => Frame::Error(e.description()),
    }
}

/// Serves one buffer: decodes its request, carries the request out on the
/// store and encodes the reply. Where the request has no reply there are no
/// bytes, and the store stays as it is; a store that holds text only always
/// gives bytes.
pub fn respond(db: &mut Db, input: &[u8]) -> (bytes: Option<Vec<u8>>)
    ensures
        match bytes {
            Some(out) => answerable(old(db)@, request_of(input@)) && out@ == response(
                old(db)@,
                input@,
            ) && final(db)@ == store_after(old(db)@, request_of(input@)),
            None => !answerable(old(db)@, request_of(input@)) && final(db)@ == old(db)@,
        },
        holds_text(old(db)@) ==> bytes is Some && holds_text(final(db)@),
{
    let frame = request(input);
    match try_dispatch(db, &frame) {
        Some(answer) => Some(Writer::write(&answer)),
        None => None,
    }
}

/// A buffer that decodes to no value is answered with the error that tells
/// of a request that is no array, and leaves the store as it is.
pub proof fn lemma_undecodable_input(store: Store, input: Seq<u8>)
    requires
        decode(input) is Err,
    ensures
        answerable(store, request_of(input)),
        reply(store, request_of(input)) == FrameView::Error(
            CommandError::UnsupportedRequestShape.message_spec(),
        ),
        store_after(store, request_of(input)) == store,
{
}

/// What the handler of a connection is doing.
#[derive(Clone, Copy, Debug, PartialEq, Eq, Structural)]
pub enum Phase {
    /// It waits for bytes from the peer.
    Reading,
    /// It serves the bytes that it has read, as many as are given, and
    /// sends the reply.
    Serving(usize),
    /// It has stopped.
    Closed,
}

/// What has happened on the socket.
#[derive(Clone, Copy, Debug, PartialEq, Eq, Structural)]
pub enum Event {
    /// A read gave this many bytes; none means that the peer has closed.
    Received(usize),
    /// A read failed.
    ReceiveFailed,
    /// The reply was sent in full.
    Sent,
    /// Sending the reply failed.
    SendFailed,
}

impl Phase {
    /// The phase that follows an event. A handler that reads serves what it
    /// has received, and stops when the peer has closed or the read has
    /// failed; one that serves reads again when its reply is sent, and stops
    /// when sending has failed. An event that does not belong to the phase
    /// stops the handler, and one that has stopped stays so.
    pub open spec fn next_spec(self, event: Event) -> Phase {
        match (self, event) {
            (Phase::Reading, Event::Received(n)) => if n == 0 {
                Phase::Closed
            } else {
                Phase::Serving(n)
            },
            (Phase::Serving(_), Event::Sent) => Phase::Reading,
            _ => Phase::Closed,
        }
    }

    /// The phase that follows an event.
    pub fn next(self, event: Event) -> (phase: Phase)
        ensures
            phase == self.next_spec(event),
    {
        match (self, event) {
            (Phase::Reading, Event::Received(n)) => if n == 0 {
                Phase::Closed
            } else {
                Phase::Serving(n)
            },
            (Phase::Serving(_), Event::Sent) => Phase::Reading,
            _ => Phase::Closed,
        }
    }
}

} // verus!
