use crate::proto::stomp::{Frame, STOMPFrame};
use vstd::prelude::*;

verus! {

/// What a client frame asks of the queues.
#[derive(Debug)]
pub enum ClientRequest {
    /// Subscribe the client to the queue of `destination`, unless it is
    /// subscribed already.
    Subscribe { destination: String },
    /// Unsubscribe the client from the queue of `destination`, the frame's
    /// `destination` header where it has one.
    Unsubscribe { destination: Option<String> },
    /// Publish the frame to the queue of `destination`.
    Publish { destination: String },
    /// Nothing.
    Ignore,
}

/// The request that a frame read from a client makes: a `SUBSCRIBE` or a
/// `SEND` names its queue in its `destination` header, which such a frame must
/// have; an `UNSUBSCRIBE` asks to unsubscribe, from the queue of its
/// `destination` header where it has one; any other frame asks nothing.
pub fn client_request(frame: &STOMPFrame) -> (r: ClientRequest)
    requires
        frame.wf(),
        frame.kind == Frame::Subscribe || frame.kind == Frame::Send ==> frame.header_map().dom().contains(
            "destination"@,
        ),
    ensures
        frame.kind == Frame::Subscribe ==> (r matches ClientRequest::Subscribe { destination }
            && destination@ == frame.header_map()["destination"@]),
        frame.kind == Frame::Send ==> (r matches ClientRequest::Publish { destination }
            && destination@ == frame.header_map()["destination"@]),
        frame.kind == Frame::Unsubscribe ==> (r matches ClientRequest::Unsubscribe { destination }
            && (destination is Some <==> frame.header_map().dom().contains("destination"@))
            && (destination matches Some(d) ==> d@ == frame.header_map()["destination"@])),
        frame.kind != Frame::Subscribe && frame.kind != Frame::Send && frame.kind
            != Frame::Unsubscribe ==> r is Ignore,
{
    match frame.kind {
        Frame::Subscribe => {
            let destination = frame.get_header("destination").unwrap().clone();
            ClientRequest::Subscribe { destination }
        },
        Frame::Unsubscribe => {
            let destination = match frame.get_header("destination") {
                Some(d) => Some(d.clone()),
                None => None,
            };
            ClientRequest::Unsubscribe { destination }
        },
        Frame::Send => {
            let destination = frame.get_header("destination").unwrap().clone();
            ClientRequest::Publish { destination }
        },
        _ => ClientRequest::Ignore,
    }
}

} // verus!
