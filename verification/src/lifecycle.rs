//! Per-connection lifecycle decisions.
//!
//! The surrounding binary accepts transports, spawns one reader and one
//! writer task per connection, and feeds every decision through here: what
//! happens when a connection opens, what one inbound frame means, and what
//! happens when a connection ends. The registry entry of a connection
//! exists exactly while its task pair is live.

use vstd::prelude::*;
use crate::registry::Registry;
use crate::registry::Policy;
use crate::registry::QueueSender;
use crate::dispatch::DispatchOutcome;
use crate::dispatch::dispatch;
use crate::dispatch::dispatch_post;
use crate::ext::fresh_id;

verus! {

/// One inbound frame, as the core sees it: a text frame, the close frame,
/// or any other control frame (ping, pong, binary), which the transport
/// layer answers on its own.
pub enum Frame {
    /// A text frame carrying a payload.
    Text(String),
    /// The peer closed the connection.
    Close,
    /// Any other frame; the core ignores it.
    Other,
}

/// What the Inbound Reader loop does after one frame.
#[derive(Clone, Copy, PartialEq, Eq, Structural, Debug)]
pub enum ReaderAction {
    /// Read the next frame.
    KeepReading,
    /// End the reader loop and tear the connection down.
    Stop,
}

/// Opens a connection: draws a fresh identifier and registers the queue
/// endpoint under it. Fails only when the drawn identifier is already
/// taken — which the generation scheme should never produce — and then
/// registers nothing.
pub fn open_connection(reg: &mut Registry, tx: QueueSender) -> (r: Option<u128>)
    requires
        old(reg).wf(),
    ensures
        final(reg).wf(),
        r matches Some(id) ==> !old(reg)@.contains_key(id) && final(reg)@ == old(reg)@.insert(
            id,
            tx,
        ),
        r is None ==> final(reg)@ == old(reg)@,
{
    let id = fresh_id();
    if reg.register(id, tx) {
        Some(id)
    } else {
        None
    }
}

/// Closes a connection: removes its registry entry, exactly once in
/// effect — closing an absent identifier changes nothing and never fails,
/// and closing a present one shrinks the registry by exactly one entry.
pub fn close_connection(reg: &mut Registry, id: u128)
    requires
        old(reg).wf(),
    ensures
        final(reg).wf(),
        final(reg)@ == old(reg)@.remove(id),
        !old(reg)@.contains_key(id) ==> final(reg)@ == old(reg)@,
        old(reg)@.contains_key(id) ==> final(reg)@.dom().len() == old(reg)@.dom().len() - 1,
{
    reg.remove(id)
}

/// How the transport reported one outbound send, as the core sees it.
pub enum SendStatus {
    /// The frame was written.
    Sent,
    /// The write failed, but the transport does not report the connection
    /// closed.
    Failed,
    /// The transport reports the connection closed.
    Closed,
}

/// What the Outbound Writer loop does after one send.
#[derive(Clone, Copy, PartialEq, Eq, Structural, Debug)]
pub enum WriterAction {
    /// Move on to the next queued payload.
    KeepWriting,
    /// End the writer loop and tear the connection down.
    StopWriting,
}

/// Decides the Outbound Writer's next step: a failed send is skipped and
/// the writer moves on — logged by the shell, never fatal — and only a
/// transport that reports the connection closed ends the loop.
pub fn handle_send_result(status: &SendStatus) -> (r: WriterAction)
    ensures
        r is StopWriting <==> status is Closed,
{
    match status {
        SendStatus::Closed => WriterAction::StopWriting,
        SendStatus::Sent => WriterAction::KeepWriting,
        SendStatus::Failed => WriterAction::KeepWriting,
    }
}

/// Handles one frame from connection `sender`: a text frame goes verbatim
/// to the dispatcher, a close frame ends the reader loop, anything else is
/// ignored.
pub fn handle_frame(reg: &Registry, policy: Policy, sender: u128, frame: &Frame) -> (r: (
    ReaderAction,
    Option<DispatchOutcome>,
))
    requires
        reg.wf(),
    ensures
        frame is Close ==> r.0 is Stop && r.1 is None,
        frame is Other ==> r.0 is KeepReading && r.1 is None,
        frame matches Frame::Text(t) ==> r.0 is KeepReading && (r.1 matches Some(o)
            && dispatch_post(reg@, policy, sender, t@, o)),
{
    match frame {
        Frame::Close => (ReaderAction::Stop, None),
        Frame::Other => (ReaderAction::KeepReading, None),
        Frame::Text(t) => {
            let outcome = dispatch(reg, policy, sender, t.as_str());
            (ReaderAction::KeepReading, Some(outcome))
        },
    }
}

} // verus!
