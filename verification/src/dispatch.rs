//! The broadcast dispatcher.
//!
//! Given a sender and an inbound payload, the dispatcher validates the
//! payload as a Message Envelope and fans it out: the raw payload is
//! enqueued, verbatim, onto the outbound queue of every connection the
//! policy selects. A payload that does not parse is answered with a single
//! Error Envelope of code 400 to the sender alone, and nothing is
//! broadcast. Delivery is best-effort: one closed target queue is skipped
//! and neither the sender nor the other targets see that failure.

use vstd::prelude::*;
use vstd::string::StringExecFns;
use crate::registry::Registry;
use crate::registry::Policy;
use crate::registry::QueueSender;
use crate::registry::target_ids;
use crate::registry::ids_of;
use crate::json::spec_parse_client;
use crate::json::spec_error_json;
use crate::json::parse_client_message;
use crate::json::error_message_json;
use crate::messages::ServerErrorMessage;
use crate::ext::send_text;

verus! {

/// Error code of a rejected payload.
pub const INVALID_FORMAT_CODE: u16 = 400;

/// Description of a rejected payload.
pub const INVALID_FORMAT_TEXT: &'static str = "Invalid message format";

/// The Error Envelope payload a rejected sender is given.
pub fn invalid_format_reply() -> (r: String)
    ensures
        r@ == spec_error_json(400, "Invalid message format"@),
{
    let m = ServerErrorMessage {
        code: INVALID_FORMAT_CODE,
        error: String::from_str(INVALID_FORMAT_TEXT),
    };
    error_message_json(&m)
}

/// What one dispatch did.
pub enum DispatchOutcome {
    /// The payload was a well-formed Message Envelope and was offered,
    /// verbatim, to every broadcast target: the payload as it went onto
    /// the queues, the targets' identifiers, and how many enqueues their
    /// channels accepted.
    Broadcast { payload: String, targets: Vec<u128>, delivered: usize },
    /// The payload was rejected: the Error Envelope payload offered to the
    /// sender alone, and whether the sender's queue accepted it.
    Rejected { reply: String, replied: bool },
}

/// What a finished dispatch of `text` from `sender` guarantees over the
/// registry contents `m`.
pub open spec fn dispatch_post(
    m: Map<u128, QueueSender>,
    policy: Policy,
    sender: u128,
    text: Seq<char>,
    r: DispatchOutcome,
) -> bool {
    &&& (r is Broadcast <==> spec_parse_client(text) is Some)
    &&& (r matches DispatchOutcome::Broadcast { payload, targets, delivered } ==> {
        &&& payload@ == text
        &&& targets@.no_duplicates()
        &&& targets@.to_set() == target_ids(m, policy, sender)
        &&& delivered <= targets@.len()
    })
    &&& (r matches DispatchOutcome::Rejected { reply, .. } ==> reply@ == spec_error_json(
        400,
        "Invalid message format"@,
    ))
}

/// Validates `text` from `sender` and fans it out under `policy`.
pub fn dispatch(reg: &Registry, policy: Policy, sender: u128, text: &str) -> (r: DispatchOutcome)
    requires
        reg.wf(),
    ensures
        dispatch_post(reg@, policy, sender, text@, r),
{
    match parse_client_message(text) {
        Some(_) => {
            let payload = String::from_str(text);
            let pairs = reg.broadcast_targets(policy, sender);
            let mut targets: Vec<u128> = Vec::new();
            let mut delivered: usize = 0;
            let mut i: usize = 0;
            while i < pairs.len()
                invariant
                    i <= pairs@.len(),
                    targets@.len() == i,
                    delivered <= i,
                    payload@ == text@,
                    forall|j: int| 0 <= j < i ==> targets@[j] == (#[trigger] pairs@[j]).0,
                decreases pairs@.len() - i,
            {
                let ok = send_text(&pairs[i].1, payload.clone());
                if ok {
                    delivered = delivered + 1;
                }
                targets.push(pairs[i].0);
                i = i + 1;
            }
            proof {
                assert(targets@.no_duplicates()) by {
                    assert forall|p: int, q: int|
                        0 <= p < targets@.len() && 0 <= q < targets@.len() && p != q
                        implies targets@[p] != targets@[q] by {
                        assert(targets@[p] == pairs@[p].0);
                        assert(targets@[q] == pairs@[q].0);
                        if p < q {
                            assert(pairs@[p].0 != pairs@[q].0);
                        } else {
                            assert(pairs@[q].0 != pairs@[p].0);
                        }
                    }
                }
                assert(targets@.to_set() =~= target_ids(reg@, policy, sender)) by {
                    assert forall|id: u128| targets@.to_set().contains(id) implies ids_of(
                        pairs@,
                    ).contains(id) by {
                        let j = choose|j: int| 0 <= j < targets@.len() && targets@[j] == id;
                        assert(pairs@[j].0 == id);
                    }
                    assert forall|id: u128| ids_of(pairs@).contains(id) implies targets@.to_set()
                        .contains(id) by {
                        let j = choose|j: int|
                            0 <= j < pairs@.len() && (#[trigger] pairs@[j]).0 == id;
                        assert(targets@[j] == id);
                        assert(targets@.contains(id));
                    }
                }
            }
            DispatchOutcome::Broadcast { payload, targets, delivered }
        },
        None => {
            let reply = invalid_format_reply();
            let replied = match reg.sender_for(sender) {
                Some(tx) => send_text(&tx, reply.clone()),
                None => false,
            };
            DispatchOutcome::Rejected { reply, replied }
        },
    }
}

} // verus!
