use vstd::prelude::*;
use crate::hub::Hub;
use crate::hub::RecvOutcome;
use crate::hub::Subscription;

verus! {

/// One transport-level read, as the inbound direction of a connection
/// sees it: a text frame to relay, or anything that ends the direction
/// (a non-text frame, a read error, or the close of the connection).
pub enum InboundEvent {
    Frame(String),
    Closed,
}

/// What the outbound direction of a connection does next: write this
/// payload to its transport, absorb a lag notice and go on, or wait for
/// the next publish.
pub enum OutboundAction {
    Send(String),
    Skip,
    Wait,
}

/// The inbound direction's decision for one transport event: a text
/// frame is republished into the hub verbatim — the server never parses
/// payloads — and reading goes on; anything else stops this direction.
/// A publish that reached no subscriber is not a fault: the loop
/// continues either way.
pub fn inbound_step(hub: &mut Hub, event: InboundEvent) -> (cont: bool)
    ensures
        event matches InboundEvent::Frame(p) ==> cont
            && final(hub).log() == old(hub).log().push(p@),
        event is Closed ==> !cont
            && final(hub).log() == old(hub).log(),
        final(hub).capacity() == old(hub).capacity(),
        final(hub).subscriber_count() == old(hub).subscriber_count(),
    {
    match event {
        InboundEvent::Frame(p) => {
            let _ = hub.publish(p);
            true
        },
        InboundEvent::Closed => false,
    }
}

/// The outbound direction's decision for one turn: the next pending
/// payload becomes a frame to write; a lag signal is absorbed (delivery
/// resumes with the retained payloads); an empty backlog means waiting
/// for the next publish.
pub fn outbound_step(sub: &mut Subscription, hub: &Hub) -> (action: OutboundAction)
    requires
        old(sub).valid_for(hub),
    ensures
        final(sub).valid_for(hub),
        old(sub).cursor() == hub.log().len() ==> action is Wait
            && final(sub).cursor() == old(sub).cursor(),
        old(sub).cursor() < hub.log().len()
            && hub.log().len() - old(sub).cursor() <= hub.capacity() ==> {
            &&& action matches OutboundAction::Send(p)
                && p@ == hub.log()[old(sub).cursor() as int]
            &&& final(sub).cursor() == old(sub).cursor() + 1
        },
        hub.log().len() - old(sub).cursor() > hub.capacity() ==> action is Skip
            && final(sub).cursor() + hub.capacity() == hub.log().len(),
{
    match sub.receive_next(hub) {
        RecvOutcome::Payload(p) => OutboundAction::Send(p),
        RecvOutcome::Lagged(_) => OutboundAction::Skip,
        RecvOutcome::Empty => OutboundAction::Wait,
    }
}

} // verus!
