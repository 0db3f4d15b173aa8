use vstd::prelude::*;
use crate::codec;
use crate::envelope::Message;
use crate::envelope::MessageView;

verus! {

/// The client's view of the conversation: every envelope decoded so
/// far, in arrival order. This is what the terminal renders.
pub struct ChatWidget {
    pub messages: Vec<Message>,
}

impl ChatWidget {
    /// The rendered history as mathematical values.
    pub open spec fn history(&self) -> Seq<MessageView> {
        self.messages@.map_values(|m: Message| m@)
    }

    /// An empty conversation.
    pub fn new() -> (w: Self)
        ensures
            w.history() == Seq::<MessageView>::empty(),
    {
        let w = ChatWidget { messages: Vec::new() };
        proof {
            assert(w.history() =~= Seq::<MessageView>::empty());
        }
        w
    }

    /// Append one decoded envelope to the rendered history.
    pub fn append(&mut self, message: Message)
        ensures
            final(self).history() == old(self).history().push(message@),
    {
        let ghost prev = self.messages@;
        self.messages.push(message);
        proof {
            assert(self.history() =~= prev.map_values(|m: Message| m@).push(message@));
        }
    }

    /// Feed one received frame through the decode path. A canonical
    /// envelope is appended to the history; any other payload — however
    /// malformed — is silently discarded and leaves the rendered
    /// history exactly as it was.
    pub fn ingest(&mut self, payload: &str) -> (accepted: bool)
        ensures
            !codec::is_canonical_env(payload@) ==> !accepted
                && final(self).history() == old(self).history(),
            codec::is_canonical_env(payload@) ==> accepted,
            forall|ts: int, t: Seq<char>, sn: Seq<char>|
                i64::MIN <= ts <= i64::MAX && payload@ == #[trigger] codec::spec_env(ts, t, sn)
                    ==> final(self).history() == old(self).history().push(
                    MessageView { ts, text: t, sender: sn },
                ),
    {
        match codec::decode(payload) {
            Some(message) => {
                self.append(message);
                true
            },
            None => false,
        }
    }
}

} // verus!
