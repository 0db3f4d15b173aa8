use vstd::prelude::*;

verus! {

/// The chat message envelope: the wire-level unit exchanged between
/// client and server. It is immutable once constructed; the server
/// relays its encoded form verbatim and never parses it.
#[derive(Clone, Debug)]
pub struct Message {
    /// Milliseconds since the epoch, set by the authoring client.
    pub ts: i64,
    /// Free-form message body.
    pub text: String,
    /// Display name chosen at login; empty while unset.
    pub sender: String,
}

/// The mathematical value of an envelope: the timestamp as an integer
/// and the body and sender name as character sequences.
pub struct MessageView {
    pub ts: int,
    pub text: Seq<char>,
    pub sender: Seq<char>,
}

impl View for Message {
    type V = MessageView;

    open spec fn view(&self) -> MessageView {
        MessageView { ts: self.ts as int, text: self.text@, sender: self.sender@ }
    }
}

} // verus!
