use vstd::prelude::*;
use crate::chat::ChatWidget;
use crate::codec;
use crate::envelope::Message;
use crate::input::InputWidget;

verus! {

/// Which screen the terminal client is on.
#[derive(PartialEq, Eq, Structural)]
pub enum AppMode {
    Login,
    Chat,
    Exit,
}

/// One key press, reduced to what the client reacts to.
pub enum KeyInput {
    Enter,
    Char(char),
    Backspace,
    Other,
}

/// The terminal client's state: the current screen, the login name, the
/// input line and the conversation so far. The transport and the
/// terminal live outside; they feed key presses and received frames in
/// and carry composed frames out.
pub struct App {
    pub mode: AppMode,
    pub name: String,
    pub input: InputWidget,
    pub chat: ChatWidget,
}

impl App {
    /// A fresh client: at the login screen, with no name, an empty
    /// input line and an empty conversation.
    pub fn new() -> (a: App)
        ensures
            a.mode is Login,
            a.name@ == Seq::<char>::empty(),
            !a.input.active,
            a.input.value@ == Seq::<char>::empty(),
            a.chat.history() == Seq::<crate::envelope::MessageView>::empty(),
    {
        App { mode: AppMode::Login, name: String::new(), input: InputWidget::new(), chat: ChatWidget::new() }
    }

    /// Confirm the typed name: it becomes the display name, the input
    /// line is cleared and unfocused, and the client moves to the chat
    /// screen.
    pub fn login(&mut self)
        ensures
            final(self).mode is Chat,
            final(self).name@ == old(self).input.value@,
            !final(self).input.active,
            final(self).input.value@ == Seq::<char>::empty(),
            final(self).chat.history() == old(self).chat.history(),
    {
        self.name = self.input.value.clone();
        self.input.toggle(false);
        self.input.reset();
        self.mode = AppMode::Chat;
    }

    /// Compose the typed line into one outgoing frame, stamped with the
    /// given timestamp. An empty body is rejected here, at the
    /// authoring client, and nothing is sent for it. Either way the
    /// input line is cleared and unfocused.
    pub fn send_message(&mut self, ts: i64) -> (frame: Option<String>)
        ensures
            old(self).input.value@.len() > 0 ==> (frame matches Some(f) && f@ == codec::spec_env(
                ts as int,
                old(self).input.value@,
                old(self).name@,
            )),
            old(self).input.value@.len() == 0 ==> frame is None,
            !final(self).input.active,
            final(self).input.value@ == Seq::<char>::empty(),
            final(self).mode == old(self).mode,
            final(self).name@ == old(self).name@,
            final(self).chat.history() == old(self).chat.history(),
    {
        let frame = if self.input.value.as_str().unicode_len() > 0 {
            let message = Message {
                ts,
                sender: self.name.clone(),
                text: self.input.value.clone(),
            };
            Some(codec::encode(&message))
        } else {
            None
        };
        self.input.reset();
        self.input.toggle(false);
        frame
    }

    /// React to one key press, with `ts` as the timestamp an outgoing
    /// envelope would carry. With the input line focused, Enter confirms
    /// the login name or composes a frame to send, and typing edits the
    /// line; without focus, Enter gives the line focus and 'q' ends the
    /// client. The returned frame, when there is one, is the encoded
    /// envelope to write to the transport.
    pub fn handle_key(&mut self, key: KeyInput, ts: i64) -> (frame: Option<String>)
        ensures
            frame matches Some(f) ==> old(self).input.active && key is Enter
                && old(self).mode is Chat && old(self).input.value@.len() > 0
                && f@ == codec::spec_env(ts as int, old(self).input.value@, old(self).name@),
            old(self).input.active && key is Enter && old(self).mode is Login ==> frame is None
                && final(self).mode is Chat && final(self).name@ == old(self).input.value@
                && !final(self).input.active
                && final(self).input.value@ == Seq::<char>::empty(),
            old(self).input.active && key is Enter && old(self).mode is Chat ==> {
                &&& old(self).input.value@.len() > 0 ==> frame is Some
                &&& old(self).input.value@.len() == 0 ==> frame is None
                &&& !final(self).input.active
                &&& final(self).input.value@ == Seq::<char>::empty()
                &&& final(self).mode is Chat
                &&& final(self).name@ == old(self).name@
            },
            old(self).input.active && key is Enter && old(self).mode is Exit ==> *final(self)
                == *old(self) && frame is None,
            key matches KeyInput::Char(c) ==> (old(self).input.active ==> frame is None
                && final(self).input.value@ == old(self).input.value@.push(c)
                && final(self).input.active && final(self).mode == old(self).mode
                && final(self).name@ == old(self).name@),
            old(self).input.active && key is Backspace ==> frame is None && final(self).input.active
                && final(self).mode == old(self).mode && final(self).name@ == old(self).name@
                && (old(self).input.value@.len() == 0 ==> final(self).input.value@ == old(
                self,
            ).input.value@) && (old(self).input.value@.len() > 0 ==> final(self).input.value@
                == old(self).input.value@.drop_last()),
            old(self).input.active && key is Other ==> *final(self) == *old(self) && frame is None,
            !old(self).input.active && key is Enter ==> frame is None && final(self).input.active
                && final(self).input.value@ == old(self).input.value@
                && final(self).mode == old(self).mode && final(self).name@ == old(self).name@,
            key matches KeyInput::Char(c) ==> (!old(self).input.active && c == 'q' ==> frame
                is None && final(self).mode is Exit && final(self).input == old(self).input
                && final(self).name@ == old(self).name@),
            key matches KeyInput::Char(c) ==> (!old(self).input.active && c != 'q' ==> *final(self)
                == *old(self) && frame is None),
            !old(self).input.active && (key is Backspace || key is Other) ==> *final(self) == *old(
                self,
            ) && frame is None,
            final(self).chat.history() == old(self).chat.history(),
    {
        if self.input.active {
            match key {
                KeyInput::Enter => {
                    match self.mode {
                        AppMode::Login => {
                            self.login();
                            None
                        },
                        AppMode::Chat => self.send_message(ts),
                        AppMode::Exit => None,
                    }
                },
                KeyInput::Char(c) => {
                    self.input.push(c);
                    None
                },
                KeyInput::Backspace => {
                    self.input.pop();
                    None
                },
                KeyInput::Other => None,
            }
        } else {
            match key {
                KeyInput::Enter => {
                    self.input.toggle(true);
                    None
                },
                KeyInput::Char(c) => {
                    if c == 'q' {
                        self.mode = AppMode::Exit;
                    }
                    None
                },
                KeyInput::Backspace => None,
                KeyInput::Other => None,
            }
        }
    }

    /// Whether the client is done and the surrounding loop should stop.
    pub fn is_exit(&self) -> (r: bool)
        ensures
            r <==> self.mode is Exit,
    {
        match self.mode {
            AppMode::Exit => true,
            AppMode::Login => false,
            AppMode::Chat => false,
        }
    }
}

/// Relies on SystemTime::now and duration_since: the milliseconds since
/// the epoch as the authoring client's clock reads them; never negative
/// (a clock before the epoch reads as zero, a clock past the range of
/// the result saturates).
#[verifier::external_body]
pub fn get_timestamp() -> (ts: i64)
    ensures
        ts >= 0,
{
    match std::time::SystemTime::now().duration_since(std::time::UNIX_EPOCH) {
        Ok(d) => i64::try_from(d.as_millis()).unwrap_or(i64::MAX),
        Err(_) => 0,
    }
}

} // verus!
