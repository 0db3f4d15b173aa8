use vstd::prelude::*;
use crate::strutil::string_pop;
use crate::strutil::string_push;

verus! {

/// The client's single-line text entry: the characters typed so far and
/// whether the line currently has focus.
#[derive(Clone)]
pub struct InputWidget {
    pub active: bool,
    pub value: String,
}

impl InputWidget {
    /// A fresh input line: empty and without focus.
    pub fn new() -> (w: Self)
        ensures
            !w.active,
            w.value@ == Seq::<char>::empty(),
    {
        InputWidget { active: false, value: String::new() }
    }

    /// Give or take focus; the text is kept.
    pub fn toggle(&mut self, active: bool)
        ensures
            final(self).active == active,
            final(self).value@ == old(self).value@,
    {
        self.active = active;
    }

    /// Append one typed character.
    pub fn push(&mut self, ch: char)
        ensures
            final(self).value@ == old(self).value@.push(ch),
            final(self).active == old(self).active,
    {
        string_push(&mut self.value, ch);
    }

    /// Remove the last character, if there is one.
    pub fn pop(&mut self)
        ensures
            old(self).value@.len() == 0 ==> final(self).value@ == old(self).value@,
            old(self).value@.len() > 0 ==> final(self).value@ == old(self).value@.drop_last(),
            final(self).active == old(self).active,
    {
        let _ = string_pop(&mut self.value);
    }

    /// Clear the text; focus is kept.
    pub fn reset(&mut self)
        ensures
            final(self).value@ == Seq::<char>::empty(),
            final(self).active == old(self).active,
    {
        self.value = String::new();
    }
}

impl Default for InputWidget {
    /// The same state as `InputWidget::new`: empty and without focus.
    fn default() -> (w: Self)
        ensures
            !w.active,
            w.value@ == Seq::<char>::empty(),
    {
        InputWidget { active: false, value: String::new() }
    }
}

} // verus!
