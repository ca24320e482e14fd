use vstd::prelude::*;

verus! {

/// The message an editor shows, if any.
pub struct Notification {
    pub message: Option<String>,
}

impl Notification {
    /// No message.
    pub fn new() -> (r: Notification)
        ensures
            r.message is None,
    {
        Notification { message: None }
    }

    /// Replaces the message.
    pub fn notify(&mut self, new_message: Option<String>)
        ensures
            final(self).message == new_message,
    {
        self.message = new_message;
    }
}

} // verus!
