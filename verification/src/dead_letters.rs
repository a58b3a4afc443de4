//! Dead letters: messages that could not be delivered, and the listener
//! that receives them.

use vstd::prelude::*;
use crate::hashing::push_char;
use crate::decimal::push_text;

verus! {

/// The actor that listens to dead letters.
#[derive(Debug)]
pub struct DeadLetterListener;

/// A dead message, held by its text.
#[derive(Debug)]
pub struct DeadMessage(pub String);

impl DeadMessage {
    /// "DeadMessage(message)", as `Display` writes it.
    pub fn to_display_string(&self) -> (r: String)
        ensures
            r@ == "DeadMessage("@ + self.0@ + ")"@,
    {
        let mut s = String::new();
        push_text(&mut s, "DeadMessage(");
        push_text(&mut s, self.0.as_str());
        push_char(&mut s, ')');
        proof {
            reveal_strlit(")");
        }
        assert(s@ =~= "DeadMessage("@ + self.0@ + ")"@);
        s
    }
}

/// A message that was dropped: its text, why it was dropped, and the text
/// of its sender, if any.
#[derive(Debug)]
pub struct Dropped {
    message: String,
    reason: String,
    sender: Option<String>,
}

impl Dropped {
    pub fn new(message: String, reason: String, sender: Option<String>) -> (r: Dropped)
        ensures
            r.message() == message@,
            r.reason() == reason@,
            r.sender() == (match sender {
                Some(s) => Some(s@),
                None => None,
            }),
    {
        Dropped { message, reason, sender }
    }

    /// The dropped message's text.
    pub closed spec fn message(&self) -> Seq<char> {
        self.message@
    }

    /// Why it was dropped.
    pub closed spec fn reason(&self) -> Seq<char> {
        self.reason@
    }

    /// Its sender's text, if any.
    pub closed spec fn sender(&self) -> Option<Seq<char>> {
        match self.sender {
            Some(s) => Some(s@),
            None => None,
        }
    }
}

} // verus!
