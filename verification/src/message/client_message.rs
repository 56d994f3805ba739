//! The `message` one-of of a `ClientMessage`.
use vstd::prelude::*;
use crate::message::{AddRequest, ClientBody, EchoMessage};

verus! {

/// What a client asks for: an echo of a text, or the sum of two numbers.
#[derive(Clone, Debug, PartialEq)]
pub enum Message {
    /// Field 1: a text to be sent back unchanged.
    EchoMessage(EchoMessage),
    /// Field 2: two numbers to be added.
    AddRequest(AddRequest),
}

impl View for Message {
    type V = ClientBody;

    open spec fn view(&self) -> ClientBody {
        match self {
            Message::EchoMessage(e) => ClientBody::Echo { content: e.content@ },
            Message::AddRequest(r) => ClientBody::Add { a: r.a, b: r.b },
        }
    }
}

} // verus!
