//! The `message` one-of of a `ServerMessage`.
use vstd::prelude::*;
use crate::message::{AddResponse, EchoMessage, ServerBody};

verus! {

/// What the server answers: the echoed text, or the sum.
#[derive(Clone, Debug, PartialEq)]
pub enum Message {
    /// Field 1: the text that was sent.
    EchoMessage(EchoMessage),
    /// Field 2: the sum that was asked for.
    AddResponse(AddResponse),
}

impl View for Message {
    type V = ServerBody;

    open spec fn view(&self) -> ServerBody {
        match self {
            Message::EchoMessage(e) => ServerBody::Echo { content: e.content@ },
            Message::AddResponse(r) => ServerBody::Sum { result: r.result },
        }
    }
}

} // verus!
