//! The messages exchanged between client and server, and the bytes that
//! prost writes for them.
//!
//! ```text
//! message EchoMessage   { string content = 1; }
//! message AddRequest    { int32 a = 1; int32 b = 2; }
//! message AddResponse   { int32 result = 1; }
//! message ClientMessage { oneof message { EchoMessage echo_message = 1; AddRequest add_request = 2; } }
//! message ServerMessage { oneof message { EchoMessage echo_message = 1; AddResponse add_response = 2; } }
//! ```
use vstd::prelude::*;
use crate::wire::{
    int32_field_bytes, message_field_bytes, put_int32, put_key, put_string, put_varint,
    string_field_bytes, MAX_TAG, WIRE_LEN,
};

pub mod client_message;
pub mod server_message;
pub mod parse;
pub mod standard;

verus! {

/// A text to be echoed.
#[derive(Clone, Debug, PartialEq)]
pub struct EchoMessage {
    pub content: String,
}

/// Two numbers to be added.
#[derive(Clone, Debug, PartialEq)]
pub struct AddRequest {
    pub a: i32,
    pub b: i32,
}

/// The sum of an `AddRequest`.
#[derive(Clone, Debug, PartialEq)]
pub struct AddResponse {
    pub result: i32,
}

/// A message from a client; `message` is `None` when it carries nothing.
#[derive(Clone, Debug, PartialEq)]
pub struct ClientMessage {
    pub message: Option<client_message::Message>,
}

/// A message from the server.
#[derive(Clone, Debug, PartialEq)]
pub struct ServerMessage {
    pub message: Option<server_message::Message>,
}

/// The content of a client message, as a value.
pub enum ClientBody {
    Echo { content: Seq<char> },
    Add { a: i32, b: i32 },
}

/// The content of a server message, as a value.
pub enum ServerBody {
    Echo { content: Seq<char> },
    Sum { result: i32 },
}

impl View for ClientMessage {
    type V = Option<ClientBody>;

    open spec fn view(&self) -> Option<ClientBody> {
        match self.message {
            Some(m) => Some(m@),
            None => None,
        }
    }
}

impl View for ServerMessage {
    type V = Option<ServerBody>;

    open spec fn view(&self) -> Option<ServerBody> {
        match self.message {
            Some(m) => Some(m@),
            None => None,
        }
    }
}

impl Default for EchoMessage {
    fn default() -> (r: EchoMessage)
        ensures
            r.content@ == Seq::<char>::empty(),
    {
        EchoMessage { content: String::new() }
    }
}

impl Default for AddRequest {
    fn default() -> (r: AddRequest)
        ensures
            r.a == 0 && r.b == 0,
    {
        AddRequest { a: 0, b: 0 }
    }
}

impl Default for AddResponse {
    fn default() -> (r: AddResponse)
        ensures
            r.result == 0,
    {
        AddResponse { result: 0 }
    }
}

impl Default for ClientMessage {
    fn default() -> (r: ClientMessage)
        ensures
            r.message is None,
    {
        ClientMessage { message: None }
    }
}

impl Default for ServerMessage {
    fn default() -> (r: ServerMessage)
        ensures
            r.message is None,
    {
        ServerMessage { message: None }
    }
}

/// An `int32` field of a proto3 message: left out when it holds zero.
pub open spec fn int32_opt_bytes(tag: u32, v: i32) -> Seq<u8> {
    if v == 0 {
        Seq::empty()
    } else {
        int32_field_bytes(tag, v)
    }
}

/// The body of an `EchoMessage`: the content field, left out when empty.
pub open spec fn echo_body_bytes(content: Seq<char>) -> Seq<u8> {
    if content.len() == 0 {
        Seq::empty()
    } else {
        string_field_bytes(1, content)
    }
}

/// The body of an `AddRequest`.
pub open spec fn add_request_body_bytes(a: i32, b: i32) -> Seq<u8> {
    int32_opt_bytes(1, a) + int32_opt_bytes(2, b)
}

/// The body of an `AddResponse`.
pub open spec fn add_response_body_bytes(result: i32) -> Seq<u8> {
    int32_opt_bytes(1, result)
}

/// The bytes of a `ClientMessage`: the chosen alternative as a nested
/// message in field 1 (echo) or 2 (add), or nothing at all.
pub open spec fn client_message_bytes(m: Option<ClientBody>) -> Seq<u8> {
    match m {
        None => Seq::empty(),
        Some(ClientBody::Echo { content }) => message_field_bytes(1, echo_body_bytes(content)),
        Some(ClientBody::Add { a, b }) => message_field_bytes(2, add_request_body_bytes(a, b)),
    }
}

/// The bytes of a `ServerMessage`.
pub open spec fn server_message_bytes(m: Option<ServerBody>) -> Seq<u8> {
    match m {
        None => Seq::empty(),
        Some(ServerBody::Echo { content }) => message_field_bytes(1, echo_body_bytes(content)),
        Some(ServerBody::Sum { result }) => message_field_bytes(2, add_response_body_bytes(result)),
    }
}

/// Appends a nested message field: key, length of `body`, `body`.
fn put_message_field(tag: u32, body: Vec<u8>, out: &mut Vec<u8>)
    requires
        1 <= tag <= MAX_TAG,
    ensures
        final(out)@ == old(out)@ + message_field_bytes(tag, body@),
{
    let mut body = body;
    let ghost b = body@;
    put_key(tag, WIRE_LEN, out);
    put_varint(body.len() as u64, out);
    out.append(&mut body);
    proof {
        assert(final(out)@ =~= old(out)@ + message_field_bytes(tag, b));
    }
}

/// Appends an `int32` field unless it holds zero.
fn put_int32_opt(tag: u32, v: i32, out: &mut Vec<u8>)
    requires
        1 <= tag <= MAX_TAG,
    ensures
        final(out)@ == old(out)@ + int32_opt_bytes(tag, v),
{
    if v != 0 {
        put_int32(tag, v, out);
    } else {
        assert(final(out)@ =~= old(out)@ + int32_opt_bytes(tag, v));
    }
}

impl EchoMessage {
    /// Appends the body of this message to `out`.
    pub fn encode_raw(&self, out: &mut Vec<u8>)
        ensures
            final(out)@ == old(out)@ + echo_body_bytes(self.content@),
    {
        if !self.content.as_str().is_empty() {
            put_string(1, &self.content, out);
        } else {
            assert(final(out)@ =~= old(out)@ + echo_body_bytes(self.content@));
        }
    }
}

impl AddRequest {
    /// Appends the body of this message to `out`.
    pub fn encode_raw(&self, out: &mut Vec<u8>)
        ensures
            final(out)@ == old(out)@ + add_request_body_bytes(self.a, self.b),
    {
        put_int32_opt(1, self.a, out);
        put_int32_opt(2, self.b, out);
        assert(final(out)@ =~= old(out)@ + add_request_body_bytes(self.a, self.b));
    }
}

impl AddResponse {
    /// Appends the body of this message to `out`.
    pub fn encode_raw(&self, out: &mut Vec<u8>)
        ensures
            final(out)@ == old(out)@ + add_response_body_bytes(self.result),
    {
        put_int32_opt(1, self.result, out);
    }
}

impl ClientMessage {
    /// The bytes of this message, as prost writes them.
    pub fn encode_to_vec(&self) -> (r: Vec<u8>)
        ensures
            r@ == client_message_bytes(self@),
            match self@ {
                None => r@.len() == 0,
                Some(ClientBody::Echo { content }) => r@ == standard::standard_echo(content),
                Some(ClientBody::Add { a, b }) => r@ == standard::standard_add_request(a, b),
            },
    {
        let mut out: Vec<u8> = Vec::new();
        match &self.message {
            None => {},
            Some(client_message::Message::EchoMessage(e)) => {
                let mut body: Vec<u8> = Vec::new();
                e.encode_raw(&mut body);
                put_message_field(1, body, &mut out);
            },
            Some(client_message::Message::AddRequest(r)) => {
                let mut body: Vec<u8> = Vec::new();
                r.encode_raw(&mut body);
                put_message_field(2, body, &mut out);
            },
        }
        assert(out@ =~= client_message_bytes(self@));
        proof {
            match self@ {
                None => {},
                Some(ClientBody::Echo { content }) => standard::law_echo_bytes(content),
                Some(ClientBody::Add { a, b }) => standard::law_add_request_bytes(a, b),
            }
        }
        out
    }
}

impl ServerMessage {
    /// The bytes of this message, as prost writes them.
    pub fn encode_to_vec(&self) -> (r: Vec<u8>)
        ensures
            r@ == server_message_bytes(self@),
            match self@ {
                None => r@.len() == 0,
                Some(ServerBody::Echo { content }) => r@ == standard::standard_echo(content),
                Some(ServerBody::Sum { result }) => r@ == standard::standard_add_response(result),
            },
    {
        let mut out: Vec<u8> = Vec::new();
        match &self.message {
            None => {},
            Some(server_message::Message::EchoMessage(e)) => {
                let mut body: Vec<u8> = Vec::new();
                e.encode_raw(&mut body);
                put_message_field(1, body, &mut out);
            },
            Some(server_message::Message::AddResponse(r)) => {
                let mut body: Vec<u8> = Vec::new();
                r.encode_raw(&mut body);
                put_message_field(2, body, &mut out);
            },
        }
        assert(out@ =~= server_message_bytes(self@));
        proof {
            match self@ {
                None => {},
                Some(ServerBody::Echo { content }) => standard::law_echo_bytes(content),
                Some(ServerBody::Sum { result }) => standard::law_add_response_bytes(result),
            }
        }
        out
    }
}

} // verus!
