//! The bytes of each message as the protobuf encoding fixes them, spelled
//! out key byte by key byte from the schema, and the laws that the writer
//! produces exactly these bytes and the reader accepts them:
//!
//! * `ClientMessage`: field 1 (key `0x0A`) holds an `EchoMessage`, field 2
//!   (key `0x12`) an `AddRequest`.
//! * `ServerMessage`: field 1 (key `0x0A`) holds an `EchoMessage`, field 2
//!   (key `0x12`) an `AddResponse`.
//! * `EchoMessage.content`: field 1, length-delimited (key `0x0A`).
//! * `AddRequest.a`: field 1, varint (key `0x08`); `AddRequest.b`: field 2,
//!   varint (key `0x10`); `AddResponse.result`: field 1, varint (key `0x08`).
//!
//! An `int32` is written as the varint of its value modulo 2^64 (negative
//! values sign-extended to 64 bits); a field holding zero or the empty text
//! is left out; a nested message is its key, its length, its body.
use vstd::prelude::*;
use vstd::utf8::encode_utf8;
use crate::wire::{
    int32_to_wire, key_bytes, varint_bytes, WIRE_LEN, WIRE_VARINT,
};
use crate::message::{
    add_request_body_bytes, add_response_body_bytes, client_message_bytes, echo_body_bytes,
    int32_opt_bytes, server_message_bytes, ClientBody, ServerBody,
};
use crate::message::parse::{
    lemma_client_message_roundtrip, lemma_server_message_roundtrip, parse_client_message,
    parse_server_message, text_fits,
};
use crate::server::{request_outcome, sum_fits, OutcomeView};

verus! {

/// A varint field with the one-byte key `key` holding the `int32` `v`:
/// nothing when `v` is zero, else the key and the varint of `v` mod 2^64.
pub open spec fn standard_int32(key: u8, v: i32) -> Seq<u8> {
    if v == 0 {
        Seq::empty()
    } else {
        seq![key] + varint_bytes(((v as int) % 0x1_0000_0000_0000_0000) as nat)
    }
}

/// A length-delimited text field with the one-byte key `key`: nothing when
/// the text is empty, else the key, the byte length, the UTF-8 bytes.
pub open spec fn standard_text(key: u8, text: Seq<char>) -> Seq<u8> {
    if text.len() == 0 {
        Seq::empty()
    } else {
        seq![key] + varint_bytes(encode_utf8(text).len()) + encode_utf8(text)
    }
}

/// A nested message field with the one-byte key `key`.
pub open spec fn standard_nested(key: u8, body: Seq<u8>) -> Seq<u8> {
    seq![key] + varint_bytes(body.len()) + body
}

/// The bytes of `ClientMessage { AddRequest { a, b } }`.
pub open spec fn standard_add_request(a: i32, b: i32) -> Seq<u8> {
    standard_nested(0x12, standard_int32(0x08, a) + standard_int32(0x10, b))
}

/// The bytes of `ServerMessage { AddResponse { result } }`.
pub open spec fn standard_add_response(result: i32) -> Seq<u8> {
    standard_nested(0x12, standard_int32(0x08, result))
}

/// The bytes of a `ClientMessage` or `ServerMessage` holding `EchoMessage { content }`.
pub open spec fn standard_echo(content: Seq<char>) -> Seq<u8> {
    standard_nested(0x0A, standard_text(0x0A, content))
}

/// An `int32` goes on the wire as its value modulo 2^64.
pub proof fn law_int32_wire_is_value_mod_2_64(v: i32)
    ensures
        int32_to_wire(v) as int == (v as int) % 0x1_0000_0000_0000_0000,
{
    if v < 0 {
        let m: int = 0x1_0000_0000_0000_0000;
        assert((v + m) % m == (v as int) % m) by (nonlinear_arith)
            requires
                m == 0x1_0000_0000_0000_0000,
                -0x8000_0000 <= v < 0,
        ;
    }
}

proof fn lemma_keys()
    ensures
        key_bytes(1, WIRE_VARINT) == seq![0x08u8],
        key_bytes(2, WIRE_VARINT) == seq![0x10u8],
        key_bytes(1, WIRE_LEN) == seq![0x0Au8],
        key_bytes(2, WIRE_LEN) == seq![0x12u8],
{
}

proof fn lemma_int32_field_standard(tag: u32, key: u8, v: i32)
    requires
        tag == 1 && key == 0x08 || tag == 2 && key == 0x10,
    ensures
        int32_opt_bytes(tag, v) == standard_int32(key, v),
{
    lemma_keys();
    law_int32_wire_is_value_mod_2_64(v);
    if v != 0 {
        assert(int32_opt_bytes(tag, v) =~= standard_int32(key, v));
    }
}

/// The client writes an add request as the protobuf encoding fixes it:
/// field 2 of the message, holding `a` in field 1 and `b` in field 2, each
/// sign-extended, each left out when zero.
pub proof fn law_add_request_bytes(a: i32, b: i32)
    ensures
        client_message_bytes(Some(ClientBody::Add { a, b })) == standard_add_request(a, b),
{
    lemma_keys();
    lemma_int32_field_standard(1, 0x08, a);
    lemma_int32_field_standard(2, 0x10, b);
    assert(add_request_body_bytes(a, b) =~= standard_int32(0x08, a) + standard_int32(0x10, b));
}

/// The server writes a sum as the protobuf encoding fixes it: field 2 of the
/// message, holding the sum in field 1, sign-extended, left out when zero.
pub proof fn law_add_response_bytes(result: i32)
    ensures
        server_message_bytes(Some(ServerBody::Sum { result })) == standard_add_response(result),
{
    lemma_keys();
    lemma_int32_field_standard(1, 0x08, result);
}

/// Both sides write an echo as the protobuf encoding fixes it: field 1 of
/// the message, holding the text in field 1, left out when empty.
pub proof fn law_echo_bytes(content: Seq<char>)
    ensures
        client_message_bytes(Some(ClientBody::Echo { content })) == standard_echo(content),
        server_message_bytes(Some(ServerBody::Echo { content })) == standard_echo(content),
{
    lemma_keys();
    assert(echo_body_bytes(content) =~= standard_text(0x0A, content));
}

/// The server reads the standard bytes of every add request as that request.
pub proof fn law_standard_add_request_decodes(a: i32, b: i32)
    ensures
        parse_client_message(standard_add_request(a, b)) == Some(Some(ClientBody::Add { a, b })),
{
    law_add_request_bytes(a, b);
    lemma_client_message_roundtrip(Some(ClientBody::Add { a, b }));
}

/// A client reads the standard bytes of every sum as that sum.
pub proof fn law_standard_add_response_decodes(result: i32)
    ensures
        parse_server_message(standard_add_response(result)) == Some(
            Some(ServerBody::Sum { result }),
        ),
{
    law_add_response_bytes(result);
    lemma_server_message_roundtrip(Some(ServerBody::Sum { result }));
}

/// Both sides read the standard bytes of every echo as that echo.
pub proof fn law_standard_echo_decodes(content: Seq<char>)
    requires
        text_fits(content),
    ensures
        parse_client_message(standard_echo(content)) == Some(
            Some(ClientBody::Echo { content }),
        ),
        parse_server_message(standard_echo(content)) == Some(
            Some(ServerBody::Echo { content }),
        ),
{
    law_echo_bytes(content);
    lemma_client_message_roundtrip(Some(ClientBody::Echo { content }));
    lemma_server_message_roundtrip(Some(ServerBody::Echo { content }));
}

/// A client that sends the standard bytes of `a + b` gets back the standard
/// bytes of the sum, whenever the sum is an `i32`.
pub proof fn law_add_answer_bytes(a: i32, b: i32)
    requires
        sum_fits(a, b),
    ensures
        request_outcome(standard_add_request(a, b)) == OutcomeView::Reply(
            standard_add_response((a + b) as i32),
        ),
{
    law_standard_add_request_decodes(a, b);
    law_add_response_bytes((a + b) as i32);
    crate::server::lemma_add_reply(standard_add_request(a, b), a, b);
}

} // verus!
