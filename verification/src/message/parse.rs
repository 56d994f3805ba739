//! Reading messages back from bytes, by the rules that prost message decoders follow:
//! fields are read key by key until the input ends; a field that appears
//! again replaces the earlier value (a nested message is merged into the
//! earlier one of the same kind); fields of unknown number are passed over;
//! any malformed field makes the whole message fail.  Decoding a nested
//! message takes one level of the recursion limit, so groups skipped inside
//! it may nest one level less than groups skipped at the top.
use vstd::prelude::*;
use vstd::utf8::{
    decode_utf8_encode_utf8, encode_utf8, encode_utf8_decode_utf8, encode_utf8_valid_utf8,
};
use crate::wire::{
    delimited, int32_field_bytes, int32_to_wire, int32_value_decode, key_bytes, key_decode,
    lemma_delimited_bounds, lemma_int32_roundtrip, lemma_key_decode_bounds, lemma_key_roundtrip,
    lemma_value_bounds, lemma_varint_len_monotone, lemma_varint_len_u64,
    lemma_varint_prefix_bounds, lemma_varint_prefix_canonical, lemma_varint_roundtrip,
    lemma_skip_bounds, lemma_skip_budget_monotone, message_field_bytes, nested_fields_skippable,
    recursion_limit, skip_consumed, skip_unknown, skippable_fields, string_value_decode,
    take_int32, take_key, take_string, take_varint, varint_bytes, WIRE_LEN, WIRE_VARINT,
};
use crate::message::standard::{
    law_standard_add_request_decodes, law_standard_add_response_decodes, law_standard_echo_decodes,
    standard_add_request, standard_add_response, standard_echo,
};
use crate::message::{
    add_request_body_bytes, add_response_body_bytes, client_message, client_message_bytes,
    echo_body_bytes, int32_opt_bytes, server_message, server_message_bytes, AddRequest,
    AddResponse, ClientBody, ClientMessage, EchoMessage, ServerBody, ServerMessage,
};

verus! {

/// The bytes could not be read as the expected message.
#[derive(Clone, Debug, PartialEq)]
pub struct DecodeError;

/// A nested message read after its key with wire type `wire`: its body and
/// the bytes taken in all.
pub open spec fn message_value_decode(wire: u8, s: Seq<u8>) -> Option<(Seq<u8>, nat)> {
    if wire != WIRE_LEN {
        None
    } else {
        delimited(s)
    }
}

/// Levels of nesting left to the fields of a message nested in a top-level
/// one: decoding the nested message takes one level.
pub open spec fn nested_budget() -> nat {
    (recursion_limit() - 1) as nat
}

/// The fields of an `EchoMessage` body `s`, read into a message whose
/// content so far is `content`; unknown fields are skipped with `budget`
/// levels of nesting left.
pub open spec fn echo_fields(s: Seq<u8>, content: Seq<char>, budget: nat) -> Option<Seq<char>>
    decreases s.len(),
{
    if s.len() == 0 {
        Some(content)
    } else {
        match key_decode(s) {
            None => None,
            Some((tag, wire, k)) => {
                let rest = s.skip(k as int);
                proof {
                    lemma_key_decode_bounds(s);
                    lemma_value_bounds(wire, rest);
                    lemma_skip_bounds(wire, tag, rest, budget);
                }
                if tag == 1 {
                    match string_value_decode(wire, rest) {
                        Some((text, n)) => echo_fields(rest.skip(n as int), text, budget),
                        None => None,
                    }
                } else {
                    match skip_consumed(wire, tag, rest, budget) {
                        Some(n) => echo_fields(rest.skip(n as int), content, budget),
                        None => None,
                    }
                }
            },
        }
    }
}

/// The fields of an `AddRequest` body `s`, read into `(a, b)`; unknown
/// fields are skipped with `budget` levels of nesting left.
pub open spec fn add_request_fields(s: Seq<u8>, a: i32, b: i32, budget: nat) -> Option<(i32, i32)>
    decreases s.len(),
{
    if s.len() == 0 {
        Some((a, b))
    } else {
        match key_decode(s) {
            None => None,
            Some((tag, wire, k)) => {
                let rest = s.skip(k as int);
                proof {
                    lemma_key_decode_bounds(s);
                    lemma_value_bounds(wire, rest);
                    lemma_skip_bounds(wire, tag, rest, budget);
                }
                if tag == 1 {
                    match int32_value_decode(wire, rest) {
                        Some((v, n)) => add_request_fields(rest.skip(n as int), v, b, budget),
                        None => None,
                    }
                } else if tag == 2 {
                    match int32_value_decode(wire, rest) {
                        Some((v, n)) => add_request_fields(rest.skip(n as int), a, v, budget),
                        None => None,
                    }
                } else {
                    match skip_consumed(wire, tag, rest, budget) {
                        Some(n) => add_request_fields(rest.skip(n as int), a, b, budget),
                        None => None,
                    }
                }
            },
        }
    }
}

/// The fields of an `AddResponse` body `s`, read into `result`; unknown
/// fields are skipped with `budget` levels of nesting left.
pub open spec fn add_response_fields(s: Seq<u8>, result: i32, budget: nat) -> Option<i32>
    decreases s.len(),
{
    if s.len() == 0 {
        Some(result)
    } else {
        match key_decode(s) {
            None => None,
            Some((tag, wire, k)) => {
                let rest = s.skip(k as int);
                proof {
                    lemma_key_decode_bounds(s);
                    lemma_value_bounds(wire, rest);
                    lemma_skip_bounds(wire, tag, rest, budget);
                }
                if tag == 1 {
                    match int32_value_decode(wire, rest) {
                        Some((v, n)) => add_response_fields(rest.skip(n as int), v, budget),
                        None => None,
                    }
                } else {
                    match skip_consumed(wire, tag, rest, budget) {
                        Some(n) => add_response_fields(rest.skip(n as int), result, budget),
                        None => None,
                    }
                }
            },
        }
    }
}

/// Field 1 (echo) or 2 (add) of a `ClientMessage`, read after its key with
/// wire type `wire`: a nested message, merged into the alternative read so
/// far when it is the same one, else read from its defaults.  Gives the
/// message so far and the bytes taken.
pub open spec fn client_nested(tag: u32, wire: u8, s: Seq<u8>, cur: Option<ClientBody>) -> Option<
    (Option<ClientBody>, nat),
> {
    match message_value_decode(wire, s) {
        None => None,
        Some((body, c)) => if tag == 1 {
            let base = match cur {
                Some(ClientBody::Echo { content }) => content,
                _ => Seq::empty(),
            };
            match echo_fields(body, base, nested_budget()) {
                Some(content) => Some((Some(ClientBody::Echo { content }), c)),
                None => None,
            }
        } else {
            let (a0, b0) = match cur {
                Some(ClientBody::Add { a, b }) => (a, b),
                _ => (0i32, 0i32),
            };
            match add_request_fields(body, a0, b0, nested_budget()) {
                Some((a, b)) => Some((Some(ClientBody::Add { a, b }), c)),
                None => None,
            }
        },
    }
}

/// Field 1 (echo) or 2 (sum) of a `ServerMessage`, read after its key with
/// wire type `wire`, as for `client_nested`.
pub open spec fn server_nested(tag: u32, wire: u8, s: Seq<u8>, cur: Option<ServerBody>) -> Option<
    (Option<ServerBody>, nat),
> {
    match message_value_decode(wire, s) {
        None => None,
        Some((body, c)) => if tag == 1 {
            let base = match cur {
                Some(ServerBody::Echo { content }) => content,
                _ => Seq::empty(),
            };
            match echo_fields(body, base, nested_budget()) {
                Some(content) => Some((Some(ServerBody::Echo { content }), c)),
                None => None,
            }
        } else {
            let r0 = match cur {
                Some(ServerBody::Sum { result }) => result,
                _ => 0i32,
            };
            match add_response_fields(body, r0, nested_budget()) {
                Some(result) => Some((Some(ServerBody::Sum { result }), c)),
                None => None,
            }
        },
    }
}

/// The fields of a `ClientMessage` in `s`, read into what was read so far.
pub open spec fn client_fields(s: Seq<u8>, cur: Option<ClientBody>) -> Option<Option<ClientBody>>
    decreases s.len(),
{
    if s.len() == 0 {
        Some(cur)
    } else {
        match key_decode(s) {
            None => None,
            Some((tag, wire, k)) => {
                let rest = s.skip(k as int);
                proof {
                    lemma_key_decode_bounds(s);
                    lemma_skip_bounds(wire, tag, rest, recursion_limit());
                    lemma_delimited_bounds(rest);
                }
                if tag == 1 || tag == 2 {
                    match client_nested(tag, wire, rest, cur) {
                        Some((next, c)) => client_fields(rest.skip(c as int), next),
                        None => None,
                    }
                } else {
                    match skip_consumed(wire, tag, rest, recursion_limit()) {
                        Some(n) => client_fields(rest.skip(n as int), cur),
                        None => None,
                    }
                }
            },
        }
    }
}

/// The fields of a `ServerMessage` in `s`, read into what was read so far.
pub open spec fn server_fields(s: Seq<u8>, cur: Option<ServerBody>) -> Option<Option<ServerBody>>
    decreases s.len(),
{
    if s.len() == 0 {
        Some(cur)
    } else {
        match key_decode(s) {
            None => None,
            Some((tag, wire, k)) => {
                let rest = s.skip(k as int);
                proof {
                    lemma_key_decode_bounds(s);
                    lemma_skip_bounds(wire, tag, rest, recursion_limit());
                    lemma_delimited_bounds(rest);
                }
                if tag == 1 || tag == 2 {
                    match server_nested(tag, wire, rest, cur) {
                        Some((next, c)) => server_fields(rest.skip(c as int), next),
                        None => None,
                    }
                } else {
                    match skip_consumed(wire, tag, rest, recursion_limit()) {
                        Some(n) => server_fields(rest.skip(n as int), cur),
                        None => None,
                    }
                }
            },
        }
    }
}

/// A `ClientMessage` read from the whole of `s`, starting from the empty message.
pub open spec fn parse_client_message(s: Seq<u8>) -> Option<Option<ClientBody>> {
    client_fields(s, None)
}

/// A `ServerMessage` read from the whole of `s`, starting from the empty message.
pub open spec fn parse_server_message(s: Seq<u8>) -> Option<Option<ServerBody>> {
    server_fields(s, None)
}

/// Reads the body of a nested message whose key (wire type `wire`) has just
/// been read: gives where the body starts and ends within `input`.
fn take_message_body(wire: u8, input: &[u8]) -> (r: Option<(usize, usize)>)
    ensures
        match message_value_decode(wire, input@) {
            Some((body, c)) => r matches Some((start, end)) && start <= end == c <= input@.len()
                && input@.subrange(start as int, end as int) == body,
            None => r is None,
        },
{
    proof {
        lemma_delimited_bounds(input@);
        lemma_varint_prefix_bounds(input@, 10);
    }
    if wire != WIRE_LEN {
        return None;
    }
    match take_varint(input) {
        None => None,
        Some((len, left)) => {
            let start = input.len() - left;
            if len <= left as u64 {
                let end = start + len as usize;
                assert(input@.subrange(start as int, end as int) =~= delimited(input@)->Some_0.0);
                Some((start, end))
            } else {
                None
            }
        },
    }
}

/// Reads the fields of an `EchoMessage` body into `content`.
fn merge_echo(input: &[u8], content: String) -> (r: Option<String>)
    ensures
        match echo_fields(input@, content@, recursion_limit()) {
            Some(c) => r matches Some(s) && s@ == c,
            None => r is None,
        },
{
    let mut current = content;
    let mut pos: usize = 0;
    assert(input@.skip(0) =~= input@);
    while pos < input.len()
        invariant
            pos <= input.len(),
            echo_fields(input@, content@, recursion_limit()) == echo_fields(input@.skip(pos as int), current@, recursion_limit()),
        decreases input.len() - pos,
    {
        let ghost s = input@.skip(pos as int);
        let rest = &input[pos..input.len()];
        assert(rest@ =~= s);
        let (tag, wire, left) = match take_key(rest) {
            Some(k) => k,
            None => return None,
        };
        proof {
            lemma_key_decode_bounds(s);
        }
        let at = input.len() - left;
        let value = &input[at..input.len()];
        let ghost k = key_decode(s)->Some_0.2;
        assert(value@ =~= s.skip(k as int));
        proof {
            lemma_value_bounds(wire, value@);
            lemma_skip_bounds(wire, tag, value@, recursion_limit());
        }
        if tag == 1 {
            let (text, left2) = match take_string(wire, value) {
                Some(x) => x,
                None => return None,
            };
            let ghost n = string_value_decode(wire, value@)->Some_0.1;
            current = text;
            pos = input.len() - left2;
            assert(input@.skip(pos as int) =~= value@.skip(n as int));
        } else {
            let left2 = match skip_unknown(wire, tag, value) {
                Some(x) => x,
                None => return None,
            };
            let ghost n = skip_consumed(wire, tag, value@, recursion_limit())->Some_0;
            pos = input.len() - left2;
            assert(input@.skip(pos as int) =~= value@.skip(n as int));
        }
    }
    assert(input@.skip(pos as int) =~= Seq::<u8>::empty());
    Some(current)
}

/// Reads the fields of an `AddRequest` body into `(a, b)`.
fn merge_add_request(input: &[u8], a: i32, b: i32) -> (r: Option<(i32, i32)>)
    ensures
        r == add_request_fields(input@, a, b, recursion_limit()),
{
    let mut cur_a = a;
    let mut cur_b = b;
    let mut pos: usize = 0;
    assert(input@.skip(0) =~= input@);
    while pos < input.len()
        invariant
            pos <= input.len(),
            add_request_fields(input@, a, b, recursion_limit()) == add_request_fields(
                input@.skip(pos as int),
                cur_a,
                cur_b,
                recursion_limit(),
            ),
        decreases input.len() - pos,
    {
        let ghost s = input@.skip(pos as int);
        let rest = &input[pos..input.len()];
        assert(rest@ =~= s);
        let (tag, wire, left) = match take_key(rest) {
            Some(k) => k,
            None => return None,
        };
        proof {
            lemma_key_decode_bounds(s);
        }
        let at = input.len() - left;
        let value = &input[at..input.len()];
        let ghost k = key_decode(s)->Some_0.2;
        assert(value@ =~= s.skip(k as int));
        proof {
            lemma_value_bounds(wire, value@);
            lemma_skip_bounds(wire, tag, value@, recursion_limit());
        }
        if tag == 1 || tag == 2 {
            let (v, left2) = match take_int32(wire, value) {
                Some(x) => x,
                None => return None,
            };
            let ghost n = int32_value_decode(wire, value@)->Some_0.1;
            if tag == 1 {
                cur_a = v;
            } else {
                cur_b = v;
            }
            pos = input.len() - left2;
            assert(input@.skip(pos as int) =~= value@.skip(n as int));
        } else {
            let left2 = match skip_unknown(wire, tag, value) {
                Some(x) => x,
                None => return None,
            };
            let ghost n = skip_consumed(wire, tag, value@, recursion_limit())->Some_0;
            pos = input.len() - left2;
            assert(input@.skip(pos as int) =~= value@.skip(n as int));
        }
    }
    assert(input@.skip(pos as int) =~= Seq::<u8>::empty());
    Some((cur_a, cur_b))
}

/// Reads the fields of an `AddResponse` body into `result`.
fn merge_add_response(input: &[u8], result: i32) -> (r: Option<i32>)
    ensures
        r == add_response_fields(input@, result, recursion_limit()),
{
    let mut current = result;
    let mut pos: usize = 0;
    assert(input@.skip(0) =~= input@);
    while pos < input.len()
        invariant
            pos <= input.len(),
            add_response_fields(input@, result, recursion_limit()) == add_response_fields(
                input@.skip(pos as int),
                current,
                recursion_limit(),
            ),
        decreases input.len() - pos,
    {
        let ghost s = input@.skip(pos as int);
        let rest = &input[pos..input.len()];
        assert(rest@ =~= s);
        let (tag, wire, left) = match take_key(rest) {
            Some(k) => k,
            None => return None,
        };
        proof {
            lemma_key_decode_bounds(s);
        }
        let at = input.len() - left;
        let value = &input[at..input.len()];
        let ghost k = key_decode(s)->Some_0.2;
        assert(value@ =~= s.skip(k as int));
        proof {
            lemma_value_bounds(wire, value@);
            lemma_skip_bounds(wire, tag, value@, recursion_limit());
        }
        if tag == 1 {
            let (v, left2) = match take_int32(wire, value) {
                Some(x) => x,
                None => return None,
            };
            let ghost n = int32_value_decode(wire, value@)->Some_0.1;
            current = v;
            pos = input.len() - left2;
            assert(input@.skip(pos as int) =~= value@.skip(n as int));
        } else {
            let left2 = match skip_unknown(wire, tag, value) {
                Some(x) => x,
                None => return None,
            };
            let ghost n = skip_consumed(wire, tag, value@, recursion_limit())->Some_0;
            pos = input.len() - left2;
            assert(input@.skip(pos as int) =~= value@.skip(n as int));
        }
    }
    assert(input@.skip(pos as int) =~= Seq::<u8>::empty());
    Some(current)
}

/// Reads field 1 or 2 of a `ClientMessage` whose key (wire type `wire`) has
/// just been read, merging it into `current`; gives the message so far and
/// where the field ends within `value`.
fn merge_client_nested(tag: u32, wire: u8, value: &[u8], current: ClientMessage) -> (r: Option<
    (ClientMessage, usize),
>)
    requires
        tag == 1 || tag == 2,
        wire <= 5,
    ensures
        match client_nested(tag, wire, value@, current@) {
            Some((m, c)) => r matches Some((msg, end)) && msg@ == m && end == c,
            None => r is None,
        },
{
    let (start, end) = match take_message_body(wire, value) {
        Some(x) => x,
        None => return None,
    };
    let body = &value[start..end];
    let skippable = nested_fields_skippable(wire, value);
    if tag == 1 {
        let base = match current.message {
            Some(client_message::Message::EchoMessage(e)) => e.content,
            _ => String::new(),
        };
        proof {
            lemma_echo_fields_budget(body@, base@);
        }
        if !skippable {
            return None;
        }
        let content = match merge_echo(body, base) {
            Some(x) => x,
            None => return None,
        };
        Some(
            (
                ClientMessage {
                    message: Some(client_message::Message::EchoMessage(EchoMessage { content })),
                },
                end,
            ),
        )
    } else {
        let (a0, b0) = match current.message {
            Some(client_message::Message::AddRequest(r)) => (r.a, r.b),
            _ => (0i32, 0i32),
        };
        proof {
            lemma_add_request_fields_budget(body@, a0, b0);
        }
        if !skippable {
            return None;
        }
        let (a, b) = match merge_add_request(body, a0, b0) {
            Some(x) => x,
            None => return None,
        };
        Some(
            (
                ClientMessage {
                    message: Some(client_message::Message::AddRequest(AddRequest { a, b })),
                },
                end,
            ),
        )
    }
}

/// Reads field 1 or 2 of a `ServerMessage` whose key (wire type `wire`) has
/// just been read, merging it into `current`; gives the message so far and
/// where the field ends within `value`.
fn merge_server_nested(tag: u32, wire: u8, value: &[u8], current: ServerMessage) -> (r: Option<
    (ServerMessage, usize),
>)
    requires
        tag == 1 || tag == 2,
        wire <= 5,
    ensures
        match server_nested(tag, wire, value@, current@) {
            Some((m, c)) => r matches Some((msg, end)) && msg@ == m && end == c,
            None => r is None,
        },
{
    let (start, end) = match take_message_body(wire, value) {
        Some(x) => x,
        None => return None,
    };
    let body = &value[start..end];
    let skippable = nested_fields_skippable(wire, value);
    if tag == 1 {
        let base = match current.message {
            Some(server_message::Message::EchoMessage(e)) => e.content,
            _ => String::new(),
        };
        proof {
            lemma_echo_fields_budget(body@, base@);
        }
        if !skippable {
            return None;
        }
        let content = match merge_echo(body, base) {
            Some(x) => x,
            None => return None,
        };
        Some(
            (
                ServerMessage {
                    message: Some(server_message::Message::EchoMessage(EchoMessage { content })),
                },
                end,
            ),
        )
    } else {
        let r0 = match current.message {
            Some(server_message::Message::AddResponse(r)) => r.result,
            _ => 0i32,
        };
        proof {
            lemma_add_response_fields_budget(body@, r0);
        }
        if !skippable {
            return None;
        }
        let result = match merge_add_response(body, r0) {
            Some(x) => x,
            None => return None,
        };
        Some(
            (
                ServerMessage {
                    message: Some(server_message::Message::AddResponse(AddResponse { result })),
                },
                end,
            ),
        )
    }
}

impl ClientMessage {
    /// Reads a `ClientMessage` from the whole of `buf`.  Fails exactly where
    /// the bytes are not a well-formed encoding of one.
    pub fn decode(buf: &[u8]) -> (r: Result<ClientMessage, DecodeError>)
        ensures
            match parse_client_message(buf@) {
                Some(m) => r matches Ok(msg) && msg@ == m,
                None => r is Err,
            },
            forall|a: i32, b: i32|
                buf@ == #[trigger] standard_add_request(a, b) ==> (r matches Ok(msg) && msg@ == Some(
                    ClientBody::Add { a, b },
                )),
            forall|content: Seq<char>|
                text_fits(content) && buf@ == #[trigger] standard_echo(content) ==> (r matches Ok(
                    msg,
                ) && msg@ == Some(ClientBody::Echo { content })),
    {
        let r = Self::decode_fields(buf);
        proof {
            assert forall|a: i32, b: i32| buf@ == #[trigger] standard_add_request(a, b) implies (
            r matches Ok(msg) && msg@ == Some(ClientBody::Add { a, b })) by {
                law_standard_add_request_decodes(a, b);
            }
            assert forall|content: Seq<char>|
                text_fits(content) && buf@ == #[trigger] standard_echo(content) implies (r matches Ok(
                msg,
            ) && msg@ == Some(ClientBody::Echo { content })) by {
                law_standard_echo_decodes(content);
            }
        }
        r
    }

    /// Reads the fields of the whole of `buf`.
    fn decode_fields(buf: &[u8]) -> (r: Result<ClientMessage, DecodeError>)
        ensures
            match parse_client_message(buf@) {
                Some(m) => r matches Ok(msg) && msg@ == m,
                None => r is Err,
            },
    {
        let mut current = ClientMessage { message: None };
        let mut pos: usize = 0;
        assert(buf@.skip(0) =~= buf@);
        while pos < buf.len()
            invariant
                pos <= buf.len(),
                parse_client_message(buf@) == client_fields(buf@.skip(pos as int), current@),
            decreases buf.len() - pos,
        {
            let ghost s = buf@.skip(pos as int);
            let rest = &buf[pos..buf.len()];
            assert(rest@ =~= s);
            let (tag, wire, left) = match take_key(rest) {
                Some(k) => k,
                None => return Err(DecodeError),
            };
            proof {
                lemma_key_decode_bounds(s);
            }
            let at = buf.len() - left;
            let value = &buf[at..buf.len()];
            let ghost k = key_decode(s)->Some_0.2;
            assert(value@ =~= s.skip(k as int));
            proof {
                lemma_value_bounds(wire, value@);
                lemma_skip_bounds(wire, tag, value@, recursion_limit());
            }
            if tag == 1 || tag == 2 {
                let (next, end) = match merge_client_nested(tag, wire, value, current) {
                    Some(x) => x,
                    None => return Err(DecodeError),
                };
                proof {
                    lemma_delimited_bounds(value@);
                }
                current = next;
                pos = at + end;
                assert(buf@.skip(pos as int) =~= value@.skip(end as int));
            } else {
                let left2 = match skip_unknown(wire, tag, value) {
                    Some(x) => x,
                    None => return Err(DecodeError),
                };
                let ghost n = skip_consumed(wire, tag, value@, recursion_limit())->Some_0;
                pos = buf.len() - left2;
                assert(buf@.skip(pos as int) =~= value@.skip(n as int));
            }
        }
        assert(buf@.skip(pos as int) =~= Seq::<u8>::empty());
        Ok(current)
    }
}

impl ServerMessage {
    /// Reads a `ServerMessage` from the whole of `buf`.  Fails exactly where
    /// the bytes are not a well-formed encoding of one.
    pub fn decode(buf: &[u8]) -> (r: Result<ServerMessage, DecodeError>)
        ensures
            match parse_server_message(buf@) {
                Some(m) => r matches Ok(msg) && msg@ == m,
                None => r is Err,
            },
            forall|result: i32|
                buf@ == #[trigger] standard_add_response(result) ==> (r matches Ok(msg) && msg@
                    == Some(ServerBody::Sum { result })),
            forall|content: Seq<char>|
                text_fits(content) && buf@ == #[trigger] standard_echo(content) ==> (r matches Ok(
                    msg,
                ) && msg@ == Some(ServerBody::Echo { content })),
    {
        let r = Self::decode_fields(buf);
        proof {
            assert forall|result: i32| buf@ == #[trigger] standard_add_response(result) implies (
            r matches Ok(msg) && msg@ == Some(ServerBody::Sum { result })) by {
                law_standard_add_response_decodes(result);
            }
            assert forall|content: Seq<char>|
                text_fits(content) && buf@ == #[trigger] standard_echo(content) implies (r matches Ok(
                msg,
            ) && msg@ == Some(ServerBody::Echo { content })) by {
                law_standard_echo_decodes(content);
            }
        }
        r
    }

    /// Reads the fields of the whole of `buf`.
    fn decode_fields(buf: &[u8]) -> (r: Result<ServerMessage, DecodeError>)
        ensures
            match parse_server_message(buf@) {
                Some(m) => r matches Ok(msg) && msg@ == m,
                None => r is Err,
            },
    {
        let mut current = ServerMessage { message: None };
        let mut pos: usize = 0;
        assert(buf@.skip(0) =~= buf@);
        while pos < buf.len()
            invariant
                pos <= buf.len(),
                parse_server_message(buf@) == server_fields(buf@.skip(pos as int), current@),
            decreases buf.len() - pos,
        {
            let ghost s = buf@.skip(pos as int);
            let rest = &buf[pos..buf.len()];
            assert(rest@ =~= s);
            let (tag, wire, left) = match take_key(rest) {
                Some(k) => k,
                None => return Err(DecodeError),
            };
            proof {
                lemma_key_decode_bounds(s);
            }
            let at = buf.len() - left;
            let value = &buf[at..buf.len()];
            let ghost k = key_decode(s)->Some_0.2;
            assert(value@ =~= s.skip(k as int));
            proof {
                lemma_value_bounds(wire, value@);
                lemma_skip_bounds(wire, tag, value@, recursion_limit());
            }
            if tag == 1 || tag == 2 {
                let (next, end) = match merge_server_nested(tag, wire, value, current) {
                    Some(x) => x,
                    None => return Err(DecodeError),
                };
                proof {
                    lemma_delimited_bounds(value@);
                }
                current = next;
                pos = at + end;
                assert(buf@.skip(pos as int) =~= value@.skip(end as int));
            } else {
                let left2 = match skip_unknown(wire, tag, value) {
                    Some(x) => x,
                    None => return Err(DecodeError),
                };
                let ghost n = skip_consumed(wire, tag, value@, recursion_limit())->Some_0;
                pos = buf.len() - left2;
                assert(buf@.skip(pos as int) =~= value@.skip(n as int));
            }
        }
        assert(buf@.skip(pos as int) =~= Seq::<u8>::empty());
        Ok(current)
    }
}

/// A string field read after its key is passed over by `skip_field` taking
/// the same bytes.
proof fn lemma_string_value_skips(wire: u8, tag: u32, s: Seq<u8>, budget: nat)
    requires
        budget > 0,
    ensures
        string_value_decode(wire, s) matches Some((_, n)) ==> skip_consumed(wire, tag, s, budget)
            == Some(n),
{
}

/// An `int32` field read after its key is passed over by `skip_field` taking
/// the same bytes.
proof fn lemma_int32_value_skips(wire: u8, tag: u32, s: Seq<u8>, budget: nat)
    requires
        budget > 0,
    ensures
        int32_value_decode(wire, s) matches Some((_, n)) ==> skip_consumed(wire, tag, s, budget)
            == Some(n),
{
}

/// Reading an `EchoMessage` body one level down is reading it at the top
/// level, where every field of the body can also be passed over one level
/// down.
pub proof fn lemma_echo_fields_budget(s: Seq<u8>, content: Seq<char>)
    ensures
        echo_fields(s, content, nested_budget()) == if skippable_fields(s, nested_budget()) {
            echo_fields(s, content, recursion_limit())
        } else {
            None
        },
    decreases s.len(),
{
    if s.len() > 0 {
        lemma_key_decode_bounds(s);
        if let Some((tag, wire, k)) = key_decode(s) {
            let rest = s.skip(k as int);
            lemma_value_bounds(wire, rest);
            lemma_skip_bounds(wire, tag, rest, nested_budget());
            lemma_string_value_skips(wire, tag, rest, nested_budget());
            if let Some(n) = skip_consumed(wire, tag, rest, nested_budget()) {
                lemma_skip_budget_monotone(wire, tag, rest, nested_budget(), recursion_limit());
                if tag == 1 {
                    if let Some((text, n2)) = string_value_decode(wire, rest) {
                        lemma_echo_fields_budget(rest.skip(n as int), text);
                    }
                } else {
                    lemma_echo_fields_budget(rest.skip(n as int), content);
                }
            } else if tag == 1 {
                assert(string_value_decode(wire, rest) is None) by {
                    lemma_delimited_bounds(rest);
                }
            }
        }
    }
}

/// Reading an `AddRequest` body one level down is reading it at the top
/// level, where every field of the body can also be passed over one level
/// down.
pub proof fn lemma_add_request_fields_budget(s: Seq<u8>, a: i32, b: i32)
    ensures
        add_request_fields(s, a, b, nested_budget()) == if skippable_fields(s, nested_budget()) {
            add_request_fields(s, a, b, recursion_limit())
        } else {
            None
        },
    decreases s.len(),
{
    if s.len() > 0 {
        lemma_key_decode_bounds(s);
        if let Some((tag, wire, k)) = key_decode(s) {
            let rest = s.skip(k as int);
            lemma_value_bounds(wire, rest);
            lemma_skip_bounds(wire, tag, rest, nested_budget());
            lemma_int32_value_skips(wire, tag, rest, nested_budget());
            if let Some(n) = skip_consumed(wire, tag, rest, nested_budget()) {
                lemma_skip_budget_monotone(wire, tag, rest, nested_budget(), recursion_limit());
                if tag == 1 || tag == 2 {
                    if let Some((v, n2)) = int32_value_decode(wire, rest) {
                        if tag == 1 {
                            lemma_add_request_fields_budget(rest.skip(n as int), v, b);
                        } else {
                            lemma_add_request_fields_budget(rest.skip(n as int), a, v);
                        }
                    }
                } else {
                    lemma_add_request_fields_budget(rest.skip(n as int), a, b);
                }
            }
        }
    }
}

/// Reading an `AddResponse` body one level down is reading it at the top
/// level, where every field of the body can also be passed over one level
/// down.
pub proof fn lemma_add_response_fields_budget(s: Seq<u8>, result: i32)
    ensures
        add_response_fields(s, result, nested_budget()) == if skippable_fields(
            s,
            nested_budget(),
        ) {
            add_response_fields(s, result, recursion_limit())
        } else {
            None
        },
    decreases s.len(),
{
    if s.len() > 0 {
        lemma_key_decode_bounds(s);
        if let Some((tag, wire, k)) = key_decode(s) {
            let rest = s.skip(k as int);
            lemma_value_bounds(wire, rest);
            lemma_skip_bounds(wire, tag, rest, nested_budget());
            lemma_int32_value_skips(wire, tag, rest, nested_budget());
            if let Some(n) = skip_consumed(wire, tag, rest, nested_budget()) {
                lemma_skip_budget_monotone(wire, tag, rest, nested_budget(), recursion_limit());
                if tag == 1 {
                    if let Some((v, n2)) = int32_value_decode(wire, rest) {
                        lemma_add_response_fields_budget(rest.skip(n as int), v);
                    }
                } else {
                    lemma_add_response_fields_budget(rest.skip(n as int), result);
                }
            }
        }
    }
}

/// A text whose UTF-8 bytes, with a key and a length in front, still have a
/// length that a varint can carry.
pub open spec fn text_fits(content: Seq<char>) -> bool {
    encode_utf8(content).len() + 32 < 0x1_0000_0000_0000_0000
}

/// Every text in a client message fits (see `text_fits`).
pub open spec fn client_body_fits(m: Option<ClientBody>) -> bool {
    match m {
        Some(ClientBody::Echo { content }) => text_fits(content),
        _ => true,
    }
}

/// Every text in a server message fits (see `text_fits`).
pub open spec fn server_body_fits(m: Option<ServerBody>) -> bool {
    match m {
        Some(ServerBody::Echo { content }) => text_fits(content),
        _ => true,
    }
}

/// Reading a length-delimited payload back from what was written.
proof fn lemma_delimited_roundtrip(payload: Seq<u8>, rest: Seq<u8>)
    requires
        payload.len() < 0x1_0000_0000_0000_0000,
    ensures
        delimited(varint_bytes(payload.len()) + payload + rest) == Some(
            (payload, varint_bytes(payload.len()).len() + payload.len()),
        ),
{
    let l = payload.len() as u64;
    let s = varint_bytes(payload.len()) + payload + rest;
    assert(s =~= varint_bytes(l as nat) + (payload + rest));
    lemma_varint_roundtrip(l, payload + rest);
    let n = varint_bytes(l as nat).len();
    assert(s.subrange(n as int, n + l) =~= payload);
}

/// The body of an `EchoMessage` reads back as its content.
proof fn lemma_echo_body_roundtrip(content: Seq<char>, budget: nat)
    requires
        text_fits(content),
    ensures
        echo_fields(echo_body_bytes(content), Seq::empty(), budget) == Some(content),
        echo_body_bytes(content).len() + 16 < 0x1_0000_0000_0000_0000,
{
    broadcast use encode_utf8_valid_utf8, encode_utf8_decode_utf8;

    let body = echo_body_bytes(content);
    if content.len() == 0 {
        assert(body.len() == 0);
    } else {
        let text = encode_utf8(content);
        let rest0 = varint_bytes(text.len()) + text;
        assert(body =~= key_bytes(1, WIRE_LEN) + rest0);
        lemma_key_roundtrip(1, WIRE_LEN, rest0);
        let k = key_bytes(1, WIRE_LEN).len();
        assert(body.skip(k as int) =~= rest0);
        lemma_delimited_roundtrip(text, Seq::empty());
        assert(rest0 + Seq::<u8>::empty() =~= rest0);
        lemma_varint_len_u64(text.len() as u64);
        let n = varint_bytes(text.len()).len() + text.len();
        assert(string_value_decode(WIRE_LEN, rest0) == Some((content, n)));
        assert(rest0.skip(n as int) =~= Seq::<u8>::empty());
        assert(echo_fields(Seq::<u8>::empty(), content, budget) == Some(content));
        lemma_varint_len_u64(10);
    }
}

/// An `int32` field after its key: the value reads back.
proof fn lemma_int32_field_roundtrip(tag: u32, v: i32, rest: Seq<u8>)
    requires
        1 <= tag <= 2,
    ensures
        key_decode(int32_field_bytes(tag, v) + rest) == Some(
            (tag, WIRE_VARINT, key_bytes(tag, WIRE_VARINT).len()),
        ),
        int32_value_decode(
            WIRE_VARINT,
            (int32_field_bytes(tag, v) + rest).skip(key_bytes(tag, WIRE_VARINT).len() as int),
        ) == Some((v, varint_bytes(int32_to_wire(v) as nat).len())),
        (int32_field_bytes(tag, v) + rest).skip(key_bytes(tag, WIRE_VARINT).len() as int).skip(
            varint_bytes(int32_to_wire(v) as nat).len() as int,
        ) == rest,
{
    let kb = key_bytes(tag, WIRE_VARINT);
    let vb = varint_bytes(int32_to_wire(v) as nat);
    let s = int32_field_bytes(tag, v) + rest;
    assert(s =~= kb + (vb + rest));
    lemma_key_roundtrip(tag, WIRE_VARINT, vb + rest);
    assert(s.skip(kb.len() as int) =~= vb + rest);
    lemma_varint_roundtrip(int32_to_wire(v), rest);
    lemma_int32_roundtrip(v);
    assert(s.skip(kb.len() as int).skip(vb.len() as int) =~= rest);
}

/// The body of an `AddRequest` reads back as its two numbers.
proof fn lemma_add_request_body_roundtrip(a: i32, b: i32, budget: nat)
    ensures
        add_request_fields(add_request_body_bytes(a, b), 0, 0, budget) == Some((a, b)),
        add_request_body_bytes(a, b).len() <= 30,
{
    let tail = int32_opt_bytes(2, b);
    assert(add_request_fields(Seq::<u8>::empty(), a, b, budget) == Some((a, b)));
    lemma_varint_len_u64(int32_to_wire(a));
    lemma_varint_len_u64(int32_to_wire(b));
    lemma_varint_len_u64(8);
    lemma_varint_len_u64(16);
    if b != 0 {
        lemma_int32_field_roundtrip(2, b, Seq::empty());
        assert(tail + Seq::<u8>::empty() =~= tail);
        assert(add_request_fields(tail, a, 0, budget) == Some((a, b)));
    } else {
        assert(tail =~= Seq::<u8>::empty());
    }
    assert(add_request_fields(tail, a, 0, budget) == Some((a, b)));
    if a != 0 {
        lemma_int32_field_roundtrip(1, a, tail);
        assert(add_request_body_bytes(a, b) =~= int32_field_bytes(1, a) + tail);
    } else {
        assert(add_request_body_bytes(a, b) =~= tail);
    }
}

/// The body of an `AddResponse` reads back as its number.
pub proof fn lemma_add_response_body_roundtrip(result: i32, budget: nat)
    ensures
        add_response_fields(add_response_body_bytes(result), 0, budget) == Some(result),
        add_response_body_bytes(result).len() <= 15,
{
    lemma_varint_len_u64(int32_to_wire(result));
    lemma_varint_len_u64(8);
    assert(add_response_fields(Seq::<u8>::empty(), result, budget) == Some(result));
    if result != 0 {
        lemma_int32_field_roundtrip(1, result, Seq::empty());
        assert(add_response_body_bytes(result) =~= int32_field_bytes(1, result)
            + Seq::<u8>::empty());
    }
}

/// A nested message field, read as the top-level reader reads it: key, then
/// the body, then whatever follows.
proof fn lemma_message_field_roundtrip(tag: u32, body: Seq<u8>)
    requires
        1 <= tag <= 2,
        body.len() < 0x1_0000_0000_0000_0000,
    ensures
        ({
            let s = message_field_bytes(tag, body);
            let k = key_bytes(tag, WIRE_LEN).len();
            &&& key_decode(s) == Some((tag, WIRE_LEN, k))
            &&& message_value_decode(WIRE_LEN, s.skip(k as int)) == Some(
                (body, (s.len() - k) as nat),
            )
            &&& s.skip(k as int).skip(s.len() - k) == Seq::<u8>::empty()
        }),
{
    let s = message_field_bytes(tag, body);
    let rest0 = varint_bytes(body.len()) + body;
    assert(s =~= key_bytes(tag, WIRE_LEN) + rest0);
    lemma_key_roundtrip(tag, WIRE_LEN, rest0);
    let k = key_bytes(tag, WIRE_LEN).len();
    assert(s.skip(k as int) =~= rest0);
    lemma_delimited_roundtrip(body, Seq::empty());
    assert(rest0 + Seq::<u8>::empty() =~= rest0);
    assert(s.skip(k as int).skip(s.len() - k) =~= Seq::<u8>::empty());
}

/// Reading back the bytes of a client message gives the message: what the
/// encoder writes, the decoder accepts and returns unchanged.
pub proof fn lemma_client_message_roundtrip(m: Option<ClientBody>)
    requires
        client_body_fits(m),
    ensures
        parse_client_message(client_message_bytes(m)) == Some(m),
{
    let s = client_message_bytes(m);
    match m {
        None => {},
        Some(ClientBody::Echo { content }) => {
            lemma_echo_body_roundtrip(content, nested_budget());
            lemma_message_field_roundtrip(1, echo_body_bytes(content));
            assert(client_fields(Seq::<u8>::empty(), m) == Some(m));
        },
        Some(ClientBody::Add { a, b }) => {
            lemma_add_request_body_roundtrip(a, b, nested_budget());
            lemma_message_field_roundtrip(2, add_request_body_bytes(a, b));
            assert(client_fields(Seq::<u8>::empty(), m) == Some(m));
        },
    }
}

/// Reading back the bytes of a server message gives the message.
pub proof fn lemma_server_message_roundtrip(m: Option<ServerBody>)
    requires
        server_body_fits(m),
    ensures
        parse_server_message(server_message_bytes(m)) == Some(m),
{
    let s = server_message_bytes(m);
    match m {
        None => {},
        Some(ServerBody::Echo { content }) => {
            lemma_echo_body_roundtrip(content, nested_budget());
            lemma_message_field_roundtrip(1, echo_body_bytes(content));
            assert(server_fields(Seq::<u8>::empty(), m) == Some(m));
        },
        Some(ServerBody::Sum { result }) => {
            lemma_add_response_body_roundtrip(result, nested_budget());
            lemma_message_field_roundtrip(2, add_response_body_bytes(result));
            assert(server_fields(Seq::<u8>::empty(), m) == Some(m));
        },
    }
}

/// The text that reading an `EchoMessage` body ends with is either the text
/// it started from, or one whose own encoding is no longer than the body.
pub proof fn lemma_echo_fields_len(s: Seq<u8>, base: Seq<char>, budget: nat)
    requires
        echo_fields(s, base, budget) is Some,
    ensures
        echo_fields(s, base, budget)->Some_0 == base || echo_body_bytes(echo_fields(s, base, budget)->Some_0).len()
            <= s.len(),
    decreases s.len(),
{
    broadcast use decode_utf8_encode_utf8;

    if s.len() > 0 {
        let (tag, wire, k) = key_decode(s)->Some_0;
        let rest = s.skip(k as int);
        lemma_key_decode_bounds(s);
        lemma_value_bounds(wire, rest);
        if tag == 1 {
            let (text, n) = string_value_decode(wire, rest)->Some_0;
            let b = delimited(rest)->Some_0.0;
            lemma_varint_prefix_canonical(rest, 10);
            lemma_delimited_bounds(rest);
            assert(encode_utf8(text) == b);
            assert(key_bytes(1, WIRE_LEN).len() == 1);
            assert(echo_body_bytes(text).len() <= k + n);
            lemma_echo_fields_len(rest.skip(n as int), text, budget);
        } else {
            lemma_skip_bounds(wire, tag, rest, budget);
            let n = skip_consumed(wire, tag, rest, budget)->Some_0;
            lemma_echo_fields_len(rest.skip(n as int), base, budget);
        }
    }
}

/// The size of the answer to an echo of `content`: the bytes of a client or
/// server message that carries it.
pub open spec fn echo_message_len(cur: Option<ClientBody>) -> nat {
    match cur {
        Some(ClientBody::Echo { content }) => message_field_bytes(1, echo_body_bytes(content)).len(),
        _ => 0,
    }
}

/// The echo that reading a client message ends with is written back in no
/// more bytes than the message was read from, or it was there to begin with.
pub proof fn lemma_client_fields_echo_len(s: Seq<u8>, cur: Option<ClientBody>)
    requires
        client_fields(s, cur) is Some,
    ensures
        echo_message_len(client_fields(s, cur)->Some_0) <= s.len() || echo_message_len(
            client_fields(s, cur)->Some_0,
        ) <= echo_message_len(cur),
    decreases s.len(),
{
    if s.len() > 0 {
        let (tag, wire, k) = key_decode(s)->Some_0;
        let rest = s.skip(k as int);
        lemma_key_decode_bounds(s);
        lemma_value_bounds(wire, rest);
        lemma_delimited_bounds(rest);
        if tag == 1 {
            let (body, c) = message_value_decode(wire, rest)->Some_0;
            let base = match cur {
                Some(ClientBody::Echo { content }) => content,
                _ => Seq::empty(),
            };
            let content = echo_fields(body, base, nested_budget())->Some_0;
            let next = Some(ClientBody::Echo { content });
            lemma_echo_fields_len(body, base, nested_budget());
            lemma_varint_prefix_canonical(rest, 10);
            let e = echo_body_bytes(content).len();
            assert(key_bytes(1, WIRE_LEN).len() == 1);
            if content == base {
                if !(cur matches Some(ClientBody::Echo { .. })) {
                    assert(e == 0);
                    lemma_varint_len_monotone(e, body.len());
                }
            } else {
                lemma_varint_len_monotone(e, body.len());
            }
            assert(echo_message_len(next) <= k + c || echo_message_len(next) <= echo_message_len(
                cur,
            ));
            lemma_client_fields_echo_len(rest.skip(c as int), next);
        } else if tag == 2 {
            let (body, c) = message_value_decode(wire, rest)->Some_0;
            let (a0, b0) = match cur {
                Some(ClientBody::Add { a, b }) => (a, b),
                _ => (0i32, 0i32),
            };
            let (a, b) = add_request_fields(body, a0, b0, nested_budget())->Some_0;
            lemma_client_fields_echo_len(rest.skip(c as int), Some(ClientBody::Add { a, b }));
        } else {
            lemma_skip_bounds(wire, tag, rest, recursion_limit());
            let n = skip_consumed(wire, tag, rest, recursion_limit())->Some_0;
            lemma_client_fields_echo_len(rest.skip(n as int), cur);
        }
    }
}

} // verus!
