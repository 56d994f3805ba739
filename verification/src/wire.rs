//! The protobuf wire format at the level of single values and keys, with
//! the `prost` encoding routines that produce and consume it.
use vstd::prelude::*;
use vstd::utf8::*;
use prost::encoding::{DecodeContext, WireType};

verus! {

/// Largest value that a `u64` varint can carry, plus one.
pub open spec fn two_pow_64() -> int {
    0x1_0000_0000_0000_0000
}

/// The base-128 (LEB128) varint encoding of `x`: seven bits per byte, least
/// significant group first, the high bit set on every byte but the last.
pub open spec fn varint_bytes(x: nat) -> Seq<u8>
    decreases x,
{
    if x < 128 {
        seq![x as u8]
    } else {
        seq![(x % 128 + 128) as u8] + varint_bytes(x / 128)
    }
}

/// Reads a base-128 varint from the front of `s`, looking at no more than
/// `fuel` bytes; gives the value read and how many bytes it took.
pub open spec fn varint_prefix(s: Seq<u8>, fuel: nat) -> Option<(int, nat)>
    decreases fuel,
{
    if fuel == 0 || s.len() == 0 {
        None
    } else if s[0] < 128 {
        Some((s[0] as int, 1nat))
    } else {
        match varint_prefix(s.drop_first(), (fuel - 1) as nat) {
            Some((v, n)) => Some(((s[0] - 128) + 128 * v, n + 1)),
            None => None,
        }
    }
}

/// A protobuf varint at the front of `s`: at most ten bytes, and a value
/// that fits in 64 bits.  Gives the value and the number of bytes it took.
pub open spec fn varint_decode(s: Seq<u8>) -> Option<(u64, nat)> {
    match varint_prefix(s, 10) {
        Some((v, n)) => if v < two_pow_64() {
            Some((v as u64, n))
        } else {
            None
        },
        None => None,
    }
}

/// Wire type of a varint field.
pub const WIRE_VARINT: u8 = 0;
/// Wire type of a fixed eight-byte field.
pub const WIRE_FIXED64: u8 = 1;
/// Wire type of a length-delimited field (strings, nested messages).
pub const WIRE_LEN: u8 = 2;
/// Wire type that opens a group.
pub const WIRE_START_GROUP: u8 = 3;
/// Wire type that closes a group.
pub const WIRE_END_GROUP: u8 = 4;
/// Wire type of a fixed four-byte field.
pub const WIRE_FIXED32: u8 = 5;
/// Largest field number that a key can carry.
pub const MAX_TAG: u32 = 0x1FFF_FFFF;

/// The key that opens a field: its number and its wire type, packed as
/// `tag * 8 + wire` and written as a varint.
pub open spec fn key_bytes(tag: u32, wire: u8) -> Seq<u8> {
    varint_bytes((tag * 8 + wire) as nat)
}

/// A field key at the front of `s`: a varint that fits in 32 bits, whose low
/// three bits name a wire type (0 to 5) and whose field number is not zero.
/// Gives the field number, the wire type and the bytes the key took.
pub open spec fn key_decode(s: Seq<u8>) -> Option<(u32, u8, nat)> {
    match varint_decode(s) {
        Some((k, n)) => if k <= u32::MAX && k % 8 <= 5 && k / 8 >= 1 {
            Some(((k / 8) as u32, (k % 8) as u8, n))
        } else {
            None
        },
        None => None,
    }
}

/// A length-delimited payload at the front of `s`: a varint length, then
/// that many bytes.  Gives the payload and the bytes taken in all.
pub open spec fn delimited(s: Seq<u8>) -> Option<(Seq<u8>, nat)> {
    match varint_decode(s) {
        Some((len, n)) => if len <= s.len() - n {
            Some((s.subrange(n as int, n + len), (n + len) as nat))
        } else {
            None
        },
        None => None,
    }
}

/// An `int32` on the wire: sign-extended to 64 bits.
pub open spec fn int32_to_wire(v: i32) -> u64 {
    if v >= 0 {
        v as u64
    } else {
        (v + two_pow_64()) as u64
    }
}

/// An `int32` read from the wire: the low 32 bits of the varint, taken as a
/// two's-complement number.
pub open spec fn int32_from_wire(x: u64) -> i32 {
    let low = x % 0x1_0000_0000;
    if low < 0x8000_0000 {
        low as i32
    } else {
        (low - 0x1_0000_0000) as i32
    }
}

/// An `int32` field read after its key with wire type `wire`: the value and
/// the bytes it took.
pub open spec fn int32_value_decode(wire: u8, s: Seq<u8>) -> Option<(i32, nat)> {
    if wire != WIRE_VARINT {
        None
    } else {
        match varint_decode(s) {
            Some((x, n)) => Some((int32_from_wire(x), n)),
            None => None,
        }
    }
}

/// A `string` field read after its key with wire type `wire`: a
/// length-delimited payload that is well-formed UTF-8; gives its characters
/// and the bytes it took.
pub open spec fn string_value_decode(wire: u8, s: Seq<u8>) -> Option<(Seq<char>, nat)> {
    if wire != WIRE_LEN {
        None
    } else {
        match delimited(s) {
            Some((b, c)) => if valid_utf8(b) {
                Some((decode_utf8(b), c))
            } else {
                None
            },
            None => None,
        }
    }
}

/// Levels of nesting that a fresh prost decode context allows.
pub open spec fn recursion_limit() -> nat {
    100
}

/// The bytes that `prost::encoding::skip_field` takes of `s` for the value of
/// an unknown field with wire type `wire` and number `tag`, read after its
/// key, with a decode context that allows `budget` more levels: none left is
/// an error; a group is passed over field by field, one level down, up to
/// the end key with the same number.
pub open spec fn skip_consumed(wire: u8, tag: u32, s: Seq<u8>, budget: nat) -> Option<nat>
    decreases s.len(), 1nat,
{
    if budget == 0 {
        None
    } else if wire == WIRE_VARINT {
        match varint_decode(s) {
            Some((_, n)) => Some(n),
            None => None,
        }
    } else if wire == WIRE_FIXED64 {
        if s.len() >= 8 {
            Some(8nat)
        } else {
            None
        }
    } else if wire == WIRE_LEN {
        match delimited(s) {
            Some((_, c)) => Some(c),
            None => None,
        }
    } else if wire == WIRE_START_GROUP {
        group_consumed(tag, s, budget)
    } else if wire == WIRE_FIXED32 {
        if s.len() >= 4 {
            Some(4nat)
        } else {
            None
        }
    } else {
        None
    }
}

/// The bytes of a group with number `tag` that `skip_field` passes over:
/// fields skipped one level below `budget`, then the end key with the same
/// number (which is taken too).
pub open spec fn group_consumed(tag: u32, s: Seq<u8>, budget: nat) -> Option<nat>
    decreases s.len(), 0nat,
{
    match key_decode(s) {
        None => None,
        Some((t, w, k)) => {
            proof {
                lemma_key_decode_bounds(s);
            }
            if w == WIRE_END_GROUP {
                if t == tag {
                    Some(k)
                } else {
                    None
                }
            } else {
                let rest = s.skip(k as int);
                match skip_consumed(w, t, rest, (budget - 1) as nat) {
                    Some(n) => if n <= rest.len() {
                        match group_consumed(tag, rest.skip(n as int), budget) {
                            Some(m) => Some(k + n + m),
                            None => None,
                        }
                    } else {
                        None
                    },
                    None => None,
                }
            }
        },
    }
}

/// The fields of the body `s` of a nested message, each passed over by
/// `skip_field` with `budget` levels: whether they all are, ending exactly
/// at the end of the body.
pub open spec fn skippable_fields(s: Seq<u8>, budget: nat) -> bool
    decreases s.len(),
{
    if s.len() == 0 {
        true
    } else {
        match key_decode(s) {
            None => false,
            Some((t, w, k)) => {
                let rest = s.skip(k as int);
                proof {
                    lemma_key_decode_bounds(s);
                    lemma_skip_bounds(w, t, rest, budget);
                }
                match skip_consumed(w, t, rest, budget) {
                    Some(n) => skippable_fields(rest.skip(n as int), budget),
                    None => false,
                }
            },
        }
    }
}

/// An `int32` field as prost writes it: the key, then the sign-extended value.
pub open spec fn int32_field_bytes(tag: u32, v: i32) -> Seq<u8> {
    key_bytes(tag, WIRE_VARINT) + varint_bytes(int32_to_wire(v) as nat)
}

/// A `string` field as prost writes it: the key, the byte length, the UTF-8 bytes.
pub open spec fn string_field_bytes(tag: u32, text: Seq<char>) -> Seq<u8> {
    key_bytes(tag, WIRE_LEN) + varint_bytes(encode_utf8(text).len()) + encode_utf8(text)
}

/// A nested message field: the key, the length of the body, the body.
pub open spec fn message_field_bytes(tag: u32, body: Seq<u8>) -> Seq<u8> {
    key_bytes(tag, WIRE_LEN) + varint_bytes(body.len()) + body
}

/// `prost::encoding::encode_varint`: appends the base-128 encoding of
/// `value` to `out`.
#[verifier::external_body]
pub(crate) fn put_varint(value: u64, out: &mut Vec<u8>)
    ensures
        final(out)@ == old(out)@ + varint_bytes(value as nat),
{
    prost::encoding::encode_varint(value, out);
}

/// `prost::encoding::decode_varint` on `input`: the value of the varint at
/// its front and the number of bytes of `input` left after it, or `None`
/// where no valid varint stands there.
#[verifier::external_body]
pub(crate) fn take_varint(input: &[u8]) -> (r: Option<(u64, usize)>)
    ensures
        match varint_decode(input@) {
            Some((v, n)) => r == Some((v, (input@.len() - n) as usize)),
            None => r is None,
        },
{
    let mut rest = input;
    match prost::encoding::decode_varint(&mut rest) {
        Ok(v) => Some((v, rest.len())),
        Err(_) => None,
    }
}


/// `prost::encoding::encode_key`: appends the key of field `tag` with wire
/// type `wire` to `out`.
#[verifier::external_body]
pub(crate) fn put_key(tag: u32, wire: u8, out: &mut Vec<u8>)
    requires
        1 <= tag <= MAX_TAG,
        wire <= 5,
    ensures
        final(out)@ == old(out)@ + key_bytes(tag, wire),
{
    if let Ok(wt) = WireType::try_from(u64::from(wire)) {
        prost::encoding::encode_key(tag, wt, out);
    }
}

/// `prost::encoding::decode_key` on `input`: the field number and wire type
/// of the key at its front, and the number of bytes left after the key.
#[verifier::external_body]
pub(crate) fn take_key(input: &[u8]) -> (r: Option<(u32, u8, usize)>)
    ensures
        match key_decode(input@) {
            Some((tag, wire, n)) => r == Some((tag, wire, (input@.len() - n) as usize)),
            None => r is None,
        },
{
    let mut rest = input;
    match prost::encoding::decode_key(&mut rest) {
        Ok((tag, wt)) => Some((tag, wt as u8, rest.len())),
        Err(_) => None,
    }
}

/// `prost::encoding::skip_field` with a fresh decode context: passes over the
/// value of an unknown field whose key (wire type `wire`, number `tag`) has
/// just been read, and gives the number of bytes of `input` left after it.
#[verifier::external_body]
pub(crate) fn skip_unknown(wire: u8, tag: u32, input: &[u8]) -> (r: Option<usize>)
    requires
        wire <= 5,
    ensures
        r == match skip_consumed(wire, tag, input@, recursion_limit()) {
            Some(c) => Some((input@.len() - c) as usize),
            None => None::<usize>,
        },
{
    let mut rest = input;
    let wt = WireType::try_from(u64::from(wire)).ok()?;
    match prost::encoding::skip_field(wt, tag, &mut rest, DecodeContext::default()) {
        Ok(()) => Some(rest.len()),
        Err(_) => None,
    }
}

/// Whether a nested message read after its key with wire type `wire` has a
/// body whose fields `skip_field` all passes over, one level down.
pub open spec fn nested_skippable(wire: u8, s: Seq<u8>) -> bool {
    wire == WIRE_LEN && match delimited(s) {
        Some((body, _)) => skippable_fields(body, (recursion_limit() - 1) as nat),
        None => false,
    }
}

/// `prost::encoding::message::merge` into `()` (the empty message) with a
/// fresh decode context: reads a nested message whose key (wire type `wire`)
/// has just been read, passing over every field of its body with
/// `skip_field` one level down; tells whether that succeeds.
#[verifier::external_body]
pub(crate) fn nested_fields_skippable(wire: u8, input: &[u8]) -> (r: bool)
    requires
        wire <= 5,
    ensures
        r == nested_skippable(wire, input@),
{
    let mut rest = input;
    match WireType::try_from(u64::from(wire)) {
        Ok(wt) => prost::encoding::message::merge(wt, &mut (), &mut rest, DecodeContext::default()).is_ok(),
        Err(_) => false,
    }
}

/// `prost::encoding::int32::encode`: appends the field `tag` holding `value`.
#[verifier::external_body]
pub(crate) fn put_int32(tag: u32, value: i32, out: &mut Vec<u8>)
    requires
        1 <= tag <= MAX_TAG,
    ensures
        final(out)@ == old(out)@ + int32_field_bytes(tag, value),
{
    prost::encoding::int32::encode(tag, &value, out);
}

/// `prost::encoding::int32::merge`: reads the value of an `int32` field whose
/// key (wire type `wire`) has just been read; gives the value and the number
/// of bytes of `input` left after it.
#[verifier::external_body]
pub(crate) fn take_int32(wire: u8, input: &[u8]) -> (r: Option<(i32, usize)>)
    requires
        wire <= 5,
    ensures
        match int32_value_decode(wire, input@) {
            Some((v, n)) => r == Some((v, (input@.len() - n) as usize)),
            None => r is None,
        },
{
    let mut rest = input;
    let mut value: i32 = 0;
    let wt = WireType::try_from(u64::from(wire)).ok()?;
    match prost::encoding::int32::merge(wt, &mut value, &mut rest, DecodeContext::default()) {
        Ok(()) => Some((value, rest.len())),
        Err(_) => None,
    }
}

/// `prost::encoding::string::encode`: appends the field `tag` holding `value`.
#[verifier::external_body]
pub(crate) fn put_string(tag: u32, value: &String, out: &mut Vec<u8>)
    requires
        1 <= tag <= MAX_TAG,
    ensures
        final(out)@ == old(out)@ + string_field_bytes(tag, value@),
{
    prost::encoding::string::encode(tag, value, out);
}

/// `prost::encoding::string::merge`: reads the value of a `string` field whose
/// key (wire type `wire`) has just been read; gives the string and the number
/// of bytes of `input` left after it.
#[verifier::external_body]
pub(crate) fn take_string(wire: u8, input: &[u8]) -> (r: Option<(String, usize)>)
    requires
        wire <= 5,
    ensures
        match string_value_decode(wire, input@) {
            Some((text, n)) => r matches Some((s, rest)) && s@ == text && rest == input@.len() - n,
            None => r is None,
        },
{
    let mut rest = input;
    let mut value = String::new();
    let wt = WireType::try_from(u64::from(wire)).ok()?;
    match prost::encoding::string::merge(wt, &mut value, &mut rest, DecodeContext::default()) {
        Ok(()) => Some((value, rest.len())),
        Err(_) => None,
    }
}

/// `128` raised to the power `k`.
pub open spec fn pow128(k: nat) -> nat
    decreases k,
{
    if k == 0 {
        1
    } else {
        128 * pow128((k - 1) as nat)
    }
}

/// A value below `128^k` takes at most `k` bytes (and always at least one).
pub proof fn lemma_varint_len_bound(x: nat, k: nat)
    requires
        1 <= k,
        x < pow128(k),
    ensures
        1 <= varint_bytes(x).len() <= k,
    decreases k,
{
    if x >= 128 {
        assert(pow128(0) == 1);
        assert(x / 128 < pow128((k - 1) as nat)) by (nonlinear_arith)
            requires
                x < 128 * pow128((k - 1) as nat),
        ;
        if k == 1 {
            assert(x < 128);
        }
        lemma_varint_len_bound(x / 128, (k - 1) as nat);
        assert(varint_bytes(x).len() == 1 + varint_bytes(x / 128).len());
    }
}

/// Any 64-bit value takes between one and ten bytes.
pub proof fn lemma_varint_len_u64(x: u64)
    ensures
        1 <= varint_bytes(x as nat).len() <= 10,
{
    assert(pow128(10) == 0x40_0000_0000_0000_0000) by {
        reveal_with_fuel(pow128, 11);
    }
    lemma_varint_len_bound(x as nat, 10);
}

/// Reading back the encoding of `x`, followed by anything, gives `x` and
/// consumes exactly the encoding.
pub proof fn lemma_varint_prefix_roundtrip(x: nat, rest: Seq<u8>, fuel: nat)
    requires
        varint_bytes(x).len() <= fuel,
    ensures
        varint_prefix(varint_bytes(x) + rest, fuel) == Some((x as int, varint_bytes(x).len())),
    decreases x,
{
    let s = varint_bytes(x) + rest;
    if x < 128 {
        assert(s[0] == x as u8);
    } else {
        let b = (x % 128 + 128) as u8;
        assert(s[0] == b);
        assert(s.drop_first() =~= varint_bytes(x / 128) + rest);
        lemma_varint_prefix_roundtrip(x / 128, rest, (fuel - 1) as nat);
        assert((b - 128) + 128 * (x / 128) == x);
    }
}

/// The varint reader gives back what the varint writer wrote.
pub proof fn lemma_varint_roundtrip(x: u64, rest: Seq<u8>)
    ensures
        varint_decode(varint_bytes(x as nat) + rest) == Some((x, varint_bytes(x as nat).len())),
{
    lemma_varint_len_u64(x);
    lemma_varint_prefix_roundtrip(x as nat, rest, 10);
}

/// The key reader gives back the field number and wire type that the key
/// writer wrote.
pub proof fn lemma_key_roundtrip(tag: u32, wire: u8, rest: Seq<u8>)
    requires
        1 <= tag <= MAX_TAG,
        wire <= 5,
    ensures
        key_decode(key_bytes(tag, wire) + rest) == Some((tag, wire, key_bytes(tag, wire).len())),
{
    let k = (tag * 8 + wire) as u64;
    lemma_varint_roundtrip(k, rest);
    assert(k % 8 == wire && k / 8 == tag);
}

/// Reading back a sign-extended `int32` gives the same `int32`.
pub proof fn lemma_int32_roundtrip(v: i32)
    ensures
        int32_from_wire(int32_to_wire(v)) == v,
{
    if v < 0 {
        let x = int32_to_wire(v) as int;
        assert(x == v + two_pow_64());
        assert(x == (v + 0x1_0000_0000) + 0xFFFF_FFFF * 0x1_0000_0000);
        assert(x % 0x1_0000_0000 == v + 0x1_0000_0000) by (nonlinear_arith)
            requires
                x == (v + 0x1_0000_0000) + 0xFFFF_FFFF * 0x1_0000_0000,
                0 <= v + 0x1_0000_0000 < 0x1_0000_0000,
        ;
    }
}

/// A varint read takes at least one byte and no more than there are.
pub proof fn lemma_varint_prefix_bounds(s: Seq<u8>, fuel: nat)
    ensures
        varint_prefix(s, fuel) matches Some((_, n)) ==> 1 <= n <= s.len(),
    decreases fuel,
{
    if fuel > 0 && s.len() > 0 && s[0] >= 128 {
        lemma_varint_prefix_bounds(s.drop_first(), (fuel - 1) as nat);
    }
}

/// A key takes at least one byte and no more than there are.
pub proof fn lemma_key_decode_bounds(s: Seq<u8>)
    ensures
        key_decode(s) matches Some((_, wire, n)) ==> 1 <= n <= s.len() && wire <= 5,
{
    lemma_varint_prefix_bounds(s, 10);
}

/// A length-delimited payload lies within the bytes it was read from.
pub proof fn lemma_delimited_bounds(s: Seq<u8>)
    ensures
        delimited(s) matches Some((b, c)) ==> c <= s.len() && b == s.subrange(c - b.len(), c as int),
{
    lemma_varint_prefix_bounds(s, 10);
}

/// Values of fields take no more bytes than there are.
pub proof fn lemma_value_bounds(wire: u8, s: Seq<u8>)
    ensures
        int32_value_decode(wire, s) matches Some((_, n)) ==> n <= s.len(),
        string_value_decode(wire, s) matches Some((_, n)) ==> n <= s.len(),
{
    lemma_varint_prefix_bounds(s, 10);
    lemma_delimited_bounds(s);
}

/// An unknown field takes no more bytes than there are.
pub proof fn lemma_skip_bounds(wire: u8, tag: u32, s: Seq<u8>, budget: nat)
    ensures
        skip_consumed(wire, tag, s, budget) matches Some(n) ==> n <= s.len(),
    decreases s.len(), 1nat,
{
    lemma_varint_prefix_bounds(s, 10);
    lemma_delimited_bounds(s);
    if budget > 0 && wire == WIRE_START_GROUP {
        lemma_group_bounds(tag, s, budget);
    }
}

/// A group takes no more bytes than there are.
pub proof fn lemma_group_bounds(tag: u32, s: Seq<u8>, budget: nat)
    ensures
        group_consumed(tag, s, budget) matches Some(n) ==> n <= s.len(),
    decreases s.len(), 0nat,
{
    lemma_key_decode_bounds(s);
    if let Some((t, w, k)) = key_decode(s) {
        if w != WIRE_END_GROUP {
            let rest = s.skip(k as int);
            lemma_skip_bounds(w, t, rest, (budget - 1) as nat);
            if let Some(n) = skip_consumed(w, t, rest, (budget - 1) as nat) {
                if n <= rest.len() {
                    lemma_group_bounds(tag, rest.skip(n as int), budget);
                }
            }
        }
    }
}

/// With more levels allowed, `skip_field` takes the same bytes wherever it
/// succeeded with fewer.
pub proof fn lemma_skip_budget_monotone(wire: u8, tag: u32, s: Seq<u8>, b1: nat, b2: nat)
    requires
        b1 <= b2,
        skip_consumed(wire, tag, s, b1) is Some,
    ensures
        skip_consumed(wire, tag, s, b2) == skip_consumed(wire, tag, s, b1),
    decreases s.len(), 1nat,
{
    if wire == WIRE_START_GROUP {
        lemma_group_budget_monotone(tag, s, b1, b2);
    }
}

/// With more levels allowed, a group takes the same bytes wherever it was
/// passed over with fewer.
pub proof fn lemma_group_budget_monotone(tag: u32, s: Seq<u8>, b1: nat, b2: nat)
    requires
        0 < b1 <= b2,
        group_consumed(tag, s, b1) is Some,
    ensures
        group_consumed(tag, s, b2) == group_consumed(tag, s, b1),
    decreases s.len(), 0nat,
{
    lemma_key_decode_bounds(s);
    let (t, w, k) = key_decode(s)->Some_0;
    if w != WIRE_END_GROUP {
        let rest = s.skip(k as int);
        let n = skip_consumed(w, t, rest, (b1 - 1) as nat)->Some_0;
        lemma_skip_budget_monotone(w, t, rest, (b1 - 1) as nat, (b2 - 1) as nat);
        lemma_group_budget_monotone(tag, rest.skip(n as int), b1, b2);
    }
}

/// A varint that was read took at least as many bytes as the shortest
/// encoding of its value.
pub proof fn lemma_varint_prefix_canonical(s: Seq<u8>, fuel: nat)
    ensures
        varint_prefix(s, fuel) matches Some((v, n)) ==> v >= 0 && varint_bytes(v as nat).len() <= n,
    decreases fuel,
{
    if fuel > 0 && s.len() > 0 && s[0] >= 128 {
        lemma_varint_prefix_canonical(s.drop_first(), (fuel - 1) as nat);
        if let Some((v2, n2)) = varint_prefix(s.drop_first(), (fuel - 1) as nat) {
            let d = s[0] - 128;
            let v = d + 128 * v2;
            if v >= 128 {
                assert(v / 128 == v2);
                assert(varint_bytes(v as nat).len() == 1 + varint_bytes(v2 as nat).len());
            }
        }
    }
}

/// The shortest encoding of a larger value is no shorter.
pub proof fn lemma_varint_len_monotone(x: nat, y: nat)
    requires
        x <= y,
    ensures
        varint_bytes(x).len() <= varint_bytes(y).len(),
    decreases y,
{
    if x >= 128 {
        lemma_varint_len_monotone(x / 128, y / 128);
        assert(varint_bytes(x).len() == 1 + varint_bytes(x / 128).len());
        assert(varint_bytes(y).len() == 1 + varint_bytes(y / 128).len());
    }
}

} // verus!
