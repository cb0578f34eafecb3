//! Calls into outside crates, each behind a contract that Verus takes on trust.
use vstd::prelude::*;
use vstd::utf8::{decode_utf8, encode_utf8, valid_utf8};

verus! {

/// What `regex::Regex::new(pattern)` followed by `Regex::captures(text)` gives: `None` when the
/// pattern does not compile or does not match, else the text of each capture group in group
/// order (group 0 is the whole match), `None` for a group that took no part in the match.
pub uninterp spec fn regex_captures(pattern: Seq<char>, text: Seq<char>) -> Option<Seq<Option<Seq<char>>>>;

/// The view of the groups handed back by `captures`.
pub open spec fn groups_view(c: Option<Vec<Option<String>>>) -> Option<Seq<Option<Seq<char>>>> {
    match c {
        None => None,
        Some(v) => Some(v@.map_values(|g: Option<String>| match g {
            Some(s) => Some(s@),
            None => None,
        })),
    }
}

/// Compiles `pattern` with `regex::Regex::new` and runs `Regex::captures` on `text`.
/// Claimed: the groups handed back are exactly `regex_captures(pattern, text)`; the regex crate
/// is deterministic, so the name depends on the two texts alone. Nothing else is claimed.
#[verifier::external_body]
pub(crate) fn captures(pattern: &str, text: &str) -> (r: Option<Vec<Option<String>>>)
    ensures
        groups_view(r) == regex_captures(pattern@, text@),
{
    let re = match regex::Regex::new(pattern) {
        Ok(re) => re,
        Err(_) => return None,
    };
    let caps = re.captures(text)?;
    let mut groups = Vec::new();
    for m in caps.iter() {
        groups.push(match m {
            Some(m) => Some(m.as_str().to_string()),
            None => None,
        });
    }
    Some(groups)
}

/// The value of a hexadecimal digit given as an ASCII byte.
pub open spec fn hex_digit_value(b: u8) -> Option<u8> {
    if 0x30 <= b && b <= 0x39 {
        Some((b - 0x30) as u8)
    } else if 0x41 <= b && b <= 0x46 {
        Some((b - 0x41 + 10) as u8)
    } else if 0x61 <= b && b <= 0x66 {
        Some((b - 0x61 + 10) as u8)
    } else {
        None
    }
}

/// Percent-decoding of bytes: `%` and two hexadecimal digits become the byte they spell; every
/// other byte, a `%` not followed by two hexadecimal digits included, stays as it is.
pub open spec fn percent_decode(b: Seq<u8>) -> Seq<u8>
    decreases b.len(),
{
    if b.len() == 0 {
        Seq::empty()
    } else if b[0] == 0x25 && b.len() >= 3 && hex_digit_value(b[1]) is Some && hex_digit_value(
        b[2],
    ) is Some {
        seq![(hex_digit_value(b[1])->0 * 16 + hex_digit_value(b[2])->0) as u8] + percent_decode(
            b.subrange(3, b.len() as int),
        )
    } else {
        seq![b[0]] + percent_decode(b.drop_first())
    }
}

/// The text that percent-decoding `s` spells, where the decoded bytes are valid UTF-8.
pub open spec fn url_decoded(s: Seq<char>) -> Option<Seq<char>> {
    let b = percent_decode(encode_utf8(s));
    if valid_utf8(b) {
        Some(decode_utf8(b))
    } else {
        None
    }
}

/// Calls `urlencoding::decode`. Claimed, from that crate's source: the UTF-8 bytes of `s` are
/// percent-decoded (`%` with two hexadecimal digits becomes that byte, anything else, `+`
/// included, stays) and the result is the text those bytes spell, an error (here `None`) where
/// they are not valid UTF-8.
#[verifier::external_body]
pub(crate) fn url_decode(s: &str) -> (r: Option<String>)
    ensures
        match r {
            Some(d) => url_decoded(s@) == Some(d@),
            None => url_decoded(s@) is None,
        },
{
    match urlencoding::decode(s) {
        Ok(d) => Some(d.into_owned()),
        Err(_) => None,
    }
}

/// The bytes of an OSC message with address `addr` and no arguments: the address's UTF-8 bytes,
/// 1 to 4 zero bytes that bring its length to a multiple of 4, then the empty type tag `,`
/// padded with three zero bytes.
pub open spec fn osc_message_bytes(addr: Seq<char>) -> Seq<u8> {
    let b = encode_utf8(addr);
    b + Seq::new((4 - b.len() % 4) as nat, |i: int| 0u8) + seq![0x2cu8, 0u8, 0u8, 0u8]
}

/// Calls `rosc::encoder::encode` on an `OscPacket::Message` with address `addr` and no
/// arguments. Claimed, from that crate's source: the encoding never fails for a message and its
/// bytes are `osc_message_bytes(addr)`.
#[verifier::external_body]
pub(crate) fn osc_encode(addr: &str) -> (r: Option<Vec<u8>>)
    ensures
        r is Some,
        r is Some ==> r->0@ == osc_message_bytes(addr@),
{
    let packet = rosc::OscPacket::Message(rosc::OscMessage { addr: addr.to_string(), args: Vec::new() });
    match rosc::encoder::encode(&packet) {
        Ok(b) => Some(b),
        Err(_) => None,
    }
}

#[verifier::external_type_specification]
#[verifier::external_body]
#[verifier::reject_recursive_types(T)]
pub struct ExSender<T>(std::sync::mpsc::Sender<T>);

#[verifier::external_type_specification]
#[verifier::external_body]
#[verifier::reject_recursive_types(T)]
pub struct ExReceiver<T>(std::sync::mpsc::Receiver<T>);

/// Calls `std::sync::mpsc::channel`: a sender and the receiver it feeds. Nothing is claimed.
#[verifier::external_body]
pub(crate) fn new_channel<T>() -> (std::sync::mpsc::Sender<T>, std::sync::mpsc::Receiver<T>) {
    std::sync::mpsc::channel()
}

/// Calls `Sender::send`; `true` where it reported success. Whether it does depends on the
/// receiving side, so nothing is claimed of the result.
#[verifier::external_body]
pub(crate) fn send_message<T>(tx: &std::sync::mpsc::Sender<T>, message: T) -> bool {
    tx.send(message).is_ok()
}

/// Calls `Receiver::try_recv`; `None` for either of its errors (nothing waiting, or the
/// sending side gone). What arrives depends on the sending side, so nothing is claimed.
#[verifier::external_body]
pub(crate) fn try_receive<T>(rx: &std::sync::mpsc::Receiver<T>) -> Option<T> {
    match rx.try_recv() {
        Ok(m) => Some(m),
        Err(_) => None,
    }
}

} // verus!
