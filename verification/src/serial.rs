//! The byte format of events.
//!
//! Integers are written with the least significant byte first. A string is written as the number
//! of its UTF-8 bytes followed by the bytes. That number takes one byte below 0xfd; otherwise a
//! marker byte 0xfd, 0xfe or 0xff stands before its two, four or eight bytes, and the shortest
//! form that can hold the number is the only one that is read back.

use vstd::prelude::*;
use vstd::slice::slice_subrange;

use crate::event::{ActionV, Event, EventAction, EventId, EventV, PrivMsgEvent, PrivMsgV};

verus! {

/// Why bytes could not be read.
#[derive(Clone, Copy, Debug, PartialEq, Eq, Structural)]
pub enum DecodeError {
    /// The bytes end before the value does.
    UnexpectedEof,
    /// The byte that says which kind of action follows is not a known one.
    BadTypeId,
    /// A length is written in a longer form than it needs.
    NonMinimalVarInt,
    /// The bytes of a string are not UTF-8.
    InvalidUtf8,
}

/// What is said of bytes that could not be read.
pub open spec fn error_text(e: DecodeError) -> Seq<char> {
    match e {
        DecodeError::UnexpectedEof => "failed to fill whole buffer"@,
        DecodeError::BadTypeId => "Bad type ID byte for Event"@,
        DecodeError::NonMinimalVarInt => "non-minimal varint"@,
        DecodeError::InvalidUtf8 => "invalid UTF-8"@,
    }
}

impl DecodeError {
    /// The error in words.
    pub fn message(&self) -> (r: String)
        ensures
            r@ == error_text(*self),
    {
        match self {
            DecodeError::UnexpectedEof => "failed to fill whole buffer".to_string(),
            DecodeError::BadTypeId => "Bad type ID byte for Event".to_string(),
            DecodeError::NonMinimalVarInt => "non-minimal varint".to_string(),
            DecodeError::InvalidUtf8 => "invalid UTF-8".to_string(),
        }
    }
}

/// The type byte of a private message.
pub const PRIV_MSG_TYPE_ID: u8 = 0;

/// `n` in `k` bytes, the least significant first.
pub open spec fn le_bytes(n: nat, k: nat) -> Seq<u8>
    decreases k,
{
    if k == 0 {
        Seq::empty()
    } else {
        seq![(n % 256) as u8] + le_bytes(n / 256, (k - 1) as nat)
    }
}

/// The number that `s` writes, the least significant byte first.
pub open spec fn le_value(s: Seq<u8>) -> nat
    decreases s.len(),
{
    if s.len() == 0 {
        0
    } else {
        s[0] as nat + 256 * le_value(s.drop_first())
    }
}

/// How many numbers `k` bytes can write.
pub open spec fn pow256(k: nat) -> nat
    decreases k,
{
    if k == 0 {
        1
    } else {
        256 * pow256((k - 1) as nat)
    }
}

pub proof fn lemma_pow256()
    ensures
        pow256(0) == 1,
        pow256(2) == 0x1_0000,
        pow256(4) == 0x1_0000_0000,
        pow256(8) == 0x1_0000_0000_0000_0000,
{
    reveal_with_fuel(pow256, 9);
}

pub proof fn lemma_pow256_monotone(j: nat, k: nat)
    requires
        j <= k,
    ensures
        pow256(j) <= pow256(k),
    decreases k,
{
    if j < k {
        lemma_pow256_monotone(j, (k - 1) as nat);
    }
}

pub proof fn lemma_le_bytes_len(n: nat, k: nat)
    ensures
        le_bytes(n, k).len() == k,
    decreases k,
{
    if k > 0 {
        lemma_le_bytes_len(n / 256, (k - 1) as nat);
    }
}

pub proof fn lemma_le_value_bound(s: Seq<u8>)
    ensures
        le_value(s) < pow256(s.len()),
    decreases s.len(),
{
    if s.len() > 0 {
        lemma_le_value_bound(s.drop_first());
    }
}

pub proof fn lemma_le_value_of_bytes(n: nat, k: nat)
    requires
        n < pow256(k),
    ensures
        le_value(le_bytes(n, k)) == n,
    decreases k,
{
    if k > 0 {
        lemma_le_bytes_len(n / 256, (k - 1) as nat);
        lemma_le_value_of_bytes(n / 256, (k - 1) as nat);
        assert(le_bytes(n, k).drop_first() =~= le_bytes(n / 256, (k - 1) as nat));
    }
}

pub proof fn lemma_le_bytes_of_value(s: Seq<u8>)
    ensures
        le_bytes(le_value(s), s.len()) == s,
    decreases s.len(),
{
    if s.len() > 0 {
        lemma_le_bytes_of_value(s.drop_first());
        let n = le_value(s);
        assert(n % 256 == s[0] as nat && n / 256 == le_value(s.drop_first()));
        assert(seq![s[0]] + s.drop_first() =~= s);
    } else {
        assert(le_bytes(0, 0) =~= s);
    }
}

fn push_le(out: &mut Vec<u8>, n: u64, k: usize)
    ensures
        final(out)@ == old(out)@ + le_bytes(n as nat, k as nat),
{
    let mut m: u64 = n;
    let mut i: usize = 0;
    while i < k
        invariant
            i <= k,
            out@ + le_bytes(m as nat, (k - i) as nat) == old(out)@ + le_bytes(n as nat, k as nat),
        decreases k - i,
    {
        let ghost prior = out@;
        out.push((m % 256) as u8);
        proof {
            assert(prior + le_bytes(m as nat, (k - i) as nat) =~= out@ + le_bytes(
                (m / 256) as nat,
                (k - i - 1) as nat,
            ));
        }
        m = m / 256;
        i += 1;
    }
    proof {
        assert(out@ + le_bytes(m as nat, 0) =~= out@);
    }
}

fn read_le(d: &[u8], at: usize, k: usize) -> (r: u64)
    requires
        k <= 8,
        at + k <= d@.len(),
    ensures
        r == le_value(d@.subrange(at as int, at + k)),
{
    let mut r: u64 = 0;
    let mut i: usize = k;
    let end: usize = d.len();
    proof {
        assert(d@.subrange(at + k, at + k) =~= Seq::<u8>::empty());
    }
    while i > 0
        invariant
            i <= k <= 8,
            at + k <= end == d@.len(),
            r == le_value(d@.subrange(at + i, at + k)),
        decreases i,
    {
        let ghost s = d@.subrange(at + i - 1, at + k);
        proof {
            assert(s.drop_first() =~= d@.subrange(at + i, at + k));
            lemma_le_value_bound(s);
            lemma_pow256();
            lemma_pow256_monotone(s.len(), 8);
        }
        i -= 1;
        r = r * 256 + d[at + i] as u64;
    }
    r
}

/// How many bytes follow the marker byte of a length.
pub open spec fn varint_width(marker: u8) -> nat {
    if marker == 0xff {
        8
    } else if marker == 0xfe {
        4
    } else if marker == 0xfd {
        2
    } else {
        0
    }
}

/// The smallest number that needs the marker byte.
pub open spec fn varint_min(marker: u8) -> nat {
    if marker == 0xff {
        0x1_0000_0000
    } else if marker == 0xfe {
        0x1_0000
    } else {
        0xfd
    }
}

/// A length as it is written.
pub open spec fn varint_bytes(n: nat) -> Seq<u8> {
    if n < 0xfd {
        seq![n as u8]
    } else if n < 0x1_0000 {
        seq![0xfdu8] + le_bytes(n, 2)
    } else if n < 0x1_0000_0000 {
        seq![0xfeu8] + le_bytes(n, 4)
    } else {
        seq![0xffu8] + le_bytes(n, 8)
    }
}

/// The length at the start of `b`, and how many bytes it takes.
pub open spec fn parse_varint(b: Seq<u8>) -> Result<(u64, nat), DecodeError> {
    if b.len() == 0 {
        Err(DecodeError::UnexpectedEof)
    } else if varint_width(b[0]) == 0 {
        Ok((b[0] as u64, 1))
    } else if b.len() < 1 + varint_width(b[0]) {
        Err(DecodeError::UnexpectedEof)
    } else {
        let n = le_value(b.subrange(1, 1 + varint_width(b[0]) as int));
        if n < varint_min(b[0]) {
            Err(DecodeError::NonMinimalVarInt)
        } else {
            Ok((n as u64, 1 + varint_width(b[0])))
        }
    }
}

pub proof fn lemma_varint_round_trip(n: nat, rest: Seq<u8>)
    requires
        n <= u64::MAX,
    ensures
        parse_varint(varint_bytes(n) + rest) == Ok::<(u64, nat), DecodeError>(
            (n as u64, varint_bytes(n).len()),
        ),
{
    let b = varint_bytes(n) + rest;
    lemma_pow256();
    if n >= 0xfd {
        let w: nat = if n < 0x1_0000 {
            2
        } else if n < 0x1_0000_0000 {
            4
        } else {
            8
        };
        lemma_le_bytes_len(n, w);
        lemma_le_value_of_bytes(n, w);
        assert(varint_width(b[0]) == w);
        assert(b.subrange(1, 1 + w as int) =~= le_bytes(n, w));
    }
}

pub proof fn lemma_varint_canonical(b: Seq<u8>)
    requires
        parse_varint(b) is Ok,
    ensures
        parse_varint(b)->Ok_0.1 <= b.len(),
        b.take(parse_varint(b)->Ok_0.1 as int) == varint_bytes(parse_varint(b)->Ok_0.0 as nat),
{
    let (n, k) = parse_varint(b)->Ok_0;
    lemma_pow256();
    let w = varint_width(b[0]);
    if w == 0 {
        assert(b.take(1) =~= seq![b[0]]);
    } else {
        let s = b.subrange(1, 1 + w as int);
        lemma_le_value_bound(s);
        lemma_le_bytes_of_value(s);
        assert(n as nat == le_value(s));
        assert(b.take(1 + w as int) =~= seq![b[0]] + s);
    }
}

fn write_varint(s: &mut Vec<u8>, n: u64)
    ensures
        final(s)@ == old(s)@ + varint_bytes(n as nat),
{
    if n < 0xfd {
        s.push(n as u8);
        proof {
            assert(s@ =~= old(s)@ + varint_bytes(n as nat));
        }
    } else {
        let (marker, width): (u8, usize) = if n < 0x1_0000 {
            (0xfd, 2)
        } else if n < 0x1_0000_0000 {
            (0xfe, 4)
        } else {
            (0xff, 8)
        };
        s.push(marker);
        push_le(s, n, width);
        proof {
            assert(s@ =~= old(s)@ + (seq![marker] + le_bytes(n as nat, width as nat)));
        }
    }
}

fn read_varint(d: &[u8]) -> (r: Result<(u64, usize), DecodeError>)
    ensures
        match (r, parse_varint(d@)) {
            (Ok((n, k)), Ok((m, l))) => n == m && k == l && k <= d@.len(),
            (Err(e), Err(f)) => e == f,
            _ => false,
        },
{
    if d.len() == 0 {
        return Err(DecodeError::UnexpectedEof);
    }
    let marker: u8 = d[0];
    let (width, min): (usize, u64) = if marker == 0xff {
        (8, 0x1_0000_0000)
    } else if marker == 0xfe {
        (4, 0x1_0000)
    } else if marker == 0xfd {
        (2, 0xfd)
    } else {
        return Ok((marker as u64, 1));
    };
    if d.len() - 1 < width {
        return Err(DecodeError::UnexpectedEof);
    }
    let n: u64 = read_le(d, 1, width);
    if n < min {
        return Err(DecodeError::NonMinimalVarInt);
    }
    Ok((n, 1 + width))
}

/// `std::string::FromUtf8Error`, carried and not looked into.
#[verifier::external_type_specification]
#[verifier::external_body]
pub struct ExFromUtf8Error(std::string::FromUtf8Error);

/// Calls `String::from_utf8`, which gives back the string that the bytes encode if they are
/// UTF-8 and an error if they are not.
#[verifier::external_body]
fn string_from_utf8(bytes: Vec<u8>) -> (r: Result<String, std::string::FromUtf8Error>)
    ensures
        r is Ok <==> vstd::utf8::valid_utf8(bytes@),
        r matches Ok(s) ==> s@ == vstd::utf8::decode_utf8(bytes@),
{
    String::from_utf8(bytes)
}

/// A string as it is written.
pub open spec fn string_bytes(s: Seq<char>) -> Seq<u8> {
    varint_bytes(vstd::utf8::encode_utf8(s).len()) + vstd::utf8::encode_utf8(s)
}

/// The string at the start of `b`, and how many bytes it takes.
pub open spec fn parse_string(b: Seq<u8>) -> Result<(Seq<char>, nat), DecodeError> {
    match parse_varint(b) {
        Err(e) => Err(e),
        Ok((n, k)) => if b.len() < k + n {
            Err(DecodeError::UnexpectedEof)
        } else {
            let s = b.subrange(k as int, k + n);
            if vstd::utf8::valid_utf8(s) {
                Ok((vstd::utf8::decode_utf8(s), (k + n) as nat))
            } else {
                Err(DecodeError::InvalidUtf8)
            }
        },
    }
}

/// The string is short enough for its length to be written.
pub open spec fn string_fits(s: Seq<char>) -> bool {
    vstd::utf8::encode_utf8(s).len() <= u64::MAX
}

pub proof fn lemma_string_round_trip(s: Seq<char>, rest: Seq<u8>)
    requires
        string_fits(s),
    ensures
        parse_string(string_bytes(s) + rest) == Ok::<(Seq<char>, nat), DecodeError>(
            (s, string_bytes(s).len()),
        ),
{
    let u = vstd::utf8::encode_utf8(s);
    let v = varint_bytes(u.len());
    let b = string_bytes(s) + rest;
    lemma_varint_round_trip(u.len(), u + rest);
    assert(b =~= v + (u + rest));
    assert(b.subrange(v.len() as int, (v.len() + u.len()) as int) =~= u);
    vstd::utf8::encode_utf8_valid_utf8(s);
    vstd::utf8::encode_utf8_decode_utf8(s);
}

pub proof fn lemma_string_canonical(b: Seq<u8>)
    requires
        parse_string(b) is Ok,
    ensures
        parse_string(b)->Ok_0.1 <= b.len(),
        b.take(parse_string(b)->Ok_0.1 as int) == string_bytes(parse_string(b)->Ok_0.0),
        string_fits(parse_string(b)->Ok_0.0),
{
    lemma_varint_canonical(b);
    let (n, k) = parse_varint(b)->Ok_0;
    let s = b.subrange(k as int, k + n);
    vstd::utf8::decode_utf8_encode_utf8(s);
    assert(b.take(k + n) =~= b.take(k as int) + s);
}

fn push_bytes(s: &mut Vec<u8>, bytes: &[u8])
    ensures
        final(s)@ == old(s)@ + bytes@,
{
    let mut i: usize = 0;
    while i < bytes.len()
        invariant
            i <= bytes@.len(),
            s@ == old(s)@ + bytes@.take(i as int),
        decreases bytes@.len() - i,
    {
        s.push(bytes[i]);
        proof {
            assert(bytes@.take(i + 1) =~= bytes@.take(i as int).push(bytes@[i as int]));
        }
        i += 1;
    }
    proof {
        assert(bytes@.take(i as int) =~= bytes@);
    }
}

fn write_string(s: &mut Vec<u8>, text: &String)
    ensures
        final(s)@ == old(s)@ + string_bytes(text@),
{
    let bytes = text.as_str().as_bytes();
    write_varint(s, bytes.len() as u64);
    push_bytes(s, bytes);
    proof {
        assert(s@ =~= old(s)@ + string_bytes(text@));
    }
}

fn read_string(d: &[u8]) -> (r: Result<(String, usize), DecodeError>)
    ensures
        match (r, parse_string(d@)) {
            (Ok((s, k)), Ok((t, l))) => s@ == t && k == l && k <= d@.len(),
            (Err(e), Err(f)) => e == f,
            _ => false,
        },
{
    match read_varint(d) {
        Err(e) => Err(e),
        Ok((n, k)) => {
            if ((d.len() - k) as u64) < n {
                return Err(DecodeError::UnexpectedEof);
            }
            let end: usize = k + n as usize;
            let bytes: Vec<u8> = vstd::slice::slice_to_vec(slice_subrange(d, k, end));
            match string_from_utf8(bytes) {
                Ok(s) => Ok((s, end)),
                Err(_) => Err(DecodeError::InvalidUtf8),
            }
        },
    }
}

/// A private message as it is written: who sent it, then what was said.
pub open spec fn priv_msg_bytes(m: PrivMsgV) -> Seq<u8> {
    string_bytes(m.nick) + string_bytes(m.msg)
}

/// An action as it is written: its type byte, then its contents.
pub open spec fn action_bytes(a: ActionV) -> Seq<u8> {
    match a {
        ActionV::PrivMsg(m) => seq![PRIV_MSG_TYPE_ID] + priv_msg_bytes(m),
    }
}

/// An event as it is written: the previous id, the action, the time.
pub open spec fn event_bytes(e: EventV) -> Seq<u8> {
    e.previous_event_hash@ + action_bytes(e.action) + le_bytes(e.timestamp as nat, 8)
}

/// No character takes more than four bytes.
pub proof fn lemma_utf8_len(s: Seq<char>)
    ensures
        vstd::utf8::encode_utf8(s).len() <= 4 * s.len(),
    decreases s.len(),
{
    if s.len() > 0 {
        lemma_utf8_len(s.drop_first());
    }
}

/// How long a written string can be.
pub proof fn lemma_string_bytes_len(s: Seq<char>)
    ensures
        string_bytes(s).len() <= 9 + 4 * s.len(),
{
    let n = vstd::utf8::encode_utf8(s).len();
    lemma_utf8_len(s);
    lemma_le_bytes_len(n, 2);
    lemma_le_bytes_len(n, 4);
    lemma_le_bytes_len(n, 8);
}

/// How long a written event can be.
pub proof fn lemma_event_bytes_len(e: EventV)
    ensures
        e.action matches ActionV::PrivMsg(m) ==> event_bytes(e).len() <= 59 + 4 * m.nick.len() + 4
            * m.msg.len(),
{
    let ActionV::PrivMsg(m) = e.action;
    lemma_string_bytes_len(m.nick);
    lemma_string_bytes_len(m.msg);
    lemma_le_bytes_len(e.timestamp as nat, 8);
}

/// The private message at the start of `b`, and how many bytes it takes.
pub open spec fn parse_priv_msg(b: Seq<u8>) -> Result<(PrivMsgV, nat), DecodeError> {
    match parse_string(b) {
        Err(e) => Err(e),
        Ok((nick, k)) => match parse_string(b.skip(k as int)) {
            Err(e) => Err(e),
            Ok((msg, l)) => Ok((PrivMsgV { nick, msg }, k + l)),
        },
    }
}

/// The action at the start of `b`, and how many bytes it takes.
pub open spec fn parse_action(b: Seq<u8>) -> Result<(ActionV, nat), DecodeError> {
    if b.len() == 0 {
        Err(DecodeError::UnexpectedEof)
    } else if b[0] != PRIV_MSG_TYPE_ID {
        Err(DecodeError::BadTypeId)
    } else {
        match parse_priv_msg(b.skip(1)) {
            Err(e) => Err(e),
            Ok((m, k)) => Ok((ActionV::PrivMsg(m), 1 + k)),
        }
    }
}

/// The id that 32 bytes write.
pub open spec fn id_of(s: Seq<u8>) -> EventId {
    choose|id: EventId| id@ == s
}

/// The event at the start of `b`, and how many bytes it takes.
pub open spec fn parse_event(b: Seq<u8>) -> Result<(EventV, nat), DecodeError> {
    if b.len() < 32 {
        Err(DecodeError::UnexpectedEof)
    } else {
        match parse_action(b.skip(32)) {
            Err(e) => Err(e),
            Ok((action, k)) => if b.len() < 32 + k + 8 {
                Err(DecodeError::UnexpectedEof)
            } else {
                Ok(
                    (
                        EventV {
                            previous_event_hash: id_of(b.take(32)),
                            action,
                            timestamp: le_value(b.subrange(32 + k as int, 40 + k as int)) as u64,
                        },
                        32 + k + 8,
                    ),
                )
            },
        }
    }
}

/// The strings of the action are short enough for their lengths to be written.
pub open spec fn action_fits(a: ActionV) -> bool {
    match a {
        ActionV::PrivMsg(m) => string_fits(m.nick) && string_fits(m.msg),
    }
}

pub proof fn lemma_id_of(id: EventId)
    ensures
        id_of(id@) == id,
{
    let other = id_of(id@);
    assert(other@ == id@);
    assert forall|i: int| 0 <= i < 32 implies other[i] == id[i] by {
        assert(other@[i] == id@[i]);
    }
    assert(other =~= id);
}

/// What is read back from a written private message is that message, whatever bytes follow.
pub proof fn law_priv_msg_round_trip(m: PrivMsgV, rest: Seq<u8>)
    requires
        string_fits(m.nick),
        string_fits(m.msg),
    ensures
        parse_priv_msg(priv_msg_bytes(m) + rest) == Ok::<(PrivMsgV, nat), DecodeError>(
            (m, priv_msg_bytes(m).len()),
        ),
{
    let n = string_bytes(m.nick);
    let t = string_bytes(m.msg);
    let b = priv_msg_bytes(m) + rest;
    assert(b =~= n + (t + rest));
    lemma_string_round_trip(m.nick, t + rest);
    assert(b.skip(n.len() as int) =~= t + rest);
    lemma_string_round_trip(m.msg, rest);
}

/// What is read back from a written action is that action, whatever bytes follow.
pub proof fn law_action_round_trip(a: ActionV, rest: Seq<u8>)
    requires
        action_fits(a),
    ensures
        parse_action(action_bytes(a) + rest) == Ok::<(ActionV, nat), DecodeError>(
            (a, action_bytes(a).len()),
        ),
{
    let ActionV::PrivMsg(m) = a;
    law_priv_msg_round_trip(m, rest);
    assert((action_bytes(a) + rest).skip(1) =~= priv_msg_bytes(m) + rest);
}

/// What is read back from a written event is that event, whatever bytes follow.
pub proof fn law_event_round_trip(e: EventV, rest: Seq<u8>)
    requires
        action_fits(e.action),
    ensures
        parse_event(event_bytes(e) + rest) == Ok::<(EventV, nat), DecodeError>(
            (e, event_bytes(e).len()),
        ),
{
    let p = e.previous_event_hash@;
    let a = action_bytes(e.action);
    let t = le_bytes(e.timestamp as nat, 8);
    let b = event_bytes(e) + rest;
    lemma_le_bytes_len(e.timestamp as nat, 8);
    lemma_pow256();
    lemma_le_value_of_bytes(e.timestamp as nat, 8);
    assert(b.take(32) =~= p);
    lemma_id_of(e.previous_event_hash);
    assert(b.skip(32) =~= a + (t + rest));
    law_action_round_trip(e.action, t + rest);
    assert(b.subrange(32 + a.len() as int, 40 + a.len() as int) =~= t);
}

/// An action that can be read is written in exactly one way: the bytes it was read from.
pub proof fn law_action_canonical(b: Seq<u8>)
    requires
        parse_action(b) is Ok,
    ensures
        parse_action(b)->Ok_0.1 <= b.len(),
        b.take(parse_action(b)->Ok_0.1 as int) == action_bytes(parse_action(b)->Ok_0.0),
        action_fits(parse_action(b)->Ok_0.0),
{
    let c = b.skip(1);
    lemma_string_canonical(c);
    let (nick, k) = parse_string(c)->Ok_0;
    let d = c.skip(k as int);
    lemma_string_canonical(d);
    let (msg, l) = parse_string(d)->Ok_0;
    assert(b.take((1 + k + l) as int) =~= seq![b[0]] + (c.take(k as int) + d.take(l as int)));
}

/// An event that can be read is written in exactly one way: the bytes it was read from.
pub proof fn law_event_canonical(b: Seq<u8>)
    requires
        parse_event(b) is Ok,
    ensures
        parse_event(b)->Ok_0.1 <= b.len(),
        b.take(parse_event(b)->Ok_0.1 as int) == event_bytes(parse_event(b)->Ok_0.0),
        action_fits(parse_event(b)->Ok_0.0.action),
{
    let (e, n) = parse_event(b)->Ok_0;
    let c = b.skip(32);
    law_action_canonical(c);
    let (a, k) = parse_action(c)->Ok_0;
    let t = b.subrange(32 + k as int, 40 + k as int);
    lemma_le_value_bound(t);
    lemma_pow256();
    lemma_le_bytes_of_value(t);
    lemma_id_bytes(b.take(32));
    assert(b.take(n as int) =~= b.take(32) + c.take(k as int) + t);
}

/// Different events are written differently.
pub proof fn law_encoding_injective(e: EventV, f: EventV)
    requires
        action_fits(e.action),
        action_fits(f.action),
        event_bytes(e) == event_bytes(f),
    ensures
        e == f,
{
    law_event_round_trip(e, Seq::empty());
    law_event_round_trip(f, Seq::empty());
}

/// An id whose first `k` bytes are those of `s`.
spec fn id_from(s: Seq<u8>, k: nat) -> EventId
    decreases k,
{
    if k == 0 {
        vstd::pervasive::arbitrary()
    } else {
        vstd::array::spec_array_update(id_from(s, (k - 1) as nat), k - 1, s[k - 1])
    }
}

proof fn lemma_id_from(s: Seq<u8>, k: nat)
    requires
        k <= 32,
        s.len() == 32,
    ensures
        forall|i: int| 0 <= i < k ==> id_from(s, k)@[i] == s[i],
    decreases k,
{
    if k > 0 {
        lemma_id_from(s, (k - 1) as nat);
    }
}

/// Every 32 bytes are the bytes of an id.
pub proof fn lemma_id_bytes(s: Seq<u8>)
    requires
        s.len() == 32,
    ensures
        id_of(s)@ == s,
{
    let id = id_from(s, 32);
    lemma_id_from(s, 32);
    assert(id@ =~= s);
}

impl PrivMsgEvent {
    /// Appends the message to `s` and says how many bytes that took.
    pub fn encode(&self, s: &mut Vec<u8>) -> (len: usize)
        ensures
            final(s)@ == old(s)@ + priv_msg_bytes(self@),
            len == priv_msg_bytes(self@).len(),
    {
        let start: usize = s.len();
        write_string(s, &self.nick);
        write_string(s, &self.msg);
        proof {
            assert(s@ =~= old(s)@ + priv_msg_bytes(self@));
        }
        s.len() - start
    }

    /// Reads the message at the start of `d` and says how many bytes it took.
    pub fn decode(d: &[u8]) -> (r: Result<(PrivMsgEvent, usize), DecodeError>)
        ensures
            match (r, parse_priv_msg(d@)) {
                (Ok((m, k)), Ok((n, l))) => m@ == n && k == l && k <= d@.len(),
                (Err(e), Err(f)) => e == f,
                _ => false,
            },
    {
        let (nick, k) = match read_string(d) {
            Ok(r) => r,
            Err(e) => return Err(e),
        };
        let rest = slice_subrange(d, k, d.len());
        proof {
            assert(rest@ =~= d@.skip(k as int));
        }
        let (msg, l) = match read_string(rest) {
            Ok(r) => r,
            Err(e) => return Err(e),
        };
        Ok((PrivMsgEvent { nick, msg }, k + l))
    }
}

impl EventAction {
    /// Appends the action to `s` and says how many bytes that took.
    pub fn encode(&self, s: &mut Vec<u8>) -> (len: usize)
        ensures
            final(s)@ == old(s)@ + action_bytes(self@),
            len == action_bytes(self@).len(),
    {
        match self {
            EventAction::PrivMsg(event) => {
                s.push(PRIV_MSG_TYPE_ID);
                let len: usize = event.encode(s);
                proof {
                    assert(s@ =~= old(s)@ + action_bytes(self@));
                    assert(s.len() == s@.len());
                }
                1 + len
            },
        }
    }

    /// Reads the action at the start of `d` and says how many bytes it took.
    pub fn decode(d: &[u8]) -> (r: Result<(EventAction, usize), DecodeError>)
        ensures
            match (r, parse_action(d@)) {
                (Ok((a, k)), Ok((b, l))) => a@ == b && k == l && k <= d@.len(),
                (Err(e), Err(f)) => e == f,
                _ => false,
            },
    {
        if d.len() == 0 {
            return Err(DecodeError::UnexpectedEof);
        }
        if d[0] != PRIV_MSG_TYPE_ID {
            return Err(DecodeError::BadTypeId);
        }
        let rest = slice_subrange(d, 1, d.len());
        proof {
            assert(rest@ =~= d@.skip(1));
        }
        match PrivMsgEvent::decode(rest) {
            Ok((event, k)) => Ok((EventAction::PrivMsg(event), 1 + k)),
            Err(e) => Err(e),
        }
    }
}

impl Event {
    /// Appends the event to `s` and says how many bytes that took.
    pub fn encode(&self, s: &mut Vec<u8>) -> (len: usize)
        ensures
            final(s)@ == old(s)@ + event_bytes(self@),
            len == event_bytes(self@).len(),
    {
        let start: usize = s.len();
        push_bytes(s, self.previous_event_hash.as_slice());
        let _ = self.action.encode(s);
        push_le(s, self.timestamp, 8);
        proof {
            assert(s@ =~= old(s)@ + event_bytes(self@));
        }
        s.len() - start
    }

    /// Reads the event at the start of `d` and says how many bytes it took.
    pub fn decode(d: &[u8]) -> (r: Result<(Event, usize), DecodeError>)
        ensures
            match (r, parse_event(d@)) {
                (Ok((a, k)), Ok((b, l))) => a@ == b && k == l && k <= d@.len(),
                (Err(e), Err(f)) => e == f,
                _ => false,
            },
    {
        if d.len() < 32 {
            return Err(DecodeError::UnexpectedEof);
        }
        let mut previous_event_hash: EventId = [0u8;32];
        let mut i: usize = 0;
        while i < 32
            invariant
                i <= 32,
                32 <= d@.len(),
                forall|j: int| 0 <= j < i ==> previous_event_hash@[j] == d@[j],
            decreases 32 - i,
        {
            previous_event_hash[i] = d[i];
            i += 1;
        }
        proof {
            assert(previous_event_hash@ =~= d@.take(32));
            lemma_id_of(previous_event_hash);
        }
        let rest = slice_subrange(d, 32, d.len());
        proof {
            assert(rest@ =~= d@.skip(32));
        }
        let (action, k) = match EventAction::decode(rest) {
            Ok(r) => r,
            Err(e) => return Err(e),
        };
        if rest.len() - k < 8 {
            return Err(DecodeError::UnexpectedEof);
        }
        let timestamp: u64 = read_le(d, 32 + k, 8);
        Ok((Event { previous_event_hash, action, timestamp }, 32 + k + 8))
    }
}

} // verus!
