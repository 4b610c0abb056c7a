//! What events look like when they are written, byte by byte, and when they are shown, character
//! by character.

use vstd::prelude::*;

use crate::event::{ActionV, EventId, EventV, PrivMsgV};
use crate::serial::{self, DecodeError};
use crate::tree::Tree;

verus! {

/// The number that the two bytes of `b` from `at` on write, the least significant first.
pub open spec fn two_bytes(b: Seq<u8>, at: int) -> int {
    b[at] + 0x100 * b[at + 1]
}

/// The number that the four bytes of `b` from `at` on write, the least significant first.
pub open spec fn four_bytes(b: Seq<u8>, at: int) -> int {
    two_bytes(b, at) + 0x1_0000 * two_bytes(b, at + 2)
}

/// The number that the eight bytes of `b` from `at` on write, the least significant first.
pub open spec fn eight_bytes(b: Seq<u8>, at: int) -> int {
    four_bytes(b, at) + 0x1_0000_0000 * four_bytes(b, at + 4)
}

/// What a few bytes are read as.
proof fn lemma_values(s: Seq<u8>)
    ensures
        s.len() == 2 ==> serial::le_value(s) == two_bytes(s, 0),
        s.len() == 4 ==> serial::le_value(s) == four_bytes(s, 0),
        s.len() == 8 ==> serial::le_value(s) == eight_bytes(s, 0),
{
    reveal_with_fuel(serial::le_value, 9);
    if s.len() == 2 || s.len() == 4 || s.len() == 8 {
        let s1 = s.drop_first();
        let s2 = s1.drop_first();
        assert(s1[0] == s[1]);
        if s.len() > 2 {
            let s3 = s2.drop_first();
            let s4 = s3.drop_first();
            assert(s2[0] == s[2] && s3[0] == s[3]);
            if s.len() > 4 {
                let s5 = s4.drop_first();
                let s6 = s5.drop_first();
                let s7 = s6.drop_first();
                assert(s4[0] == s[4] && s5[0] == s[5] && s6[0] == s[6] && s7[0] == s[7]);
            }
        }
    }
}

/// A number below 0xfd is written as one byte. A larger one is written after a marker byte, the
/// least significant byte first: after 0xfd in two bytes, after 0xfe in four if two are too few,
/// and after 0xff in eight if four are too few.
pub proof fn law_length_layout(n: nat)
    requires
        n <= u64::MAX,
    ensures
        ({
            let b = serial::varint_bytes(n);
            &&& n < 0xfd ==> b.len() == 1 && b[0] == n
            &&& 0xfd <= n < 0x1_0000 ==> b.len() == 3 && b[0] == 0xfd && two_bytes(b, 1) == n
            &&& 0x1_0000 <= n < 0x1_0000_0000 ==> b.len() == 5 && b[0] == 0xfe && four_bytes(b, 1)
                == n
            &&& 0x1_0000_0000 <= n ==> b.len() == 9 && b[0] == 0xff && eight_bytes(b, 1) == n
        }),
{
    serial::lemma_pow256();
    let b = serial::varint_bytes(n);
    if n >= 0xfd {
        let w: nat = if n < 0x1_0000 {
            2
        } else if n < 0x1_0000_0000 {
            4
        } else {
            8
        };
        let s = serial::le_bytes(n, w);
        serial::lemma_le_bytes_len(n, w);
        serial::lemma_le_value_of_bytes(n, w);
        lemma_values(s);
        assert forall|i: int| 0 <= i < w implies b[1 + i] == #[trigger] s[i] by {}
        assert(b[1] == s[0] && b[2] == s[1]);
        if w > 2 {
            assert(b[3] == s[2] && b[4] == s[3]);
        }
        if w > 4 {
            assert(b[5] == s[4] && b[6] == s[5] && b[7] == s[6] && b[8] == s[7]);
        }
    }
}

/// A string is written as the number of its UTF-8 bytes, then those bytes.
pub open spec fn written(s: Seq<char>) -> Seq<u8> {
    serial::varint_bytes(vstd::utf8::encode_utf8(s).len()) + vstd::utf8::encode_utf8(s)
}

/// A message is written as its nick and then what is said.
pub proof fn law_message_layout(m: PrivMsgV)
    ensures
        serial::priv_msg_bytes(m) == written(m.nick) + written(m.msg),
{
}

/// An action is written as the byte 0 and then its message.
pub proof fn law_action_layout(m: PrivMsgV)
    ensures
        serial::action_bytes(ActionV::PrivMsg(m)) == seq![0u8] + (written(m.nick) + written(
            m.msg,
        )),
{
}

/// An event is written as the 32 bytes of the previous id, the byte 0, the nick, what is said, and
/// eight bytes for the time, the least significant first.
pub proof fn law_event_layout(e: EventV, m: PrivMsgV)
    requires
        e.action == ActionV::PrivMsg(m),
    ensures
        ({
            let b = serial::event_bytes(e);
            let n = written(m.nick);
            let s = written(m.msg);
            &&& b.len() == 32 + 1 + n.len() + s.len() + 8
            &&& b.take(32) == e.previous_event_hash@
            &&& b[32] == 0
            &&& b.subrange(33, 33 + n.len() as int) == n
            &&& b.subrange(33 + n.len() as int, 33 + n.len() as int + s.len() as int) == s
            &&& eight_bytes(b, 33 + n.len() as int + s.len() as int) == e.timestamp
        }),
{
    let b = serial::event_bytes(e);
    let n = written(m.nick);
    let s = written(m.msg);
    let t = serial::le_bytes(e.timestamp as nat, 8);
    serial::lemma_pow256();
    serial::lemma_le_bytes_len(e.timestamp as nat, 8);
    serial::lemma_le_value_of_bytes(e.timestamp as nat, 8);
    lemma_values(t);
    let at: int = 33 + n.len() as int + s.len() as int;
    assert(b =~= e.previous_event_hash@ + seq![0u8] + n + s + t);
    assert(b.take(32) =~= e.previous_event_hash@);
    assert(b.subrange(33, 33 + n.len() as int) =~= n);
    assert(b.subrange(33 + n.len() as int, 33 + n.len() as int + s.len() as int) =~= s);
    assert forall|i: int| 0 <= i < 8 implies b[at + i] == #[trigger] t[i] by {}
    assert(b[at] == t[0] && b[at + 1] == t[1] && b[at + 2] == t[2] && b[at + 3] == t[3] && b[at
        + 4] == t[4] && b[at + 5] == t[5] && b[at + 6] == t[6] && b[at + 7] == t[7]);
}

/// The id of an event is the digest of the bytes that it is written as, and can be had if there
/// are fewer than 2^61 of them.
pub proof fn law_id_is_the_digest_of_the_bytes(e: EventV)
    ensures
        crate::event::event_id(e) == crate::digest::ripemd256(serial::event_bytes(e)),
        crate::event::hashable(e) <==> serial::event_bytes(e).len() < 0x2000_0000_0000_0000,
{
}

/// The UTF-8 bytes of the string can be counted in 64 bits.
pub open spec fn countable(s: Seq<char>) -> bool {
    vstd::utf8::encode_utf8(s).len() <= 0xffff_ffff_ffff_ffff
}

/// A message is read from the start of `b` exactly if `b` starts with what it is written as.
pub proof fn law_reading_a_message(b: Seq<u8>, m: PrivMsgV, k: nat)
    ensures
        serial::parse_priv_msg(b) == Ok::<(PrivMsgV, nat), DecodeError>((m, k)) <==> {
            let w = written(m.nick) + written(m.msg);
            countable(m.nick) && countable(m.msg) && k == w.len() && k <= b.len() && b.take(
                k as int,
            ) == w
        },
{
    let w = written(m.nick) + written(m.msg);
    if serial::parse_priv_msg(b) == Ok::<(PrivMsgV, nat), DecodeError>((m, k)) {
        let c = seq![0u8] + b;
        assert(c.skip(1) =~= b);
        serial::law_action_canonical(c);
        assert(b.take(k as int) =~= c.take(1 + k as int).skip(1));
        assert((seq![0u8] + w).skip(1) =~= w);
    }
    if countable(m.nick) && countable(m.msg) && k == w.len() && k <= b.len() && b.take(k as int)
        == w {
        assert(b =~= w + b.skip(k as int));
        serial::law_priv_msg_round_trip(m, b.skip(k as int));
    }
}

/// An action is read from the start of `b` exactly if `b` starts with the byte 0 and what its
/// message is written as.
pub proof fn law_reading_an_action(b: Seq<u8>, m: PrivMsgV, k: nat)
    ensures
        serial::parse_action(b) == Ok::<(ActionV, nat), DecodeError>((ActionV::PrivMsg(m), k))
            <==> {
            let w = seq![0u8] + (written(m.nick) + written(m.msg));
            countable(m.nick) && countable(m.msg) && k == w.len() && k <= b.len() && b.take(
                k as int,
            ) == w
        },
{
    let a = ActionV::PrivMsg(m);
    let w = seq![0u8] + (written(m.nick) + written(m.msg));
    if serial::parse_action(b) == Ok::<(ActionV, nat), DecodeError>((a, k)) {
        serial::law_action_canonical(b);
    }
    if countable(m.nick) && countable(m.msg) && k == w.len() && k <= b.len() && b.take(k as int)
        == w {
        assert(b =~= w + b.skip(k as int));
        serial::law_action_round_trip(a, b.skip(k as int));
    }
}

/// An event is read from the start of `b` exactly if `b` starts with what it is written as.
pub proof fn law_reading_an_event(b: Seq<u8>, e: EventV, m: PrivMsgV, k: nat)
    requires
        e.action == ActionV::PrivMsg(m),
    ensures
        serial::parse_event(b) == Ok::<(EventV, nat), DecodeError>((e, k)) <==> {
            let w = serial::event_bytes(e);
            countable(m.nick) && countable(m.msg) && k == w.len() && k <= b.len() && b.take(
                k as int,
            ) == w
        },
{
    let w = serial::event_bytes(e);
    if serial::parse_event(b) == Ok::<(EventV, nat), DecodeError>((e, k)) {
        serial::law_event_canonical(b);
    }
    if countable(m.nick) && countable(m.msg) && k == w.len() && k <= b.len() && b.take(k as int)
        == w {
        assert(b =~= w + b.skip(k as int));
        serial::law_event_round_trip(e, b.skip(k as int));
    }
}

/// Bytes whose type byte is not 0 are refused for that, and no others are.
pub proof fn law_unknown_type(b: Seq<u8>)
    ensures
        serial::parse_action(b) == Err::<(ActionV, nat), DecodeError>(DecodeError::BadTypeId)
            <==> b.len() > 0 && b[0] != 0,
        serial::parse_event(b) == Err::<(EventV, nat), DecodeError>(DecodeError::BadTypeId)
            <==> b.len() > 32 && b[32] != 0,
        serial::parse_priv_msg(b) != Err::<(PrivMsgV, nat), DecodeError>(DecodeError::BadTypeId),
{
}

/// What is wrong with a message is wrong with the action that holds it, and what is wrong with an
/// action is wrong with the event that holds it.
pub proof fn law_errors_pass_on(id: EventId, b: Seq<u8>, x: DecodeError)
    ensures
        serial::parse_action(seq![0u8] + b) == Err::<(ActionV, nat), DecodeError>(x)
            <==> serial::parse_priv_msg(b) == Err::<(PrivMsgV, nat), DecodeError>(x),
        serial::parse_action(b) == Err::<(ActionV, nat), DecodeError>(x) ==> serial::parse_event(
            id@ + b,
        ) == Err::<(EventV, nat), DecodeError>(x),
{
    assert((seq![0u8] + b).skip(1) =~= b);
    assert((id@ + b).skip(32) =~= b);
}

proof fn lemma_length_cut(n: nat, k: int)
    requires
        n <= u64::MAX,
        0 <= k < serial::varint_bytes(n).len(),
    ensures
        serial::parse_varint(serial::varint_bytes(n).take(k)) == Err::<(u64, nat), DecodeError>(
            DecodeError::UnexpectedEof,
        ),
{
    law_length_layout(n);
}

proof fn lemma_string_cut(s: Seq<char>, k: int)
    requires
        countable(s),
        0 <= k < written(s).len(),
    ensures
        serial::parse_string(written(s).take(k)) == Err::<(Seq<char>, nat), DecodeError>(
            DecodeError::UnexpectedEof,
        ),
{
    let u = vstd::utf8::encode_utf8(s);
    let v = serial::varint_bytes(u.len());
    let b = written(s).take(k);
    if k < v.len() {
        lemma_length_cut(u.len(), k);
        assert(b =~= v.take(k));
    } else {
        let c = u.take(k - v.len());
        assert(b =~= v + c);
        serial::lemma_varint_round_trip(u.len(), c);
    }
}

/// A message that is cut off anywhere is refused because it ends too early.
pub proof fn law_cut_off_message(m: PrivMsgV, k: int)
    requires
        countable(m.nick),
        countable(m.msg),
        0 <= k < serial::priv_msg_bytes(m).len(),
    ensures
        serial::parse_priv_msg(serial::priv_msg_bytes(m).take(k)) == Err::<
            (PrivMsgV, nat),
            DecodeError,
        >(DecodeError::UnexpectedEof),
{
    let n = written(m.nick);
    let b = serial::priv_msg_bytes(m).take(k);
    if k < n.len() {
        lemma_string_cut(m.nick, k);
        assert(b =~= n.take(k));
    } else {
        let c = written(m.msg).take(k - n.len());
        assert(b =~= n + c);
        serial::lemma_string_round_trip(m.nick, c);
        assert(b.skip(n.len() as int) =~= c);
        lemma_string_cut(m.msg, k - n.len());
    }
}

/// An action that is cut off anywhere is refused because it ends too early.
pub proof fn law_cut_off_action(m: PrivMsgV, k: int)
    requires
        countable(m.nick),
        countable(m.msg),
        0 <= k < serial::action_bytes(ActionV::PrivMsg(m)).len(),
    ensures
        serial::parse_action(serial::action_bytes(ActionV::PrivMsg(m)).take(k)) == Err::<
            (ActionV, nat),
            DecodeError,
        >(DecodeError::UnexpectedEof),
{
    if k > 0 {
        law_cut_off_message(m, k - 1);
        assert(serial::action_bytes(ActionV::PrivMsg(m)).take(k).skip(1)
            =~= serial::priv_msg_bytes(m).take(k - 1));
    }
}

/// An event that is cut off anywhere is refused because it ends too early.
pub proof fn law_cut_off_event(e: EventV, m: PrivMsgV, k: int)
    requires
        e.action == ActionV::PrivMsg(m),
        countable(m.nick),
        countable(m.msg),
        0 <= k < serial::event_bytes(e).len(),
    ensures
        serial::parse_event(serial::event_bytes(e).take(k)) == Err::<(EventV, nat), DecodeError>(
            DecodeError::UnexpectedEof,
        ),
{
    let a = serial::action_bytes(e.action);
    let t = serial::le_bytes(e.timestamp as nat, 8);
    let b = serial::event_bytes(e).take(k);
    serial::lemma_le_bytes_len(e.timestamp as nat, 8);
    if k >= 32 {
        let c = b.skip(32);
        if k - 32 < a.len() {
            law_cut_off_action(m, k - 32);
            assert(c =~= a.take(k - 32));
        } else {
            let d = t.take(k - 32 - a.len());
            assert(c =~= a + d);
            serial::law_action_round_trip(e.action, d);
        }
    }
}

/// A message whose nick, or whose text after a nick, is not UTF-8 is refused for that.
pub proof fn law_text_that_is_no_text(nick: Seq<char>, u: Seq<u8>, rest: Seq<u8>)
    requires
        countable(nick),
        u.len() <= u64::MAX,
        !vstd::utf8::valid_utf8(u),
    ensures
        ({
            let b = serial::varint_bytes(u.len()) + u + rest;
            let refused = Err::<(PrivMsgV, nat), DecodeError>(DecodeError::InvalidUtf8);
            serial::parse_priv_msg(b) == refused && serial::parse_priv_msg(written(nick) + b)
                == refused
        }),
{
    let v = serial::varint_bytes(u.len());
    let b = v + u + rest;
    assert(b =~= v + (u + rest));
    serial::lemma_varint_round_trip(u.len(), u + rest);
    assert(b.subrange(v.len() as int, v.len() + u.len() as int) =~= u);
    serial::lemma_string_round_trip(nick, b);
    assert((written(nick) + b).skip(written(nick).len() as int) =~= b);
}

/// A number that stands after a marker byte although a shorter form could hold it.
pub open spec fn too_long(b: Seq<u8>) -> bool {
    ||| b.len() >= 3 && b[0] == 0xfd && two_bytes(b, 1) < 0xfd
    ||| b.len() >= 5 && b[0] == 0xfe && four_bytes(b, 1) < 0x1_0000
    ||| b.len() >= 9 && b[0] == 0xff && eight_bytes(b, 1) < 0x1_0000_0000
}

/// A message whose nick, or whose text after a nick, starts with a length in a longer form than it
/// needs is refused for that.
pub proof fn law_length_in_too_long_a_form(nick: Seq<char>, b: Seq<u8>)
    requires
        countable(nick),
        too_long(b),
    ensures
        ({
            let refused = Err::<(PrivMsgV, nat), DecodeError>(DecodeError::NonMinimalVarInt);
            serial::parse_priv_msg(b) == refused && serial::parse_priv_msg(written(nick) + b)
                == refused
        }),
{
    let w: int = if b[0] == 0xfd {
        2
    } else if b[0] == 0xfe {
        4
    } else {
        8
    };
    let s = b.subrange(1, 1 + w);
    lemma_values(s);
    assert forall|i: int| 0 <= i < w implies #[trigger] s[i] == b[1 + i] by {}
    assert(s[0] == b[1] && s[1] == b[2]);
    if w > 2 {
        assert(s[2] == b[3] && s[3] == b[4]);
    }
    if w > 4 {
        assert(s[4] == b[5] && s[5] == b[6] && s[6] == b[7] && s[7] == b[8]);
    }
    serial::lemma_string_round_trip(nick, b);
    assert((written(nick) + b).skip(written(nick).len() as int) =~= b);
}

/// What is said of a type byte that is not known.
pub proof fn law_words_for_an_unknown_type()
    ensures
        serial::error_text(DecodeError::BadTypeId) == seq![
            'B', 'a', 'd', ' ', 't', 'y', 'p', 'e', ' ', 'I', 'D', ' ', 'b', 'y', 't', 'e', ' ',
            'f', 'o', 'r', ' ', 'E', 'v', 'e', 'n', 't',
        ],
{
    reveal_strlit("Bad type ID byte for Event");
    assert("Bad type ID byte for Event"@ =~= seq![
        'B', 'a', 'd', ' ', 't', 'y', 'p', 'e', ' ', 'I', 'D', ' ', 'b', 'y', 't', 'e', ' ', 'f',
        'o', 'r', ' ', 'E', 'v', 'e', 'n', 't',
    ]);
}

/// The number that decimal digits write.
pub open spec fn number(s: Seq<char>) -> int
    decreases s.len(),
{
    if s.len() == 0 {
        0
    } else {
        10 * number(s.drop_last()) + (s.last() as int - '0' as int)
    }
}

/// A number in decimal is made of digits, says the number, and has no leading zero.
pub proof fn law_decimal(n: nat)
    ensures
        ({
            let s = crate::text::decimal(n);
            &&& s.len() > 0
            &&& forall|i: int| 0 <= i < s.len() ==> '0' <= #[trigger] s[i] <= '9'
            &&& number(s) == n
            &&& n > 0 ==> s[0] != '0'
            &&& n == 0 ==> s.len() == 1
        }),
    decreases n,
{
    let s = crate::text::decimal(n);
    reveal_with_fuel(number, 2);
    if n < 10 {
        assert(s.drop_last() =~= Seq::empty());
        assert(s.last() == s[0]);
    } else {
        law_decimal(n / 10);
        assert(s.drop_last() =~= crate::text::decimal(n / 10));
    }
}

/// An event is shown as its nick, what is said and the time in decimal, in the fixed words around
/// them.
pub proof fn law_event_as_shown(e: EventV, m: PrivMsgV)
    requires
        e.action == ActionV::PrivMsg(m),
    ensures
        crate::text::event_text(e) == seq!['P', 'R', 'I', 'V', 'M', 'S', 'G', ' '] + m.nick + seq![
            ':',
            ' ',
        ] + m.msg + seq![' ', '('] + crate::text::decimal(e.timestamp as nat) + seq![')'],
{
    reveal_strlit("PRIVMSG ");
    reveal_strlit(": ");
    reveal_strlit(" (");
    reveal_strlit(")");
    assert("PRIVMSG "@ =~= seq!['P', 'R', 'I', 'V', 'M', 'S', 'G', ' ']);
    assert(": "@ =~= seq![':', ' ']);
    assert(" ("@ =~= seq![' ', '(']);
    assert(")"@ =~= seq![')']);
}

/// What a hexadecimal digit stands for.
pub open spec fn hex_value(c: char) -> int {
    if '0' <= c <= '9' {
        c as int - '0' as int
    } else {
        c as int - 'a' as int + 10
    }
}

/// Bytes in hexadecimal have two lower-case digits each, the high one first.
pub proof fn law_hex(data: Seq<u8>, i: int)
    requires
        0 <= i < data.len(),
    ensures
        ({
            let s = crate::digest::hex_text(data);
            let high = s[2 * i];
            let low = s[2 * i + 1];
            &&& s.len() == 2 * data.len()
            &&& '0' <= high <= '9' || 'a' <= high <= 'f'
            &&& '0' <= low <= '9' || 'a' <= low <= 'f'
            &&& 16 * hex_value(high) + hex_value(low) == data[i]
        }),
{
    let s = crate::digest::hex_text(data);
    assert((2 * i) % 2 == 0 && (2 * i) / 2 == i);
    assert((2 * i + 1) % 2 == 1 && (2 * i + 1) / 2 == i);
}

/// A node is shown as its id in hexadecimal, its event and how deep it stands.
pub proof fn law_node_as_shown(t: Tree, id: EventId)
    ensures
        crate::model::node_text(t, id) == crate::digest::hex_text(id@) + seq![':', ' ']
            + crate::text::event_text(t.nodes[id].event) + seq![
            ' ', '[', 'd', 'e', 'p', 't', 'h', '=',
        ] + crate::text::decimal(t.depth(id)) + seq![']'],
{
    reveal_strlit(": ");
    reveal_strlit(" [depth=");
    reveal_strlit("]");
    assert(": "@ =~= seq![':', ' ']);
    assert(" [depth="@ =~= seq![' ', '[', 'd', 'e', 'p', 't', 'h', '=']);
    assert("]"@ =~= seq![']']);
}

} // verus!
