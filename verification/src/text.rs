//! How events and numbers are shown.

use vstd::prelude::*;
use vstd::string::StringExecFns;

use crate::event::{Event, EventAction};

verus! {

/// The decimal digit for `n`.
pub open spec fn digit(n: nat) -> char {
    ('0' as nat + n) as char
}

/// `n` in decimal, without leading zeros.
pub open spec fn decimal(n: nat) -> Seq<char>
    decreases n,
{
    if n < 10 {
        seq![digit(n)]
    } else {
        decimal(n / 10).push(digit(n % 10))
    }
}

fn digit_text(n: u64) -> (r: &'static str)
    requires
        n < 10,
    ensures
        r@ == seq![digit(n as nat)],
{
    proof {
        reveal_strlit("0");
        reveal_strlit("1");
        reveal_strlit("2");
        reveal_strlit("3");
        reveal_strlit("4");
        reveal_strlit("5");
        reveal_strlit("6");
        reveal_strlit("7");
        reveal_strlit("8");
        reveal_strlit("9");
    }
    let r = match n {
        0 => "0",
        1 => "1",
        2 => "2",
        3 => "3",
        4 => "4",
        5 => "5",
        6 => "6",
        7 => "7",
        8 => "8",
        _ => "9",
    };
    proof {
        assert(r@ =~= seq![digit(n as nat)]);
    }
    r
}

/// `n` in decimal.
pub fn decimal_text(n: u64) -> (r: String)
    ensures
        r@ == decimal(n as nat),
    decreases n,
{
    if n < 10 {
        digit_text(n).to_string()
    } else {
        let mut r = decimal_text(n / 10);
        r.append(digit_text(n % 10));
        proof {
            assert(r@ =~= decimal((n / 10) as nat).push(digit((n % 10) as nat)));
        }
        r
    }
}

/// An event as it is shown.
pub open spec fn event_text(e: crate::event::EventV) -> Seq<char> {
    match e.action {
        crate::event::ActionV::PrivMsg(m) => "PRIVMSG "@ + m.nick + ": "@ + m.msg + " ("@
            + decimal(e.timestamp as nat) + ")"@,
    }
}

impl Event {
    /// The event as it is shown: who says what, and when.
    pub fn fmt(&self) -> (r: String)
        ensures
            r@ == event_text(self@),
    {
        match &self.action {
            EventAction::PrivMsg(event) => {
                let mut r = "PRIVMSG ".to_string();
                r.append(event.nick.as_str());
                r.append(": ");
                r.append(event.msg.as_str());
                r.append(" (");
                let timestamp = decimal_text(self.timestamp);
                r.append(timestamp.as_str());
                r.append(")");
                r
            },
        }
    }
}

} // verus!
