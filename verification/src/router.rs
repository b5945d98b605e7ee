//! The publish router's pure part: map a decoded message to its topic.
//! A `Sample` is keyed by its channel number written in decimal; a `Stop`
//! goes to one fixed sentinel topic.

use vstd::prelude::*;
use vstd::string::StringExecFns;
use crate::codec::Message;

verus! {

/// The character for one decimal digit.
pub open spec fn digit_char(d: nat) -> char {
    if d == 0 {
        '0'
    } else if d == 1 {
        '1'
    } else if d == 2 {
        '2'
    } else if d == 3 {
        '3'
    } else if d == 4 {
        '4'
    } else if d == 5 {
        '5'
    } else if d == 6 {
        '6'
    } else if d == 7 {
        '7'
    } else if d == 8 {
        '8'
    } else {
        '9'
    }
}

/// The usual decimal notation of `n`: no leading zeros, and `"0"` for 0.
pub open spec fn decimal_chars(n: nat) -> Seq<char>
    decreases n,
{
    if n < 10 {
        seq![digit_char(n)]
    } else {
        decimal_chars(n / 10).push(digit_char(n % 10))
    }
}

/// The topic a message is published under.
pub open spec fn spec_topic(m: Message) -> Seq<char> {
    match m {
        Message::Sample { channel, .. } => decimal_chars(channel as nat),
        Message::Stop { .. } => "STOP_CHANNEL"@,
    }
}

fn digit_str(d: u32) -> (s: &'static str)
    requires
        d < 10,
    ensures
        s@ == seq![digit_char(d as nat)],
{
    if d == 0 {
        proof {
            reveal_strlit("0");
        }
        let s = "0";
        proof {
            assert(s@ =~= seq![digit_char(0)]);
        }
        s
    } else if d == 1 {
        proof {
            reveal_strlit("1");
        }
        let s = "1";
        proof {
            assert(s@ =~= seq![digit_char(1)]);
        }
        s
    } else if d == 2 {
        proof {
            reveal_strlit("2");
        }
        let s = "2";
        proof {
            assert(s@ =~= seq![digit_char(2)]);
        }
        s
    } else if d == 3 {
        proof {
            reveal_strlit("3");
        }
        let s = "3";
        proof {
            assert(s@ =~= seq![digit_char(3)]);
        }
        s
    } else if d == 4 {
        proof {
            reveal_strlit("4");
        }
        let s = "4";
        proof {
            assert(s@ =~= seq![digit_char(4)]);
        }
        s
    } else if d == 5 {
        proof {
            reveal_strlit("5");
        }
        let s = "5";
        proof {
            assert(s@ =~= seq![digit_char(5)]);
        }
        s
    } else if d == 6 {
        proof {
            reveal_strlit("6");
        }
        let s = "6";
        proof {
            assert(s@ =~= seq![digit_char(6)]);
        }
        s
    } else if d == 7 {
        proof {
            reveal_strlit("7");
        }
        let s = "7";
        proof {
            assert(s@ =~= seq![digit_char(7)]);
        }
        s
    } else if d == 8 {
        proof {
            reveal_strlit("8");
        }
        let s = "8";
        proof {
            assert(s@ =~= seq![digit_char(8)]);
        }
        s
    } else {
        proof {
            reveal_strlit("9");
        }
        let s = "9";
        proof {
            assert(s@ =~= seq![digit_char(9)]);
        }
        s
    }
}

/// Append the decimal notation of `n` to `out`.
pub fn push_decimal(n: u32, out: &mut String)
    ensures
        final(out)@ == old(out)@ + decimal_chars(n as nat),
    decreases n,
{
    if n < 10 {
        let d = digit_str(n);
        out.append(d);
        proof {
            assert(out@ =~= old(out)@ + decimal_chars(n as nat));
        }
    } else {
        push_decimal(n / 10, out);
        let d = digit_str(n % 10);
        out.append(d);
        proof {
            assert(out@ =~= old(out)@ + decimal_chars(n as nat));
        }
    }
}

/// Compute the topic string for a decoded message: the decimal channel
/// number for a `Sample`, the fixed sentinel for a `Stop`. Pure; the raw
/// record bytes it is published with are never re-encoded.
pub fn topic(m: &Message) -> (t: String)
    ensures
        t@ == spec_topic(*m),
{
    match m {
        Message::Sample { channel, .. } => {
            let mut s = String::new();
            push_decimal(*channel, &mut s);
            proof {
                assert(s@ =~= decimal_chars(*channel as nat));
            }
            s
        },
        Message::Stop { .. } => String::from_str("STOP_CHANNEL"),
    }
}

} // verus!
