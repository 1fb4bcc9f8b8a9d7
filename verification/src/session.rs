//! Frame builders for the connection handshake and subscriptions.  The
//! socket writes that send these frames live outside the library; these
//! functions pin down exactly which bytes go out.

use vstd::prelude::*;

use crate::frame::{create, hview_ref};
use crate::wire::{digit_char, spec_create, spec_decimal};

verus! {

/// The decimal digit as a one-character string.
fn digit_str(d: u32) -> (r: &'static str)
    requires
        d < 10,
    ensures
        r@ == seq![digit_char(d as int)],
{
    let r = match d {
        0 => "0",
        1 => "1",
        2 => "2",
        3 => "3",
        4 => "4",
        5 => "5",
        6 => "6",
        7 => "7",
        8 => "8",
        _ => "9",
    };
    proof {
        reveal_strlit("0");
        reveal_strlit("1");
        reveal_strlit("2");
        reveal_strlit("3");
        reveal_strlit("4");
        reveal_strlit("5");
        reveal_strlit("6");
        reveal_strlit("7");
        reveal_strlit("8");
        reveal_strlit("9");
        assert(r@ =~= seq![digit_char(d as int)]);
    }
    r
}

/// Renders a number in decimal, as the standard formatter does.
fn u32_decimal(n: u32) -> (s: String)
    ensures
        s@ == spec_decimal(n as int),
    decreases n,
{
    if n < 10 {
        let mut s = String::new();
        s.append(digit_str(n));
        proof {
            assert(s@ =~= seq![digit_char(n as int)]);
        }
        s
    } else {
        let mut s = u32_decimal(n / 10);
        s.append(digit_str(n % 10));
        proof {
            assert(s@ =~= spec_decimal((n / 10) as int).push(digit_char((n % 10) as int)));
        }
        s
    }
}

/// Builds the CONNECT frame that authenticates a session: fixed
/// protocol headers plus the host, login and passcode, and no body.
pub fn connect_frame(host: &str, login: &str, passcode: &str) -> (r: String)
    ensures
        r@ == spec_create(
            "CONNECT"@,
            Some(
                seq![
                    ("accept-version"@, "1.2"@),
                    ("host"@, host@),
                    ("heart-beat"@, "0,0"@),
                    ("login"@, login@),
                    ("passcode"@, passcode@),
                ],
            ),
            Seq::empty(),
        ),
{
    let headers: Vec<(&str, &str)> = vec![
        ("accept-version", "1.2"),
        ("host", host),
        ("heart-beat", "0,0"),
        ("login", login),
        ("passcode", passcode),
    ];
    proof {
        assert(hview_ref(headers@) =~= seq![
            ("accept-version"@, "1.2"@),
            ("host"@, host@),
            ("heart-beat"@, "0,0"@),
            ("login"@, login@),
            ("passcode"@, passcode@),
        ]);
    }
    create("CONNECT", Some(headers), None)
}

/// Builds the SUBSCRIBE frame for a topic: the subscription id in
/// decimal, the destination, automatic acknowledgement, and no body.
pub fn subscribe_frame(identifier: u32, topic: &str) -> (r: String)
    ensures
        r@ == spec_create(
            "SUBSCRIBE"@,
            Some(
                seq![
                    ("id"@, spec_decimal(identifier as int)),
                    ("destination"@, topic@),
                    ("ack"@, "auto"@),
                ],
            ),
            Seq::empty(),
        ),
{
    let id = u32_decimal(identifier);
    let headers: Vec<(&str, &str)> = vec![
        ("id", id.as_str()),
        ("destination", topic),
        ("ack", "auto"),
    ];
    proof {
        assert(hview_ref(headers@) =~= seq![
            ("id"@, spec_decimal(identifier as int)),
            ("destination"@, topic@),
            ("ack"@, "auto"@),
        ]);
    }
    create("SUBSCRIBE", Some(headers), None)
}

} // verus!
