//! Chat messages and their canonical one-line rendering.

use hhmmss::Hhmmss;
use vstd::prelude::*;
use vstd::string::StringExecFns;

verus! {

/// The largest offset, in seconds, that a signed 64-bit count of seconds holds.
pub const SIGNED_SECONDS_MAX: u64 = 0x7fff_ffff_ffff_ffff;

/// One chat message: who wrote it, what it says, and how many whole seconds
/// after the start of the recording it was written.
#[derive(Debug)]
pub struct Message {
    pub user: String,
    pub body: String,
    pub timestamp: u64,
}

/// The mathematical content of a [`Message`].
pub struct MessageView {
    pub user: Seq<char>,
    pub body: Seq<char>,
    pub timestamp: nat,
}

impl View for Message {
    type V = MessageView;

    open spec fn view(&self) -> MessageView {
        MessageView { user: self.user@, body: self.body@, timestamp: self.timestamp as nat }
    }
}

/// The views of a sequence of messages, in the same order.
pub open spec fn views(messages: Seq<Message>) -> Seq<MessageView> {
    messages.map_values(|m: Message| m@)
}

/// The character that writes the decimal digit `d`.
pub open spec fn digit(d: nat) -> char
    recommends
        d < 10,
{
    seq!['0', '1', '2', '3', '4', '5', '6', '7', '8', '9'][d as int]
}

/// `n` in decimal, without leading zeros.
pub open spec fn decimal(n: nat) -> Seq<char>
    decreases n,
{
    if n < 10 {
        seq![digit(n)]
    } else {
        decimal(n / 10).push(digit(n % 10))
    }
}

/// `n` in decimal, padded with a zero on the left to at least two digits.
pub open spec fn two_digits(n: nat) -> Seq<char> {
    if n < 10 {
        seq!['0', digit(n)]
    } else {
        decimal(n)
    }
}

/// An offset of `seconds` as `HH:MM:SS`: hours, minutes and seconds, each
/// zero-padded to two digits; the hours take more digits where they need them.
pub open spec fn clock_text(seconds: nat) -> Seq<char> {
    two_digits(seconds / 3600) + seq![':'] + two_digits(seconds % 3600 / 60) + seq![':']
        + two_digits(seconds % 60)
}

/// The canonical line of a message: `[HH:MM:SS][user]: body`.
pub open spec fn rendered(message: MessageView) -> Seq<char> {
    seq!['['] + clock_text(message.timestamp) + seq![']', '['] + message.user + seq![
        ']',
        ':',
        ' ',
    ] + message.body
}

/// The canonical lines of a sequence of messages, in the same order.
pub open spec fn rendered_all(messages: Seq<MessageView>) -> Seq<Seq<char>> {
    messages.map_values(|m: MessageView| rendered(m))
}

/// The texts of a sequence of strings, in the same order.
pub open spec fn texts(lines: Seq<String>) -> Seq<Seq<char>> {
    lines.map_values(|line: String| line@)
}

/// Calls `hhmmss::Hhmmss::hhmmss` on a `std::time::Duration` of `seconds` whole
/// seconds. The crate takes the duration's seconds as an `i64`, splits them
/// into hours, minutes and seconds and formats each with `{:02}`, joined by
/// colons; a negative count would get a minus sign, which the bound on
/// `seconds` rules out.
#[verifier::external_body]
fn hhmmss_text(seconds: u64) -> (text: String)
    requires
        seconds <= SIGNED_SECONDS_MAX,
    ensures
        text@ == clock_text(seconds as nat),
{
    std::time::Duration::from_secs(seconds).hhmmss()
}

/// The one-character text of a decimal digit.
fn digit_text(d: u64) -> (text: &'static str)
    requires
        d < 10,
    ensures
        text@ == seq![digit(d as nat)],
{
    proof {
        reveal_strlit("0");
        reveal_strlit("1");
        reveal_strlit("2");
        reveal_strlit("3");
        reveal_strlit("4");
        reveal_strlit("5");
        reveal_strlit("6");
        reveal_strlit("7");
        reveal_strlit("8");
        reveal_strlit("9");
    }
    let text = if d == 0 {
        "0"
    } else if d == 1 {
        "1"
    } else if d == 2 {
        "2"
    } else if d == 3 {
        "3"
    } else if d == 4 {
        "4"
    } else if d == 5 {
        "5"
    } else if d == 6 {
        "6"
    } else if d == 7 {
        "7"
    } else if d == 8 {
        "8"
    } else {
        "9"
    };
    assert(text@ =~= seq![digit(d as nat)]);
    text
}

/// `n` in decimal.
fn decimal_text(n: u64) -> (text: String)
    ensures
        text@ == decimal(n as nat),
    decreases n,
{
    if n < 10 {
        String::from_str(digit_text(n))
    } else {
        let mut text = decimal_text(n / 10);
        text.append(digit_text(n % 10));
        text
    }
}

/// `n` in decimal, zero-padded to two digits.
fn two_digit_text(n: u64) -> (text: String)
    ensures
        text@ == two_digits(n as nat),
{
    if n < 10 {
        proof {
            reveal_strlit("0");
        }
        let mut text = String::from_str("0");
        text.append(digit_text(n));
        assert(text@ =~= two_digits(n as nat));
        text
    } else {
        decimal_text(n)
    }
}

/// Writes an offset out digit by digit.
fn spell_clock(seconds: u64) -> (text: String)
    ensures
        text@ == clock_text(seconds as nat),
{
    proof {
        reveal_strlit(":");
    }
    let mut text = two_digit_text(seconds / 3600);
    text.append(":");
    text.append(two_digit_text(seconds % 3600 / 60).as_str());
    text.append(":");
    text.append(two_digit_text(seconds % 60).as_str());
    assert(text@ =~= clock_text(seconds as nat));
    text
}

/// An offset of `seconds` from the start, as zero-padded `HH:MM:SS`.
pub fn clock(seconds: u64) -> (text: String)
    ensures
        text@ == clock_text(seconds as nat),
{
    if seconds <= SIGNED_SECONDS_MAX {
        hhmmss_text(seconds)
    } else {
        // hhmmss counts seconds in an i64 and would show these as negative.
        spell_clock(seconds)
    }
}

impl Message {
    /// The canonical line of this message, `[HH:MM:SS][user]: body`.
    pub fn render(&self) -> (line: String)
        ensures
            line@ == rendered(self@),
    {
        proof {
            reveal_strlit("[");
            reveal_strlit("][");
            reveal_strlit("]: ");
        }
        let mut line = String::from_str("[");
        line.append(clock(self.timestamp).as_str());
        line.append("][");
        line.append(self.user.as_str());
        line.append("]: ");
        line.append(self.body.as_str());
        assert(line@ =~= rendered(self@));
        line
    }
}

} // verus!
