//! What the codec tells its observer while it works.

use vstd::prelude::*;
use vstd::string::StringExecFns;

verus! {

/// One event for the observer. The codec hands each event over as it occurs
/// and keeps nothing of the observer afterwards.
#[derive(Clone, Debug, PartialEq, Eq)]
pub enum FnFeedback {
    /// A line of text for a human reader.
    Message(String),
    /// The amount of work ahead, in the unit that `Progress` counts.
    Total(u64),
    /// The amount of work done so far.
    Progress(u64),
    /// One more unit of work is done.
    Tick,
}

impl FnFeedback {
    /// The event is a message of this text.
    pub open spec fn is_message(self, text: Seq<char>) -> bool {
        match self {
            FnFeedback::Message(told) => told@ == text,
            _ => false,
        }
    }

    /// The event is the total of this amount.
    pub open spec fn is_total(self, amount: nat) -> bool {
        match self {
            FnFeedback::Total(told) => told == amount,
            _ => false,
        }
    }
}

/// The character of a decimal digit.
pub open spec fn digit_char(digit: nat) -> char {
    if digit == 0 {
        '0'
    } else if digit == 1 {
        '1'
    } else if digit == 2 {
        '2'
    } else if digit == 3 {
        '3'
    } else if digit == 4 {
        '4'
    } else if digit == 5 {
        '5'
    } else if digit == 6 {
        '6'
    } else if digit == 7 {
        '7'
    } else if digit == 8 {
        '8'
    } else {
        '9'
    }
}

/// A number written in decimal digits, without leading zeros.
pub open spec fn decimal(number: nat) -> Seq<char>
    decreases number,
{
    if number < 10 {
        seq![digit_char(number)]
    } else {
        decimal(number / 10).push(digit_char(number % 10))
    }
}

/// The text of one decimal digit.
fn digit_text(digit: u64) -> (text: &'static str)
    requires
        digit < 10,
    ensures
        text@ == seq![digit_char(digit as nat)],
{
    proof {
        reveal_strlit("0");
        reveal_strlit("1");
        reveal_strlit("2");
        reveal_strlit("3");
        reveal_strlit("4");
        reveal_strlit("5");
        reveal_strlit("6");
        reveal_strlit("7");
        reveal_strlit("8");
        reveal_strlit("9");
    }
    let text = match digit {
        0 => "0",
        1 => "1",
        2 => "2",
        3 => "3",
        4 => "4",
        5 => "5",
        6 => "6",
        7 => "7",
        8 => "8",
        _ => "9",
    };
    assert(text@ =~= seq![digit_char(digit as nat)]);
    text
}

/// Appends a number in decimal digits to a text.
pub fn push_decimal(text: &mut String, number: u64)
    ensures
        final(text)@ == old(text)@ + decimal(number as nat),
    decreases number,
{
    if number >= 10 {
        push_decimal(text, number / 10);
    }
    text.append(digit_text(number % 10));
    assert(text@ =~= old(text)@ + decimal(number as nat));
}

} // verus!
