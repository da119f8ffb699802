//! The two lines that tell how the game stands.

use vstd::prelude::*;
use vstd::string::StringExecFns;

verus! {

/// How a digit is written.
pub open spec fn digit_text(digit: int) -> Seq<char> {
    if digit == 0 {
        "0"@
    } else if digit == 1 {
        "1"@
    } else if digit == 2 {
        "2"@
    } else if digit == 3 {
        "3"@
    } else if digit == 4 {
        "4"@
    } else if digit == 5 {
        "5"@
    } else if digit == 6 {
        "6"@
    } else if digit == 7 {
        "7"@
    } else if digit == 8 {
        "8"@
    } else {
        "9"@
    }
}

/// How a number is written: in decimal digits, without leading zeros.
pub open spec fn decimal_text(number: nat) -> Seq<char>
    decreases number,
{
    if number < 10 {
        digit_text(number as int)
    } else {
        decimal_text(number / 10) + digit_text((number % 10) as int)
    }
}

/// The line that tells whether the game is lost.
pub open spec fn lost_line(lost: bool) -> Seq<char> {
    if lost {
        "You lost (press r)"@
    } else {
        ""@
    }
}

/// The line that tells the score: the number, and `point` or `points`.
pub open spec fn score_line(score: nat) -> Seq<char> {
    if score == 1 {
        decimal_text(score) + " point"@
    } else {
        decimal_text(score) + " points"@
    }
}

/// The digit as text.
fn digit_str(digit: u32) -> (text: &'static str)
    requires
        digit < 10,
    ensures
        text@ == digit_text(digit as int),
{
    if digit == 0 {
        "0"
    } else if digit == 1 {
        "1"
    } else if digit == 2 {
        "2"
    } else if digit == 3 {
        "3"
    } else if digit == 4 {
        "4"
    } else if digit == 5 {
        "5"
    } else if digit == 6 {
        "6"
    } else if digit == 7 {
        "7"
    } else if digit == 8 {
        "8"
    } else {
        "9"
    }
}

/// Writes the number at the end of the text.
fn append_decimal(text: &mut String, number: u32)
    ensures
        final(text)@ == old(text)@ + decimal_text(number as nat),
    decreases number,
{
    if number >= 10 {
        append_decimal(text, number / 10);
    }
    text.append(digit_str(number % 10));
}

/// The two lines that tell how the game stands: whether it is lost, and
/// the score.
pub fn score_text(lost: bool, score: u32) -> (lines: [String; 2])
    ensures
        lines@[0]@ == lost_line(lost),
        lines@[1]@ == score_line(score as nat),
{
    let mut line1 = String::new();
    if lost {
        line1.append("You lost (press r)");
    } else {
        line1.append("");
    }

    let s = if score == 1 {
        ""
    } else {
        "s"
    };
    let mut line2 = String::new();
    append_decimal(&mut line2, score);
    line2.append(" point");
    line2.append(s);
    proof {
        reveal_strlit("");
        reveal_strlit("s");
        reveal_strlit(" point");
        reveal_strlit(" points");
        assert(" point"@ + "s"@ =~= " points"@);
        assert(" point"@ + ""@ =~= " point"@);
    }

    [line1, line2]
}

} // verus!
