//! The sentences in which the monitor explains a denial.

use vstd::prelude::*;
use vstd::string::StringExecFns;

verus! {

/// The character of a decimal digit.
pub open spec fn digit(value: nat) -> char
    recommends
        value < 10,
{
    ('0' as nat + value) as char
}

/// A number in decimal, without leading zeros.
pub open spec fn decimal(value: nat) -> Seq<char>
    decreases value,
{
    if value < 10 {
        seq![digit(value)]
    } else {
        decimal(value / 10).push(digit(value % 10))
    }
}

/// Why malformed requests are denied after a run of `run` malformed calls.
pub open spec fn malformed_reason(run: nat) -> Seq<char> {
    "Model emitted "@ + decimal(run)
        + " malformed tool calls in a row; stopping the retry loop so it can respond in text."@
}

/// Why a call to `name` is denied that would be the `occurrences`-th of its
/// kind within a window of `window` calls.
pub open spec fn repetition_reason(name: Seq<char>, occurrences: nat, window: nat) -> Seq<char> {
    "Tool '"@ + name + "' called with identical arguments "@ + decimal(occurrences)
        + " times in the last "@ + decimal(window)
        + " tool calls; denying to break the repetition loop."@
}

fn digit_text(value: u64) -> (text: &'static str)
    requires
        value < 10,
    ensures
        text@ == seq![digit(value as nat)],
{
    proof {
        reveal_strlit("0");
        reveal_strlit("1");
        reveal_strlit("2");
        reveal_strlit("3");
        reveal_strlit("4");
        reveal_strlit("5");
        reveal_strlit("6");
        reveal_strlit("7");
        reveal_strlit("8");
        reveal_strlit("9");
    }
    match value {
        0 => "0",
        1 => "1",
        2 => "2",
        3 => "3",
        4 => "4",
        5 => "5",
        6 => "6",
        7 => "7",
        8 => "8",
        _ => "9",
    }
}

/// Writes a number in decimal.
pub fn decimal_text(value: u64) -> (text: String)
    ensures
        text@ == decimal(value as nat),
    decreases value,
{
    if value < 10 {
        digit_text(value).to_owned()
    } else {
        let mut text = decimal_text(value / 10);
        text.append(digit_text(value % 10));
        text
    }
}

/// Writes out why malformed requests are denied.
pub fn malformed_reason_text(run: u32) -> (text: String)
    ensures
        text@ == malformed_reason(run as nat),
{
    let mut text = "Model emitted ".to_owned();
    text.append(decimal_text(run as u64).as_str());
    text.append(
        " malformed tool calls in a row; stopping the retry loop so it can respond in text.",
    );
    text
}

/// Writes out why a repeated call is denied.
pub fn repetition_reason_text(name: &str, occurrences: u32, window: usize) -> (text: String)
    ensures
        text@ == repetition_reason(name@, occurrences as nat, window as nat),
{
    let mut text = "Tool '".to_owned();
    text.append(name);
    text.append("' called with identical arguments ");
    text.append(decimal_text(occurrences as u64).as_str());
    text.append(" times in the last ");
    text.append(decimal_text(window as u64).as_str());
    text.append(" tool calls; denying to break the repetition loop.");
    text
}

} // verus!
