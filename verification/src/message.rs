//! The messages that errors carry.

use crate::model::{Error, ErrorView};
use vstd::prelude::*;
use vstd::string::StringExecFns;

verus! {

/// The decimal digit for a number below ten.
pub open spec fn digit(d: nat) -> char {
    if d == 0 {
        '0'
    } else if d == 1 {
        '1'
    } else if d == 2 {
        '2'
    } else if d == 3 {
        '3'
    } else if d == 4 {
        '4'
    } else if d == 5 {
        '5'
    } else if d == 6 {
        '6'
    } else if d == 7 {
        '7'
    } else if d == 8 {
        '8'
    } else {
        '9'
    }
}

/// A number in decimal digits, without leading zeros.
pub open spec fn decimal(n: nat) -> Seq<char>
    decreases n,
{
    if n < 10 {
        seq![digit(n)]
    } else {
        decimal(n / 10).push(digit(n % 10))
    }
}

/// The message of the error for a context that occurs nowhere, given the
/// context as `Debug` writes it.
pub open spec fn missing_context_message(context: Seq<char>) -> Seq<char> {
    "Could not find context: "@ + context
}

/// The message of the error for a context that occurs more than once, given
/// the context as `Debug` writes it.
pub open spec fn ambiguous_context_message(context: Seq<char>) -> Seq<char> {
    "Multiple matches for context: "@ + context
}

/// The message of the error for a line that a hunk deletes and the text does
/// not hold: the number of the line in the text, counted from one, the line
/// that the hunk expects, and the line that stands there.
pub open spec fn mismatch_message(line_number: nat, expected: Seq<char>, found: Seq<char>) -> Seq<
    char,
> {
    "Deletion mismatch at line "@ + decimal(line_number) + " - expected '"@ + expected
        + "', found '"@ + found + "'"@
}

/// The message of the error for a line of a diff that starts with none of
/// the three markers: it names the character the line starts with.
pub open spec fn invalid_prefix_message(prefix: char) -> Seq<char> {
    "Invalid line prefix: "@.push(prefix)
}

/// What the `Debug` format of the standard library writes for a list of
/// strings: the quoted and escaped lines, with commas between them, in
/// square brackets.
pub uninterp spec fn debug_lines(lines: Seq<Seq<char>>) -> Seq<char>;

/// Calls the `Debug` format of `Vec<String>`, by way of `format!`; the result
/// is what `debug_lines` names.
#[verifier::external_body]
pub(crate) fn debug_of_lines(lines: &Vec<String>) -> (text: String)
    ensures
        text@ == debug_lines(lines.deep_view()),
{
    format!("{:?}", lines)
}

/// The decimal digit for a number below ten.
fn digit_of(d: usize) -> (c: char)
    requires
        d < 10,
    ensures
        c == digit(d as nat),
{
    if d == 0 {
        '0'
    } else if d == 1 {
        '1'
    } else if d == 2 {
        '2'
    } else if d == 3 {
        '3'
    } else if d == 4 {
        '4'
    } else if d == 5 {
        '5'
    } else if d == 6 {
        '6'
    } else if d == 7 {
        '7'
    } else if d == 8 {
        '8'
    } else {
        '9'
    }
}

/// Writes a number in decimal digits.
pub fn decimal_of(n: usize) -> (text: String)
    ensures
        text@ == decimal(n as nat),
    decreases n,
{
    if n < 10 {
        let mut text = String::new();
        text.push(digit_of(n));
        assert(text@ =~= seq![digit(n as nat)]);
        text
    } else {
        let mut text = decimal_of(n / 10);
        text.push(digit_of(n % 10));
        text
    }
}

/// The error for a context that occurs nowhere from the cursor on, given the
/// context as `Debug` writes it.
pub fn missing_context_error(context: &str) -> (error: Error)
    ensures
        error@ == ErrorView::Apply(missing_context_message(context@)),
{
    let mut message = String::from_str("Could not find context: ");
    message.append(context);
    Error::Apply(message)
}

/// The error for a context that occurs more than once from the cursor on,
/// given the context as `Debug` writes it.
pub fn ambiguous_context_error(context: &str) -> (error: Error)
    ensures
        error@ == ErrorView::AmbiguousMatch(ambiguous_context_message(context@)),
{
    let mut message = String::from_str("Multiple matches for context: ");
    message.append(context);
    Error::AmbiguousMatch(message)
}

/// The error for a line that a hunk deletes and the text does not hold.
pub fn mismatch_error(line_number: usize, expected: &str, found: &str) -> (error: Error)
    ensures
        error@ == ErrorView::Apply(mismatch_message(line_number as nat, expected@, found@)),
{
    let mut message = String::from_str("Deletion mismatch at line ");
    let number = decimal_of(line_number);
    message.append(number.as_str());
    message.append(" - expected '");
    message.append(expected);
    message.append("', found '");
    message.append(found);
    message.append("'");
    Error::Apply(message)
}

/// The error for a line of a diff that starts with none of the three
/// markers.
pub fn invalid_prefix_error(prefix: char) -> (error: Error)
    ensures
        error@ == ErrorView::Parse(invalid_prefix_message(prefix)),
{
    let mut message = String::from_str("Invalid line prefix: ");
    message.push(prefix);
    Error::Parse(message)
}

} // verus!
