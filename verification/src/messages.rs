//! What is said when a simulation fails.

use vstd::prelude::*;
use vstd::string::*;

verus! {

/// A number in decimal digits.
pub open spec fn decimal(number: nat) -> Seq<char>
    decreases number,
{
    if number < 10 {
        seq![digit_char(number)]
    } else {
        decimal(number / 10).push(digit_char(number % 10))
    }
}

/// The character of a digit.
pub open spec fn digit_char(digit: nat) -> char {
    (48 + digit) as char
}

/// What is said of a value that is no number, for the given variable and cell.
pub open spec fn nan_message(variable: usize, flat: usize) -> Seq<char> {
    "simulation produced NaN for variable "@ + decimal(variable as nat) + " at flat node "@
        + decimal(flat as nat)
}

/// The inputs do not match each other.
pub open spec fn shape_message() -> Seq<char> {
    "inconsistent MPS simulation-engine array shapes"@
}

/// No cell of the training image has a value for every variable.
pub open spec fn undefined_message() -> Seq<char> {
    "training image has no jointly defined cell"@
}

/// The threads could not be had, for the given reason.
pub open spec fn pool_message(reason: Seq<char>) -> Seq<char> {
    "could not build MPS Rayon pool: "@ + reason
}

fn digit_text(digit: usize) -> (text: &'static str)
    requires
        digit < 10,
    ensures
        text@ == seq![digit_char(digit as nat)],
{
    proof {
        reveal_strlit("0");
        reveal_strlit("1");
        reveal_strlit("2");
        reveal_strlit("3");
        reveal_strlit("4");
        reveal_strlit("5");
        reveal_strlit("6");
        reveal_strlit("7");
        reveal_strlit("8");
        reveal_strlit("9");
    }
    let text: &'static str = match digit {
        0 => "0",
        1 => "1",
        2 => "2",
        3 => "3",
        4 => "4",
        5 => "5",
        6 => "6",
        7 => "7",
        8 => "8",
        _ => "9",
    };
    assert(text@ =~= seq![digit_char(digit as nat)]);
    text
}

fn append_decimal(text: &mut String, number: usize)
    ensures
        final(text)@ == old(text)@ + decimal(number as nat),
    decreases number,
{
    if number >= 10 {
        append_decimal(text, number / 10);
    }
    let ghost before = text@;
    text.append(digit_text(number % 10));
    assert(text@ =~= before.push(digit_char(number as nat % 10)));
    assert(text@ =~= old(text)@ + decimal(number as nat));
}

/// What is said of a value that is no number.
pub fn nan_text(variable: usize, flat: usize) -> (text: String)
    ensures
        text@ == nan_message(variable, flat),
{
    let mut text: String = "simulation produced NaN for variable ".to_owned();
    append_decimal(&mut text, variable);
    text.append(" at flat node ");
    append_decimal(&mut text, flat);
    text
}

/// What is said of inputs that do not match each other.
pub fn shape_text() -> (text: String)
    ensures
        text@ == shape_message(),
{
    "inconsistent MPS simulation-engine array shapes".to_owned()
}

/// What is said of a training image without a complete cell.
pub fn undefined_text() -> (text: String)
    ensures
        text@ == undefined_message(),
{
    "training image has no jointly defined cell".to_owned()
}

/// What is said of threads that could not be had.
pub fn pool_text(reason: &String) -> (text: String)
    ensures
        text@ == pool_message(reason@),
{
    let mut text: String = "could not build MPS Rayon pool: ".to_owned();
    text.append(reason.as_str());
    text
}

/// The messages differ in their first letters, so that a message tells what has failed.
pub proof fn messages_are_told_apart(variable: usize, flat: usize, reason: Seq<char>)
    ensures
        shape_message() != undefined_message(),
        shape_message() != nan_message(variable, flat),
        shape_message() != pool_message(reason),
        undefined_message() != nan_message(variable, flat),
        undefined_message() != pool_message(reason),
        nan_message(variable, flat) != pool_message(reason),
{
    reveal_strlit("inconsistent MPS simulation-engine array shapes");
    reveal_strlit("training image has no jointly defined cell");
    reveal_strlit("simulation produced NaN for variable ");
    reveal_strlit("could not build MPS Rayon pool: ");
    assert(shape_message()[0] == 'i');
    assert(undefined_message()[0] == 't');
    assert(nan_message(variable, flat)[0] == 's');
    assert(pool_message(reason)[0] == 'c');
}

} // verus!
