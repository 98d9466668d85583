use crate::logic::{TTTGameMove, TTTGameState};
use core::num::ParseIntError;
use vstd::prelude::*;

verus! {

/// What `str::trim` leaves of a text: the text without the white space at
/// its start and at its end.
pub uninterp spec fn trimmed(text: Seq<char>) -> Seq<char>;

/// `str::trim`: the slice of `input` that is left when the white space at
/// its start and its end is taken away. What counts as white space is left
/// to the standard library; the result is named, not spelled out.
#[verifier::external_body]
fn trim(input: &str) -> (text: &str)
    ensures
        text@ == trimmed(input@),
{
    input.trim()
}

/// Whether `c` is one of the digits from 0 to 9.
pub open spec fn is_digit(c: char) -> bool {
    '0' as u32 <= c as u32 <= '9' as u32
}

/// The number that a sequence of digits denotes in base ten.
pub open spec fn digits_value(digits: Seq<char>) -> nat
    decreases digits.len(),
{
    if digits.len() == 0 {
        0
    } else {
        (10 * digits_value(digits.drop_last()) + (digits.last() as u32 - '0' as u32)) as nat
    }
}

/// The text without the plus sign that it may begin with.
pub open spec fn without_sign(text: Seq<char>) -> Seq<char> {
    if text.len() > 0 && text[0] == '+' {
        text.skip(1)
    } else {
        text
    }
}

/// The number that `text` denotes, if it denotes one: a plus sign or none,
/// then at least one digit and only digits, with a value that a `usize` holds.
pub open spec fn number_of(text: Seq<char>) -> Option<nat> {
    let digits = without_sign(text);
    if digits.len() > 0 && (forall|i: int| 0 <= i < digits.len() ==> is_digit(#[trigger] digits[i]))
        && digits_value(digits) <= usize::MAX {
        Some(digits_value(digits))
    } else {
        None
    }
}

/// The error of `str::parse` to an integer, `core::num::ParseIntError`.
/// Nothing is known of what it holds.
#[verifier::external_type_specification]
#[verifier::external_body]
pub struct ExParseIntError(ParseIntError);

/// `str::parse` to a `usize`: the number that the text denotes in base
/// ten, if the text is an optional plus sign followed by digits only, at
/// least one, and the number fits; an error for every other text.
#[verifier::external_body]
fn parse_number(text: &str) -> (number: Result<usize, ParseIntError>)
    ensures
        number is Ok <==> number_of(text@) is Some,
        number matches Ok(n) ==> number_of(text@) == Some(n as nat),
{
    text.parse::<usize>()
}

/// The field that a number from 1 to 9 names, counted from 0.
pub open spec fn field_of(number: Option<nat>) -> Option<usize> {
    match number {
        Some(n) => if 1 <= n <= 9 {
            Some((n - 1) as usize)
        } else {
            None
        },
        None => None,
    }
}

/// The field that `text` names: it must denote a number from 1 to 9, and
/// the field is that number less one.
pub fn field_index(text: &str) -> (field: Option<usize>)
    ensures
        field == field_of(number_of(text@)),
{
    match parse_number(text) {
        Ok(idx) => {
            if 1 <= idx && idx <= 9 {
                Some(idx - 1)
            } else {
                None
            }
        },
        Err(_) => None,
    }
}

/// The field that a line of input names, if it names one: white space
/// around the number does not count.
pub fn parse_input(input: &str) -> (field: Option<usize>)
    ensures
        field == field_of(number_of(trimmed(input@))),
{
    field_index(trim(input))
}

/// The move onto field `x`, if that field is free in `gs`.
pub fn human_move(gs: &TTTGameState, x: usize) -> (gm: Option<TTTGameMove>)
    requires
        gs@.fits(),
        x <= 8,
    ensures
        gm == if gs@.free(x as int) {
            Some(TTTGameMove::at(x as int))
        } else {
            None::<TTTGameMove>
        },
{
    let wanted = TTTGameMove::from(x);
    let legal = gs.legal_moves_impl();
    let mut k: usize = 0;
    while k < legal.len()
        invariant
            gs@.fits(),
            legal@ == gs@.free_moves(),
            wanted == TTTGameMove::at(x as int),
            wanted.index() == x,
            k <= legal.len(),
            forall|j: int| 0 <= j < k ==> legal@[j] != wanted,
        decreases legal.len() - k,
    {
        if legal[k] == wanted {
            proof {
                assert(gs@.free_moves().contains(wanted));
                gs@.lemma_free_moves(wanted);
            }
            return Some(wanted);
        }
        k += 1;
    }
    proof {
        gs@.lemma_free_moves(wanted);
    }
    None
}

} // verus!
