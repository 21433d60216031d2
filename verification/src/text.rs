use nom::bytes::complete::tag;
use nom::character::complete::{alphanumeric1, digit1};
use nom::error::ErrorKind;
use vstd::prelude::*;

verus! {

/// `0`-`9`.
pub open spec fn is_digit(c: char) -> bool {
    '0' <= c <= '9'
}

/// `0`-`9`, `a`-`z`, `A`-`Z`.
pub open spec fn is_alphanumeric(c: char) -> bool {
    is_digit(c) || ('a' <= c <= 'z') || ('A' <= c <= 'Z')
}

/// Calls `nom::bytes::complete::tag(word)` on `input`. Where `input` begins with
/// `word` the call succeeds and what follows the word is handed back; in every other
/// case it fails, and `None` stands for its error.
#[verifier::external_body]
pub(crate) fn take_tag<'a>(word: &str, input: &'a str) -> (rest: Option<&'a str>)
    ensures
        match rest {
            Some(r) => input@ == word@ + r@,
            None => !word@.is_prefix_of(input@),
        },
{
    match tag::<&str, &'a str, (&'a str, ErrorKind)>(word)(input) {
        Ok((rest, _)) => Some(rest),
        Err(_) => None,
    }
}

/// Calls `nom::character::complete::alphanumeric1` on `input`. It splits off the
/// longest leading run of ASCII letters and digits and hands back what follows the run
/// and the run; on an empty run it fails, and `None` stands for its error.
#[verifier::external_body]
pub(crate) fn take_alphanumeric<'a>(input: &'a str) -> (split: Option<(&'a str, &'a str)>)
    ensures
        match split {
            Some((rest, run)) => {
                &&& input@ == run@ + rest@
                &&& run@.len() > 0
                &&& forall|i: int| 0 <= i < run@.len() ==> is_alphanumeric(#[trigger] run@[i])
                &&& rest@.len() > 0 ==> !is_alphanumeric(rest@[0])
            },
            None => input@.len() == 0 || !is_alphanumeric(input@[0]),
        },
{
    match alphanumeric1::<&'a str, (&'a str, ErrorKind)>(input) {
        Ok((rest, run)) => Some((rest, run)),
        Err(_) => None,
    }
}

/// Calls `nom::character::complete::digit1` on `input`. It splits off the longest
/// leading run of ASCII digits and hands back what follows the run and the run; on an
/// empty run it fails, and `None` stands for its error.
#[verifier::external_body]
pub(crate) fn take_digits<'a>(input: &'a str) -> (split: Option<(&'a str, &'a str)>)
    ensures
        match split {
            Some((rest, run)) => {
                &&& input@ == run@ + rest@
                &&& run@.len() > 0
                &&& forall|i: int| 0 <= i < run@.len() ==> is_digit(#[trigger] run@[i])
                &&& rest@.len() > 0 ==> !is_digit(rest@[0])
            },
            None => input@.len() == 0 || !is_digit(input@[0]),
        },
{
    match digit1::<&'a str, (&'a str, ErrorKind)>(input) {
        Ok((rest, run)) => Some((rest, run)),
        Err(_) => None,
    }
}

} // verus!
