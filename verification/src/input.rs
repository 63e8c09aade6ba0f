//! What is made of the answers that a user typed.

use crate::error::{outcome, Error, ErrorView};
use crate::utf8::chars_of;
use vstd::prelude::*;
use vstd::string::{StrSliceExecFns, StringExecFns};

verus! {

/// What entering a secret yields: the secret, unless a confirmation was asked
/// for and differs from it.
pub open spec fn confirmed(input: Seq<char>, confirmation: Option<Seq<char>>) -> Result<
    Seq<char>,
    ErrorView,
> {
    match confirmation {
        Some(again) => if again != input {
            Err(ErrorView::PasswordsDoNotMatch)
        } else {
            Ok(input)
        },
        None => Ok(input),
    }
}

/// The secret that was entered, once it is confirmed: where it was typed a
/// second time and the two differ, the entry fails with `PasswordsDoNotMatch`.
pub fn confirm_secret(input: String, confirmation: Option<String>) -> (r: Result<String, Error>)
    ensures
        outcome(r) == confirmed(
            input@,
            match confirmation {
                Some(again) => Some(again@),
                None => None,
            },
        ),
{
    match confirmation {
        Some(again) => {
            if again != input {
                Err(Error::PasswordsDoNotMatch)
            } else {
                Ok(input)
            }
        },
        None => Ok(input),
    }
}

/// The number of characters before the first line feed, or in all if there
/// is none.
pub open spec fn first_line_length(text: Seq<char>) -> nat
    decreases text.len(),
{
    if text.len() == 0 || text[0] == '\n' {
        0
    } else {
        1 + first_line_length(text.drop_first())
    }
}

proof fn lemma_first_line_length(text: Seq<char>, n: int)
    requires
        0 <= n <= text.len(),
        forall|k: int| 0 <= k < n ==> text[k] != '\n',
        n == text.len() || text[n] == '\n',
    ensures
        first_line_length(text) == n,
    decreases n,
{
    if n > 0 {
        lemma_first_line_length(text.drop_first(), n - 1);
    }
}

/// The password of a secret: its first line, the rest being notes.
pub fn password_of(secret: &str) -> (password: String)
    ensures
        password@ == secret@.take(first_line_length(secret@) as int),
{
    let chars = chars_of(secret);
    let mut end: usize = 0;
    while end < chars.len() && chars[end] != '\n'
        invariant
            end <= chars.len(),
            forall|k: int| 0 <= k < end ==> chars@[k] != '\n',
        decreases chars.len() - end,
    {
        end = end + 1;
    }
    proof {
        lemma_first_line_length(secret@, end as int);
    }
    let line = secret.substring_char(0, end);
    assert(line@ =~= secret@.take(end as int));
    String::from_str(line)
}

/// The answer is the single letter `y`, capital or small.
pub open spec fn means_y(answer: Seq<char>) -> bool {
    answer.len() == 1 && (answer[0] == 'y' || answer[0] == 'Y')
}

/// Whether an answer is the single letter `y`, which alone accepts a
/// suggestion.
pub fn is_y(answer: &str) -> (yes: bool)
    ensures
        yes == means_y(answer@),
{
    let chars = chars_of(answer);
    chars.len() == 1 && (chars[0] == 'y' || chars[0] == 'Y')
}

/// The answer to a yes-or-no question means yes: it is `y` or `yes`, in
/// capitals or small letters.
pub open spec fn means_yes(answer: Seq<char>) -> bool {
    ||| answer.len() == 1 && (answer[0] == 'y' || answer[0] == 'Y')
    ||| answer.len() == 3 && (answer[0] == 'y' || answer[0] == 'Y') && (answer[1] == 'e'
        || answer[1] == 'E') && (answer[2] == 's' || answer[2] == 'S')
}

/// Whether an answer to a yes-or-no question means yes.
pub fn is_yes(answer: &str) -> (yes: bool)
    ensures
        yes == means_yes(answer@),
{
    let chars = chars_of(answer);
    if chars.len() == 1 {
        chars[0] == 'y' || chars[0] == 'Y'
    } else if chars.len() == 3 {
        (chars[0] == 'y' || chars[0] == 'Y') && (chars[1] == 'e' || chars[1] == 'E') && (chars[2]
            == 's' || chars[2] == 'S')
    } else {
        false
    }
}

} // verus!
