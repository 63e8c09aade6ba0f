//! Bytes read as text.

use vstd::prelude::*;
use vstd::std_specs::iter::IteratorSpec;
use vstd::utf8::{decode_utf8, valid_utf8};

verus! {

/// `std::str::from_utf8`: the bytes are taken as text when, and only when,
/// they are well-formed UTF-8; the text is then what they decode to.
#[verifier::external_body]
pub(crate) fn text_of(bytes: &[u8]) -> (text: Option<&str>)
    ensures
        text is Some <==> valid_utf8(bytes@),
        text matches Some(t) ==> t@ == decode_utf8(bytes@),
{
    std::str::from_utf8(bytes).ok()
}

/// The texts of a list of strings.
pub open spec fn texts(strings: Seq<String>) -> Seq<Seq<char>> {
    strings.map_values(|s: String| s@)
}

/// The characters of a text, one by one.
pub fn chars_of(text: &str) -> (chars: Vec<char>)
    ensures
        chars@ == text@,
{
    broadcast use vstd::string::group_string_axioms;

    let mut chars: Vec<char> = Vec::new();
    let mut rest = text.chars();
    assert(chars@ + rest.remaining() =~= text@);
    loop
        invariant
            chars@ + rest.remaining() == text@,
            rest.decrease() is Some,
        decreases rest.decrease()->0,
    {
        let ghost before = rest.remaining();
        let ghost done = chars@;
        match rest.next() {
            Some(c) => {
                chars.push(c);
                assert(chars@ + rest.remaining() =~= done + before);
            },
            None => {
                assert(chars@ + before =~= chars@);
                return chars;
            },
        }
    }
}

} // verus!
