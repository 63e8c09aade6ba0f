//! Approximate matching of item names.

use crate::utf8::texts;
use vstd::prelude::*;
use vstd::std_specs::iter::IteratorSpec;
use vstd::utf8::encode_utf8;

verus! {

/// How many positions that both sequences have hold different characters.
pub open spec fn mismatches(a: Seq<char>, b: Seq<char>) -> nat
    decreases a.len(),
{
    if a.len() == 0 || b.len() == 0 {
        0
    } else {
        (if a[0] != b[0] {
            1nat
        } else {
            0nat
        }) + mismatches(a.drop_first(), b.drop_first())
    }
}

/// The distance between two names: the difference of their lengths in bytes,
/// plus the number of positions at which their characters differ.
pub open spec fn name_distance(a: Seq<char>, b: Seq<char>) -> nat {
    let la = encode_utf8(a).len();
    let lb = encode_utf8(b).len();
    (if la >= lb {
        la - lb
    } else {
        lb - la
    }) as nat + mismatches(a, b)
}

/// A text has at most as many characters as bytes.
pub proof fn lemma_chars_at_most_bytes(s: Seq<char>)
    ensures
        s.len() <= encode_utf8(s).len(),
    decreases s.len(),
{
    if s.len() > 0 {
        lemma_chars_at_most_bytes(s.drop_first());
    }
}

/// No more positions can differ than the shorter sequence has.
pub proof fn lemma_mismatches_bounded(a: Seq<char>, b: Seq<char>)
    ensures
        mismatches(a, b) <= a.len(),
        mismatches(a, b) <= b.len(),
    decreases a.len(),
{
    if a.len() > 0 && b.len() > 0 {
        lemma_mismatches_bounded(a.drop_first(), b.drop_first());
    }
}

/// The distance between two names, as [`name_distance`] defines it.
pub fn distance(a: &str, b: &str) -> (d: u32)
    requires
        encode_utf8(a@).len() <= u32::MAX,
        encode_utf8(b@).len() <= u32::MAX,
    ensures
        d == name_distance(a@, b@),
{
    broadcast use vstd::string::group_string_axioms;

    let la = a.len();
    let lb = b.len();
    let mut d: u32 = if la >= lb {
        (la - lb) as u32
    } else {
        (lb - la) as u32
    };
    let mut left = a.chars();
    let mut right = b.chars();
    proof {
        lemma_chars_at_most_bytes(a@);
        lemma_chars_at_most_bytes(b@);
        lemma_mismatches_bounded(a@, b@);
    }
    loop
        invariant
            d + mismatches(left.remaining(), right.remaining()) == name_distance(a@, b@),
            name_distance(a@, b@) <= u32::MAX,
            left.decrease() is Some,
        decreases left.decrease()->0,
    {
        match left.next() {
            None => {
                return d;
            },
            Some(x) => {
                match right.next() {
                    None => {
                        return d;
                    },
                    Some(y) => {
                        if x != y {
                            d = d + 1;
                        }
                    },
                }
            },
        }
    }
}

/// The distance below which a name counts as a likely misspelling of another.
pub const SUGGESTION_LIMIT: u32 = 3;

/// `at` is the place of the name to suggest for `item`: the first among the
/// names closest to it, and close enough.
pub open spec fn is_suggestion(item: Seq<char>, names: Seq<Seq<char>>, at: int) -> bool {
    &&& 0 <= at < names.len()
    &&& name_distance(item, names[at]) < SUGGESTION_LIMIT
    &&& forall|j: int|
        0 <= j < names.len() ==> name_distance(item, names[at]) <= name_distance(
            item,
            #[trigger] names[j],
        )
    &&& forall|j: int|
        0 <= j < at ==> name_distance(item, names[at]) < name_distance(item, #[trigger] names[j])
}

/// The name to suggest in place of `item`, which is in no store: the first of
/// the names closest to it, if that one is closer than [`SUGGESTION_LIMIT`].
pub fn suggest(item: &str, names: &Vec<String>) -> (found: Option<usize>)
    requires
        encode_utf8(item@).len() <= u32::MAX,
        forall|i: int| 0 <= i < names@.len() ==> encode_utf8(#[trigger] names@[i]@).len() <= u32::MAX,
    ensures
        found matches Some(at) ==> is_suggestion(item@, texts(names@), at as int),
        found is None ==> forall|j: int|
            0 <= j < names@.len() ==> name_distance(item@, #[trigger] texts(names@)[j])
                >= SUGGESTION_LIMIT,
{
    let mut best: Option<(usize, u32)> = None;
    let mut i: usize = 0;
    while i < names.len()
        invariant
            i <= names.len(),
            encode_utf8(item@).len() <= u32::MAX,
            forall|k: int|
                0 <= k < names@.len() ==> encode_utf8(#[trigger] names@[k]@).len() <= u32::MAX,
            best is None ==> i == 0,
            best matches Some((at, d)) ==> {
                &&& at < i
                &&& d == name_distance(item@, names@[at as int]@)
                &&& forall|j: int|
                    0 <= j < i ==> d <= name_distance(item@, (#[trigger] names@[j])@)
                &&& forall|j: int| 0 <= j < at ==> d < name_distance(item@, (#[trigger] names@[j])@)
            },
        decreases names.len() - i,
    {
        let d = distance(item, names[i].as_str());
        match best {
            Some((_, least)) => {
                if d < least {
                    best = Some((i, d));
                }
            },
            None => {
                best = Some((i, d));
            },
        }
        i = i + 1;
    }
    match best {
        Some((at, d)) => {
            if d < SUGGESTION_LIMIT {
                assert(is_suggestion(item@, texts(names@), at as int)) by {
                    assert forall|j: int| 0 <= j < names@.len() implies name_distance(
                        item@,
                        texts(names@)[at as int],
                    ) <= name_distance(item@, #[trigger] texts(names@)[j]) by {
                        assert(texts(names@)[j] == names@[j]@);
                    }
                    assert forall|j: int| 0 <= j < at implies name_distance(
                        item@,
                        texts(names@)[at as int],
                    ) < name_distance(item@, #[trigger] texts(names@)[j]) by {
                        assert(texts(names@)[j] == names@[j]@);
                    }
                }
                Some(at)
            } else {
                assert forall|j: int| 0 <= j < names@.len() implies name_distance(
                    item@,
                    #[trigger] texts(names@)[j],
                ) >= SUGGESTION_LIMIT by {
                    assert(texts(names@)[j] == names@[j]@);
                }
                None
            }
        },
        None => None,
    }
}

} // verus!
