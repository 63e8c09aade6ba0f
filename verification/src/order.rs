//! The order in which texts are sorted: byte by byte over their UTF-8 form,
//! a proper prefix before any of its extensions.

use vstd::prelude::*;
use vstd::utf8::{encode_utf8, encode_utf8_decode_utf8};

verus! {

/// `a` comes strictly before `b`, comparing byte by byte.
pub open spec fn bytes_before(a: Seq<u8>, b: Seq<u8>) -> bool
    decreases a.len(),
{
    if b.len() == 0 {
        false
    } else if a.len() == 0 {
        true
    } else if a[0] != b[0] {
        a[0] < b[0]
    } else {
        bytes_before(a.drop_first(), b.drop_first())
    }
}

/// The text `a` comes strictly before the text `b`.
pub open spec fn text_before(a: Seq<char>, b: Seq<char>) -> bool {
    bytes_before(encode_utf8(a), encode_utf8(b))
}

/// Every text in `s` comes strictly before the ones after it, so none occurs twice.
pub open spec fn strictly_sorted(s: Seq<Seq<char>>) -> bool {
    forall|i: int, j: int| 0 <= i < j < s.len() ==> text_before(#[trigger] s[i], #[trigger] s[j])
}

/// How two texts stand to each other in the order.
#[derive(Clone, Copy, Debug, PartialEq, Eq, Structural)]
pub enum Relation {
    Before,
    Same,
    After,
}

pub proof fn lemma_bytes_irreflexive(a: Seq<u8>)
    ensures
        !bytes_before(a, a),
    decreases a.len(),
{
    if a.len() > 0 {
        lemma_bytes_irreflexive(a.drop_first());
    }
}

pub proof fn lemma_bytes_transitive(a: Seq<u8>, b: Seq<u8>, c: Seq<u8>)
    requires
        bytes_before(a, b),
        bytes_before(b, c),
    ensures
        bytes_before(a, c),
    decreases a.len(),
{
    if a.len() > 0 && b.len() > 0 && c.len() > 0 {
        if a[0] == b[0] && b[0] == c[0] {
            lemma_bytes_transitive(a.drop_first(), b.drop_first(), c.drop_first());
        }
    }
}

pub proof fn lemma_bytes_total(a: Seq<u8>, b: Seq<u8>)
    ensures
        a == b || bytes_before(a, b) || bytes_before(b, a),
    decreases a.len(),
{
    if a.len() == 0 || b.len() == 0 {
        if a.len() == 0 && b.len() == 0 {
            assert(a =~= b);
        }
    } else if a[0] == b[0] {
        lemma_bytes_total(a.drop_first(), b.drop_first());
        if a.drop_first() == b.drop_first() {
            assert(a =~= seq![a[0]] + a.drop_first());
            assert(b =~= seq![b[0]] + b.drop_first());
        }
    }
}

/// No text comes before itself.
pub proof fn lemma_text_irreflexive(a: Seq<char>)
    ensures
        !text_before(a, a),
{
    lemma_bytes_irreflexive(encode_utf8(a));
}

/// The order on texts is transitive.
pub proof fn lemma_text_transitive(a: Seq<char>, b: Seq<char>, c: Seq<char>)
    requires
        text_before(a, b),
        text_before(b, c),
    ensures
        text_before(a, c),
{
    lemma_bytes_transitive(encode_utf8(a), encode_utf8(b), encode_utf8(c));
}

/// Of two different texts, one comes before the other.
pub proof fn lemma_text_total(a: Seq<char>, b: Seq<char>)
    ensures
        a == b || text_before(a, b) || text_before(b, a),
{
    lemma_bytes_total(encode_utf8(a), encode_utf8(b));
    if encode_utf8(a) == encode_utf8(b) {
        encode_utf8_decode_utf8(a);
        encode_utf8_decode_utf8(b);
    }
}

/// No two texts come before each other.
pub proof fn lemma_text_asymmetric(a: Seq<char>, b: Seq<char>)
    requires
        text_before(a, b),
    ensures
        !text_before(b, a),
{
    if text_before(b, a) {
        lemma_text_transitive(a, b, a);
        lemma_text_irreflexive(a);
    }
}

proof fn lemma_skip_step(a: Seq<u8>, i: int)
    requires
        0 <= i < a.len(),
    ensures
        a.skip(i).drop_first() == a.skip(i + 1),
        a.skip(i)[0] == a[i],
        a.skip(i).len() == a.len() - i,
{
    assert(a.skip(i).drop_first() =~= a.skip(i + 1));
}

/// Where `a` stands relative to `b`, byte by byte.
pub fn relate_bytes(a: &[u8], b: &[u8]) -> (r: Relation)
    ensures
        r == Relation::Before <==> bytes_before(a@, b@),
        r == Relation::Same <==> a@ == b@,
        r == Relation::After <==> bytes_before(b@, a@),
{
    let mut i: usize = 0;
    proof {
        assert(a@.skip(0) =~= a@);
        assert(b@.skip(0) =~= b@);
    }
    while i < a.len() && i < b.len()
        invariant
            i <= a.len(),
            i <= b.len(),
            bytes_before(a@, b@) == bytes_before(a@.skip(i as int), b@.skip(i as int)),
            bytes_before(b@, a@) == bytes_before(b@.skip(i as int), a@.skip(i as int)),
            a@ == b@ <==> a@.skip(i as int) == b@.skip(i as int),
        decreases a.len() - i,
    {
        proof {
            lemma_skip_step(a@, i as int);
            lemma_skip_step(b@, i as int);
        }
        if a[i] < b[i] {
            return Relation::Before;
        }
        if a[i] > b[i] {
            return Relation::After;
        }
        proof {
            let x = a@.skip(i as int);
            let y = b@.skip(i as int);
            if x.drop_first() == y.drop_first() {
                assert(x =~= seq![x[0]] + x.drop_first());
                assert(y =~= seq![y[0]] + y.drop_first());
            }
        }
        i = i + 1;
    }
    proof {
        let x = a@.skip(i as int);
        let y = b@.skip(i as int);
        if x.len() == 0 && y.len() == 0 {
            assert(x =~= y);
        }
    }
    if i < b.len() {
        Relation::Before
    } else if i < a.len() {
        Relation::After
    } else {
        Relation::Same
    }
}

/// Where the text `a` stands relative to the text `b`.
pub fn relate(a: &str, b: &str) -> (r: Relation)
    ensures
        r == Relation::Before <==> text_before(a@, b@),
        r == Relation::Same <==> a@ == b@,
        r == Relation::After <==> text_before(b@, a@),
{
    proof {
        if encode_utf8(a@) == encode_utf8(b@) {
            encode_utf8_decode_utf8(a@);
            encode_utf8_decode_utf8(b@);
        }
    }
    relate_bytes(a.as_bytes(), b.as_bytes())
}

} // verus!
