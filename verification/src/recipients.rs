//! The recipients that a store encrypts to: public keys, known by their
//! canonical text encoding, kept sorted and free of duplicates.

use crate::order::{
    lemma_text_asymmetric, lemma_text_irreflexive, lemma_text_total, lemma_text_transitive, relate,
    strictly_sorted, text_before, Relation,
};
use crate::utf8::text_of;
use vstd::prelude::*;
use vstd::slice::slice_subrange;
use vstd::string::StringExecFns;
use vstd::utf8::{decode_utf8, valid_utf8};

verus! {

/// The canonical encoding of the public key that `text` denotes, if it denotes one.
pub uninterp spec fn recipient_encoding(text: Seq<char>) -> Option<Seq<char>>;

/// The text is the canonical encoding of a public key: it reads as a public
/// key, and that key is written as this very text.
pub open spec fn valid_recipient(encoding: Seq<char>) -> bool {
    recipient_encoding(encoding) == Some(encoding)
}

/// A public key that items can be encrypted to, held as its canonical encoding.
#[derive(Debug)]
pub struct Recipient {
    encoding: String,
}

impl View for Recipient {
    type V = Seq<char>;

    closed spec fn view(&self) -> Seq<char> {
        self.encoding@
    }
}

impl Clone for Recipient {
    fn clone(&self) -> (copy: Recipient)
        ensures
            copy@ == self@,
    {
        proof {
            use_type_invariant(self);
        }
        Recipient { encoding: self.encoding.clone() }
    }
}

/// `<age::x25519::Recipient as FromStr>::from_str`, then the key's `Display`:
/// the text is decoded as a public key and the key is written out again.
/// The result is the canonical encoding whenever the text decodes, and nothing
/// when it does not. What the key writes decodes as the same key, so the
/// canonical encoding reads as itself.
#[verifier::external_body]
fn canonical_encoding(text: &str) -> (encoding: Option<String>)
    ensures
        encoding matches Some(e) ==> recipient_encoding(text@) == Some(e@) && valid_recipient(e@),
        encoding is None ==> recipient_encoding(text@) is None,
{
    match text.parse::<age::x25519::Recipient>() {
        Ok(key) => Some(key.to_string()),
        Err(_) => None,
    }
}

impl Recipient {
    #[verifier::type_invariant]
    pub(crate) open spec fn well_formed(self) -> bool {
        valid_recipient(self@)
    }

    /// Reads a public key from its text encoding.
    pub fn parse(text: &str) -> (parsed: Option<Recipient>)
        ensures
            parsed matches Some(r) ==> recipient_encoding(text@) == Some(r@) && valid_recipient(r@),
            parsed is None ==> recipient_encoding(text@) is None,
    {
        match canonical_encoding(text) {
            Some(encoding) => Some(Recipient { encoding }),
            None => None,
        }
    }

    /// The canonical encoding of this key.
    pub fn to_string(&self) -> (text: String)
        ensures
            text@ == self@,
            valid_recipient(text@),
    {
        proof {
            use_type_invariant(self);
        }
        self.encoding.clone()
    }

    /// The canonical encoding of this key, borrowed.
    pub fn as_str(&self) -> (text: &str)
        ensures
            text@ == self@,
            valid_recipient(text@),
    {
        proof {
            use_type_invariant(self);
        }
        self.encoding.as_str()
    }

    pub(crate) fn from_encoding(encoding: String) -> (r: Recipient)
        requires
            valid_recipient(encoding@),
        ensures
            r@ == encoding@,
    {
        Recipient { encoding }
    }
}

/// Every encoding of the list is the canonical encoding of a public key.
pub open spec fn all_valid(set: Seq<Seq<char>>) -> bool {
    forall|i: int| 0 <= i < set.len() ==> valid_recipient(#[trigger] set[i])
}

/// Every recipient is held by the canonical encoding of a public key; this
/// brings that to light for a whole list.
pub(crate) fn note_valid(set: &[Recipient])
    ensures
        all_valid(encodings(set@)),
{
    let mut i: usize = 0;
    while i < set.len()
        invariant
            i <= set.len(),
            forall|k: int| 0 <= k < i ==> valid_recipient(#[trigger] encodings(set@)[k]),
        decreases set.len() - i,
    {
        let r = &set[i];
        proof {
            use_type_invariant(r);
        }
        i = i + 1;
    }
}

/// The encodings of a list of recipients, in the same order.
pub open spec fn encodings(recipients: Seq<Recipient>) -> Seq<Seq<char>> {
    recipients.map_values(|r: Recipient| r@)
}

/// Both sequences hold the same texts, however often and in whatever order.
pub open spec fn same_elements(s: Seq<Seq<char>>, t: Seq<Seq<char>>) -> bool {
    forall|x: Seq<char>| s.contains(x) <==> t.contains(x)
}

/// A sorted sequence with `x` put in its place, unless it is there already.
pub open spec fn inserted(s: Seq<Seq<char>>, x: Seq<char>) -> Seq<Seq<char>>
    decreases s.len(),
{
    if s.len() == 0 {
        seq![x]
    } else if s.last() == x {
        s
    } else if text_before(s.last(), x) {
        s.push(x)
    } else {
        inserted(s.drop_last(), x).push(s.last())
    }
}

/// The texts of `s`, each once, in sorted order.
pub open spec fn canonical(s: Seq<Seq<char>>) -> Seq<Seq<char>>
    decreases s.len(),
{
    if s.len() == 0 {
        Seq::empty()
    } else {
        inserted(canonical(s.drop_last()), s.last())
    }
}

/// The recipient set that results from adding `additions` to `existing`:
/// all of them together, sorted by encoding, each encoding once.
pub open spec fn merged(existing: Seq<Seq<char>>, additions: Seq<Seq<char>>) -> Seq<Seq<char>> {
    canonical(existing + additions)
}

/// The sequence `s` without every entry equal to `target`.
pub open spec fn without(s: Seq<Seq<char>>, target: Seq<char>) -> Seq<Seq<char>> {
    s.filter(|e: Seq<char>| e != target)
}

/// Putting a text into a sorted sequence keeps it sorted and adds just that text.
pub proof fn lemma_inserted(s: Seq<Seq<char>>, x: Seq<char>)
    requires
        strictly_sorted(s),
    ensures
        strictly_sorted(inserted(s, x)),
        forall|y: Seq<char>|
            #![trigger inserted(s, x).contains(y)]
            #![trigger s.contains(y)]
            inserted(s, x).contains(y) <==> (s.contains(y) || y == x),
    decreases s.len(),
{
    let r = inserted(s, x);
    if s.len() == 0 {
        assert(r[0] == x);
        assert forall|y: Seq<char>| r.contains(y) <==> (s.contains(y) || y == x) by {
            if r.contains(y) {
                let i = choose|i: int| 0 <= i < r.len() && r[i] == y;
            }
        }
    } else if s.last() == x {
        assert(s[s.len() - 1] == x);
    } else if text_before(s.last(), x) {
        assert forall|i: int, j: int| 0 <= i < j < r.len() implies text_before(r[i], r[j]) by {
            if j == s.len() {
                if i < s.len() - 1 {
                    lemma_text_transitive(s[i], s.last(), x);
                }
            }
        }
        assert forall|y: Seq<char>| r.contains(y) <==> (s.contains(y) || y == x) by {
            if r.contains(y) {
                let i = choose|i: int| 0 <= i < r.len() && r[i] == y;
                if i < s.len() {
                    assert(s[i] == y);
                }
            }
            if s.contains(y) {
                let i = choose|i: int| 0 <= i < s.len() && s[i] == y;
                assert(r[i] == y);
            }
            if y == x {
                assert(r[s.len() as int] == y);
            }
        }
    } else {
        let front = s.drop_last();
        let m = s.last();
        assert forall|i: int, j: int| 0 <= i < j < front.len() implies text_before(
            front[i],
            front[j],
        ) by {
            assert(front[i] == s[i] && front[j] == s[j]);
        }
        lemma_inserted(front, x);
        let f = inserted(front, x);
        lemma_text_total(m, x);
        assert(text_before(x, m));
        assert forall|i: int, j: int| 0 <= i < j < r.len() implies text_before(r[i], r[j]) by {
            if j == f.len() {
                assert(f.contains(f[i]));
                if front.contains(f[i]) {
                    let k = choose|k: int| 0 <= k < front.len() && front[k] == f[i];
                    assert(s[k] == f[i]);
                }
            } else {
                assert(r[i] == f[i] && r[j] == f[j]);
            }
        }
        assert forall|y: Seq<char>| r.contains(y) <==> (s.contains(y) || y == x) by {
            if r.contains(y) {
                let i = choose|i: int| 0 <= i < r.len() && r[i] == y;
                if i < f.len() {
                    assert(f[i] == y);
                    assert(f.contains(y));
                    if front.contains(y) {
                        let k = choose|k: int| 0 <= k < front.len() && front[k] == y;
                        assert(s[k] == y);
                    }
                } else {
                    assert(s[s.len() - 1] == y);
                }
            }
            if s.contains(y) {
                let i = choose|i: int| 0 <= i < s.len() && s[i] == y;
                if i < front.len() {
                    assert(front[i] == y);
                    assert(front.contains(y));
                    let k = choose|k: int| 0 <= k < f.len() && f[k] == y;
                    assert(r[k] == y);
                } else {
                    assert(r[f.len() as int] == y);
                }
            }
            if y == x {
                assert(f.contains(x));
                let k = choose|k: int| 0 <= k < f.len() && f[k] == x;
                assert(r[k] == y);
            }
        }
    }
}

/// The canonical form of a sequence is sorted, holds no text twice, and holds
/// exactly the texts of the sequence.
pub proof fn lemma_canonical(s: Seq<Seq<char>>)
    ensures
        strictly_sorted(canonical(s)),
        same_elements(canonical(s), s),
    decreases s.len(),
{
    if s.len() > 0 {
        let front = s.drop_last();
        lemma_canonical(front);
        lemma_inserted(canonical(front), s.last());
        assert forall|x: Seq<char>| canonical(s).contains(x) <==> s.contains(x) by {
            if s.contains(x) {
                let i = choose|i: int| 0 <= i < s.len() && s[i] == x;
                if i < front.len() {
                    assert(front[i] == x);
                    assert(front.contains(x));
                }
            }
            if front.contains(x) {
                let i = choose|i: int| 0 <= i < front.len() && front[i] == x;
                assert(s[i] == x);
            }
            if x == s.last() {
                assert(s[s.len() - 1] == x);
            }
        }
    }
}

/// Two sorted sequences that hold the same texts are the same sequence.
pub proof fn lemma_sorted_unique(s: Seq<Seq<char>>, t: Seq<Seq<char>>)
    requires
        strictly_sorted(s),
        strictly_sorted(t),
        same_elements(s, t),
    ensures
        s == t,
    decreases s.len(),
{
    if s.len() == 0 {
        if t.len() > 0 {
            assert(t.contains(t[0]));
            assert(s.contains(t[0]));
        }
        assert(s =~= t);
    } else {
        let m = s.last();
        assert(s[s.len() - 1] == m);
        assert(s.contains(m));
        assert(t.contains(m));
        let n = t.last();
        assert(t[t.len() - 1] == n);
        assert(t.contains(n));
        assert(s.contains(n));
        let k = choose|k: int| 0 <= k < t.len() && t[k] == m;
        let j = choose|j: int| 0 <= j < s.len() && s[j] == n;
        if m != n {
            assert(text_before(t[k], t[t.len() - 1]));
            assert(text_before(s[j], s[s.len() - 1]));
            lemma_text_asymmetric(m, n);
        }
        let sf = s.drop_last();
        let tf = t.drop_last();
        assert forall|x: Seq<char>| sf.contains(x) <==> tf.contains(x) by {
            if sf.contains(x) {
                let i = choose|i: int| 0 <= i < sf.len() && sf[i] == x;
                assert(s[i] == x);
                assert(text_before(s[i], s[s.len() - 1]));
                assert(s.contains(x));
                let i2 = choose|i2: int| 0 <= i2 < t.len() && t[i2] == x;
                lemma_text_irreflexive(m);
                assert(tf[i2] == x);
            }
            if tf.contains(x) {
                let i = choose|i: int| 0 <= i < tf.len() && tf[i] == x;
                assert(t[i] == x);
                assert(text_before(t[i], t[t.len() - 1]));
                assert(t.contains(x));
                let i2 = choose|i2: int| 0 <= i2 < s.len() && s[i2] == x;
                lemma_text_irreflexive(m);
                assert(sf[i2] == x);
            }
        }
        assert forall|i: int, j: int| 0 <= i < j < sf.len() implies text_before(sf[i], sf[j]) by {
            assert(sf[i] == s[i] && sf[j] == s[j]);
        }
        assert forall|i: int, j: int| 0 <= i < j < tf.len() implies text_before(tf[i], tf[j]) by {
            assert(tf[i] == t[i] && tf[j] == t[j]);
        }
        lemma_sorted_unique(sf, tf);
        assert(s =~= sf.push(m));
        assert(t =~= tf.push(n));
    }
}

/// The canonical form depends only on which texts a sequence holds.
pub proof fn lemma_canonical_of_same_elements(s: Seq<Seq<char>>, t: Seq<Seq<char>>)
    requires
        same_elements(s, t),
    ensures
        canonical(s) == canonical(t),
{
    lemma_canonical(s);
    lemma_canonical(t);
    lemma_sorted_unique(canonical(s), canonical(t));
}

/// Merging is idempotent: adding the same recipients a second time changes nothing.
pub proof fn lemma_merge_idempotent(a: Seq<Seq<char>>, b: Seq<Seq<char>>)
    ensures
        merged(merged(a, b), b) == merged(a, b),
{
    let once = merged(a, b);
    lemma_canonical(a + b);
    lemma_canonical(once + b);
    assert forall|x: Seq<char>| (once + b).contains(x) <==> once.contains(x) by {
        if (once + b).contains(x) {
            let i = choose|i: int| 0 <= i < (once + b).len() && (once + b)[i] == x;
            if i >= once.len() {
                assert((a + b)[a.len() + (i - once.len())] == x);
                assert((a + b).contains(x));
            } else {
                assert(once[i] == x);
            }
        }
        if once.contains(x) {
            let i = choose|i: int| 0 <= i < once.len() && once[i] == x;
            assert((once + b)[i] == x);
        }
    }
    lemma_sorted_unique(merged(once, b), once);
}

/// Merging does not depend on the order in which recipients are supplied:
/// whenever two inputs hold the same recipients all in all, the results agree.
pub proof fn lemma_merge_order_independent(
    a1: Seq<Seq<char>>,
    b1: Seq<Seq<char>>,
    a2: Seq<Seq<char>>,
    b2: Seq<Seq<char>>,
)
    requires
        (a1 + b1).to_multiset() == (a2 + b2).to_multiset(),
    ensures
        merged(a1, b1) == merged(a2, b2),
{
    let s = a1 + b1;
    let t = a2 + b2;
    assert forall|x: Seq<char>| s.contains(x) <==> t.contains(x) by {
        s.to_multiset_ensures();
        t.to_multiset_ensures();
        assert(s.contains(x) <==> s.to_multiset().count(x) > 0);
        assert(t.contains(x) <==> t.to_multiset().count(x) > 0);
    }
    lemma_canonical_of_same_elements(s, t);
}

/// Merging is commutative: which list counts as existing and which as added
/// makes no difference.
pub proof fn lemma_merge_commutative(a: Seq<Seq<char>>, b: Seq<Seq<char>>)
    ensures
        merged(a, b) == merged(b, a),
{
    assert forall|x: Seq<char>| (a + b).contains(x) <==> (b + a).contains(x) by {
        if (a + b).contains(x) {
            let i = choose|i: int| 0 <= i < (a + b).len() && (a + b)[i] == x;
            if i < a.len() {
                assert((b + a)[b.len() + i] == x);
            } else {
                assert((b + a)[i - a.len()] == x);
            }
        }
        if (b + a).contains(x) {
            let i = choose|i: int| 0 <= i < (b + a).len() && (b + a)[i] == x;
            if i < b.len() {
                assert((a + b)[a.len() + i] == x);
            } else {
                assert((a + b)[i - b.len()] == x);
            }
        }
    }
    lemma_canonical_of_same_elements(a + b, b + a);
}

/// A merged set is sorted, holds no encoding twice, and holds exactly the
/// encodings that were put in.
pub proof fn lemma_merged(a: Seq<Seq<char>>, b: Seq<Seq<char>>)
    ensures
        strictly_sorted(merged(a, b)),
        forall|x: Seq<char>| merged(a, b).contains(x) <==> (a.contains(x) || b.contains(x)),
{
    lemma_canonical(a + b);
    assert forall|x: Seq<char>| (a + b).contains(x) <==> (a.contains(x) || b.contains(x)) by {
        if (a + b).contains(x) {
            let i = choose|i: int| 0 <= i < (a + b).len() && (a + b)[i] == x;
            if i < a.len() {
                assert(a[i] == x);
            } else {
                assert(b[i - a.len()] == x);
            }
        }
        if a.contains(x) {
            let i = choose|i: int| 0 <= i < a.len() && a[i] == x;
            assert((a + b)[i] == x);
        }
        if b.contains(x) {
            let i = choose|i: int| 0 <= i < b.len() && b[i] == x;
            assert((a + b)[a.len() + i] == x);
        }
    }
}

/// Puts `r` into the sorted list `set`, unless its encoding is there already.
fn insert_sorted(set: &mut Vec<Recipient>, r: Recipient)
    requires
        strictly_sorted(encodings(old(set)@)),
    ensures
        encodings(final(set)@) == inserted(encodings(old(set)@), r@),
{
    let ghost before = encodings(set@);
    let mut i: usize = 0;
    let mut found = false;
    while i < set.len()
        invariant_except_break
            !found,
        invariant
            i <= set.len(),
            encodings(set@) == before,
            forall|k: int| 0 <= k < i ==> text_before(#[trigger] before[k], r@),
        ensures
            i <= set.len(),
            encodings(set@) == before,
            forall|k: int| 0 <= k < i ==> text_before(#[trigger] before[k], r@),
            found ==> i < set.len() && before[i as int] == r@,
            !found && i < set.len() ==> text_before(r@, before[i as int]),
        decreases set.len() - i,
    {
        assert(before[i as int] == set@[i as int]@);
        match relate(set[i].as_str(), r.as_str()) {
            Relation::Before => {
                i = i + 1;
            },
            Relation::Same => {
                found = true;
                break ;
            },
            Relation::After => {
                break ;
            },
        }
    }
    proof {
        lemma_inserted(before, r@);
    }
    if !found {
        set.insert(i, r);
        proof {
            let after = encodings(set@);
            assert(after =~= before.insert(i as int, r@));
            assert forall|a: int, b: int| 0 <= a < b < after.len() implies text_before(
                after[a],
                after[b],
            ) by {
                if b == i {
                    assert(after[a] == before[a]);
                } else if a == i {
                    assert(after[b] == before[b - 1]);
                    if b - 1 > i {
                        lemma_text_transitive(r@, before[i as int], before[b - 1]);
                    }
                } else {
                    let a0 = if a < i { a } else { a - 1 };
                    let b0 = if b < i { b } else { b - 1 };
                    assert(after[a] == before[a0] && after[b] == before[b0]);
                }
            }
            assert forall|y: Seq<char>| after.contains(y) <==> (before.contains(y) || y == r@) by {
                if after.contains(y) {
                    let k = choose|k: int| 0 <= k < after.len() && after[k] == y;
                    if k < i {
                        assert(before[k] == y);
                    } else if k > i {
                        assert(before[k - 1] == y);
                    }
                }
                if before.contains(y) {
                    let k = choose|k: int| 0 <= k < before.len() && before[k] == y;
                    if k < i {
                        assert(after[k] == y);
                    } else {
                        assert(after[k + 1] == y);
                    }
                }
                if y == r@ {
                    assert(after[i as int] == y);
                }
            }
            lemma_sorted_unique(after, inserted(before, r@));
        }
    } else {
        proof {
            assert(before.contains(r@));
            lemma_sorted_unique(before, inserted(before, r@));
        }
    }
}

/// Adds `additions` to `existing`: the result holds the recipients of both,
/// sorted by encoding, each encoding once.
pub fn merge(existing: Vec<Recipient>, additions: Vec<Recipient>) -> (set: Vec<Recipient>)
    ensures
        encodings(set@) == merged(encodings(existing@), encodings(additions@)),
{
    let ghost all = encodings(existing@) + encodings(additions@);
    let mut set: Vec<Recipient> = Vec::new();
    let mut existing = existing;
    let mut additions = additions;
    let ghost first = encodings(existing@);
    let ghost second = encodings(additions@);
    assert(encodings(set@) =~= Seq::<Seq<char>>::empty());
    while existing.len() > 0
        invariant
            strictly_sorted(encodings(set@)),
            existing@.len() <= first.len(),
            encodings(existing@) == first.take(existing@.len() as int),
            forall|x: Seq<char>|
                encodings(set@).contains(x) <==> first.skip(existing@.len() as int).contains(x),
        decreases existing.len(),
    {
        let ghost n = existing@.len() as int;
        let ghost old_set = encodings(set@);
        let ghost prev = existing@;
        let r = existing.pop().unwrap();
        assert(r@ == first[n - 1]) by {
            assert(encodings(prev)[n - 1] == r@);
            assert(first.take(n)[n - 1] == first[n - 1]);
        }
        proof {
            lemma_inserted(old_set, r@);
        }
        insert_sorted(&mut set, r);
        proof {
            assert(encodings(existing@) =~= first.take(n - 1)) by {
                assert forall|k: int| 0 <= k < n - 1 implies encodings(existing@)[k] == first[k] by {
                    assert(first.take(n)[k] == first[k]);
                }
            }
            assert forall|x: Seq<char>|
                encodings(set@).contains(x) <==> first.skip(n - 1).contains(x) by {
                let tail = first.skip(n);
                let tail1 = first.skip(n - 1);
                assert(encodings(set@).contains(x) <==> (old_set.contains(x) || x == r@));
                assert(old_set.contains(x) <==> tail.contains(x));
                if x == r@ {
                    assert(tail1[0] == x);
                }
                if tail.contains(x) {
                    let k = choose|k: int| 0 <= k < tail.len() && tail[k] == x;
                    assert(tail1[k + 1] == x);
                }
                if tail1.contains(x) {
                    let k = choose|k: int| 0 <= k < tail1.len() && tail1[k] == x;
                    if k > 0 {
                        assert(tail[k - 1] == x);
                    }
                }
                assert(tail1[0] == first[n - 1]);
            }
        }
    }
    assert(first.skip(0) =~= first);
    while additions.len() > 0
        invariant
            strictly_sorted(encodings(set@)),
            additions@.len() <= second.len(),
            encodings(additions@) == second.take(additions@.len() as int),
            forall|x: Seq<char>|
                #![trigger encodings(set@).contains(x)]
                #![trigger first.contains(x)]
                #![trigger second.skip(additions@.len() as int).contains(x)]
                encodings(set@).contains(x) <==> (first.contains(x) || second.skip(
                    additions@.len() as int,
                ).contains(x)),
        decreases additions.len(),
    {
        let ghost n = additions@.len() as int;
        let ghost old_set = encodings(set@);
        let ghost prev = additions@;
        let r = additions.pop().unwrap();
        assert(r@ == second[n - 1]) by {
            assert(encodings(prev)[n - 1] == r@);
            assert(second.take(n)[n - 1] == second[n - 1]);
        }
        proof {
            lemma_inserted(old_set, r@);
        }
        insert_sorted(&mut set, r);
        proof {
            assert(encodings(additions@) =~= second.take(n - 1)) by {
                assert forall|k: int| 0 <= k < n - 1 implies encodings(additions@)[k]
                    == second[k] by {
                    assert(second.take(n)[k] == second[k]);
                }
            }
            assert forall|x: Seq<char>|
                encodings(set@).contains(x) <==> (first.contains(x) || second.skip(
                    n - 1,
                ).contains(x)) by {
                let tail = second.skip(n);
                let tail1 = second.skip(n - 1);
                assert(encodings(set@).contains(x) <==> (old_set.contains(x) || x == r@));
                assert(old_set.contains(x) <==> (first.contains(x) || tail.contains(x)));
                if x == r@ {
                    assert(tail1[0] == x);
                }
                if tail.contains(x) {
                    let k = choose|k: int| 0 <= k < tail.len() && tail[k] == x;
                    assert(tail1[k + 1] == x);
                }
                if tail1.contains(x) {
                    let k = choose|k: int| 0 <= k < tail1.len() && tail1[k] == x;
                    if k > 0 {
                        assert(tail[k - 1] == x);
                    }
                }
                assert(tail1[0] == second[n - 1]);
            }
        }
    }
    proof {
        assert(second.skip(0) =~= second);
        lemma_merged(first, second);
        assert forall|x: Seq<char>|
            encodings(set@).contains(x) <==> merged(first, second).contains(x) by {
            assert(encodings(set@).contains(x) <==> (first.contains(x) || second.contains(x)));
        }
        lemma_sorted_unique(encodings(set@), merged(first, second));
    }
    set
}

/// Removing a recipient from a sorted set leaves it sorted, takes out that
/// recipient and keeps every other one.
pub proof fn lemma_without(s: Seq<Seq<char>>, target: Seq<char>)
    ensures
        forall|x: Seq<char>| without(s, target).contains(x) <==> (s.contains(x) && x != target),
        strictly_sorted(s) ==> strictly_sorted(without(s, target)),
    decreases s.len(),
{
    reveal(Seq::filter);
    let keep = |e: Seq<char>| e != target;
    let r = without(s, target);
    if s.len() == 0 {
    } else {
        let front = s.drop_last();
        let m = s.last();
        let rf = without(front, target);
        lemma_without(front, target);
        assert(r == if keep(m) {
            rf.push(m)
        } else {
            rf
        });
        assert forall|x: Seq<char>| r.contains(x) <==> (s.contains(x) && x != target) by {
            if r.contains(x) {
                let i = choose|i: int| 0 <= i < r.len() && r[i] == x;
                if i < rf.len() {
                    assert(rf[i] == x);
                    assert(rf.contains(x));
                    assert(front.contains(x));
                    let k = choose|k: int| 0 <= k < front.len() && front[k] == x;
                    assert(s[k] == x);
                } else {
                    assert(s[s.len() - 1] == x);
                }
            }
            if s.contains(x) && x != target {
                let i = choose|i: int| 0 <= i < s.len() && s[i] == x;
                if i < front.len() {
                    assert(front[i] == x);
                    assert(front.contains(x));
                    let k = choose|k: int| 0 <= k < rf.len() && rf[k] == x;
                    assert(r[k] == x);
                } else {
                    assert(r[rf.len() as int] == x);
                }
            }
        }
        if strictly_sorted(s) {
            assert forall|i: int, j: int| 0 <= i < j < front.len() implies text_before(
                front[i],
                front[j],
            ) by {
                assert(front[i] == s[i] && front[j] == s[j]);
            }
            assert forall|i: int, j: int| 0 <= i < j < r.len() implies text_before(r[i], r[j]) by {
                if j < rf.len() {
                    assert(r[i] == rf[i] && r[j] == rf[j]);
                } else {
                    assert(rf[i] == r[i]);
                    assert(rf.contains(r[i]));
                    assert(front.contains(r[i]));
                    let k = choose|k: int| 0 <= k < front.len() && front[k] == r[i];
                    assert(text_before(s[k], s[s.len() - 1]));
                }
            }
        }
    }
}

/// Takes out of `set` every recipient whose encoding is that of `target`;
/// the others stay, in their order.
pub fn remove(set: Vec<Recipient>, target: &Recipient) -> (rest: Vec<Recipient>)
    ensures
        encodings(rest@) == without(encodings(set@), target@),
{
    let ghost all = encodings(set@);
    let mut rest: Vec<Recipient> = Vec::new();
    let mut i: usize = 0;
    proof {
        reveal(Seq::filter);
        assert(all.take(0) =~= Seq::<Seq<char>>::empty());
        assert(encodings(rest@) =~= without(all.take(0), target@));
    }
    while i < set.len()
        invariant
            i <= set.len(),
            all == encodings(set@),
            encodings(rest@) == without(all.take(i as int), target@),
        decreases set.len() - i,
    {
        let ghost kept = encodings(rest@);
        let same = relate(set[i].as_str(), target.as_str());
        proof {
            reveal(Seq::filter);
            assert(all.take(i + 1).drop_last() =~= all.take(i as int));
            assert(all.take(i + 1).last() == set@[i as int]@);
        }
        if same != Relation::Same {
            rest.push(set[i].clone());
            assert(encodings(rest@) =~= kept.push(set@[i as int]@));
        }
        i = i + 1;
    }
    assert(all.take(set@.len() as int) =~= all);
    rest
}

/// The number of bytes before the first line feed, or in all if there is none.
pub open spec fn line_length(bytes: Seq<u8>) -> nat
    decreases bytes.len(),
{
    if bytes.len() == 0 || bytes[0] == 10 {
        0
    } else {
        1 + line_length(bytes.drop_first())
    }
}

/// The first line of a file, without its line feed and without the carriage
/// return that may stand before the line feed.
pub open spec fn first_line(bytes: Seq<u8>) -> Seq<u8> {
    let n = line_length(bytes) as int;
    if n < bytes.len() && n > 0 && bytes[n - 1] == 13 {
        bytes.take(n - 1)
    } else {
        bytes.take(n)
    }
}

/// What follows the first line of a file.
pub open spec fn after_first_line(bytes: Seq<u8>) -> Seq<u8> {
    let n = line_length(bytes) as int;
    if n < bytes.len() {
        bytes.skip(n + 1)
    } else {
        Seq::empty()
    }
}

/// The recipient that one line of a recipients file names: none where the line
/// starts with `#`, is not text, or does not decode as a public key.
pub open spec fn line_recipient(line: Seq<u8>) -> Option<Seq<char>> {
    if line.len() > 0 && line[0] == 0x23 {
        None
    } else if !valid_utf8(line) {
        None
    } else {
        recipient_encoding(decode_utf8(line))
    }
}

/// The recipients that a recipients file names, line by line; lines that name
/// none are passed over.
pub open spec fn loaded(bytes: Seq<u8>) -> Seq<Seq<char>>
    decreases bytes.len(),
{
    if bytes.len() == 0 {
        Seq::empty()
    } else {
        let rest = loaded(after_first_line(bytes));
        match line_recipient(first_line(bytes)) {
            Some(e) => seq![e] + rest,
            None => rest,
        }
    }
}

/// The text of a recipients file: each encoding on a line of its own.
pub open spec fn rendered(set: Seq<Seq<char>>) -> Seq<char>
    decreases set.len(),
{
    if set.len() == 0 {
        Seq::empty()
    } else {
        rendered(set.drop_last()) + set.last() + seq!['\n']
    }
}

proof fn lemma_line_length(bytes: Seq<u8>, n: int)
    requires
        0 <= n <= bytes.len(),
        forall|k: int| 0 <= k < n ==> bytes[k] != 10,
        n == bytes.len() || bytes[n] == 10,
    ensures
        line_length(bytes) == n,
    decreases n,
{
    if n > 0 {
        lemma_line_length(bytes.drop_first(), n - 1);
    }
}

/// Reads a recipients file. Each line is taken by itself; a line that does not
/// name a recipient is passed over without complaint.
pub fn load(bytes: &[u8]) -> (set: Vec<Recipient>)
    ensures
        encodings(set@) == loaded(bytes@),
{
    let mut set: Vec<Recipient> = Vec::new();
    let mut pos: usize = 0;
    proof {
        assert(bytes@.skip(0) =~= bytes@);
        assert(encodings(set@) + loaded(bytes@.skip(0)) =~= loaded(bytes@));
    }
    while pos < bytes.len()
        invariant
            pos <= bytes.len(),
            encodings(set@) + loaded(bytes@.skip(pos as int)) == loaded(bytes@),
        decreases bytes.len() - pos,
    {
        let ghost tail = bytes@.skip(pos as int);
        let ghost found = encodings(set@);
        let mut end: usize = pos;
        while end < bytes.len() && bytes[end] != 10
            invariant
                pos <= end <= bytes.len(),
                forall|k: int| pos <= k < end ==> bytes@[k] != 10,
            decreases bytes.len() - end,
        {
            end = end + 1;
        }
        proof {
            lemma_line_length(tail, end - pos);
        }
        let terminated = end < bytes.len();
        let stop: usize = if terminated && end > pos && bytes[end - 1] == 13 {
            (end - 1) as usize
        } else {
            end
        };
        let line = slice_subrange(bytes, pos, stop);
        assert(line@ =~= first_line(tail));
        if !(line.len() > 0 && line[0] == 0x23) {
            match text_of(line) {
                Some(text) => {
                    match Recipient::parse(text) {
                        Some(r) => {
                            set.push(r);
                            assert(encodings(set@) =~= found + seq![r@]);
                        },
                        None => {},
                    }
                },
                None => {},
            }
        }
        let next: usize = if terminated {
            end + 1
        } else {
            end
        };
        proof {
            assert(bytes@.skip(next as int) =~= after_first_line(tail));
            let rest = loaded(after_first_line(tail));
            match line_recipient(first_line(tail)) {
                Some(e) => {
                    assert(found + (seq![e] + rest) =~= (found + seq![e]) + rest);
                },
                None => {},
            }
        }
        pos = next;
    }
    proof {
        assert(encodings(set@) + Seq::<Seq<char>>::empty() =~= encodings(set@));
    }
    set
}

/// The text to write as the recipients file: one encoding per line, each line
/// ended by a line feed.
pub fn persist(set: &Vec<Recipient>) -> (text: String)
    ensures
        text@ == rendered(encodings(set@)),
{
    let ghost all = encodings(set@);
    let mut text = String::new();
    let mut i: usize = 0;
    proof {
        reveal_strlit("\n");
        assert(all.take(0) =~= Seq::<Seq<char>>::empty());
    }
    while i < set.len()
        invariant
            i <= set.len(),
            all == encodings(set@),
            "\n"@ == seq!['\n'],
            text@ == rendered(all.take(i as int)),
        decreases set.len() - i,
    {
        proof {
            assert(all.take(i + 1).drop_last() =~= all.take(i as int));
            assert(all.take(i + 1).last() == set@[i as int]@);
        }
        text.append(set[i].as_str());
        text.append("\n");
        i = i + 1;
    }
    assert(all.take(set@.len() as int) =~= all);
    text
}

/// A copy of a list of recipients.
pub fn duplicate(set: &[Recipient]) -> (copy: Vec<Recipient>)
    ensures
        encodings(copy@) == encodings(set@),
{
    let mut copy: Vec<Recipient> = Vec::new();
    let mut i: usize = 0;
    while i < set.len()
        invariant
            i <= set.len(),
            encodings(copy@) == encodings(set@).take(i as int),
        decreases set.len() - i,
    {
        let ghost before = encodings(copy@);
        copy.push(set[i].clone());
        assert(encodings(copy@) =~= before.push(set@[i as int]@));
        assert(encodings(set@).take(i + 1) =~= encodings(set@).take(i as int).push(
            set@[i as int]@,
        ));
        i = i + 1;
    }
    assert(encodings(set@).take(set@.len() as int) =~= encodings(set@));
    copy
}

} // verus!
