//! Suffixes of a byte text: their longest common prefixes and their
//! lexicographic order. Everything here is specification and proof.

use vstd::prelude::*;

verus! {

/// Length of the longest common prefix of the suffixes of `t` that begin at
/// `a` and at `b`. A position at or past the end of `t` begins the empty
/// suffix, whose common prefix with anything is empty.
pub open spec fn common_prefix_len(t: Seq<u8>, a: int, b: int) -> nat
    decreases t.len() - a,
{
    if 0 <= a < t.len() && 0 <= b < t.len() && t[a] == t[b] {
        1 + common_prefix_len(t, a + 1, b + 1)
    } else {
        0
    }
}

/// The suffix of `t` at `a` comes strictly before the suffix at `b` in
/// lexicographic order of bytes. A proper prefix comes before what extends it,
/// so the empty suffix comes first.
pub open spec fn suffix_less(t: Seq<u8>, a: int, b: int) -> bool
    decreases t.len() - a,
{
    if b >= t.len() {
        false
    } else if a >= t.len() {
        true
    } else if t[a] != t[b] {
        t[a] < t[b]
    } else {
        suffix_less(t, a + 1, b + 1)
    }
}

/// The last byte of `t` is its sentinel: strictly smaller than every other
/// byte of `t`, and so found nowhere else in it.
pub open spec fn sentinel_terminated(t: Seq<u8>) -> bool {
    &&& t.len() >= 1
    &&& forall|i: int| 0 <= i < t.len() - 1 ==> #[trigger] t[i] > t[t.len() - 1]
}

/// No byte of `t` is the byte 0.
pub open spec fn sentinel_free(t: Seq<u8>) -> bool {
    forall|i: int| 0 <= i < t.len() ==> #[trigger] t[i] != 0
}

/// A common prefix never runs past the end of the text.
pub proof fn lemma_common_prefix_in_text(t: Seq<u8>, a: int, b: int)
    requires
        0 <= a <= t.len(),
        0 <= b <= t.len(),
    ensures
        a + common_prefix_len(t, a, b) <= t.len(),
        b + common_prefix_len(t, a, b) <= t.len(),
    decreases t.len() - a,
{
    if a < t.len() && b < t.len() && t[a] == t[b] {
        lemma_common_prefix_in_text(t, a + 1, b + 1);
    }
}

/// Inside the common prefix the two suffixes agree byte for byte.
pub proof fn lemma_common_prefix_agrees(t: Seq<u8>, a: int, b: int, i: int)
    requires
        0 <= a,
        0 <= b,
        0 <= i < common_prefix_len(t, a, b),
    ensures
        a + i < t.len(),
        b + i < t.len(),
        t[a + i] == t[b + i],
    decreases i,
{
    if i > 0 {
        lemma_common_prefix_agrees(t, a + 1, b + 1, i - 1);
    }
}

/// The common prefix is the longest one: where both suffixes go on after it,
/// their next bytes differ.
pub proof fn lemma_common_prefix_is_longest(t: Seq<u8>, a: int, b: int)
    requires
        0 <= a,
        0 <= b,
        a + common_prefix_len(t, a, b) < t.len(),
        b + common_prefix_len(t, a, b) < t.len(),
    ensures
        t[a + common_prefix_len(t, a, b)] != t[b + common_prefix_len(t, a, b)],
    decreases t.len() - a,
{
    if a < t.len() && b < t.len() && t[a] == t[b] {
        lemma_common_prefix_is_longest(t, a + 1, b + 1);
    }
}

/// Any run of agreeing bytes is covered by the common prefix.
pub proof fn lemma_common_prefix_covers(t: Seq<u8>, a: int, b: int, len: int)
    requires
        0 <= a,
        0 <= b,
        0 <= len,
        a + len <= t.len(),
        b + len <= t.len(),
        forall|i: int| a <= i < a + len ==> #[trigger] t[i] == t[i - a + b],
    ensures
        len <= common_prefix_len(t, a, b),
    decreases len,
{
    if len > 0 {
        assert(t[a] == t[a - a + b]);
        assert forall|i: int| a + 1 <= i < a + len implies #[trigger] t[i] == t[i - (a + 1) + (b + 1)] by {
            assert(t[i] == t[i - a + b]);
        }
        lemma_common_prefix_covers(t, a + 1, b + 1, len - 1);
    }
}

pub proof fn lemma_common_prefix_symmetric(t: Seq<u8>, a: int, b: int)
    ensures
        common_prefix_len(t, a, b) == common_prefix_len(t, b, a),
    decreases t.len() - a,
{
    if 0 <= a < t.len() && 0 <= b < t.len() && t[a] == t[b] {
        lemma_common_prefix_symmetric(t, a + 1, b + 1);
    }
}

/// A suffix shares all of itself with itself.
pub proof fn lemma_common_prefix_with_itself(t: Seq<u8>, a: int)
    requires
        0 <= a <= t.len(),
    ensures
        common_prefix_len(t, a, a) == t.len() - a,
    decreases t.len() - a,
{
    if a < t.len() {
        lemma_common_prefix_with_itself(t, a + 1);
    }
}

/// Between two different positions the sentinel never takes part in a common
/// prefix, so the text may be read with or without it.
pub proof fn lemma_common_prefix_without_sentinel(t: Seq<u8>, a: int, b: int)
    requires
        sentinel_terminated(t),
        0 <= a <= t.len(),
        0 <= b <= t.len(),
        a != b,
    ensures
        common_prefix_len(t, a, b) == common_prefix_len(t.drop_last(), a, b),
    decreases t.len() - a,
{
    let s = t.drop_last();
    let last = t.len() - 1;
    if a < t.len() && b < t.len() && t[a] == t[b] {
        if a == last {
            assert(t[b] > t[last]);
        } else if b == last {
            assert(t[a] > t[last]);
        } else {
            assert(s[a] == t[a] && s[b] == t[b]);
            lemma_common_prefix_without_sentinel(t, a + 1, b + 1);
        }
    } else if a < s.len() && b < s.len() {
        assert(s[a] == t[a] && s[b] == t[b]);
    }
}

pub proof fn lemma_suffix_less_irreflexive(t: Seq<u8>, a: int)
    ensures
        !suffix_less(t, a, a),
    decreases t.len() - a,
{
    if a < t.len() {
        lemma_suffix_less_irreflexive(t, a + 1);
    }
}

pub proof fn lemma_suffix_less_asymmetric(t: Seq<u8>, a: int, b: int)
    requires
        suffix_less(t, a, b),
    ensures
        !suffix_less(t, b, a),
    decreases t.len() - a,
{
    if b < t.len() && a < t.len() && t[a] == t[b] {
        lemma_suffix_less_asymmetric(t, a + 1, b + 1);
    }
}

/// Two different suffixes of one text are never equal, so one of them comes
/// first.
pub proof fn lemma_suffix_less_total(t: Seq<u8>, a: int, b: int)
    requires
        0 <= a <= t.len(),
        0 <= b <= t.len(),
        a != b,
    ensures
        suffix_less(t, a, b) || suffix_less(t, b, a),
    decreases t.len() - a,
{
    if a < t.len() && b < t.len() && t[a] == t[b] {
        lemma_suffix_less_total(t, a + 1, b + 1);
    }
}

/// The order of two different suffixes does not depend on whether the text is
/// read with its sentinel or without it.
pub proof fn lemma_suffix_less_without_sentinel(t: Seq<u8>, a: int, b: int)
    requires
        sentinel_terminated(t),
        0 <= a < t.len(),
        0 <= b < t.len(),
        a != b,
    ensures
        suffix_less(t, a, b) == suffix_less(t.drop_last(), a, b),
    decreases t.len() - a,
{
    let s = t.drop_last();
    let last = t.len() - 1;
    if a < last && b < last {
        assert(s[a] == t[a] && s[b] == t[b]);
        if t[a] == t[b] {
            lemma_suffix_less_without_sentinel(t, a + 1, b + 1);
        }
    } else if a == last && b < last {
        assert(t[b] > t[last]);
    } else if b == last && a < last {
        assert(t[a] > t[last]);
    }
}

/// The suffix that holds the sentinel alone comes before every longer one.
pub proof fn lemma_sentinel_suffix_is_least(t: Seq<u8>, a: int)
    requires
        sentinel_terminated(t),
        0 <= a < t.len() - 1,
    ensures
        suffix_less(t, t.len() - 1, a),
{
    assert(t[a] > t[t.len() - 1]);
}

/// Of three suffixes in lexicographic order, the outer two share exactly what
/// both neighbouring pairs share.
pub proof fn lemma_common_prefix_of_ordered(t: Seq<u8>, a: int, b: int, c: int)
    requires
        0 <= a,
        0 <= b,
        0 <= c,
        suffix_less(t, a, b),
        suffix_less(t, b, c),
    ensures
        common_prefix_len(t, a, c) == if common_prefix_len(t, a, b) <= common_prefix_len(t, b, c) {
            common_prefix_len(t, a, b)
        } else {
            common_prefix_len(t, b, c)
        },
    decreases t.len() - a,
{
    if a < t.len() && t[a] == t[c] {
        assert(t[a] == t[b]);
        lemma_common_prefix_of_ordered(t, a + 1, b + 1, c + 1);
    }
}

} // verus!
