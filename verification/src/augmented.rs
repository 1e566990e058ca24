//! The index over a text: the text with its sentinel, its suffix array with
//! inverse and LCP array, and the tables of previous and next smaller values.

use crate::smaller::{auxiliaries, is_next_smaller, is_previous_smaller};
use crate::strings::push_char;
use crate::suffix_array::{
    build_lcp_array, build_suffix_array, is_inverse, is_lcp_array, is_suffix_array,
    lemma_sentinel_has_rank_zero, lemma_suffix_array_holds_position,
    lemma_suffix_array_ranks_differ,
};
use crate::text::sentinel_terminated;
use vstd::prelude::*;
use vstd::utf8::encode_utf8;

verus! {

/// What an index holds, as plain sequences.
pub struct IndexView {
    /// The characters of the text, followed by the sentinel.
    pub chars: Seq<char>,
    pub sentinel: char,
    pub suffix_array: Seq<usize>,
    pub inverse_suffix_array: Seq<usize>,
    pub lcp: Seq<isize>,
    pub psv: Seq<usize>,
    pub nsv: Seq<usize>,
}

impl IndexView {
    /// The bytes that the index is built over: the text and its sentinel.
    pub open spec fn bytes(self) -> Seq<u8> {
        encode_utf8(self.chars)
    }

    /// The bytes before the last one, which is the sentinel.
    pub open spec fn text(self) -> Seq<u8> {
        self.bytes().drop_last()
    }

    /// The tables belong to the bytes: the text ends in its sentinel, and each
    /// table is what its name says of these bytes.
    pub open spec fn wf(self) -> bool {
        let t = self.bytes();
        let sa = self.suffix_array;
        &&& self.chars.len() >= 1
        &&& self.chars.last() == self.sentinel
        &&& sentinel_terminated(t)
        &&& is_suffix_array(t, sa)
        &&& is_inverse(sa, self.inverse_suffix_array)
        &&& is_lcp_array(t, sa, self.lcp)
        &&& self.psv.len() == sa.len()
        &&& self.nsv.len() == sa.len()
        &&& forall|r: int|
            0 <= r < sa.len() ==> is_previous_smaller(sa, r, #[trigger] self.psv[r] as int)
        &&& forall|r: int|
            0 <= r < sa.len() ==> is_next_smaller(sa, r, #[trigger] self.nsv[r] as int)
    }
}

/// A text with its sentinel and the tables built over both.
#[derive(Debug)]
pub struct AugmentedString {
    underlying: String,
    suffix_array: Vec<usize>,
    inverse_suffix_array: Vec<usize>,
    lcp: Vec<isize>,
    psv: Vec<usize>,
    nsv: Vec<usize>,
    sentinel: char,
}

impl View for AugmentedString {
    type V = IndexView;

    closed spec fn view(&self) -> IndexView {
        IndexView {
            chars: self.underlying@,
            sentinel: self.sentinel,
            suffix_array: self.suffix_array@,
            inverse_suffix_array: self.inverse_suffix_array@,
            lcp: self.lcp@,
            psv: self.psv@,
            nsv: self.nsv@,
        }
    }
}

impl AugmentedString {
    /// Builds the index of `s` followed by `sentinel`. The last byte of this
    /// longer string must be smaller than all its other bytes.
    pub fn new(s: String, sentinel: char) -> (index: Self)
        requires
            sentinel_terminated(encode_utf8(s@.push(sentinel))),
        ensures
            index@.wf(),
            index@.chars == s@.push(sentinel),
            index@.sentinel == sentinel,
    {
        let mut s = s;
        push_char(&mut s, sentinel);
        let sa = build_suffix_array(s.as_str().as_bytes());
        proof {
            lemma_sentinel_has_rank_zero(encode_utf8(s@), sa@);
        }
        let isa = invert_suffix_array(sa.as_slice());
        let lcp = build_lcp_array(s.as_str().as_bytes(), &sa);
        let (psv, nsv) = auxiliaries(sa.as_slice());
        proof {
            lemma_last_ranks_invert(encode_utf8(s@), sa@, isa@);
        }
        Self { underlying: s, suffix_array: sa, inverse_suffix_array: isa, lcp, psv, nsv, sentinel }
    }

    pub fn sentinel(&self) -> (sentinel: char)
        ensures
            sentinel == self@.sentinel,
    {
        self.sentinel
    }

    /// The rank of the suffix that begins at position `index`.
    pub fn suffix_array_index(&self, index: usize) -> (rank: usize)
        requires
            index < self@.inverse_suffix_array.len(),
        ensures
            rank == self@.inverse_suffix_array[index as int],
    {
        self.inverse_suffix_array[index]
    }

    /// The position of the suffix of rank `index`. A rank past the end of the
    /// suffix array stands for the empty suffix, which begins at the length of
    /// the string.
    pub fn suffix_index(&self, index: usize) -> (position: usize)
        ensures
            position == if index < self@.suffix_array.len() {
                self@.suffix_array[index as int] as int
            } else {
                self@.bytes().len() as int
            },
    {
        if index < self.suffix_array.len() {
            self.suffix_array[index]
        } else {
            self.underlying.as_str().as_bytes().len()
        }
    }

    pub fn lcp(&self, index: usize) -> (len: isize)
        requires
            index < self@.lcp.len(),
        ensures
            len == self@.lcp[index as int],
    {
        self.lcp[index]
    }

    pub fn psv(&self, index: usize) -> (rank: usize)
        requires
            index < self@.psv.len(),
        ensures
            rank == self@.psv[index as int],
    {
        self.psv[index]
    }

    pub fn nsv(&self, index: usize) -> (rank: usize)
        requires
            index < self@.nsv.len(),
        ensures
            rank == self@.nsv[index as int],
    {
        self.nsv[index]
    }

    /// Number of bytes of the string, the sentinel counted.
    pub fn string_len(&self) -> (len: usize)
        ensures
            len == self@.bytes().len(),
    {
        self.underlying.as_str().as_bytes().len()
    }

    /// The string with its sentinel.
    pub fn underlying(&self) -> (s: &str)
        ensures
            s@ == self@.chars,
    {
        self.underlying.as_str()
    }
}

/// The last rank below `upto` at which `sa` holds position `p`, and 0 where it
/// holds `p` at none.
pub open spec fn last_rank_of(sa: Seq<usize>, p: int, upto: int) -> int
    decreases upto,
{
    if upto <= 0 {
        0
    } else if sa[upto - 1] == p {
        upto - 1
    } else {
        last_rank_of(sa, p, upto - 1)
    }
}

/// For each position the rank at which `suffix_array` holds it. Where a
/// position stands at several ranks the last one counts, and where it stands
/// at none the answer is 0.
pub fn invert_suffix_array(suffix_array: &[usize]) -> (inverse: Vec<usize>)
    requires
        forall|r: int| 0 <= r < suffix_array@.len() ==> #[trigger] suffix_array@[r] < suffix_array@.len(),
    ensures
        inverse@.len() == suffix_array@.len(),
        forall|p: int|
            0 <= p < inverse@.len() ==> #[trigger] inverse@[p] == last_rank_of(
                suffix_array@,
                p,
                suffix_array@.len() as int,
            ),
{
    let n = suffix_array.len();
    let mut inverse = vec![0usize; n];
    let mut i: usize = 0;
    while i < n
        invariant
            n == suffix_array@.len(),
            inverse@.len() == n,
            i <= n,
            forall|r: int| 0 <= r < n ==> #[trigger] suffix_array@[r] < n,
            forall|p: int|
                0 <= p < n ==> #[trigger] inverse@[p] == last_rank_of(suffix_array@, p, i as int),
        decreases n - i,
    {
        let suffix = suffix_array[i];
        inverse[suffix] = i;
        i += 1;
    }
    inverse
}

/// Where `sa` holds `p` at rank `r` and at no later rank below `upto`, `r` is
/// the last rank of `p`.
pub proof fn lemma_last_rank(sa: Seq<usize>, p: int, r: int, upto: int)
    requires
        0 <= r < upto <= sa.len(),
        sa[r] == p,
        forall|q: int| r < q < upto ==> #[trigger] sa[q] != p,
    ensures
        last_rank_of(sa, p, upto) == r,
    decreases upto,
{
    if upto - 1 > r {
        assert(sa[upto - 1] != p);
        lemma_last_rank(sa, p, r, upto - 1);
    }
}

/// Over a suffix array the table of last ranks is the inverse.
pub proof fn lemma_last_ranks_invert(t: Seq<u8>, sa: Seq<usize>, isa: Seq<usize>)
    requires
        is_suffix_array(t, sa),
        isa.len() == sa.len(),
        forall|p: int|
            0 <= p < isa.len() ==> #[trigger] isa[p] == last_rank_of(sa, p, sa.len() as int),
    ensures
        is_inverse(sa, isa),
{
    assert forall|p: int| 0 <= p < isa.len() implies #[trigger] isa[p] < sa.len() && sa[isa[p] as int]
        == p by {
        let r = lemma_suffix_array_holds_position(t, sa, p);
        assert forall|q: int| r < q < sa.len() implies #[trigger] sa[q] != p by {
            lemma_suffix_array_ranks_differ(t, sa, r, q);
        }
        lemma_last_rank(sa, p, r, sa.len() as int);
    }
}

} // verus!
