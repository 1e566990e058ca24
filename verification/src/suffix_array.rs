//! What a suffix array, its inverse and its LCP array are, and the two calls
//! that build the first and the last.

use crate::text::{
    common_prefix_len, lemma_sentinel_suffix_is_least, lemma_suffix_less_asymmetric,
    lemma_suffix_less_irreflexive, sentinel_terminated, suffix_less,
};
use vstd::prelude::*;
use vstd::set_lib::{lemma_int_range, lemma_subset_equality, set_int_range};

verus! {

/// `sa` lists every position of `t` once, the suffixes in strictly increasing
/// lexicographic order: `sa[r]` is the position whose suffix has rank `r`.
pub open spec fn is_suffix_array(t: Seq<u8>, sa: Seq<usize>) -> bool {
    &&& sa.len() == t.len()
    &&& forall|r: int| 0 <= r < sa.len() ==> #[trigger] sa[r] < t.len()
    &&& forall|q: int, r: int|
        #![trigger sa[q], sa[r]]
        0 <= q < r < sa.len() ==> suffix_less(t, sa[q] as int, sa[r] as int)
}

/// `isa` maps each position to its rank in `sa`, and `sa` maps it back.
pub open spec fn is_inverse(sa: Seq<usize>, isa: Seq<usize>) -> bool {
    &&& isa.len() == sa.len()
    &&& forall|p: int|
        0 <= p < isa.len() ==> #[trigger] isa[p] < sa.len() && sa[isa[p] as int] == p
}

/// `lcp` holds, at each rank from 1 on, the length of the longest common
/// prefix of the suffix of that rank and the one ranked just before it. It is
/// one entry longer than the text; its first and last entries are -1 and stand
/// for no pair of suffixes.
pub open spec fn is_lcp_array(t: Seq<u8>, sa: Seq<usize>, lcp: Seq<isize>) -> bool {
    &&& lcp.len() == t.len() + 1
    &&& lcp[0] == -1
    &&& lcp[t.len() as int] == -1
    &&& forall|r: int|
        1 <= r < t.len() ==> #[trigger] lcp[r] == common_prefix_len(
            t,
            sa[r - 1] as int,
            sa[r] as int,
        )
}

/// Builds the suffix array of `text` with
/// `bio::data_structures::suffix_array::suffix_array`.
///
/// Not proved here: that the vector returned lists the positions of `text`
/// with their suffixes in increasing lexicographic order. The call panics on
/// an empty text and on one with a byte below its last byte; on a text whose
/// last byte occurs again it ranks the occurrences by position. All three are
/// kept out by asking for a text that ends in its sentinel.
#[verifier::external_body]
pub(crate) fn build_suffix_array(text: &[u8]) -> (sa: Vec<usize>)
    requires
        sentinel_terminated(text@),
    ensures
        is_suffix_array(text@, sa@),
{
    bio::data_structures::suffix_array::suffix_array(text)
}

/// Builds the LCP array of `text` and its suffix array `sa` with
/// `bio::data_structures::suffix_array::lcp`, and unpacks the compact array
/// that it returns with `SmallInts::decompress`.
///
/// Not proved here: that the vector has one entry more than the text, -1 at
/// both ends, and between them at each rank the length of the longest common
/// prefix of the suffix of that rank and of the one before it. The call
/// panics unless `sa` has the length of the text, holds every position, and
/// begins with the last one.
#[verifier::external_body]
pub(crate) fn build_lcp_array(text: &[u8], sa: &Vec<usize>) -> (lcp: Vec<isize>)
    requires
        sentinel_terminated(text@),
        is_suffix_array(text@, sa@),
        sa@[0] == text@.len() - 1,
    ensures
        is_lcp_array(text@, sa@, lcp@),
{
    bio::data_structures::suffix_array::lcp(text, sa).decompress()
}

/// No position stands at two ranks of a suffix array.
pub proof fn lemma_suffix_array_ranks_differ(t: Seq<u8>, sa: Seq<usize>, q: int, r: int)
    requires
        is_suffix_array(t, sa),
        0 <= q < sa.len(),
        0 <= r < sa.len(),
        q != r,
    ensures
        sa[q] != sa[r],
{
    if q < r {
        assert(suffix_less(t, sa[q] as int, sa[r] as int));
        lemma_suffix_less_irreflexive(t, sa[q] as int);
    } else {
        assert(suffix_less(t, sa[r] as int, sa[q] as int));
        lemma_suffix_less_irreflexive(t, sa[r] as int);
    }
}

/// Every position of the text stands at some rank of its suffix array.
pub proof fn lemma_suffix_array_holds_position(t: Seq<u8>, sa: Seq<usize>, p: int) -> (r: int)
    requires
        is_suffix_array(t, sa),
        0 <= p < t.len(),
    ensures
        0 <= r < sa.len(),
        sa[r] == p,
{
    let positions = sa.map_values(|x: usize| x as int);
    let all = set_int_range(0, t.len() as int);
    assert forall|q: int, r: int|
        0 <= q < positions.len() && 0 <= r < positions.len() && q != r implies positions[q]
        != positions[r] by {
        lemma_suffix_array_ranks_differ(t, sa, q, r);
    }
    assert(positions.no_duplicates());
    positions.unique_seq_to_set();
    lemma_int_range(0, t.len() as int);
    assert forall|x: int| positions.to_set().contains(x) implies all.contains(x) by {
        let r = choose|r: int| 0 <= r < positions.len() && positions[r] == x;
        assert(sa[r] < t.len());
    }
    assert(positions.to_set().subset_of(all));
    vstd::seq_lib::seq_to_set_is_finite(positions);
    lemma_subset_equality(positions.to_set(), all);
    assert(all.contains(p));
    assert(positions.to_set().contains(p));
    assert(positions.contains(p));
    let r = choose|r: int| 0 <= r < positions.len() && positions[r] == p;
    r
}

/// In a suffix array, the order of two ranks is the order of their suffixes.
pub proof fn lemma_suffix_order_is_rank_order(t: Seq<u8>, sa: Seq<usize>, q: int, r: int)
    requires
        is_suffix_array(t, sa),
        0 <= q < sa.len(),
        0 <= r < sa.len(),
    ensures
        suffix_less(t, sa[q] as int, sa[r] as int) <==> q < r,
{
    if q < r {
        assert(suffix_less(t, sa[q] as int, sa[r] as int));
    } else if q == r {
        lemma_suffix_less_irreflexive(t, sa[q] as int);
    } else {
        assert(suffix_less(t, sa[r] as int, sa[q] as int));
        lemma_suffix_less_asymmetric(t, sa[r] as int, sa[q] as int);
    }
}

/// The suffix array of a text that ends in its sentinel begins with the
/// sentinel's position.
pub proof fn lemma_sentinel_has_rank_zero(t: Seq<u8>, sa: Seq<usize>)
    requires
        sentinel_terminated(t),
        is_suffix_array(t, sa),
    ensures
        sa[0] == t.len() - 1,
{
    let last = t.len() - 1;
    if sa[0] != last {
        assert(sa[0] < t.len());
        let r = lemma_suffix_array_holds_position(t, sa, last);
        assert(suffix_less(t, sa[0] as int, sa[r] as int));
        lemma_sentinel_suffix_is_least(t, sa[0] as int);
        lemma_suffix_less_asymmetric(t, last, sa[0] as int);
    }
}

} // verus!
