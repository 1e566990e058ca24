//! Why two candidates are enough: the factor that the index selects at a
//! position is the factor of the text there.

use crate::augmented::IndexView;
use crate::factorization::{
    is_factor_at, is_factorization, is_nearest_source, lemma_factor_advances, start_of,
};
use crate::lz::selected_factor;
use crate::lzfactor::LZFactor;
use crate::smaller::{is_next_smaller, is_previous_smaller, position_at};
use crate::suffix_array::{
    lemma_sentinel_has_rank_zero, lemma_suffix_array_ranks_differ,
    lemma_suffix_order_is_rank_order,
};
use crate::text::{
    common_prefix_len, lemma_common_prefix_in_text, lemma_common_prefix_of_ordered,
    lemma_common_prefix_symmetric, lemma_common_prefix_without_sentinel,
    lemma_suffix_less_asymmetric, lemma_suffix_less_irreflexive,
    lemma_suffix_less_without_sentinel, suffix_less,
};
use vstd::prelude::*;

verus! {

/// The position of the suffix of rank `r`; for a rank past the end of the
/// suffix array, the length of the string.
pub open spec fn position_of_rank(v: IndexView, r: int) -> int {
    if 0 <= r < v.suffix_array.len() {
        v.suffix_array[r] as int
    } else {
        v.bytes().len() as int
    }
}

/// The factor that the index selects at position `k`: the candidates are the
/// positions at the previous and at the next smaller value of the rank of `k`.
pub open spec fn factor_from_index(v: IndexView, k: int) -> LZFactor {
    let r = v.inverse_suffix_array[k] as int;
    selected_factor(
        v.bytes(),
        k,
        position_of_rank(v, v.psv[r] as int),
        position_of_rank(v, v.nsv[r] as int),
    )
}

/// Over the text without its sentinel, too, the order of two ranks is the
/// order of their suffixes.
pub proof fn lemma_rank_order_in_text(v: IndexView, a: int, b: int)
    requires
        v.wf(),
        0 <= a < v.suffix_array.len(),
        0 <= b < v.suffix_array.len(),
        a != b,
    ensures
        suffix_less(v.text(), v.suffix_array[a] as int, v.suffix_array[b] as int) <==> a < b,
{
    let sa = v.suffix_array;
    lemma_suffix_array_ranks_differ(v.bytes(), sa, a, b);
    lemma_suffix_order_is_rank_order(v.bytes(), sa, a, b);
    lemma_suffix_less_without_sentinel(v.bytes(), sa[a] as int, sa[b] as int);
}

/// Of two ranks on one side of rank `c`, the one nearer to `c` shares at least
/// as long a prefix with it.
pub proof fn lemma_nearer_rank_shares_more(v: IndexView, a: int, b: int, c: int)
    requires
        v.wf(),
        0 <= a < v.suffix_array.len(),
        0 <= b < v.suffix_array.len(),
        0 <= c < v.suffix_array.len(),
        a <= b < c || c < b <= a,
    ensures
        common_prefix_len(v.text(), v.suffix_array[a] as int, v.suffix_array[c] as int)
            <= common_prefix_len(v.text(), v.suffix_array[b] as int, v.suffix_array[c] as int),
{
    let sa = v.suffix_array;
    let bytes = v.bytes();
    let (x, y, z) = (sa[a] as int, sa[b] as int, sa[c] as int);
    if a != b {
        lemma_suffix_array_ranks_differ(bytes, sa, a, c);
        lemma_suffix_array_ranks_differ(bytes, sa, b, c);
        lemma_common_prefix_without_sentinel(bytes, x, z);
        lemma_common_prefix_without_sentinel(bytes, y, z);
        if a < b {
            assert(suffix_less(bytes, x, y));
            assert(suffix_less(bytes, y, z));
            lemma_common_prefix_of_ordered(bytes, x, y, z);
        } else {
            assert(suffix_less(bytes, z, y));
            assert(suffix_less(bytes, y, x));
            lemma_common_prefix_of_ordered(bytes, z, y, x);
            lemma_common_prefix_symmetric(bytes, z, x);
            lemma_common_prefix_symmetric(bytes, z, y);
        }
    }
}

/// At the sentinel the index selects a literal that holds the sentinel.
pub proof fn lemma_index_selects_sentinel(v: IndexView)
    requires
        v.wf(),
    ensures
        factor_from_index(v, v.text().len() as int) == LZFactor::Char(
            v.bytes().last(),
            v.text().len() as usize,
        ),
{
}

/// At every position before the sentinel the index selects the factor of the
/// text at that position.
pub proof fn lemma_index_selects_factor(v: IndexView, k: int)
    requires
        v.wf(),
        0 <= k < v.text().len(),
    ensures
        is_factor_at(v.text(), k, factor_from_index(v, k)),
{
    let t = v.text();
    let bytes = v.bytes();
    let sa = v.suffix_array;
    let isa = v.inverse_suffix_array;
    let n = bytes.len() as int;
    let r = isa[k] as int;
    let p = v.psv[r] as int;
    let q = v.nsv[r] as int;
    let prev = position_of_rank(v, p);
    let next = position_of_rank(v, q);
    let lesser = common_prefix_len(t, k, prev);
    let greater = common_prefix_len(t, k, next);
    let f = factor_from_index(v, k);

    lemma_sentinel_has_rank_zero(bytes, sa);
    assert(sa[r] == k);
    assert(r != 0);
    assert(is_previous_smaller(sa, r, p));
    assert(is_next_smaller(sa, r, q));
    assert(bytes[k] == t[k]);

    // The candidate below: a position before `k`, or the sentinel.
    if p > 0 {
        lemma_suffix_array_ranks_differ(bytes, sa, p, r);
        assert(prev < k);
        lemma_rank_order_in_text(v, p, r);
    } else {
        assert(prev == n - 1);
        assert(lesser == 0);
    }
    // The candidate above: a position before `k`, or none.
    if 0 < q < n {
        assert(position_at(sa, q) == sa[q]);
        assert(next < k);
        lemma_rank_order_in_text(v, r, q);
    } else {
        assert(next >= n - 1);
        assert(greater == 0);
    }
    lemma_common_prefix_symmetric(t, k, prev);
    lemma_common_prefix_symmetric(t, k, next);

    // Every earlier position shares no more than the candidate on its side.
    assert forall|x: int| 0 <= x < k implies {
        &&& isa[x] != r
        &&& isa[x] < r ==> 1 <= isa[x] <= p && common_prefix_len(t, x, k) <= lesser
        &&& isa[x] > r ==> 1 <= q <= isa[x] && q < n && common_prefix_len(t, x, k) <= greater
    } by {
        let m = isa[x] as int;
        assert(sa[m] == x);
        assert(m != 0);
        if m < r {
            if p < m {
                assert(sa[m] > sa[r]);
            }
            lemma_nearer_rank_shares_more(v, m, p, r);
        } else {
            assert(position_at(sa, m) == sa[m]);
            if q > m {
                assert(sa[m] >= sa[r]);
            }
            lemma_nearer_rank_shares_more(v, m, q, r);
        }
    }

    if lesser > greater {
        assert(f == LZFactor::Factor(prev as usize, lesser as usize, (k + lesser) as usize));
        lemma_common_prefix_in_text(t, prev, k);
        assert forall|x: int| 0 <= x < k && #[trigger] suffix_less(t, prev, x) implies !suffix_less(
            t,
            x,
            k,
        ) by {
            let m = isa[x] as int;
            assert(sa[m] == x);
            lemma_suffix_less_irreflexive(t, prev);
            if m != p {
                lemma_rank_order_in_text(v, p, m);
            }
            lemma_rank_order_in_text(v, m, r);
            if p < m < r {
                assert(sa[m] > sa[r]);
            }
        }
        assert forall|x: int| 0 <= x < k && #[trigger] suffix_less(t, x, prev) implies !suffix_less(
            t,
            k,
            x,
        ) by {
            let m = isa[x] as int;
            assert(sa[m] == x);
            lemma_suffix_less_irreflexive(t, prev);
            if m != p {
                lemma_rank_order_in_text(v, m, p);
            }
            lemma_rank_order_in_text(v, r, m);
        }
        assert(is_nearest_source(t, k, prev));
        assert forall|x: int| 0 <= x < k implies #[trigger] common_prefix_len(t, x, k)
            <= lesser by {
            assert(isa[x] != r);
        }
        assert forall|x: int| 0 <= x < k && #[trigger] suffix_less(t, k, x) implies common_prefix_len(
            t,
            x,
            k,
        ) < lesser by {
            let m = isa[x] as int;
            assert(sa[m] == x);
            lemma_rank_order_in_text(v, r, m);
        }
    } else if greater > 0 {
        assert(f == LZFactor::Factor(next as usize, greater as usize, (k + greater) as usize));
        lemma_common_prefix_in_text(t, next, k);
        assert forall|x: int| 0 <= x < k && #[trigger] suffix_less(t, next, x) implies !suffix_less(
            t,
            x,
            k,
        ) by {
            let m = isa[x] as int;
            assert(sa[m] == x);
            lemma_suffix_less_irreflexive(t, next);
            if m != q {
                lemma_rank_order_in_text(v, q, m);
            }
            lemma_rank_order_in_text(v, m, r);
        }
        assert forall|x: int| 0 <= x < k && #[trigger] suffix_less(t, x, next) implies !suffix_less(
            t,
            k,
            x,
        ) by {
            let m = isa[x] as int;
            assert(sa[m] == x);
            lemma_suffix_less_irreflexive(t, next);
            if m != q {
                lemma_rank_order_in_text(v, m, q);
            }
            lemma_rank_order_in_text(v, r, m);
            if r < m < q {
                assert(sa[m] >= sa[r]);
            }
        }
        assert(is_nearest_source(t, k, next));
        assert forall|x: int| 0 <= x < k implies #[trigger] common_prefix_len(t, x, k)
            <= greater by {
            assert(isa[x] != r);
        }
        assert(suffix_less(t, k, next));
        lemma_suffix_less_asymmetric(t, k, next);
    } else {
        assert(f == LZFactor::Char(bytes[k], k as usize));
        assert forall|x: int| 0 <= x < k implies #[trigger] t[x] != t[k] by {
            assert(isa[x] != r);
            assert(common_prefix_len(t, x, k) == 0);
        }
    }
}

/// State of the scan that has found the factors `fs` and goes on at position
/// `k` of the string: the factors follow one another from position 0 to `k`,
/// each begins at or before the sentinel, and each that begins before it is the
/// factor of the text there. A scan that has reached the end of the string has
/// found the sentinel's factor last.
pub closed spec fn is_scan(v: IndexView, fs: Seq<LZFactor>, k: int) -> bool {
    let n = v.bytes().len();
    &&& 0 <= k <= n
    &&& start_of(fs, fs.len() as int) == k
    &&& k == n ==> fs.len() >= 1 && start_of(fs, fs.len() - 1) == n - 1
    &&& forall|i: int|
        0 <= i < fs.len() ==> #[trigger] start_of(fs, i) <= n - 1 && start_of(fs, i)
            < fs[i].spec_next_index() && (start_of(fs, i) < n - 1 ==> is_factor_at(
            v.text(),
            start_of(fs, i),
            fs[i],
        ))
}

/// The scan begins at position 0 with no factor.
pub proof fn lemma_scan_begins(v: IndexView)
    requires
        v.wf(),
    ensures
        is_scan(v, Seq::empty(), 0),
{
}

/// The factor that the index selects at `k` carries the scan on, to a position
/// after `k` and inside the string.
pub proof fn lemma_scan_goes_on(v: IndexView, fs: Seq<LZFactor>, k: int)
    requires
        v.wf(),
        is_scan(v, fs, k),
        k < v.bytes().len(),
    ensures
        k < factor_from_index(v, k).spec_next_index() <= v.bytes().len(),
        v.bytes().len() - 1 <= usize::MAX,
        is_scan(v, fs.push(factor_from_index(v, k)), factor_from_index(v, k).spec_next_index()),
{
    let n = v.bytes().len();
    let f = factor_from_index(v, k);
    let longer = fs.push(f);
    lemma_sentinel_has_rank_zero(v.bytes(), v.suffix_array);
    if k < n - 1 {
        lemma_index_selects_factor(v, k);
        lemma_factor_advances(v.text(), k, f);
    } else {
        lemma_index_selects_sentinel(v);
    }
    lemma_starts_of_longer(fs, f);
}

/// One more factor at the end leaves the earlier factors where they begin, and
/// begins where the last of them ends.
proof fn lemma_starts_of_longer(fs: Seq<LZFactor>, f: LZFactor)
    ensures
        forall|i: int|
            0 <= i <= fs.len() ==> #[trigger] start_of(fs.push(f), i) == start_of(fs, i),
        start_of(fs.push(f), fs.len() as int + 1) == f.spec_next_index(),
        forall|i: int| 0 <= i < fs.len() ==> #[trigger] fs.push(f)[i] == fs[i],
        fs.push(f)[fs.len() as int] == f,
{
}

/// Without its last factor a sequence leaves the others where they begin.
proof fn lemma_starts_of_shorter(fs: Seq<LZFactor>)
    requires
        fs.len() >= 1,
    ensures
        forall|i: int|
            0 <= i < fs.len() ==> #[trigger] start_of(fs.drop_last(), i) == start_of(fs, i),
        forall|i: int| 0 <= i < fs.len() - 1 ==> #[trigger] fs.drop_last()[i] == fs[i],
{
}

/// A scan that has reached the end of the string has found the factorization
/// of the text, followed by the sentinel's factor.
pub proof fn lemma_scan_ends(v: IndexView, fs: Seq<LZFactor>)
    requires
        v.wf(),
        is_scan(v, fs, v.bytes().len() as int),
    ensures
        fs.len() >= 1,
        is_factorization(v.text(), fs.drop_last()),
{
    let n = v.bytes().len();
    let found = fs.drop_last();
    lemma_starts_of_shorter(fs);
    assert forall|i: int| 0 <= i < found.len() implies #[trigger] start_of(found, i)
        < v.text().len() && is_factor_at(v.text(), start_of(found, i), found[i]) by {
        assert(start_of(found, i) == start_of(fs, i));
        assert(start_of(fs, i) < fs[i].spec_next_index());
        assert(start_of(fs, i + 1) <= n - 1);
    }
    assert(start_of(found, found.len() as int) == start_of(fs, fs.len() - 1));
}

} // verus!
