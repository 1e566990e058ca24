//! Previous and next smaller values over the ranks of a suffix array: for each
//! rank, the nearest rank before it and the nearest rank after it that hold a
//! smaller text position.

use vstd::prelude::*;

verus! {

/// The position compared at rank `r`: the entry of `sa` there, and 0 for a
/// rank past the end of `sa`.
pub open spec fn position_at(sa: Seq<usize>, r: int) -> int {
    if 0 <= r < sa.len() {
        sa[r] as int
    } else {
        0
    }
}

/// `p` is the previous smaller value of rank `r`: the nearest rank before `r`,
/// other than rank 0, that holds a position no greater than `sa[r]`. Rank 0 is
/// the root: it is the answer where there is no such rank, and its own answer.
pub open spec fn is_previous_smaller(sa: Seq<usize>, r: int, p: int) -> bool {
    if r == 0 {
        p == 0
    } else {
        &&& 0 <= p < r
        &&& p > 0 ==> sa[p] <= sa[r]
        &&& forall|m: int| p < m < r ==> #[trigger] sa[m] > sa[r]
    }
}

/// `q` is the nearest rank after `r` and before `bound` that holds a position
/// smaller than `sa[r]`; or `q` is 0 and there is no such rank.
pub open spec fn is_next_smaller_before(sa: Seq<usize>, r: int, q: int, bound: int) -> bool {
    if q == 0 {
        forall|m: int| r < m < bound ==> #[trigger] position_at(sa, m) >= sa[r]
    } else {
        &&& r < q < bound
        &&& position_at(sa, q) < sa[r]
        &&& forall|m: int| r < m < q ==> #[trigger] sa[m] >= sa[r]
    }
}

/// `q` is the next smaller value of rank `r`: the nearest rank after `r` that
/// holds a smaller position, where the rank one past the end counts as holding
/// position 0; or `q` is 0 and there is none. The root, rank 0, looks no
/// further than rank 1.
pub open spec fn is_next_smaller(sa: Seq<usize>, r: int, q: int) -> bool {
    if r == 0 {
        q == if position_at(sa, 1) < sa[0] {
            1int
        } else {
            0int
        }
    } else {
        is_next_smaller_before(sa, r, q, sa.len() as int + 1)
    }
}

/// The entry of `suffix_array` at `index`, or 0 where `index` is past its end.
pub fn position_or_zero(suffix_array: &[usize], index: usize) -> (position: usize)
    ensures
        position == position_at(suffix_array@, index as int),
{
    if index < suffix_array.len() {
        suffix_array[index]
    } else {
        0
    }
}

/// The tables of previous and of next smaller values of `suffix_array`, in
/// this order, one entry for each rank.
///
/// A single pass over the ranks: from the rank just before the current one it
/// follows the previous-smaller links already known, and every rank that it
/// leaves behind on the way has found its next smaller value.
pub fn auxiliaries(suffix_array: &[usize]) -> (tables: (Vec<usize>, Vec<usize>))
    ensures
        tables.0@.len() == suffix_array@.len(),
        tables.1@.len() == suffix_array@.len(),
        forall|r: int|
            0 <= r < suffix_array@.len() ==> is_previous_smaller(
                suffix_array@,
                r,
                #[trigger] tables.0@[r] as int,
            ),
        forall|r: int|
            0 <= r < suffix_array@.len() ==> is_next_smaller(
                suffix_array@,
                r,
                #[trigger] tables.1@[r] as int,
            ),
{
    let n = suffix_array.len();
    let mut psv = vec![0usize; n];
    let mut nsv = vec![0usize; n];
    let ghost sa = suffix_array@;
    let mut done: usize = 0;
    while done < n
        invariant
            sa == suffix_array@,
            n == sa.len(),
            psv@.len() == n,
            nsv@.len() == n,
            done <= n,
            forall|r: int|
                0 <= r <= done && r < n ==> is_previous_smaller(sa, r, #[trigger] psv@[r] as int),
            forall|r: int|
                1 <= r < n ==> is_next_smaller_before(sa, r, #[trigger] nsv@[r] as int, done + 1),
            n > 0 ==> nsv@[0] == (if done >= 1 && position_at(sa, 1) < sa[0] {
                1int
            } else {
                0int
            }),
        decreases n - done,
    {
        let i = done + 1;
        let mut j = done;
        while position_or_zero(suffix_array, i) < position_or_zero(suffix_array, j)
            invariant_except_break
                j >= 1 || i == 1,
                i == 1 ==> nsv@[0] == 0,
                forall|m: int| j < m < i ==> #[trigger] sa[m] >= sa[j as int],
            invariant
                sa == suffix_array@,
                n == sa.len(),
                psv@.len() == n,
                nsv@.len() == n,
                i == done + 1,
                done < n,
                j <= done,
                forall|r: int|
                    0 <= r <= done ==> is_previous_smaller(sa, r, #[trigger] psv@[r] as int),
                forall|m: int| j < m < i ==> #[trigger] sa[m] > position_at(sa, i as int),
                forall|r: int|
                    1 <= r <= j ==> is_next_smaller_before(
                        sa,
                        r,
                        #[trigger] nsv@[r] as int,
                        i as int,
                    ),
                forall|r: int|
                    j < r < n && 1 <= r ==> is_next_smaller_before(
                        sa,
                        r,
                        #[trigger] nsv@[r] as int,
                        i + 1,
                    ),
                i >= 2 ==> nsv@[0] == (if position_at(sa, 1) < sa[0] {
                    1int
                } else {
                    0int
                }),
            ensures
                j == 0 || position_at(sa, i as int) >= sa[j as int],
                i == 1 ==> nsv@[0] == (if position_at(sa, 1) < sa[0] {
                    1int
                } else {
                    0int
                }),
            decreases j,
        {
            let ghost before = nsv@;
            let ghost left = j as int;
            nsv[j] = i;
            j = psv[j];
            proof {
                assert(is_previous_smaller(sa, left, psv@[left] as int));
                if left >= 1 {
                    assert forall|m: int| j < m < i implies #[trigger] sa[m] > position_at(
                        sa,
                        i as int,
                    ) by {
                        if m < left {
                            assert(sa[m] > sa[left]);
                        }
                    }
                    assert forall|m: int| j < m < i && j >= 1 implies #[trigger] sa[m]
                        >= sa[j as int] by {
                        if m < left {
                            assert(sa[m] > sa[left]);
                        }
                    }
                    assert forall|r: int| j < r < n && 1 <= r implies is_next_smaller_before(
                        sa,
                        r,
                        #[trigger] nsv@[r] as int,
                        i + 1,
                    ) by {
                        if r < left {
                            assert(is_next_smaller_before(sa, r, before[r] as int, i as int));
                            assert(sa[r] > sa[left]);
                            assert(position_at(sa, left) == sa[left]);
                        } else if r == left {
                            assert(position_at(sa, i as int) < sa[left]);
                        } else {
                            assert(is_next_smaller_before(sa, r, before[r] as int, i + 1));
                        }
                    }
                } else {
                    assert forall|r: int| j < r < n && 1 <= r implies is_next_smaller_before(
                        sa,
                        r,
                        #[trigger] nsv@[r] as int,
                        i + 1,
                    ) by {
                        assert(is_next_smaller_before(sa, r, before[r] as int, i + 1));
                    }
                }
            }
            if j == 0 {
                break ;
            }
        }
        proof {
            assert forall|r: int| 1 <= r < n implies is_next_smaller_before(
                sa,
                r,
                #[trigger] nsv@[r] as int,
                i + 1,
            ) by {
                if r <= j {
                    assert(is_next_smaller_before(sa, r, nsv@[r] as int, i as int));
                    if nsv@[r] == 0 {
                        assert(position_at(sa, j as int) >= sa[r]);
                        assert forall|m: int| r < m < i + 1 implies #[trigger] position_at(sa, m)
                            >= sa[r] by {}
                    }
                }
            }
        }
        if i < n {
            psv[i] = j;
        }
        done = i;
    }
    (psv, nsv)
}

} // verus!
