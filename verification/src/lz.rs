//! Factorizing a text and replaying a factorization.

use crate::augmented::AugmentedString;
use crate::factorization::{
    copy_bytes, factorization, is_factorization, lemma_factorization_found,
    lemma_forward_progress, lemma_prefix_replays, lemma_round_trip, reads_produced_bytes, replay,
    replay_factor, replayable, start_of,
};
use crate::lzfactor::LZFactor;
use crate::selection::{is_scan, lemma_scan_begins, lemma_scan_ends, lemma_scan_goes_on};
use crate::strings::{
    has_no_nul, lemma_ascii_bytes, lemma_encode_nul, lemma_encode_push, lemma_encoding_has_no_nul,
};
use crate::suffix_array::{lemma_sentinel_has_rank_zero, lemma_suffix_array_ranks_differ};
use crate::text::{
    common_prefix_len, lemma_common_prefix_in_text, lemma_common_prefix_of_ordered,
    lemma_common_prefix_symmetric, lemma_common_prefix_with_itself,
    lemma_common_prefix_without_sentinel, sentinel_terminated, suffix_less,
};
use vstd::prelude::*;
use vstd::utf8::{encode_utf8, is_ascii_chars};

verus! {

/// The text that the factors produce when they are replayed in order.
///
/// A literal appends its byte. A copy factor appends its bytes one at a time,
/// each read from the output as it stands at that moment, so that a copy may
/// run into the bytes that it has itself appended.
pub fn reconstruct(factors: Vec<LZFactor>) -> (text: Vec<u8>)
    requires
        replayable(factors@),
    ensures
        text@ == replay(factors@),
{
    let mut buffer: Vec<u8> = Vec::new();
    let mut n: usize = 0;
    while n < factors.len()
        invariant
            n <= factors@.len(),
            replayable(factors@),
            buffer@ == replay(factors@.take(n as int)),
        decreases factors@.len() - n,
    {
        let ghost before = buffer@;
        assert(reads_produced_bytes(before.len(), factors@[n as int]));
        match factors[n] {
            LZFactor::Char(byte, _) => buffer.push(byte),
            LZFactor::Factor(pattern_start, len, _) => {
                let mut i: usize = 0;
                while i < len
                    invariant
                        i <= len,
                        len == 0 || pattern_start < before.len(),
                        buffer@.len() == before.len() + i,
                        copy_bytes(buffer@, pattern_start + i, (len - i) as nat) == copy_bytes(
                            before,
                            pattern_start as int,
                            len as nat,
                        ),
                    decreases len - i,
                {
                    assert(buffer@.len() == buffer.len());
                    let byte = buffer[pattern_start + i];
                    buffer.push(byte);
                    i += 1;
                }
            },
        }
        proof {
            let upto = factors@.take(n + 1);
            assert(upto.drop_last() =~= factors@.take(n as int));
            assert(upto.last() == factors@[n as int]);
            assert(buffer@ == replay_factor(before, factors@[n as int]));
        }
        n += 1;
    }
    proof {
        assert(factors@.take(n as int) =~= factors@);
    }
    buffer
}

/// Length of the longest common prefix of the suffixes that begin at `index1`
/// and at `index2`, the sentinel not counted.
///
/// The suffix at the sentinel and the empty suffix past it share nothing with
/// any suffix. A suffix shares with itself all that follows up to the
/// sentinel. For two different positions the answer is the least entry of the
/// LCP array between their ranks.
pub fn lcp_len(s: &AugmentedString, index1: usize, index2: usize) -> (len: usize)
    requires
        s@.wf(),
        index1 <= s@.bytes().len(),
        index2 <= s@.bytes().len(),
    ensures
        len == common_prefix_len(s@.text(), index1 as int, index2 as int),
        index1 >= s@.bytes().len() - 1 || index2 >= s@.bytes().len() - 1 ==> len == 0,
        index1 == index2 && index1 < s@.bytes().len() ==> len == s@.bytes().len() - index1 - 1,
{
    let ghost bytes = s@.bytes();
    let ghost sa = s@.suffix_array;
    let n = s.string_len();
    if index1 == n || index2 == n {
        return 0;
    }
    if index1 == index2 {
        proof {
            lemma_common_prefix_with_itself(s@.text(), index1 as int);
        }
        return n - index1 - 1;
    }
    let suffix_index_1 = s.suffix_array_index(index1);
    let suffix_index_2 = s.suffix_array_index(index2);
    let (min_index, max_index) = if suffix_index_1 <= suffix_index_2 {
        (suffix_index_1, suffix_index_2)
    } else {
        (suffix_index_2, suffix_index_1)
    };
    let mut min: isize = isize::MAX;
    let mut i: usize = min_index + 1;
    while i <= max_index
        invariant
            s@.wf(),
            bytes == s@.bytes(),
            sa == s@.suffix_array,
            min_index < max_index < n,
            n == sa.len(),
            min_index < i <= max_index + 1,
            i == min_index + 1 ==> min == isize::MAX,
            i > min_index + 1 ==> min == common_prefix_len(
                bytes,
                sa[min_index as int] as int,
                sa[i - 1] as int,
            ),
        decreases max_index + 1 - i,
    {
        let value = s.lcp(i);
        proof {
            assert(value == common_prefix_len(bytes, sa[i - 1] as int, sa[i as int] as int));
            if i > min_index + 1 {
                assert(suffix_less(
                    bytes,
                    sa[min_index as int] as int,
                    sa[i - 1] as int,
                ));
                assert(suffix_less(bytes, sa[i - 1] as int, sa[i as int] as int));
                lemma_common_prefix_of_ordered(
                    bytes,
                    sa[min_index as int] as int,
                    sa[i - 1] as int,
                    sa[i as int] as int,
                );
            }
        }
        if value < min {
            min = value;
        }
        i += 1;
    }
    proof {
        let low = sa[min_index as int] as int;
        let high = sa[max_index as int] as int;
        lemma_suffix_array_ranks_differ(bytes, sa, min_index as int, max_index as int);
        lemma_common_prefix_without_sentinel(bytes, low, high);
        lemma_common_prefix_symmetric(s@.text(), low, high);
    }
    if min < 0 {
        0
    } else {
        min as usize
    }
}

/// The factor that `lz_factor` selects at position `k` of the string `bytes`
/// when it is given the candidates `prev` and `next`: a copy from the
/// candidate that shares the longer prefix with `k`, from `next` where both
/// share as much, and a literal where neither shares anything.
pub open spec fn selected_factor(bytes: Seq<u8>, k: int, prev: int, next: int) -> LZFactor {
    let lesser = common_prefix_len(bytes.drop_last(), k, prev);
    let greater = common_prefix_len(bytes.drop_last(), k, next);
    if lesser > greater {
        LZFactor::Factor(prev as usize, lesser as usize, (k + lesser) as usize)
    } else if greater > 0 {
        LZFactor::Factor(next as usize, greater as usize, (k + greater) as usize)
    } else {
        LZFactor::Char(bytes[k], k as usize)
    }
}

/// The factor at position `k`, chosen between the two candidate sources
/// `prev_suffix_value` and `next_suffix_value`.
pub fn lz_factor(
    s: &AugmentedString,
    k: usize,
    prev_suffix_value: usize,
    next_suffix_value: usize,
) -> (factor: LZFactor)
    requires
        s@.wf(),
        k < s@.bytes().len(),
        prev_suffix_value <= s@.bytes().len(),
        next_suffix_value <= s@.bytes().len(),
    ensures
        factor == selected_factor(
            s@.bytes(),
            k as int,
            prev_suffix_value as int,
            next_suffix_value as int,
        ),
{
    let lcp_len_lesser = lcp_len(s, k, prev_suffix_value);
    let lcp_len_greater = lcp_len(s, k, next_suffix_value);

    let factor_position;
    let factor_len;
    if lcp_len_lesser > lcp_len_greater {
        factor_position = prev_suffix_value;
        factor_len = lcp_len_lesser;
    } else {
        factor_position = next_suffix_value;
        factor_len = lcp_len_greater;
    }

    if factor_len == 0 {
        LZFactor::new_char(s.underlying().as_bytes()[k], k)
    } else {
        proof {
            if factor_position < s@.bytes().len() {
                lemma_common_prefix_in_text(s@.text(), k as int, factor_position as int);
            }
            lemma_sentinel_has_rank_zero(s@.bytes(), s@.suffix_array);
        }
        LZFactor::new_factor(factor_position, factor_len, k)
    }
}

/// The factorization of the bytes of `s`.
///
/// The scan begins at position 0. At each position it takes the rank of the
/// suffix there, looks up the positions at the previous and at the next
/// smaller value of that rank, has `lz_factor` choose between the two, and goes
/// on where the factor ends. The last factor found is the sentinel's and is
/// dropped.
///
/// The sentinel is the character of code 0, which `s` must not hold.
pub fn factorize(s: String) -> (factors: Vec<LZFactor>)
    requires
        has_no_nul(s@),
    ensures
        is_factorization(encode_utf8(s@), factors@),
        factors@ == factorization(encode_utf8(s@)),
        replayable(factors@),
        replay(factors@) == encode_utf8(s@),
        forall|i: int|
            0 <= i < factors@.len() ==> #[trigger] start_of(factors@, i)
                < factors@[i].spec_next_index(),
        factors@.len() <= encode_utf8(s@).len(),
{
    let ghost text = encode_utf8(s@);
    proof {
        lemma_encoding_has_no_nul(s@);
        lemma_encode_push(s@, '\0');
        lemma_encode_nul();
        let bytes = encode_utf8(s@.push('\0'));
        assert(bytes =~= text.push(0u8));
        assert(sentinel_terminated(bytes));
        assert(bytes.drop_last() =~= text);
    }
    let augmented = AugmentedString::new(s, '\0');
    let n = augmented.string_len();
    let mut vec: Vec<LZFactor> = Vec::new();
    proof {
        lemma_scan_begins(augmented@);
    }

    let mut k: usize = 0;
    while k < n
        invariant
            augmented@.wf(),
            n == augmented@.bytes().len(),
            is_scan(augmented@, vec@, k as int),
            k <= n,
        decreases n - k,
    {
        let suffix_array_index = augmented.suffix_array_index(k);
        let psv = augmented.suffix_index(augmented.psv(suffix_array_index));
        let nsv = augmented.suffix_index(augmented.nsv(suffix_array_index));
        let factor = lz_factor(&augmented, k, psv, nsv);
        proof {
            lemma_scan_goes_on(augmented@, vec@, k as int);
        }
        k = factor.next_index();
        vec.push(factor);
    }

    // The factor found last is the sentinel's, which is no part of the text.
    proof {
        lemma_scan_ends(augmented@, vec@);
        lemma_round_trip(text, vec@.drop_last());
        lemma_forward_progress(text, vec@.drop_last());
        lemma_factorization_found(text, vec@.drop_last());
    }
    vec.pop();
    vec
}

/// The texts that show the factors of `fs`, one after the other.
pub open spec fn rendering_of(fs: Seq<LZFactor>) -> Seq<char>
    decreases fs.len(),
{
    if fs.len() == 0 {
        Seq::empty()
    } else {
        rendering_of(fs.drop_last()) + fs.last().rendering()
    }
}

/// The factorization of `s` as text: each literal as its character, each copy
/// factor as `(source, length)`. The text must be ASCII, since every byte of it
/// that occurs for the first time becomes a literal.
pub fn factorized_string(s: String) -> (text: String)
    requires
        has_no_nul(s@),
        is_ascii_chars(s@),
    ensures
        text@ == rendering_of(factorization(encode_utf8(s@))),
{
    let ghost bytes = encode_utf8(s@);
    proof {
        lemma_ascii_bytes(s@);
    }
    let factors = factorize(s);
    let mut text = String::new();
    let mut n: usize = 0;
    while n < factors.len()
        invariant
            n <= factors@.len(),
            is_factorization(bytes, factors@),
            forall|i: int| 0 <= i < bytes.len() ==> #[trigger] bytes[i] < 128,
            text@ == rendering_of(factors@.take(n as int)),
        decreases factors@.len() - n,
    {
        proof {
            assert(start_of(factors@, n as int) < bytes.len());
            lemma_prefix_replays(bytes, factors@, n as int);
        }
        let piece = factors[n].to_string();
        text.append(piece.as_str());
        proof {
            let upto = factors@.take(n + 1);
            assert(upto.drop_last() =~= factors@.take(n as int));
            assert(upto.last() == factors@[n as int]);
        }
        n += 1;
    }
    proof {
        assert(factors@.take(n as int) =~= factors@);
    }
    text
}

} // verus!
