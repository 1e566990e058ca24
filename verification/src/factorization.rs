//! What a factorization of a text is, what replaying one gives, and what
//! holds of every factorization.

use crate::lzfactor::LZFactor;
use crate::text::{
    common_prefix_len, lemma_common_prefix_agrees, lemma_common_prefix_covers,
    lemma_common_prefix_in_text, lemma_common_prefix_is_longest, lemma_suffix_less_total,
    suffix_less,
};
use vstd::prelude::*;

verus! {

/// The output after `len` bytes have been appended to `out`, each a copy of
/// the byte that stands `start`, `start + 1`, ... in the output as it is at
/// that moment. The bytes read may be bytes that this same copy appended.
pub open spec fn copy_bytes(out: Seq<u8>, start: int, len: nat) -> Seq<u8>
    decreases len,
{
    if len == 0 {
        out
    } else {
        copy_bytes(out.push(out[start]), start + 1, (len - 1) as nat)
    }
}

/// The output after one more factor has been replayed.
pub open spec fn replay_factor(out: Seq<u8>, f: LZFactor) -> Seq<u8> {
    match f {
        LZFactor::Char(byte, _) => out.push(byte),
        LZFactor::Factor(start, len, _) => copy_bytes(out, start as int, len as nat),
    }
}

/// The bytes that replaying the factors in order produces.
pub open spec fn replay(fs: Seq<LZFactor>) -> Seq<u8>
    decreases fs.len(),
{
    if fs.len() == 0 {
        Seq::empty()
    } else {
        replay_factor(replay(fs.drop_last()), fs.last())
    }
}

/// A copy factor that copies anything begins inside the `produced` bytes that
/// stand before it.
pub open spec fn reads_produced_bytes(produced: nat, f: LZFactor) -> bool {
    match f {
        LZFactor::Char(_, _) => true,
        LZFactor::Factor(start, len, _) => len == 0 || start < produced,
    }
}

/// Every factor refers only to output that the factors before it produce.
pub open spec fn replayable(fs: Seq<LZFactor>) -> bool {
    forall|i: int|
        0 <= i < fs.len() ==> reads_produced_bytes(replay(#[trigger] fs.take(i)).len(), fs[i])
}

/// Among the suffixes of `t` that begin before `k`, the one at `src` is next
/// to the suffix at `k` in lexicographic order: no other of them lies between
/// the two.
pub open spec fn is_nearest_source(t: Seq<u8>, k: int, src: int) -> bool {
    &&& 0 <= src < k
    &&& forall|p: int| 0 <= p < k && #[trigger] suffix_less(t, src, p) ==> !suffix_less(t, p, k)
    &&& forall|p: int| 0 <= p < k && #[trigger] suffix_less(t, p, src) ==> !suffix_less(t, k, p)
}

/// `f` is the factor of `t` at position `k`.
///
/// A literal holds the byte at `k`, which occurs nowhere before `k`. A copy
/// factor has its source before `k`, next to `k` in the order of suffixes; its
/// length is that of the longest common prefix of the suffixes at the source
/// and at `k`, and no earlier position shares a longer prefix with `k`. Of the
/// two neighbours of `k` the lexicographically greater one is the source
/// unless the smaller one shares strictly more.
pub open spec fn is_factor_at(t: Seq<u8>, k: int, f: LZFactor) -> bool {
    match f {
        LZFactor::Char(byte, position) => {
            &&& position == k
            &&& 0 <= k < t.len()
            &&& byte == t[k]
            &&& forall|p: int| 0 <= p < k ==> #[trigger] t[p] != t[k]
        },
        LZFactor::Factor(src, len, next) => {
            &&& len >= 1
            &&& next == k + len
            &&& is_nearest_source(t, k, src as int)
            &&& len == common_prefix_len(t, src as int, k)
            &&& forall|p: int| 0 <= p < k ==> #[trigger] common_prefix_len(t, p, k) <= len
            &&& suffix_less(t, src as int, k) ==> forall|p: int|
                0 <= p < k && #[trigger] suffix_less(t, k, p) ==> common_prefix_len(t, p, k) < len
        },
    }
}

/// Position at which factor `i` of `fs` begins: 0 for the first, and for each
/// other the position that the factor before it names as the next.
pub open spec fn start_of(fs: Seq<LZFactor>, i: int) -> int {
    if i <= 0 {
        0
    } else {
        fs[i - 1].spec_next_index()
    }
}

/// `fs` is the factorization of `t`: each factor is the factor of `t` at the
/// position where it begins, and the last one ends where `t` ends.
pub open spec fn is_factorization(t: Seq<u8>, fs: Seq<LZFactor>) -> bool {
    &&& forall|i: int|
        0 <= i < fs.len() ==> #[trigger] start_of(fs, i) < t.len() && is_factor_at(
            t,
            start_of(fs, i),
            fs[i],
        )
    &&& start_of(fs, fs.len() as int) == t.len()
}

/// A factor of `t` at `k` ends inside `t`, after `k`.
pub proof fn lemma_factor_advances(t: Seq<u8>, k: int, f: LZFactor)
    requires
        0 <= k < t.len(),
        is_factor_at(t, k, f),
    ensures
        k < f.spec_next_index() <= t.len(),
        f.spec_next_index() == k + f.spec_span(),
{
    match f {
        LZFactor::Char(_, _) => {},
        LZFactor::Factor(src, len, _) => {
            lemma_common_prefix_in_text(t, src as int, k);
        },
    }
}

/// Copying from a source that shares at least `len` bytes with position `k`
/// onto the first `k` bytes of `t` gives the first `k + len` bytes of `t`.
pub proof fn lemma_copy_extends_prefix(t: Seq<u8>, src: int, k: int, len: nat)
    requires
        0 <= src < k <= t.len(),
        len <= common_prefix_len(t, src, k),
    ensures
        k + len <= t.len(),
        copy_bytes(t.take(k), src, len) == t.take(k + len),
    decreases len,
{
    if len > 0 {
        assert(t[src] == t[k]);
        assert(t.take(k).push(t.take(k)[src]) =~= t.take(k + 1));
        lemma_copy_extends_prefix(t, src + 1, k + 1, (len - 1) as nat);
    }
}

/// Replaying the factor of `t` at `k` onto the first `k` bytes of `t` gives
/// the bytes of `t` up to where the factor ends, and reads only bytes that
/// stand before `k`.
pub proof fn lemma_factor_replays(t: Seq<u8>, k: int, f: LZFactor)
    requires
        0 <= k < t.len(),
        is_factor_at(t, k, f),
    ensures
        reads_produced_bytes(k as nat, f),
        replay_factor(t.take(k), f) == t.take(f.spec_next_index()),
{
    match f {
        LZFactor::Char(byte, _) => {
            assert(t.take(k).push(byte) =~= t.take(k + 1));
        },
        LZFactor::Factor(src, len, _) => {
            lemma_copy_extends_prefix(t, src as int, k, len as nat);
        },
    }
}

/// The first `i` factors of a factorization of `t` replay to the bytes of `t`
/// before the position at which factor `i` begins.
pub proof fn lemma_prefix_replays(t: Seq<u8>, fs: Seq<LZFactor>, i: int)
    requires
        is_factorization(t, fs),
        0 <= i <= fs.len(),
    ensures
        0 <= start_of(fs, i) <= t.len(),
        i <= start_of(fs, i),
        replay(fs.take(i)) == t.take(start_of(fs, i)),
    decreases i,
{
    if i == 0 {
        assert(fs.take(0) =~= Seq::<LZFactor>::empty());
        assert(t.take(0) =~= Seq::<u8>::empty());
    } else {
        lemma_prefix_replays(t, fs, i - 1);
        let k = start_of(fs, i - 1);
        assert(is_factor_at(t, k, fs[i - 1]));
        lemma_factor_advances(t, k, fs[i - 1]);
        lemma_factor_replays(t, k, fs[i - 1]);
        assert(fs.take(i).drop_last() =~= fs.take(i - 1));
        assert(fs.take(i).last() == fs[i - 1]);
    }
}

/// Round trip: replaying the factorization of a text gives the text back, and
/// every factor refers only to bytes that stand before it.
pub proof fn lemma_round_trip(t: Seq<u8>, fs: Seq<LZFactor>)
    requires
        is_factorization(t, fs),
    ensures
        replayable(fs),
        replay(fs) == t,
{
    assert forall|i: int| 0 <= i < fs.len() implies reads_produced_bytes(
        replay(#[trigger] fs.take(i)).len(),
        fs[i],
    ) by {
        lemma_prefix_replays(t, fs, i);
        lemma_factor_replays(t, start_of(fs, i), fs[i]);
    }
    lemma_prefix_replays(t, fs, fs.len() as int);
    assert(fs.take(fs.len() as int) =~= fs);
    assert(t.take(t.len() as int) =~= t);
}

/// Forward progress: every factor of a factorization ends after the position
/// at which it begins, so there are no more factors than bytes.
pub proof fn lemma_forward_progress(t: Seq<u8>, fs: Seq<LZFactor>)
    requires
        is_factorization(t, fs),
    ensures
        forall|i: int|
            0 <= i < fs.len() ==> #[trigger] start_of(fs, i) < fs[i].spec_next_index(),
        fs.len() <= t.len(),
{
    assert forall|i: int| 0 <= i < fs.len() implies #[trigger] start_of(fs, i)
        < fs[i].spec_next_index() by {
        lemma_prefix_replays(t, fs, i);
        lemma_factor_advances(t, start_of(fs, i), fs[i]);
    }
    lemma_prefix_replays(t, fs, fs.len() as int);
}

/// Self-overlap: byte `i` of a copy of `len` bytes from `start` is read at
/// `start + i`, a place that is filled at the moment of the append, and that
/// is the byte then appended.
pub proof fn lemma_copy_reads_behind(out: Seq<u8>, start: int, len: nat, i: int)
    requires
        0 <= start < out.len(),
        0 <= i < len,
    ensures
        copy_bytes(out, start, len).len() == out.len() + len,
        start + i < out.len() + i,
        copy_bytes(out, start, len)[out.len() + i] == copy_bytes(out, start, len)[start + i],
        forall|j: int| 0 <= j < out.len() ==> copy_bytes(out, start, len)[j] == out[j],
    decreases len,
{
    let next = out.push(out[start]);
    if len == 1 {
        assert(copy_bytes(next, start + 1, 0) == next);
    } else if i == 0 {
        lemma_copy_reads_behind(next, start + 1, (len - 1) as nat, 0);
        assert(copy_bytes(out, start, len)[out.len() as int] == next[out.len() as int]);
        assert(copy_bytes(out, start, len)[start] == next[start]);
    } else {
        lemma_copy_reads_behind(next, start + 1, (len - 1) as nat, i - 1);
    }
    assert forall|j: int| 0 <= j < out.len() implies copy_bytes(out, start, len)[j] == out[j] by {
        if len > 1 {
            lemma_copy_reads_behind(next, start + 1, (len - 1) as nat, 0);
        }
        assert(next[j] == out[j]);
    }
}

/// Greedy maximality: a copy factor repeats its source byte for byte, cannot
/// be extended by one more byte, and no earlier position offers a longer copy.
pub proof fn lemma_copy_is_longest(t: Seq<u8>, k: int, src: usize, len: usize, next: usize)
    requires
        0 <= k < t.len(),
        is_factor_at(t, k, LZFactor::Factor(src, len, next)),
    ensures
        src < k,
        k + len <= t.len(),
        t.subrange(src as int, src + len) == t.subrange(k, k + len),
        k + len == t.len() || t[src + len] != t[k + len],
        forall|p: int| 0 <= p < k ==> #[trigger] common_prefix_len(t, p, k) <= len,
{
    lemma_common_prefix_in_text(t, src as int, k);
    let source = t.subrange(src as int, src + len);
    let target = t.subrange(k, k + len);
    assert forall|i: int| 0 <= i < len implies #[trigger] source[i] == target[i] by {
        lemma_common_prefix_agrees(t, src as int, k, i);
    }
    assert(t.subrange(src as int, src + len) =~= t.subrange(k, k + len));
    if k + len < t.len() {
        lemma_common_prefix_is_longest(t, src as int, k);
    }
}

/// Greedy maximality, byte for byte: whatever stretch of text at an earlier
/// position repeats at the position of a copy factor is no longer than the
/// factor.
pub proof fn lemma_no_longer_copy(
    t: Seq<u8>,
    k: int,
    src: usize,
    len: usize,
    next: usize,
    p: int,
    longer: int,
)
    requires
        0 <= k < t.len(),
        is_factor_at(t, k, LZFactor::Factor(src, len, next)),
        0 <= p < k,
        0 <= longer,
        k + longer <= t.len(),
        t.subrange(p, p + longer) == t.subrange(k, k + longer),
    ensures
        longer <= len,
{
    let source = t.subrange(p, p + longer);
    let target = t.subrange(k, k + longer);
    assert forall|i: int| p <= i < p + longer implies #[trigger] t[i] == t[i - p + k] by {
        assert(source[i - p] == t[i]);
        assert(target[i - p] == t[i - p + k]);
    }
    lemma_common_prefix_covers(t, p, k, longer);
    assert(common_prefix_len(t, p, k) <= len);
}

/// A position of a text has one factor only.
pub proof fn lemma_factor_is_unique(t: Seq<u8>, k: int, f: LZFactor, g: LZFactor)
    requires
        0 <= k < t.len(),
        is_factor_at(t, k, f),
        is_factor_at(t, k, g),
    ensures
        f == g,
{
    match (f, g) {
        (LZFactor::Char(_, _), LZFactor::Char(_, _)) => {},
        (LZFactor::Char(_, _), LZFactor::Factor(src, _, _)) => {
            assert(t[src as int] == t[k]);
        },
        (LZFactor::Factor(src, _, _), LZFactor::Char(_, _)) => {
            assert(t[src as int] == t[k]);
        },
        (LZFactor::Factor(src_f, len_f, _), LZFactor::Factor(src_g, len_g, _)) => {
            let a = src_f as int;
            let b = src_g as int;
            assert(common_prefix_len(t, a, k) <= len_g);
            assert(common_prefix_len(t, b, k) <= len_f);
            if a != b {
                lemma_suffix_less_total(t, a, k);
                lemma_suffix_less_total(t, b, k);
                lemma_suffix_less_total(t, a, b);
                if suffix_less(t, a, k) && suffix_less(t, b, k) {
                    // Both below `k`: the lower one is not next to `k`.
                    assert(suffix_less(t, a, b) || suffix_less(t, b, a));
                } else if suffix_less(t, k, a) && suffix_less(t, k, b) {
                    // Both above `k`: the higher one is not next to `k`.
                    assert(suffix_less(t, a, b) || suffix_less(t, b, a));
                } else if suffix_less(t, a, k) {
                    // `f` copies from below though `g` finds as much above.
                    assert(suffix_less(t, k, b));
                } else {
                    assert(suffix_less(t, k, a));
                }
            }
        },
    }
}

/// Two factorizations of one text agree on their first `i` factors.
proof fn lemma_factorizations_agree(t: Seq<u8>, fs: Seq<LZFactor>, gs: Seq<LZFactor>, i: int)
    requires
        is_factorization(t, fs),
        is_factorization(t, gs),
        0 <= i <= fs.len(),
        i <= gs.len(),
    ensures
        fs.take(i) == gs.take(i),
        start_of(fs, i) == start_of(gs, i),
    decreases i,
{
    if i == 0 {
        assert(fs.take(0) =~= gs.take(0));
    } else {
        lemma_factorizations_agree(t, fs, gs, i - 1);
        let k = start_of(fs, i - 1);
        assert(start_of(gs, i - 1) == k);
        lemma_factor_is_unique(t, k, fs[i - 1], gs[i - 1]);
        assert(fs.take(i) =~= fs.take(i - 1).push(fs[i - 1]));
        assert(gs.take(i) =~= gs.take(i - 1).push(gs[i - 1]));
    }
}

/// A text has one factorization only.
pub proof fn lemma_factorization_is_unique(t: Seq<u8>, fs: Seq<LZFactor>, gs: Seq<LZFactor>)
    requires
        is_factorization(t, fs),
        is_factorization(t, gs),
    ensures
        fs == gs,
{
    let shorter = if fs.len() <= gs.len() {
        fs.len() as int
    } else {
        gs.len() as int
    };
    lemma_factorizations_agree(t, fs, gs, shorter);
    if shorter < gs.len() {
        assert(start_of(gs, shorter) < t.len());
    }
    if shorter < fs.len() {
        assert(start_of(fs, shorter) < t.len());
    }
    assert(fs.take(fs.len() as int) =~= fs);
    assert(gs.take(gs.len() as int) =~= gs);
}

/// The factorization of `t`, where it has one.
pub open spec fn factorization(t: Seq<u8>) -> Seq<LZFactor> {
    choose|fs: Seq<LZFactor>| is_factorization(t, fs)
}

/// Whatever is a factorization of `t` is the factorization of `t`.
pub proof fn lemma_factorization_found(t: Seq<u8>, fs: Seq<LZFactor>)
    requires
        is_factorization(t, fs),
    ensures
        fs == factorization(t),
{
    lemma_factorization_is_unique(t, fs, factorization(t));
}

} // verus!
