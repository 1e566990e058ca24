use lz77::augmented::AugmentedString;
use lz77::lz::{lcp_len, lz_factor};
use lz77::lzfactor::LZFactor;

#[test]
fn lcp_len_test() {
    let s = AugmentedString::new("abcabb".to_owned(), '$');

    assert_eq!(lcp_len(&s, 0, 3), 2);
    assert_eq!(lcp_len(&s, 1, 4), 1);
    assert_eq!(lcp_len(&s, 0, 2), 0);
    assert_eq!(lcp_len(&s, 0, 6), 0);
    assert_eq!(lcp_len(&s, 3, 3), 3);
}

#[test]
fn lz_factor_test() {
    let s = AugmentedString::new("banana".to_owned(), '$');

    // "banana" and "ana" begin with different letters, and so do "anana" and "na".
    assert_eq!(lcp_len(&s, 0, 3), 0);
    assert_eq!(lcp_len(&s, 1, 4), 0);
    assert_eq!(lcp_len(&s, 0, 2), 0);
    assert_eq!(lcp_len(&s, 0, 6), 0);
    assert_eq!(lcp_len(&s, 1, 3), 3);
    assert_eq!(lcp_len(&s, 2, 4), 2);
}

#[test]
fn lcp_len_of_a_suffix_with_itself() {
    let text = "mississippi";
    let s = AugmentedString::new(text.to_owned(), '$');
    for x in 0..text.len() {
        assert_eq!(lcp_len(&s, x, x), text.len() - x);
    }
    assert_eq!(lcp_len(&s, text.len(), text.len()), 0);
    assert_eq!(lcp_len(&s, text.len() + 1, text.len() + 1), 0);
}

#[test]
fn lcp_len_with_the_sentinel_is_zero() {
    let text = "mississippi";
    let s = AugmentedString::new(text.to_owned(), '$');
    for x in 0..=text.len() + 1 {
        assert_eq!(lcp_len(&s, x, text.len()), 0);
        assert_eq!(lcp_len(&s, text.len(), x), 0);
        assert_eq!(lcp_len(&s, x, text.len() + 1), 0);
        assert_eq!(lcp_len(&s, text.len() + 1, x), 0);
    }
}

#[test]
fn lcp_len_counts_the_shared_bytes() {
    for text in ["mississippi", "abababab", "aaaaaa", "abracadabra", "héllo héllo"] {
        let bytes = text.as_bytes();
        let s = AugmentedString::new(text.to_owned(), '\0');
        for a in 0..bytes.len() {
            for b in 0..bytes.len() {
                let shared =
                    bytes[a..].iter().zip(bytes[b..].iter()).take_while(|(x, y)| x == y).count();
                assert_eq!(lcp_len(&s, a, b), shared);
                assert_eq!(lcp_len(&s, b, a), shared);
            }
        }
    }
}

#[test]
fn lz_factor_emits_a_literal_when_nothing_is_shared() {
    let s = AugmentedString::new("abcabb".to_owned(), '$');
    assert_eq!(lz_factor(&s, 0, 6, 6), LZFactor::Char(b'a', 0));
    assert_eq!(lz_factor(&s, 2, 6, 7), LZFactor::Char(b'c', 2));
    assert_eq!(lz_factor(&s, 3, 2, 1), LZFactor::Char(b'a', 3));
    assert_eq!(lz_factor(&s, 6, 6, 3), LZFactor::Char(b'$', 6));
}

#[test]
fn lz_factor_takes_the_longer_candidate() {
    let s = AugmentedString::new("abxabyab".to_owned(), '$');
    assert_eq!(lz_factor(&s, 3, 0, 1), LZFactor::Factor(0, 2, 5));
    assert_eq!(lz_factor(&s, 3, 1, 0), LZFactor::Factor(0, 2, 5));
    assert_eq!(lz_factor(&s, 6, 8, 0), LZFactor::Factor(0, 2, 8));
}

#[test]
fn lz_factor_resolves_a_tie_toward_the_next_candidate() {
    let s = AugmentedString::new("aacab".to_owned(), '$');
    assert_eq!(lcp_len(&s, 3, 0), 1);
    assert_eq!(lcp_len(&s, 3, 1), 1);
    assert_eq!(lz_factor(&s, 3, 0, 1), LZFactor::Factor(1, 1, 4));
    assert_eq!(lz_factor(&s, 3, 1, 0), LZFactor::Factor(0, 1, 4));
}
