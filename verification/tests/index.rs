use lz77::augmented::{invert_suffix_array, AugmentedString};
use lz77::smaller::{auxiliaries, position_or_zero};

fn abcabb() -> AugmentedString {
    AugmentedString::new("abcabb".to_owned(), '$')
}

#[test]
fn index_keeps_string_and_sentinel() {
    let s = abcabb();
    assert_eq!(s.underlying(), "abcabb$");
    assert_eq!(s.string_len(), 7);
    assert_eq!(s.sentinel(), '$');
}

#[test]
fn suffix_array_of_abcabb() {
    let s = abcabb();
    let positions: Vec<usize> = (0..7).map(|rank| s.suffix_index(rank)).collect();
    assert_eq!(positions, vec![6, 3, 0, 5, 4, 1, 2]);
}

#[test]
fn inverse_suffix_array_of_abcabb() {
    let s = abcabb();
    let ranks: Vec<usize> = (0..7).map(|position| s.suffix_array_index(position)).collect();
    assert_eq!(ranks, vec![2, 5, 6, 1, 4, 3, 0]);
    for position in 0..7 {
        assert_eq!(s.suffix_index(s.suffix_array_index(position)), position);
    }
}

#[test]
fn lcp_array_of_abcabb() {
    let s = abcabb();
    let lcp: Vec<isize> = (0..8).map(|rank| s.lcp(rank)).collect();
    assert_eq!(lcp, vec![-1, 0, 2, 0, 1, 1, 0, -1]);
}

#[test]
fn smaller_value_tables_of_abcabb() {
    let s = abcabb();
    let psv: Vec<usize> = (0..7).map(|rank| s.psv(rank)).collect();
    let nsv: Vec<usize> = (0..7).map(|rank| s.nsv(rank)).collect();
    assert_eq!(psv, vec![0, 0, 0, 2, 2, 2, 5]);
    assert_eq!(nsv, vec![1, 2, 0, 4, 5, 7, 7]);
}

#[test]
fn suffix_index_past_the_end_is_the_string_length() {
    let s = abcabb();
    assert_eq!(s.suffix_index(6), 2);
    assert_eq!(s.suffix_index(7), 7);
    assert_eq!(s.suffix_index(8), 7);
    assert_eq!(s.suffix_index(usize::MAX), 7);
}

#[test]
fn sentinel_has_rank_zero() {
    for text in ["", "a", "banana", "mississippi", "zzzz"] {
        let s = AugmentedString::new(text.to_owned(), '$');
        assert_eq!(s.suffix_index(0), text.len());
        assert_eq!(s.suffix_array_index(text.len()), 0);
    }
}

#[test]
fn index_of_the_empty_text() {
    let s = AugmentedString::new(String::new(), '$');
    assert_eq!(s.underlying(), "$");
    assert_eq!(s.string_len(), 1);
    assert_eq!(s.suffix_index(0), 0);
    assert_eq!(s.suffix_index(1), 1);
    assert_eq!(s.suffix_array_index(0), 0);
    assert_eq!(s.lcp(0), -1);
    assert_eq!(s.lcp(1), -1);
    assert_eq!(s.psv(0), 0);
    assert_eq!(s.nsv(0), 0);
}

#[test]
fn suffixes_come_in_lexicographic_order() {
    let text = "abracadabra";
    let s = AugmentedString::new(text.to_owned(), '\0');
    let bytes = s.underlying().as_bytes();
    for rank in 1..bytes.len() {
        let before = &bytes[s.suffix_index(rank - 1)..];
        let after = &bytes[s.suffix_index(rank)..];
        assert!(before < after);
        let shared = before.iter().zip(after.iter()).take_while(|(x, y)| x == y).count();
        assert_eq!(s.lcp(rank), shared as isize);
    }
}

#[test]
fn index_over_a_sentinel_of_two_bytes() {
    // U+0080 is encoded as C2 80, and every byte of "é" (C3 A9) is above 80.
    let s = AugmentedString::new("é".to_owned(), '\u{80}');
    assert_eq!(s.string_len(), 4);
    assert_eq!(s.sentinel(), '\u{80}');
    let positions: Vec<usize> = (0..4).map(|rank| s.suffix_index(rank)).collect();
    assert_eq!(positions, vec![3, 1, 2, 0]);
}

#[test]
fn position_or_zero_inside_and_outside() {
    let sa = [6usize, 3, 0, 5];
    assert_eq!(position_or_zero(&sa, 0), 6);
    assert_eq!(position_or_zero(&sa, 3), 5);
    assert_eq!(position_or_zero(&sa, 4), 0);
    assert_eq!(position_or_zero(&sa, usize::MAX), 0);
    assert_eq!(position_or_zero(&[], 0), 0);
}

#[test]
fn auxiliaries_of_a_suffix_array() {
    let (psv, nsv) = auxiliaries(&[6, 5, 3, 1, 0, 4, 2]);
    assert_eq!(psv, vec![0, 0, 0, 0, 0, 4, 4]);
    assert_eq!(nsv, vec![1, 2, 3, 4, 0, 6, 7]);
}

#[test]
fn auxiliaries_with_repeated_values() {
    let (psv, nsv) = auxiliaries(&[3, 1, 4, 1, 5, 9, 2, 6]);
    assert_eq!(psv, vec![0, 0, 1, 1, 3, 4, 3, 6]);
    assert_eq!(nsv, vec![1, 8, 3, 8, 6, 6, 8, 8]);
}

#[test]
fn auxiliaries_of_short_arrays() {
    assert_eq!(auxiliaries(&[]), (vec![], vec![]));
    assert_eq!(auxiliaries(&[0]), (vec![0], vec![0]));
    assert_eq!(auxiliaries(&[5]), (vec![0], vec![1]));
    assert_eq!(auxiliaries(&[1, 0]), (vec![0, 0], vec![1, 0]));
    assert_eq!(auxiliaries(&[0, 1]), (vec![0, 0], vec![0, 2]));
}

#[test]
fn previous_smaller_value_is_the_nearest() {
    let sa = [6usize, 3, 0, 5, 4, 1, 2];
    let (psv, nsv) = auxiliaries(&sa);
    for r in 1..sa.len() {
        let p = psv[r];
        assert!(p < r);
        assert!(p == 0 || sa[p] < sa[r]);
        assert!((p + 1..r).all(|m| sa[m] > sa[r]));
        let q = nsv[r];
        if q == 0 {
            assert_eq!(sa[r], 0);
            assert!((r + 1..sa.len()).all(|m| sa[m] >= sa[r]));
        } else {
            assert!(r < q && q <= sa.len());
            assert!(q == sa.len() || sa[q] < sa[r]);
            assert!((r + 1..q).all(|m| sa[m] > sa[r]));
        }
    }
}

#[test]
fn invert_suffix_array_inverts_a_permutation() {
    let sa = [6usize, 3, 0, 5, 4, 1, 2];
    let inverse = invert_suffix_array(&sa);
    assert_eq!(inverse, vec![2, 5, 6, 1, 4, 3, 0]);
    for (rank, &position) in sa.iter().enumerate() {
        assert_eq!(inverse[position], rank);
    }
}

#[test]
fn invert_suffix_array_keeps_the_last_rank() {
    assert_eq!(invert_suffix_array(&[1, 1, 0]), vec![2, 1, 0]);
    assert_eq!(invert_suffix_array(&[0, 0, 0]), vec![2, 0, 0]);
    assert_eq!(invert_suffix_array(&[]), Vec::<usize>::new());
}
