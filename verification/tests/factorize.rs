use lz77::lz::{factorize, factorized_string, reconstruct};
use lz77::lzfactor::LZFactor;

const TEXTS: [&str; 14] = [
    "",
    "a",
    "aaaa",
    "banana",
    "abcabb",
    "aacab",
    "abababab",
    "abxabyab",
    "abracadabra",
    "mississippi",
    "the quick brown fox jumps over the lazy dog, the quick brown fox",
    "é€é€",
    "日本語日本語日本",
    "\u{1}\u{1}\u{2}\u{1}\u{1}\u{2}",
];

fn shared(bytes: &[u8], a: usize, b: usize) -> usize {
    bytes[a..].iter().zip(bytes[b..].iter()).take_while(|(x, y)| x == y).count()
}

#[test]
fn banana_round_trip() {
    let factors = factorize("banana".to_owned());
    assert!(factors.len() < "banana".len());
    assert_eq!(reconstruct(factors), b"banana".to_vec());
}

#[test]
fn factors_of_banana() {
    assert_eq!(
        factorize("banana".to_owned()),
        vec![
            LZFactor::Char(b'b', 0),
            LZFactor::Char(b'a', 1),
            LZFactor::Char(b'n', 2),
            LZFactor::Factor(1, 3, 6),
        ]
    );
}

#[test]
fn factors_of_a_run() {
    assert_eq!(
        factorize("aaaa".to_owned()),
        vec![LZFactor::Char(b'a', 0), LZFactor::Factor(0, 3, 4)]
    );
}

#[test]
fn factors_of_abcabb() {
    assert_eq!(
        factorize("abcabb".to_owned()),
        vec![
            LZFactor::Char(b'a', 0),
            LZFactor::Char(b'b', 1),
            LZFactor::Char(b'c', 2),
            LZFactor::Factor(0, 2, 5),
            LZFactor::Factor(4, 1, 6),
        ]
    );
}

#[test]
fn factors_where_the_candidates_tie() {
    assert_eq!(
        factorize("aacab".to_owned()),
        vec![
            LZFactor::Char(b'a', 0),
            LZFactor::Factor(0, 1, 2),
            LZFactor::Char(b'c', 2),
            LZFactor::Factor(1, 1, 4),
            LZFactor::Char(b'b', 4),
        ]
    );
}

#[test]
fn factors_of_a_text_beyond_ascii() {
    assert_eq!(
        factorize("é€é€".to_owned()),
        vec![
            LZFactor::Char(0xc3, 0),
            LZFactor::Char(0xa9, 1),
            LZFactor::Char(0xe2, 2),
            LZFactor::Char(0x82, 3),
            LZFactor::Char(0xac, 4),
            LZFactor::Factor(0, 5, 10),
        ]
    );
}

#[test]
fn the_empty_text_has_no_factors() {
    assert_eq!(factorize(String::new()), Vec::<LZFactor>::new());
    assert_eq!(factorized_string(String::new()), "");
}

#[test]
fn a_single_byte_is_one_literal() {
    assert_eq!(factorize("a".to_owned()), vec![LZFactor::Char(b'a', 0)]);
}

#[test]
fn round_trip() {
    for text in TEXTS {
        assert_eq!(reconstruct(factorize(text.to_owned())), text.as_bytes().to_vec());
    }
}

#[test]
fn every_factor_advances() {
    for text in TEXTS {
        let factors = factorize(text.to_owned());
        assert!(factors.len() <= text.len());
        let mut k = 0;
        for factor in &factors {
            match *factor {
                LZFactor::Char(_, position) => assert_eq!(position, k),
                LZFactor::Factor(_, len, next) => assert_eq!(next, k + len),
            }
            assert!(factor.next_index() > k);
            k = factor.next_index();
        }
        assert_eq!(k, text.len());
    }
}

#[test]
fn every_copy_starts_in_the_scanned_text() {
    for text in TEXTS {
        let mut k = 0;
        for factor in factorize(text.to_owned()) {
            if let LZFactor::Factor(start, len, _) = factor {
                assert!(len >= 1);
                assert!(start < k);
            }
            k = factor.next_index();
        }
    }
}

#[test]
fn no_copy_can_be_longer() {
    for text in TEXTS {
        let bytes = text.as_bytes();
        let mut k = 0;
        for factor in factorize(text.to_owned()) {
            match factor {
                LZFactor::Char(byte, _) => {
                    assert_eq!(byte, bytes[k]);
                    assert!((0..k).all(|p| bytes[p] != bytes[k]));
                }
                LZFactor::Factor(start, len, _) => {
                    assert_eq!(bytes[start..start + len], bytes[k..k + len]);
                    assert!(k + len == bytes.len() || bytes[start + len] != bytes[k + len]);
                    assert!((0..k).all(|p| shared(bytes, p, k) <= len));
                }
            }
            k = factor.next_index();
        }
    }
}

#[test]
fn a_copy_may_run_into_itself() {
    let factors = vec![LZFactor::Char(b'a', 0), LZFactor::Factor(0, 5, 6)];
    assert_eq!(reconstruct(factors), b"aaaaaa".to_vec());
    let factors =
        vec![LZFactor::Char(b'a', 0), LZFactor::Char(b'b', 1), LZFactor::Factor(0, 7, 9)];
    assert_eq!(reconstruct(factors), b"ababababa".to_vec());
}

#[test]
fn reconstruct_ignores_the_recorded_positions() {
    let factors = vec![LZFactor::Char(b'x', 40), LZFactor::Char(b'y', 2), LZFactor::Factor(1, 2, 0)];
    assert_eq!(reconstruct(factors), b"xyyy".to_vec());
}

#[test]
fn reconstruct_of_nothing_is_empty() {
    assert_eq!(reconstruct(Vec::new()), Vec::<u8>::new());
    assert_eq!(reconstruct(vec![LZFactor::Factor(5, 0, 0)]), Vec::<u8>::new());
}

#[test]
fn factorization_as_text() {
    assert_eq!(factorized_string("banana".to_owned()), "ban(1, 3)");
    assert_eq!(factorized_string("aaaa".to_owned()), "a(0, 3)");
    assert_eq!(factorized_string("abcabb".to_owned()), "abc(0, 2)(4, 1)");
    assert_eq!(factorized_string("abracadabra".to_owned()), "abr(0, 1)c(3, 1)d(0, 4)");
    assert_eq!(factorized_string("mississippi".to_owned()), "mis(2, 1)(1, 4)p(8, 1)(7, 1)");
    assert_eq!(factorized_string("abababababababab".to_owned()), "ab(0, 14)");
}

#[test]
fn factorization_as_text_joins_the_factors() {
    for text in ["banana", "abxabyab", "mississippi"] {
        let joined: String =
            factorize(text.to_owned()).iter().map(|factor| factor.to_string()).collect();
        assert_eq!(factorized_string(text.to_owned()), joined);
    }
}
