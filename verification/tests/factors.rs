use lz77::lzfactor::LZFactor;

#[test]
fn new_char_holds_byte_and_position() {
    assert_eq!(LZFactor::new_char(b'x', 7), LZFactor::Char(b'x', 7));
}

#[test]
fn new_factor_records_where_the_next_begins() {
    assert_eq!(LZFactor::new_factor(2, 5, 10), LZFactor::Factor(2, 5, 15));
    assert_eq!(LZFactor::new_factor(0, 0, 0), LZFactor::Factor(0, 0, 0));
}

#[test]
fn is_char_tells_the_variants_apart() {
    assert!(LZFactor::new_char(b'a', 0).is_char());
    assert!(!LZFactor::new_factor(0, 1, 1).is_char());
}

#[test]
fn values_of_each_variant() {
    let literal = LZFactor::new_char(b'q', 3);
    let copy = LZFactor::new_factor(1, 4, 9);
    assert_eq!(literal.char_values(), Some((b'q', 3)));
    assert_eq!(literal.factor_values(), None);
    assert_eq!(copy.char_values(), None);
    assert_eq!(copy.factor_values(), Some((1, 4, 13)));
}

#[test]
fn length_of_each_variant() {
    assert_eq!(LZFactor::new_char(b'q', 3).length(), 0);
    assert_eq!(LZFactor::new_factor(1, 4, 9).length(), 4);
}

#[test]
fn next_index_of_each_variant() {
    assert_eq!(LZFactor::new_char(b'q', 3).next_index(), 4);
    assert_eq!(LZFactor::new_factor(1, 4, 9).next_index(), 13);
    assert_eq!(LZFactor::Factor(1, 4, usize::MAX).next_index(), usize::MAX);
}

#[test]
fn a_literal_is_shown_as_its_character() {
    assert_eq!(LZFactor::new_char(b'a', 0).to_string(), "a");
    assert_eq!(LZFactor::new_char(b' ', 12).to_string(), " ");
    assert_eq!(LZFactor::new_char(0x7f, 1).to_string(), "\u{7f}");
}

#[test]
fn a_copy_is_shown_as_source_and_length() {
    assert_eq!(LZFactor::new_factor(1, 3, 3).to_string(), "(1, 3)");
    assert_eq!(LZFactor::new_factor(0, 0, 0).to_string(), "(0, 0)");
    assert_eq!(LZFactor::new_factor(10, 9, 100).to_string(), "(10, 9)");
    assert_eq!(LZFactor::new_factor(12345, 67890, 100000).to_string(), "(12345, 67890)");
    assert_eq!(
        LZFactor::Factor(usize::MAX, 1000, 0).to_string(),
        format!("({}, {})", usize::MAX, 1000)
    );
}
