use similarity::trigram::{line_trigrams, make_trigrams, slice_to_trigram, DiffError};

#[test]
fn trigram_packs_the_first_byte_on_top() {
    assert_eq!(slice_to_trigram(b""), Ok(0));
    assert_eq!(slice_to_trigram(b"a"), Ok(0x610000));
    assert_eq!(slice_to_trigram(b"ab"), Ok(0x616200));
    assert_eq!(slice_to_trigram(b"abc"), Ok(0x616263));
    assert_eq!(slice_to_trigram(&[0xff, 0xff, 0xff]), Ok(0xffffff));
}

#[test]
fn trigram_of_four_bytes_is_an_error() {
    assert_eq!(slice_to_trigram(b"abcd"), Err(DiffError::TooManyElements { len: 4 }));
    assert_eq!(slice_to_trigram(&[0u8; 10]), Err(DiffError::TooManyElements { len: 10 }));
}

#[test]
fn empty_text_has_no_trigram() {
    assert!(make_trigrams("").is_empty());
    assert!(line_trigrams(b"").is_empty());
}

#[test]
fn one_byte_line_has_one_trigram() {
    let set = make_trigrams("\n");
    assert_eq!(set.len(), 1);
    assert!(set.contains(&0x0a0000));
}

#[test]
fn two_byte_line_has_two_trigrams() {
    let set = make_trigrams("a\n");
    assert_eq!(set.len(), 2);
    assert!(set.contains(&0x0a0000));
    assert!(set.contains(&0x610a00));
    assert_eq!(line_trigrams(b"a\n"), vec![0x0a0000, 0x610a00]);
}

#[test]
fn two_equal_bytes_have_two_trigrams() {
    assert_eq!(line_trigrams(b"aa"), vec![0x610000, 0x616100]);
}

#[test]
fn windows_of_a_line_in_order() {
    assert_eq!(line_trigrams(b"abcd\n"), vec![0x616263, 0x626364, 0x63640a]);
    let set = make_trigrams("abcd\n");
    assert_eq!(set.len(), 3);
    assert!(set.contains(&0x616263));
    assert!(set.contains(&0x626364));
    assert!(set.contains(&0x63640a));
}

#[test]
fn repeated_window_is_listed_once() {
    assert_eq!(line_trigrams(b"aaaaa"), vec![0x616161]);
    assert_eq!(line_trigrams(b"ababab"), vec![0x616261, 0x626162]);
    assert_eq!(make_trigrams("ababab").len(), 2);
}

#[test]
fn three_byte_line_has_one_trigram() {
    assert_eq!(line_trigrams(b"ab\n"), vec![0x61620a]);
}
