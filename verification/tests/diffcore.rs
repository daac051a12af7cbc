use similarity::diffcore::{
    count_changes, estimate_share, estimate_similarity, estimate_similarity_of_bytes, MAX_SCORE,
    MIN_SCORE,
};
use similarity::spanhash::{hash_span, SpanHasher, Spanhash, SpanhashTop};

fn table(text: &str) -> SpanhashTop {
    SpanhashTop::from_bytes(text.as_bytes(), false)
}

fn entry<'a>(table: &'a SpanhashTop, content: &[u8]) -> &'a Spanhash {
    table
        .records()
        .iter()
        .find(|record| record.data().as_slice() == content)
        .unwrap()
}

#[test]
fn constants_are_the_scale() {
    assert_eq!(MAX_SCORE, 60000);
    assert_eq!(MIN_SCORE, 30000);
}

#[test]
fn repeated_lines_share_one_record() {
    let t = table("a\nb\na\n");
    assert_eq!(t.span_count(), 2);
    assert_eq!(t.len(), 6);
    assert_eq!(entry(&t, b"a\n").occurrences(), 4);
    assert_eq!(entry(&t, b"b\n").occurrences(), 2);
    assert_eq!(t.records()[0].data().as_slice(), b"a\n");
    assert_eq!(t.records()[1].data().as_slice(), b"b\n");
}

#[test]
fn record_holds_the_hash_of_its_content() {
    let t = table("hello\nworld\n");
    assert_eq!(entry(&t, b"hello\n").hashval(), hash_span(b"hello\n"));
    assert_eq!(entry(&t, b"world\n").hashval(), hash_span(b"world\n"));
    assert_ne!(hash_span(b"hello\n"), hash_span(b"world\n"));
}

#[test]
fn text_drops_the_carriage_return() {
    let t = table("foo\r\nfoo\n");
    assert_eq!(t.span_count(), 1);
    assert_eq!(entry(&t, b"foo\n").occurrences(), 8);
    assert_eq!(t.len(), 8);
}

#[test]
fn binary_keeps_the_carriage_return() {
    let t = SpanhashTop::from_bytes(b"foo\r\nfoo\n", true);
    assert_eq!(t.span_count(), 2);
    assert_eq!(entry(&t, b"foo\r\n").occurrences(), 5);
    assert_eq!(entry(&t, b"foo\n").occurrences(), 4);
    assert_eq!(t.len(), 9);
}

#[test]
fn lone_carriage_return_line_is_kept_whole() {
    let t = table("\r\n");
    assert_eq!(t.span_count(), 1);
    assert_eq!(entry(&t, b"\n").occurrences(), 1);
}

#[test]
fn long_line_is_cut_at_sixty_four_bytes() {
    let mut data = vec![b'x'; 70];
    data.push(b'\n');
    let t = SpanhashTop::from_bytes(&data, false);
    assert_eq!(t.span_count(), 2);
    assert_eq!(entry(&t, &[b'x'; 64]).occurrences(), 64);
    assert_eq!(entry(&t, b"xxxxxx\n").occurrences(), 7);
    assert_eq!(t.len(), 71);
}

#[test]
fn newline_at_the_sixty_fourth_byte_ends_the_span() {
    let mut data = vec![b'y'; 63];
    data.push(b'\n');
    data.extend_from_slice(b"z\n");
    let t = SpanhashTop::from_bytes(&data, false);
    assert_eq!(t.span_count(), 2);
    assert_eq!(t.records()[0].data().len(), 64);
    assert_eq!(t.records()[1].data().as_slice(), b"z\n");
}

#[test]
fn bytes_behind_the_last_newline_are_the_last_span() {
    let t = table("a\nrest");
    assert_eq!(t.span_count(), 2);
    assert_eq!(t.len(), 6);
    assert_eq!(t.records()[1].data().as_slice(), b"rest");
    assert_eq!(entry(&t, b"rest").occurrences(), 4);
    let one = table("no newline");
    assert_eq!(one.span_count(), 1);
    assert_eq!(one.len(), 10);
    assert_eq!(one.records()[0].data().as_slice(), b"no newline");
}

#[test]
fn file_without_newline_has_its_size() {
    assert_eq!(SpanhashTop::from_bytes(b"abc", false).len(), 3);
    assert_eq!(SpanhashTop::from_bytes(b"abc", true).len(), 3);
    assert_eq!(SpanhashTop::from_bytes(b"x", false).span_count(), 1);
}

#[test]
fn last_span_of_a_long_line_is_what_is_left() {
    let data = vec![b'x'; 70];
    let t = SpanhashTop::from_bytes(&data, false);
    assert_eq!(t.span_count(), 2);
    assert_eq!(entry(&t, &[b'x'; 64]).occurrences(), 64);
    assert_eq!(entry(&t, b"xxxxxx").occurrences(), 6);
    assert_eq!(t.len(), 70);
}

#[test]
fn last_span_is_taken_as_it_is() {
    // A carriage return at the end of the input is no part of a line ending.
    let t = table("foo\r");
    assert_eq!(t.records()[0].data().as_slice(), b"foo\r");
    assert_eq!(t.len(), 4);
    // A last span with the content of a line counts for that content.
    let t = table("ab\nab\n");
    assert_eq!(entry(&t, b"ab\n").occurrences(), 6);
    let t = table("ab\nab");
    assert_eq!(t.span_count(), 2);
    assert_eq!(entry(&t, b"ab").occurrences(), 2);
}

#[test]
fn binary_table_has_the_size_of_the_input() {
    for len in 0..200usize {
        let data: Vec<u8> = (0..len).map(|i| [b'a', b'\r', b'\n', b'b'][i * 7 % 4]).collect();
        assert_eq!(SpanhashTop::from_bytes(&data, true).len(), len);
        assert!(SpanhashTop::from_bytes(&data, false).len() <= len);
        assert_eq!(SpanhashTop::from_bytes(&data, false).len() == 0, len == 0);
    }
}

#[test]
fn empty_against_file_without_newline_scores_zero() {
    assert_eq!(estimate_similarity(table(""), table("abc")), 0);
    assert_eq!(estimate_similarity(table("abc"), table("")), 0);
    assert_eq!(estimate_similarity_of_bytes(b"", b"abc", false), 0);
    assert_eq!(estimate_similarity_of_bytes(b"abc", b"", true), 0);
}

#[test]
fn different_files_without_newline_score_zero() {
    assert_eq!(estimate_similarity_of_bytes(b"abc", b"xyz", false), 0);
    assert_eq!(estimate_similarity_of_bytes(b"abc", b"xyz", true), 0);
    assert_eq!(estimate_similarity_of_bytes(b"abc", b"abc", false), MAX_SCORE);
}

#[test]
fn sixty_four_bytes_without_newline_are_one_span() {
    let data = vec![b'q'; 64];
    let t = SpanhashTop::from_bytes(&data, true);
    assert_eq!(t.span_count(), 1);
    assert_eq!(t.len(), 64);
}

#[test]
fn empty_input_has_an_empty_table() {
    let t = table("");
    assert_eq!(t.span_count(), 0);
    assert_eq!(t.len(), 0);
    assert_eq!(t, SpanhashTop::default());
}

#[test]
fn default_record_is_empty() {
    let r = Spanhash::default();
    assert!(r.data().is_empty());
    assert_eq!(r.hashval(), 0);
    assert_eq!(r.occurrences(), 0);
}

#[test]
fn clone_keeps_the_table() {
    let t = table("one\ntwo\none\n");
    let copy = t.clone();
    assert_eq!(copy, t);
    assert_eq!(copy.records()[0].clone(), t.records()[0]);
}

#[test]
fn sorted_records_go_down_by_bytes() {
    let t = table("a\nbbbb\na\ncc\n");
    let sorted = t.into_sorted();
    let bytes: Vec<usize> = sorted.iter().map(|r| r.occurrences()).collect();
    assert_eq!(bytes, vec![5, 4, 3]);
    assert_eq!(sorted[0].data().as_slice(), b"bbbb\n");
    assert_eq!(sorted[1].data().as_slice(), b"a\n");
    assert_eq!(sorted[2].data().as_slice(), b"cc\n");
}

#[test]
fn sorted_records_with_equal_bytes_go_up_by_hash() {
    let t = table("aa\nbb\ncc\ndd\nee\n");
    let sorted = t.into_sorted();
    assert_eq!(sorted.len(), 5);
    for pair in sorted.windows(2) {
        assert_eq!(pair[0].occurrences(), 3);
        assert!(pair[0].hashval() <= pair[1].hashval());
    }
}

#[test]
fn identical_files_score_max() {
    let text = "first line\nsecond line\nthird\n";
    assert_eq!(estimate_similarity(table(text), table(text)), MAX_SCORE);
    let binary = SpanhashTop::from_bytes(b"a\r\nb\r\n\x00\x01\n", true);
    assert_eq!(estimate_similarity(binary.clone(), binary), MAX_SCORE);
}

#[test]
fn identical_files_with_many_spans_score_max() {
    let mut text = String::new();
    for i in 0..200 {
        text.push_str(&format!("line number {}\n", i % 37));
    }
    assert_eq!(estimate_similarity(table(&text), table(&text)), MAX_SCORE);
}

#[test]
fn two_empty_files_score_max() {
    assert_eq!(estimate_similarity(table(""), table("")), MAX_SCORE);
}

#[test]
fn empty_against_non_empty_scores_zero() {
    assert_eq!(estimate_similarity(table(""), table("a\n")), 0);
    assert_eq!(estimate_similarity(table("a\n"), table("")), 0);
}

#[test]
fn sizes_far_apart_score_zero() {
    let small = "a\n";
    let large = "a\n".repeat(50);
    assert_eq!(estimate_similarity(table(small), table(&large)), 0);
    assert_eq!(estimate_similarity(table(&large), table(small)), 0);
}

#[test]
fn half_the_size_is_too_far_apart() {
    // 6 bytes against 12: the difference is half of the larger size.
    assert_eq!(estimate_similarity(table("aaaaa\n"), table("aaaaa\nbbbbb\n")), 0);
}

#[test]
fn disjoint_files_of_one_size_score_zero() {
    let left = "alpha\nbravo\ncharlie\n";
    let right = "delta\nhotel\nfoxtrot\n";
    assert_eq!(left.len(), right.len());
    assert_eq!(estimate_similarity(table(left), table(right)), 0);
    assert_eq!(count_changes(table(left), table(right)), (0, right.len()));
}

#[test]
fn shared_line_counts_as_copied() {
    // One line of 8 bytes on each side, shared; 4 more bytes on the right.
    let left = "shared!\n";
    let right = "shared!\nnew\n";
    assert_eq!(count_changes(table(left), table(right)), (8, 4));
    assert_eq!(estimate_similarity(table(left), table(right)), 8 * 60000 / 12);
    assert_eq!(estimate_similarity(table(left), table(right)), 40000);
}

#[test]
fn copied_is_the_smaller_count() {
    let left = "dup\ndup\ndup\n";
    let right = "dup\ndup\n";
    assert_eq!(count_changes(table(left), table(right)), (8, 0));
    assert_eq!(count_changes(table(right), table(left)), (8, 4));
    assert_eq!(estimate_similarity(table(left), table(right)), 40000);
}

#[test]
fn doubling_a_file_does_not_lower_copied() {
    let once = "one\ntwo\nthree\n";
    let twice = "one\ntwo\nthree\none\ntwo\nthree\n";
    let other = "one\ntwo\nthree\nfour\n";
    let (single, _) = count_changes(table(once), table(other));
    let (double, _) = count_changes(table(twice), table(other));
    assert!(double >= single);
    let (single, _) = count_changes(table(other), table(once));
    let (double, _) = count_changes(table(other), table(twice));
    assert!(double >= single);
}

#[test]
fn score_never_exceeds_max() {
    let files = ["a\nb\nc\n", "a\nb\n", "c\nb\na\n", "x\ny\nz\n", "a\na\na\nb\n"];
    for left in files {
        for right in files {
            assert!(estimate_similarity(table(left), table(right)) <= MAX_SCORE);
        }
    }
}

#[test]
fn pieces_give_the_table_of_the_whole() {
    let data: Vec<u8> = (0..5000u32)
        .flat_map(|i| format!("line {} of the text\r\n", i % 97).into_bytes())
        .collect();
    let whole = SpanhashTop::from_bytes(&data, false);
    for size in [1usize, 2, 3, 7, 63, 64, 65, 1000, 4096] {
        let mut hasher = SpanHasher::new(false);
        for chunk in data.chunks(size) {
            hasher = hasher.update(chunk).unwrap();
        }
        assert_eq!(hasher.finish(), whole);
    }
}

#[test]
fn pieces_of_binary_data_give_the_table_of_the_whole() {
    let data: Vec<u8> = (0..3000u32).map(|i| (i * 7 % 251) as u8).collect();
    let whole = SpanhashTop::from_bytes(&data, true);
    let mut hasher = SpanHasher::new(true);
    for chunk in data.chunks(10) {
        hasher = hasher.update(chunk).unwrap();
    }
    let table = hasher.finish();
    assert_eq!(table, whole);
}

#[test]
fn hasher_without_input_has_an_empty_table() {
    assert_eq!(SpanHasher::new(false).finish(), SpanhashTop::default());
    let hasher = SpanHasher::new(true).update(b"").unwrap();
    assert_eq!(hasher.finish().len(), 0);
}

#[test]
fn hasher_keeps_an_unfinished_line_for_the_next_piece() {
    let hasher = SpanHasher::new(false).update(b"hel").unwrap();
    let hasher = hasher.update(b"lo\nwor").unwrap();
    let hasher = hasher.update(b"ld").unwrap();
    assert_eq!(hasher.pending_len(), 5);
    let table = hasher.finish();
    assert_eq!(table.span_count(), 2);
    assert_eq!(table.records()[0].data().as_slice(), b"hello\n");
    assert_eq!(table.records()[1].data().as_slice(), b"world");
    assert_eq!(table.len(), 11);
}

#[test]
fn hasher_keeps_less_than_one_span() {
    let hasher = SpanHasher::new(true);
    assert_eq!(hasher.pending_len(), 0);
    let hasher = hasher.update(&[b'x'; 63]).unwrap();
    assert_eq!(hasher.pending_len(), 63);
    let hasher = hasher.update(b"x").unwrap();
    assert_eq!(hasher.pending_len(), 0);
    let hasher = hasher.update(&[b'y'; 200]).unwrap();
    assert_eq!(hasher.pending_len(), 200 - 3 * 64);
    let hasher = hasher.update(b"\nrest").unwrap();
    assert_eq!(hasher.pending_len(), 4);
    assert_eq!(hasher.finish().len(), 64 + 200 + 1 + 4);
}

#[test]
fn carriage_return_and_newline_may_come_in_two_pieces() {
    let hasher = SpanHasher::new(false).update(b"foo\r").unwrap();
    let table = hasher.update(b"\n").unwrap().finish();
    assert_eq!(table.records()[0].data().as_slice(), b"foo\n");
}

#[test]
fn share_is_copied_of_the_larger_size() {
    let share = estimate_share(table("shared!\n"), table("shared!\nnew\n"));
    assert_eq!((share.num(), share.den()), (8, 12));
    let share = estimate_share(table(""), table(""));
    assert_eq!((share.num(), share.den()), (1, 1));
    let share = estimate_share(table(""), table("a\n"));
    assert_eq!((share.num(), share.den()), (0, 1));
    let share = estimate_share(table("a\n"), table(&"a\n".repeat(50)));
    assert_eq!((share.num(), share.den()), (0, 1));
}

#[test]
fn score_is_rounded_down() {
    // 4 of 7 bytes: 4 * 60000 / 7 = 34285.71...
    assert_eq!(estimate_similarity(table("abc\n"), table("abc\nxy\n")), 34285);
}

#[test]
fn many_distinct_lines_are_all_recorded() {
    let mut text = String::new();
    for i in 0..20000 {
        text.push_str(&format!("{}\n", i));
    }
    let t = table(&text);
    assert_eq!(t.span_count(), 20000);
    assert_eq!(t.len(), text.len());
    assert_eq!(estimate_similarity(t.clone(), t), MAX_SCORE);
}

#[test]
fn bytes_are_compared_as_their_tables() {
    let left = b"one\ntwo\nthree\n";
    let right = b"one\ntwo\nfour\n";
    assert_eq!(
        estimate_similarity_of_bytes(left, right, false),
        estimate_similarity(
            SpanhashTop::from_bytes(left, false),
            SpanhashTop::from_bytes(right, false)
        )
    );
    assert_eq!(estimate_similarity_of_bytes(left, left, true), MAX_SCORE);
    assert_eq!(estimate_similarity_of_bytes(b"", b"", false), MAX_SCORE);
    assert_eq!(estimate_similarity_of_bytes(b"", left, false), 0);
}

#[test]
fn line_endings_do_not_tell_texts_apart() {
    let unix = b"alpha\nbeta\ngamma\n";
    let dos = b"alpha\r\nbeta\r\ngamma\r\n";
    assert_eq!(estimate_similarity_of_bytes(unix, dos, false), MAX_SCORE);
    assert_eq!(estimate_similarity_of_bytes(unix, dos, true), 0);
}

#[test]
fn two_of_three_lines_copied() {
    // The left side has 14 bytes, the right side 13, and two lines of 4
    // bytes each stand on both sides.
    let left = "one\ntwo\nthree\n";
    let right = "one\ntwo\nfour\n";
    assert_eq!(count_changes(table(left), table(right)), (8, 5));
    assert_eq!(count_changes(table(right), table(left)), (8, 6));
    assert_eq!(estimate_similarity(table(left), table(right)), 8 * 60000 / 14);
    assert_eq!(estimate_similarity(table(left), table(right)), 34285);
    assert_eq!(estimate_similarity(table(right), table(left)), 34285);
}

#[test]
fn common_lines_count_with_the_smaller_number() {
    // "a\n" holds 4 bytes on the left and 2 on the right, "b\n" 2 and 4.
    let left = "a\na\nb\n";
    let right = "a\nb\nb\n";
    assert_eq!(count_changes(table(left), table(right)), (4, 2));
    assert_eq!(count_changes(table(right), table(left)), (4, 2));
    assert_eq!(estimate_similarity(table(left), table(right)), 40000);
    assert_eq!(estimate_similarity(table(right), table(left)), 40000);
}

#[test]
fn one_of_three_lines_changed() {
    assert_eq!(count_changes(table("a\nb\nc\n"), table("a\nb\nd\n")), (4, 2));
    assert_eq!(estimate_similarity(table("a\nb\nc\n"), table("a\nb\nd\n")), 40000);
    assert_eq!(estimate_similarity(table("a\nb\nc\n"), table("d\nb\na\n")), 40000);
}

#[test]
fn common_lines_in_other_proportions() {
    // x: 6 and 2 bytes, y: 2 and 6, z: 4 and 4, w on the right alone.
    let left = "x\nx\nx\ny\nz\nz\n";
    let right = "x\ny\ny\ny\nz\nz\nw\n";
    assert_eq!(count_changes(table(left), table(right)), (2 + 2 + 4, 6));
    assert_eq!(count_changes(table(right), table(left)), (2 + 2 + 4, 4));
    assert_eq!(estimate_similarity(table(left), table(right)), 8 * 60000 / 14);
    // Lines of unlike lengths: 3 * 5 and 1 * 5 bytes, 1 * 3 and 4 * 3 bytes.
    let left = "long\nlong\nlong\nab\n";
    let right = "long\nab\nab\nab\nab\n";
    assert_eq!(count_changes(table(left), table(right)), (5 + 3, 9));
    assert_eq!(estimate_similarity(table(left), table(right)), 8 * 60000 / 18);
    assert_eq!(estimate_similarity(table(left), table(right)), 26666);
}

#[test]
fn order_of_the_lines_does_not_change_the_score() {
    let left = "p\nq\nq\nr\nr\nr\n";
    for right in ["r\nq\np\ns\n", "s\np\nq\nr\n", "q\ns\nr\np\n"] {
        assert_eq!(count_changes(table(left), table(right)), (6, 2));
        assert_eq!(estimate_similarity(table(left), table(right)), 30000);
    }
    for right in ["r\nr\nq\nq\np\ns\n", "s\np\nq\nr\nr\nq\n"] {
        assert_eq!(count_changes(table(left), table(right)), (10, 2));
        assert_eq!(estimate_similarity(table(left), table(right)), 50000);
    }
}

#[test]
fn unmatched_right_spans_are_added() {
    let (copied, added) = count_changes(table("a\n"), table("b\nc\nd\n"));
    assert_eq!((copied, added), (0, 6));
    let (copied, added) = count_changes(table("a\nb\n"), table(""));
    assert_eq!((copied, added), (0, 0));
}

#[test]
fn tables_are_equal_whatever_the_order_of_the_spans() {
    assert_eq!(table("a\nb\nc\n"), table("c\na\nb\n"));
    assert_eq!(table("a\nb\na\n"), table("a\na\nb\n"));
    assert_ne!(table("a\nb\n"), table("a\nb\nb\n"));
    assert_ne!(table("a\nb\n"), table("a\n"));
    assert_ne!(table("a\n"), table("a\nb\n"));
    assert_ne!(table("a\nb\n"), table("a\nc\n"));
    assert_ne!(table(""), table("no line"));
    assert_eq!(table("y\nx\nz"), table("x\ny\nz"));
    assert_ne!(table("b\na"), table("a\nb"));
    assert_ne!(table("a\nb"), table("a\nb\n"));
}

#[test]
fn table_finds_a_span_by_its_content() {
    let t = table("one\ntwo\none\n");
    assert_eq!(t.get(b"one\n").map(|r| r.occurrences()), Some(8));
    assert_eq!(t.get(b"two\n").map(|r| r.occurrences()), Some(4));
    assert!(t.get(b"one").is_none());
    assert!(t.get(b"").is_none());
    assert_eq!(t.get(b"two\n").map(|r| r.hashval()), Some(hash_span(b"two\n")));
}

#[test]
fn records_in_hash_order_go_up_by_hash() {
    let t = table("a\nbbbb\na\ncc\ndd\nee\n");
    let before = t.clone();
    let sorted = t.into_hash_order();
    assert_eq!(sorted.len(), 5);
    for pair in sorted.windows(2) {
        assert!(pair[0].hashval() < pair[1].hashval());
    }
    for record in sorted.iter() {
        assert_eq!(before.get(record.data()), Some(record));
    }
}
