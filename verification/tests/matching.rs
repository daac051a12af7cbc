use similarity::matching::{match_lines, text_trigrams, trigramize_lines, TrigramIndex};
use similarity::matchmap::MatchMap;
use similarity::ratio::Ratio;

fn lines(texts: &[&str]) -> Vec<String> {
    texts.iter().map(|t| t.to_string()).collect()
}

fn parts(ratio: Ratio) -> (usize, usize) {
    (ratio.num(), ratio.den())
}

#[test]
fn ratio_is_a_share() {
    assert!(Ratio::new(0, 1).is_some());
    assert!(Ratio::new(3, 3).is_some());
    assert!(Ratio::new(1, 0).is_none());
    assert!(Ratio::new(0, 0).is_none());
    assert!(Ratio::new(4, 3).is_none());
    assert_eq!(parts(Ratio::new(2, 7).unwrap()), (2, 7));
    assert_eq!(parts(Ratio::zero()), (0, 1));
    assert_eq!(parts(Ratio::one()), (1, 1));
}

#[test]
fn ratio_compares_by_value() {
    let half = Ratio::new(1, 2).unwrap();
    let third = Ratio::new(1, 3).unwrap();
    let two_quarters = Ratio::new(2, 4).unwrap();
    assert!(third.less_than(&half));
    assert!(!half.less_than(&third));
    assert!(!half.less_than(&two_quarters));
    assert!(!two_quarters.less_than(&half));
    assert_eq!(parts(third.max(half)), (1, 2));
    assert_eq!(parts(half.max(third)), (1, 2));
    assert_eq!(parts(half.max(two_quarters)), (1, 2));
    assert_eq!(parts(two_quarters.max(half)), (2, 4));
    assert_eq!(half, two_quarters);
    assert_ne!(half, third);
    assert_eq!(Ratio::new(0, 5).unwrap(), Ratio::zero());
    assert_eq!(Ratio::new(9, 9).unwrap(), Ratio::one());
    let big = Ratio::new(usize::MAX - 1, usize::MAX).unwrap();
    assert_ne!(big, Ratio::one());
    assert_eq!(big, big);
    assert!(big.less_than(&Ratio::one()));
    assert!(!Ratio::one().less_than(&big));
}

#[test]
fn ratio_above_two_fifths_is_a_match() {
    assert!(!Ratio::new(2, 5).unwrap().is_match());
    assert!(!Ratio::new(40, 100).unwrap().is_match());
    assert!(Ratio::new(41, 100).unwrap().is_match());
    assert!(Ratio::new(3, 5).unwrap().is_match());
    assert!(Ratio::one().is_match());
    assert!(!Ratio::zero().is_match());
}

#[test]
fn ratio_is_one_where_all_parts_count() {
    assert!(Ratio::new(7, 7).unwrap().is_one());
    assert!(!Ratio::new(6, 7).unwrap().is_one());
    assert!(!Ratio::zero().is_one());
}

#[test]
fn match_map_keeps_lines_in_order() {
    let mut map = MatchMap::new();
    assert!(map.is_empty());
    assert!(map.insert(5, Ratio::new(1, 2).unwrap()));
    assert!(map.insert(2, Ratio::new(2, 3).unwrap()));
    assert!(map.insert(9, Ratio::one()));
    assert_eq!(map.len(), 3);
    assert_eq!(map.entry_at(0).map(|e| e.0), Some(2));
    assert_eq!(map.entry_at(1).map(|e| e.0), Some(5));
    assert_eq!(map.entry_at(2).map(|e| e.0), Some(9));
    assert!(map.entry_at(3).is_none());
    assert_eq!(map.position(5), Some(1));
    assert_eq!(map.position(4), None);
    assert_eq!(map.get(2).map(parts), Some((2, 3)));
    assert_eq!(map.get(9).map(parts), Some((1, 1)));
    assert!(map.get(1).is_none());
}

#[test]
fn match_map_replaces_a_line() {
    let mut map = MatchMap::new();
    assert!(map.insert(3, Ratio::new(1, 2).unwrap()));
    assert!(map.insert(3, Ratio::new(3, 4).unwrap()));
    assert_eq!(map.len(), 1);
    assert_eq!(map.get(3).map(parts), Some((3, 4)));
}

#[test]
fn match_map_has_no_line_zero() {
    let mut map = MatchMap::new();
    assert!(!map.insert(0, Ratio::one()));
    assert!(map.is_empty());
    assert_eq!(map, MatchMap::default());
    assert!(map.get(0).is_none());
}

#[test]
fn match_map_clone_is_equal() {
    let mut map = MatchMap::new();
    map.insert(4, Ratio::new(1, 2).unwrap());
    map.insert(1, Ratio::one());
    assert_eq!(map.clone(), map);
}

#[test]
fn text_gets_its_newline_back() {
    assert_eq!(text_trigrams("a"), vec![0x0a0000, 0x610a00]);
    assert_eq!(text_trigrams(""), vec![0x0a0000]);
    assert_eq!(text_trigrams("ab"), vec![0x61620a]);
    assert_eq!(text_trigrams("abc"), vec![0x616263, 0x62630a]);
}

#[test]
fn every_line_is_trigramized() {
    let trigrams = trigramize_lines(&lines(&["a", "abc", ""]));
    assert_eq!(trigrams.len(), 3);
    assert_eq!(trigrams[0], vec![0x0a0000, 0x610a00]);
    assert_eq!(trigrams[1], vec![0x616263, 0x62630a]);
    assert_eq!(trigrams[2], vec![0x0a0000]);
}

#[test]
fn identical_line_matches_in_full() {
    let index = TrigramIndex::from_lines(&lines(&["hello world", "other"]));
    assert_eq!(index.line_count(), 2);
    let map = index.score_line("hello world");
    let weight = map.get(1).unwrap();
    assert!(weight.is_one());
    assert_eq!(parts(weight), (10, 10));
    assert!(map.get(2).is_none());
}

#[test]
fn short_identical_lines_match_in_full() {
    let index = TrigramIndex::from_lines(&lines(&["", "a"]));
    assert!(index.score_line("").get(1).unwrap().is_one());
    assert!(index.score_line("a").get(2).unwrap().is_one());
    // The empty line has the one trigram of its newline, which "a" has too.
    assert_eq!(index.score_line("a").get(1).map(parts), Some((1, 1)));
    // "a" has two trigrams, of which the empty line has one: above two fifths.
    assert_eq!(index.score_line("").get(2).map(parts), Some((1, 2)));
}

#[test]
fn two_fifths_are_not_enough() {
    // "abcdef\n" has five trigrams: abc bcd cde def ef\n.
    let index = TrigramIndex::from_lines(&lines(&["abcdef"]));
    // "abcd\n" has abc bcd cd\n, and shares two.
    assert!(index.score_line("abcd").is_empty());
    // "abcde\n" has abc bcd cde de\n, and shares three.
    let map = index.score_line("abcde");
    assert_eq!(map.len(), 1);
    assert_eq!(map.get(1).map(parts), Some((3, 5)));
}

#[test]
fn weight_counts_each_shared_trigram_once() {
    // "ababab\n": aba bab aba bab ab\n, three distinct trigrams.
    let index = TrigramIndex::from_lines(&lines(&["ababab"]));
    let map = index.score_line("abab");
    // "abab\n": aba bab ab\n.
    assert_eq!(map.get(1).map(parts), Some((3, 3)));
}

#[test]
fn weight_is_a_share_of_the_source_line() {
    // Source "abc\n": abc bc\n. Destination "xabc\n": xab abc bc\n.
    let index = TrigramIndex::from_lines(&lines(&["abc"]));
    assert_eq!(index.score_line("xabc").get(1).map(parts), Some((2, 2)));
    // The other way round one of three trigrams is missing.
    let index = TrigramIndex::from_lines(&lines(&["xabc"]));
    assert_eq!(index.score_line("abc").get(1).map(parts), Some((2, 3)));
}

#[test]
fn lines_without_common_trigrams_do_not_match() {
    let index = TrigramIndex::from_lines(&lines(&["first line", "second line"]));
    assert!(index.score_line("zzzzqqqq").is_empty());
}

#[test]
fn empty_source_matches_nothing() {
    let index = TrigramIndex::from_lines(&Vec::new());
    assert_eq!(index.line_count(), 0);
    assert!(index.score_line("anything").is_empty());
}

#[test]
fn each_destination_line_has_its_map() {
    let source = lines(&["alpha beta", "gamma delta", "alpha beta"]);
    let dest = lines(&["gamma delta", "nothing alike here", "alpha beta"]);
    let maps = match_lines(&source, &dest);
    assert_eq!(maps.len(), 3);
    assert_eq!(maps[0].len(), 1);
    assert!(maps[0].get(2).unwrap().is_one());
    assert!(maps[1].is_empty());
    assert_eq!(maps[2].len(), 2);
    assert!(maps[2].get(1).unwrap().is_one());
    assert!(maps[2].get(3).unwrap().is_one());
}

#[test]
fn no_destination_line_no_map() {
    assert!(match_lines(&lines(&["a"]), &Vec::new()).is_empty());
}

#[test]
fn index_lists_the_lines_of_each_trigram() {
    let index = TrigramIndex::from_lines(&lines(&["abc", "xbc", "abc", ""]));
    // "abc\n": abc bc\n. "xbc\n": xbc bc\n. "\n": a newline alone.
    assert_eq!(index.lines_with_trigram(0x616263), Some(&vec![1, 3]));
    assert_eq!(index.lines_with_trigram(0x62630a), Some(&vec![1, 2, 3]));
    assert_eq!(index.lines_with_trigram(0x786263), Some(&vec![2]));
    assert_eq!(index.lines_with_trigram(0x0a0000), Some(&vec![4]));
    assert_eq!(index.lines_with_trigram(0x636261), None);
    assert_eq!(index.lines_with_trigram(0), None);
}

#[test]
fn index_counts_the_trigrams_of_each_line() {
    let index = TrigramIndex::from_lines(&lines(&["abcdef", "a", "", "ababab"]));
    assert_eq!(index.trigram_count(1), Some(5));
    assert_eq!(index.trigram_count(2), Some(2));
    assert_eq!(index.trigram_count(3), Some(1));
    assert_eq!(index.trigram_count(4), Some(3));
    assert_eq!(index.trigram_count(0), None);
    assert_eq!(index.trigram_count(5), None);
}
