//! Each result of the library against a second, plain way to compute it, on
//! many inputs drawn from a fixed sequence of numbers.
use std::collections::{BTreeMap, BTreeSet, HashSet};
use std::io::Read;

use similarity::diffcore::{count_changes, estimate_similarity, MAX_SCORE};
use similarity::matching::match_lines;
use similarity::matchmap::MatchMap;
use similarity::ratio::Ratio;
use similarity::runs::{best_per_line, find_runs};
use similarity::spanhash::{hash_span, SpanHasher, SpanhashTop};
use similarity::trigram::{line_trigrams, make_trigrams};

/// A fixed sequence of numbers that looks random.
struct Numbers(u64);

impl Numbers {
    fn next(&mut self) -> u64 {
        self.0 = self.0.wrapping_mul(6364136223846793005).wrapping_add(1442695040888963407);
        self.0 >> 33
    }

    fn below(&mut self, bound: u64) -> u64 {
        self.next() % bound
    }

    /// Bytes among which newlines and carriage returns are frequent.
    fn text(&mut self, len: usize) -> Vec<u8> {
        (0..len)
            .map(|_| match self.below(12) {
                0 | 1 => b'\n',
                2 => b'\r',
                n => b'a' + (n % 3) as u8,
            })
            .collect()
    }

    /// Bytes with long stretches without a newline.
    fn long_lines(&mut self, len: usize) -> Vec<u8> {
        (0..len)
            .map(|_| match self.below(90) {
                0 => b'\n',
                1 => b'\r',
                n => b'a' + (n % 2) as u8,
            })
            .collect()
    }
}

/// A reader that hands out at most `step` bytes at a time.
struct Slow<'a> {
    data: &'a [u8],
    step: usize,
}

impl<'a> Read for Slow<'a> {
    fn read(&mut self, buf: &mut [u8]) -> std::io::Result<usize> {
        let n = self.step.min(buf.len()).min(self.data.len());
        buf[..n].copy_from_slice(&self.data[..n]);
        self.data = &self.data[n..];
        Ok(n)
    }
}

/// The spans of what `reader` yields, cut through a buffer of 64 bytes that
/// is filled up before each cut. What is in the buffer at the end of the
/// input is the last span.
fn spans_through_buffer<R: Read>(mut reader: R, is_binary: bool) -> Vec<Vec<u8>> {
    let max_line_length = 64;
    let mut spans = Vec::new();
    let mut buf: Vec<u8> = vec![0; 128];
    let mut is_done = false;
    let mut buf_len = 0;
    while !is_done {
        buf.resize(max_line_length, 0);
        match reader.read(&mut buf[buf_len..max_line_length]) {
            Ok(0) => {
                is_done = true;
            }
            Ok(n) => {
                buf_len += n;
                if buf_len < max_line_length {
                    continue;
                }
            }
            Err(_) => {
                is_done = true;
            }
        }
        while buf_len > 0 {
            let end_idx = if let Some(idx) = buf[..buf_len].iter().position(|&b| b == b'\n') {
                idx + 1
            } else if buf_len < max_line_length {
                break;
            } else {
                max_line_length
            };
            let rest = buf.split_off(end_idx);
            buf_len -= end_idx;
            let has_crlf =
                end_idx > 1 && buf[end_idx - 1] == b'\n' && buf[end_idx - 2] == b'\r';
            if !is_binary && has_crlf {
                buf[end_idx - 2] = b'\n';
                buf.pop();
            }
            spans.push(buf);
            buf = rest;
        }
    }
    if buf_len > 0 {
        buf.truncate(buf_len);
        spans.push(buf);
    }
    spans
}

/// For each content the bytes that its spans hold in all.
fn bytes_by_content(spans: &[Vec<u8>]) -> BTreeMap<Vec<u8>, usize> {
    let mut bytes = BTreeMap::new();
    for span in spans {
        *bytes.entry(span.clone()).or_insert(0) += span.len();
    }
    bytes
}

fn table_as_map(table: &SpanhashTop) -> BTreeMap<Vec<u8>, usize> {
    table
        .records()
        .iter()
        .map(|r| (r.data().clone(), r.occurrences()))
        .collect()
}

#[test]
fn table_agrees_with_cutting_through_a_buffer() {
    let mut numbers = Numbers(1);
    for round in 0..300 {
        let len = numbers.below(400) as usize;
        let data = if round % 2 == 0 { numbers.text(len) } else { numbers.long_lines(len) };
        for is_binary in [false, true] {
            let table = SpanhashTop::from_bytes(&data, is_binary);
            for step in [1usize, 3, 64, 1000] {
                let spans = spans_through_buffer(Slow { data: &data, step }, is_binary);
                assert_eq!(table_as_map(&table), bytes_by_content(&spans));
                assert_eq!(table.len(), spans.iter().map(|s| s.len()).sum::<usize>());
                // Records stand in the order in which the spans first occur.
                let mut first: Vec<Vec<u8>> = Vec::new();
                for span in spans.iter() {
                    if !first.contains(span) {
                        first.push(span.clone());
                    }
                }
                let recorded: Vec<Vec<u8>> =
                    table.records().iter().map(|r| r.data().clone()).collect();
                assert_eq!(recorded, first);
            }
            for record in table.records() {
                assert_eq!(record.hashval(), hash_span(record.data()));
                assert!(!record.data().is_empty() && record.data().len() <= 64);
            }
        }
    }
}

#[test]
fn hasher_agrees_with_the_table_of_the_whole() {
    let mut numbers = Numbers(2);
    for _ in 0..200 {
        let len = numbers.below(600) as usize;
        let data = numbers.long_lines(len);
        let is_binary = numbers.below(2) == 0;
        let whole = SpanhashTop::from_bytes(&data, is_binary);
        let mut hasher = SpanHasher::new(is_binary);
        let mut rest: &[u8] = &data;
        while !rest.is_empty() {
            let n = (numbers.below(130) as usize).min(rest.len());
            hasher = hasher.update(&rest[..n]).unwrap();
            rest = &rest[n..];
        }
        let table = hasher.finish();
        assert_eq!(table, whole);
        assert_eq!(table.records(), whole.records());
    }
}

/// The bytes copied and added, counted content by content: of a content
/// that both tables hold the smaller of the two byte counts is copied.
fn changes_by_content(left: &SpanhashTop, right: &SpanhashTop) -> (usize, usize) {
    let (l, r) = (table_as_map(left), table_as_map(right));
    let copied: usize = l
        .iter()
        .map(|(content, &bytes)| bytes.min(r.get(content).copied().unwrap_or(0)))
        .sum();
    (copied, right.len() - copied)
}

#[test]
fn score_agrees_with_counting_common_contents() {
    let mut numbers = Numbers(3);
    for _ in 0..300 {
        let left_len = numbers.below(300) as usize;
        let left = numbers.text(left_len);
        let right_len = numbers.below(300) as usize;
        let right = numbers.text(right_len);
        let l = SpanhashTop::from_bytes(&left, false);
        let r = SpanhashTop::from_bytes(&right, false);
        let expected = changes_by_content(&l, &r);
        assert_eq!(count_changes(l.clone(), r.clone()), expected);
        assert_eq!(expected.0 + expected.1, r.len());
        assert!(expected.0 <= l.len());
        let (ls, rs) = (l.len(), r.len());
        let (max, delta) = (ls.max(rs), ls.max(rs) - ls.min(rs));
        let score = if ls == 0 && rs == 0 {
            MAX_SCORE
        } else if ls == 0 || rs == 0 || delta * 2 >= max {
            0
        } else {
            (expected.0 * 60000 / max) as u64
        };
        assert_eq!(estimate_similarity(l.clone(), r), score);
        assert_eq!(estimate_similarity(l.clone(), l), MAX_SCORE);
    }
}

#[test]
fn sorted_records_are_a_rearrangement_in_order() {
    let mut numbers = Numbers(4);
    for _ in 0..200 {
        let len = numbers.below(500) as usize;
        let data = numbers.text(len);
        let table = SpanhashTop::from_bytes(&data, true);
        let before = table_as_map(&table);
        let sorted = table.into_sorted();
        let after: BTreeMap<Vec<u8>, usize> =
            sorted.iter().map(|r| (r.data().clone(), r.occurrences())).collect();
        assert_eq!(before, after);
        assert_eq!(before.len(), sorted.len());
        for pair in sorted.windows(2) {
            let (a, b) = (&pair[0], &pair[1]);
            assert!(
                a.occurrences() > b.occurrences()
                    || (a.occurrences() == b.occurrences() && a.hashval() <= b.hashval())
            );
        }
    }
}

/// The trigrams of a line as a set, window by window.
fn trigrams_by_windows(line: &[u8]) -> BTreeSet<u32> {
    let pack = |w: &[u8]| {
        let byte = |i: usize| w.get(i).copied().unwrap_or(0) as u32;
        byte(0) << 16 | byte(1) << 8 | byte(2)
    };
    let mut set: BTreeSet<u32> = line.windows(3).map(pack).collect();
    if line.len() == 1 || line.len() == 2 {
        set.insert(pack(&line[line.len() - 1..]));
    }
    if line.len() == 2 {
        set.insert(pack(line));
    }
    set
}

#[test]
fn trigrams_agree_with_the_windows() {
    let mut numbers = Numbers(5);
    for _ in 0..500 {
        let len = numbers.below(40) as usize;
        let line: Vec<u8> = (0..len).map(|_| b'a' + numbers.below(3) as u8).collect();
        let expected = trigrams_by_windows(&line);
        let list = line_trigrams(&line);
        assert_eq!(list.iter().copied().collect::<BTreeSet<u32>>(), expected);
        assert_eq!(list.len(), expected.len());
        let text = String::from_utf8(line.clone()).unwrap();
        let set: HashSet<u32> = make_trigrams(&text);
        assert_eq!(set.into_iter().collect::<BTreeSet<u32>>(), expected);
        assert_eq!(expected.is_empty(), line.is_empty());
    }
}

fn random_lines(numbers: &mut Numbers, count: usize) -> Vec<String> {
    (0..count)
        .map(|_| {
            let len = numbers.below(7) as usize;
            (0..len).map(|_| (b'a' + numbers.below(2) as u8) as char).collect()
        })
        .collect()
}

#[test]
fn matches_agree_with_counting_shared_trigrams() {
    let mut numbers = Numbers(6);
    for _ in 0..150 {
        let source_count = numbers.below(12) as usize;
        let source = random_lines(&mut numbers, source_count);
        let dest_count = numbers.below(12) as usize;
        let dest = random_lines(&mut numbers, dest_count);
        let maps = match_lines(&source, &dest);
        assert_eq!(maps.len(), dest.len());
        let sets = |lines: &[String]| -> Vec<BTreeSet<u32>> {
            lines.iter().map(|l| trigrams_by_windows(format!("{}\n", l).as_bytes())).collect()
        };
        let (source_sets, dest_sets) = (sets(&source), sets(&dest));
        for (d, map) in maps.iter().enumerate() {
            let mut expected = Vec::new();
            for (s, set) in source_sets.iter().enumerate() {
                let shared = set.intersection(&dest_sets[d]).count();
                if 5 * shared > 2 * set.len() {
                    expected.push((s + 1, (shared, set.len())));
                }
            }
            let got: Vec<(usize, (usize, usize))> = (0..map.len())
                .map(|i| map.entry_at(i).unwrap())
                .map(|(line, w)| (line, (w.num(), w.den())))
                .collect();
            assert_eq!(got, expected);
        }
    }
}

/// The runs of a table of matches: every diagonal that can be extended at
/// neither end and has more than three lines, found by trying every start.
fn runs_by_search(matches: &[Vec<(usize, Ratio)>]) -> Vec<((usize, usize), (usize, usize))> {
    let has = |d: usize, s: usize| {
        d >= 1 && d <= matches.len() && matches[d - 1].iter().any(|&(line, _)| line == s)
    };
    let mut found = Vec::new();
    for d in 1..=matches.len() {
        for &(s, _) in matches[d - 1].iter() {
            if s >= 1 && d >= 1 && (s == 1 || !has(d - 1, s - 1)) {
                let mut n = 1;
                while has(d + n, s + n) {
                    n += 1;
                }
                if n > 3 {
                    found.push(((s, s + n - 1), (d, d + n - 1)));
                }
            }
        }
    }
    found.sort_by_key(|&((_, source_end), (_, dest_end))| (dest_end, source_end));
    found
}

#[test]
fn runs_agree_with_a_search_over_all_starts() {
    let mut numbers = Numbers(7);
    for round in 0..300 {
        let lines = 1 + numbers.below(14) as usize;
        let width = 1 + numbers.below(14);
        let density = 2 + numbers.below(4);
        let mut matches: Vec<Vec<(usize, Ratio)>> = Vec::new();
        for _ in 0..lines {
            let mut row = Vec::new();
            for s in 1..=width {
                if round % 3 == 0 || numbers.below(density) != 0 {
                    let den = 1 + numbers.below(9) as usize;
                    let num = numbers.below(den as u64 + 1) as usize;
                    row.push((s as usize, Ratio::new(num, den).unwrap()));
                }
            }
            matches.push(row);
        }
        let sim: Vec<MatchMap> = matches
            .iter()
            .map(|row| {
                let mut map = MatchMap::new();
                // Put in from the back, so that the map has to put them in order.
                for &(line, weight) in row.iter().rev() {
                    assert!(map.insert(line, weight));
                }
                map
            })
            .collect();
        let runs = find_runs(sim);
        let got: Vec<((usize, usize), (usize, usize))> =
            runs.iter().map(|r| (r.source(), r.dest())).collect();
        assert_eq!(got, runs_by_search(&matches));
        for run in runs.iter() {
            let ((source_start, _), (dest_start, _)) = (run.source(), run.dest());
            for (k, weight) in run.percs().iter().enumerate() {
                let row = &matches[dest_start + k - 1];
                let expected = row.iter().find(|e| e.0 == source_start + k).unwrap().1;
                assert_eq!((weight.num(), weight.den()), (expected.num(), expected.den()));
            }
        }
        let best = best_per_line(&runs, lines);
        for line in 1..=lines {
            let mut largest = Ratio::zero();
            for run in runs.iter() {
                let (start, end) = run.dest();
                if start <= line && line <= end {
                    let weight = run.percs()[line - start];
                    if largest.less_than(&weight) {
                        largest = weight;
                    }
                }
            }
            assert_eq!(best[line - 1], largest);
        }
    }
}
