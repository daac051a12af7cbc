use similarity::matching::match_lines;
use similarity::matchmap::MatchMap;
use similarity::ratio::Ratio;
use similarity::runs::{
    best_per_line, runs_end_within, find_runs, trigram_similarity, Run, SHORT_RUN,
};

fn texts(lines: &[&str]) -> Vec<String> {
    lines.iter().map(|t| t.to_string()).collect()
}

fn share(ratio: &Ratio) -> (usize, usize) {
    (ratio.num(), ratio.den())
}

/// One map for each destination line, from pairs of source line and weight.
fn sim(rows: &[&[(usize, (usize, usize))]]) -> Vec<MatchMap> {
    rows.iter()
        .map(|row| {
            let mut map = MatchMap::new();
            for &(line, (num, den)) in row.iter() {
                assert!(map.insert(line, Ratio::new(num, den).unwrap()));
            }
            map
        })
        .collect()
}

/// The percentage that the best weights of the lines come to.
fn percent(best: &[Ratio]) -> f64 {
    let sum: f64 = best.iter().map(|r| r.num() as f64 / r.den() as f64).sum();
    sum / best.len() as f64 * 100.0
}

#[test]
fn short_run_is_three() {
    assert_eq!(SHORT_RUN, 3);
}

#[test]
fn run_needs_a_line_and_numbers_from_one() {
    assert!(Run::new(1, 1, Vec::new()).is_none());
    assert!(Run::new(0, 1, vec![Ratio::one()]).is_none());
    assert!(Run::new(1, 0, vec![Ratio::one()]).is_none());
    assert!(Run::new(usize::MAX, 1, vec![Ratio::one(), Ratio::one()]).is_none());
    assert!(Run::new(1, usize::MAX, vec![Ratio::one(), Ratio::one()]).is_none());
    let run = Run::new(3, 7, vec![Ratio::one(), Ratio::zero(), Ratio::one()]).unwrap();
    assert_eq!(run.source(), (3, 5));
    assert_eq!(run.dest(), (7, 9));
    assert_eq!(run.length(), 3);
    assert_eq!(run.percs().len(), 3);
    assert_eq!(run.clone(), run);
}

#[test]
fn diagonal_of_four_lines_is_a_run() {
    let w = (1, 1);
    let found = find_runs(sim(&[&[(1, w)], &[(2, w)], &[(3, w)], &[(4, w)]]));
    assert_eq!(found.len(), 1);
    assert_eq!(found[0].source(), (1, 4));
    assert_eq!(found[0].dest(), (1, 4));
    assert_eq!(found[0].length(), 4);
}

#[test]
fn diagonal_of_five_lines_is_a_run() {
    let w = (1, 2);
    let found = find_runs(sim(&[
        &[(3, w)],
        &[(4, w)],
        &[(5, (2, 3))],
        &[(6, w)],
        &[(7, w)],
    ]));
    assert_eq!(found.len(), 1);
    assert_eq!(found[0].source(), (3, 7));
    assert_eq!(found[0].dest(), (1, 5));
    assert_eq!(found[0].length(), 5);
    let percs: Vec<(usize, usize)> = found[0].percs().iter().map(share).collect();
    assert_eq!(percs, vec![(1, 2), (1, 2), (2, 3), (1, 2), (1, 2)]);
}

#[test]
fn diagonal_of_three_lines_is_discarded() {
    let w = (1, 1);
    let found = find_runs(sim(&[&[(7, w)], &[(8, w)], &[(9, w)], &[]]));
    assert!(found.is_empty());
    let found = find_runs(sim(&[&[], &[(7, w)], &[(8, w)], &[(9, w)]]));
    assert!(found.is_empty());
}

#[test]
fn shorter_diagonals_are_discarded() {
    let w = (1, 1);
    assert!(find_runs(sim(&[&[(1, w)]])).is_empty());
    assert!(find_runs(sim(&[&[(1, w)], &[(2, w)]])).is_empty());
    assert!(find_runs(sim(&[&[(1, w)], &[(2, w)], &[(3, w)]])).is_empty());
    assert!(find_runs(Vec::new()).is_empty());
    assert!(find_runs(sim(&[&[], &[], &[]])).is_empty());
}

#[test]
fn run_ends_where_the_diagonal_breaks() {
    let w = (1, 1);
    // Destination lines 1 to 5 on source lines 1 to 5; line 6 matches source line 9.
    let found = find_runs(sim(&[
        &[(1, w)],
        &[(2, w)],
        &[(3, w)],
        &[(4, w)],
        &[(5, w)],
        &[(9, w)],
    ]));
    assert_eq!(found.len(), 1);
    assert_eq!(found[0].source(), (1, 5));
    assert_eq!(found[0].dest(), (1, 5));
}

#[test]
fn gap_splits_a_diagonal() {
    let w = (1, 1);
    let found = find_runs(sim(&[
        &[(1, w)],
        &[(2, w)],
        &[(3, w)],
        &[(4, w)],
        &[(5, w)],
        &[],
        &[(7, w)],
        &[(8, w)],
        &[(9, w)],
    ]));
    // The second part has three lines only.
    assert_eq!(found.len(), 1);
    assert_eq!(found[0].dest(), (1, 5));
}

#[test]
fn runs_come_in_the_order_of_their_ends() {
    let w = (1, 1);
    let h = (1, 2);
    // One diagonal from (1, 1) to (5, 5), one from (1, 11) to (6, 16), and
    // one from (2, 20) to (6, 24).
    let found = find_runs(sim(&[
        &[(1, w), (11, h)],
        &[(2, w), (12, h), (20, w)],
        &[(3, w), (13, h), (21, w)],
        &[(4, w), (14, h), (22, w)],
        &[(5, w), (15, h), (23, w)],
        &[(16, h), (24, w)],
    ]));
    assert_eq!(found.len(), 3);
    assert_eq!((found[0].source(), found[0].dest()), ((1, 5), (1, 5)));
    assert_eq!((found[1].source(), found[1].dest()), ((11, 16), (1, 6)));
    assert_eq!((found[2].source(), found[2].dest()), ((20, 24), (2, 6)));
}

#[test]
fn ten_identical_lines_have_thirteen_runs() {
    let text = texts(&["a"; 10]);
    let found = find_runs(match_lines(&text, &text));
    assert_eq!(found.len(), 13);
    let ends: Vec<(usize, usize)> = found.iter().map(|r| (r.dest().1, r.source().1)).collect();
    assert_eq!(
        ends,
        vec![
            (4, 10),
            (5, 10),
            (6, 10),
            (7, 10),
            (8, 10),
            (9, 10),
            (10, 4),
            (10, 5),
            (10, 6),
            (10, 7),
            (10, 8),
            (10, 9),
            (10, 10)
        ]
    );
    for run in found.iter() {
        assert!(run.length() > 3);
        assert_eq!(run.length(), run.percs().len());
        assert!(run.percs().iter().all(|p| p.is_one()));
    }
}

#[test]
fn best_weight_is_the_largest() {
    let low = Run::new(1, 2, vec![Ratio::new(1, 2).unwrap(); 5]).unwrap();
    let high = Run::new(9, 4, vec![Ratio::new(3, 4).unwrap(); 5]).unwrap();
    let best = best_per_line(&vec![low, high], 9);
    let got: Vec<(usize, usize)> = best.iter().map(share).collect();
    assert_eq!(
        got,
        vec![(0, 1), (1, 2), (1, 2), (3, 4), (3, 4), (3, 4), (3, 4), (3, 4), (0, 1)]
    );
}

#[test]
fn best_weight_of_no_run_is_zero() {
    let best = best_per_line(&Vec::new(), 3);
    assert_eq!(best.len(), 3);
    assert!(best.iter().all(|r| share(r) == (0, 1)));
    assert!(best_per_line(&Vec::new(), 0).is_empty());
}

#[test]
fn whole_run_covers_its_lines_in_full() {
    let whole = Run::new(1, 3, vec![Ratio::new(4, 4).unwrap(); 6]).unwrap();
    let other = Run::new(20, 1, vec![Ratio::new(2, 3).unwrap(); 10]).unwrap();
    let best = best_per_line(&vec![other, whole], 10);
    for line in 3..=8 {
        assert!(best[line - 1].is_one());
    }
    assert_eq!(share(&best[0]), (2, 3));
    assert_eq!(share(&best[9]), (2, 3));
}

#[test]
fn runs_must_end_within_the_lines() {
    let run = Run::new(1, 3, vec![Ratio::one(); 5]).unwrap();
    assert!(runs_end_within(&vec![run.clone()], 7));
    assert!(runs_end_within(&vec![run.clone()], 8));
    assert!(!runs_end_within(&vec![run], 6));
    assert!(runs_end_within(&Vec::new(), 0));
}

#[test]
fn ten_identical_lines_are_fully_similar() {
    let text = texts(&["a"; 10]);
    let best = trigram_similarity(&text, &text);
    assert_eq!(best.len(), 10);
    assert!(best.iter().all(|r| r.is_one()));
    assert_eq!(format!("{:.2}", percent(&best)), "100.00");
}

#[test]
fn copied_block_counts_for_its_lines() {
    let source = texts(&[
        "fn main() {",
        "    let x = 1;",
        "    let y = 2;",
        "    println!(\"{}\", x + y);",
        "    return;",
        "}",
    ]);
    let dest = texts(&[
        "// a new comment at the top",
        "fn main() {",
        "    let x = 1;",
        "    let y = 2;",
        "    println!(\"{}\", x + y);",
        "    return;",
        "}",
        "// and one more at the end",
    ]);
    let best = trigram_similarity(&source, &dest);
    assert_eq!(best.len(), 8);
    assert_eq!(share(&best[0]), (0, 1));
    assert_eq!(share(&best[7]), (0, 1));
    for line in 2..=7 {
        assert!(best[line - 1].is_one());
    }
    assert_eq!(format!("{:.2}", percent(&best)), "75.00");
}

#[test]
fn three_copied_lines_do_not_count() {
    let source = texts(&["one one one", "two two two", "three three"]);
    let best = trigram_similarity(&source, &source);
    assert!(best.iter().all(|r| share(r) == (0, 1)));
    assert_eq!(format!("{:.2}", percent(&best)), "0.00");
}

#[test]
fn four_copied_lines_count() {
    let source = texts(&["one one one", "two two two", "three three", "four four"]);
    let best = trigram_similarity(&source, &source);
    assert!(best.iter().all(|r| r.is_one()));
    assert_eq!(format!("{:.2}", percent(&best)), "100.00");
}

#[test]
fn unrelated_texts_are_not_similar() {
    let source = texts(&["aaaa", "bbbb", "cccc", "dddd", "eeee", "ffff"]);
    let dest = texts(&["1111", "2222", "3333", "4444", "5555", "6666"]);
    let best = trigram_similarity(&source, &dest);
    assert_eq!(best.len(), 6);
    assert!(best.iter().all(|r| share(r) == (0, 1)));
}

#[test]
fn no_destination_line_no_weight() {
    assert!(trigram_similarity(&texts(&["a"]), &Vec::new()).is_empty());
}
