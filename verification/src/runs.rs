//! Joining matching lines into runs.
//!
//! Where a destination line matches a source line and the next destination
//! line matches the next source line, the two matches lie on one diagonal. A
//! run is a diagonal that can be extended at neither end. Its length is the
//! number of its destination lines. Runs of three lines or less are
//! discarded.
use crate::matching::{lemma_identical_line_matches_whole, match_lines, matches_of};
use crate::matchmap::{candidates_wf, holds_line, lemma_place_of, place_of, weight_on, Candidate, MatchMap};
use crate::ratio::{
    frac_less, frac_max, is_share, is_whole, lemma_frac_max_nothing, lemma_frac_max_share,
    lemma_frac_max_whole, lemma_frac_not_less_transitive, no_share, Fraction, Ratio,
};
use vstd::prelude::*;

verus! {

/// A run is kept where it has more lines than this.
pub const SHORT_RUN: usize = 3;

/// A run as plain values: the first and the last source line, the first and
/// the last destination line, all counted from one, and for each line of the
/// run the weight with which the destination line matches the source line.
pub struct RunView {
    pub source: (nat, nat),
    pub dest: (nat, nat),
    pub percs: Seq<Fraction>,
}

/// What the destination lines match, as plain values.
pub open spec fn sim_view(sim: Seq<MatchMap>) -> Seq<Seq<Candidate>> {
    Seq::new(sim.len(), |d: int| sim[d]@)
}

/// Whether each of the first `n` destination lines has well-formed candidates.
pub open spec fn sim_wf(sim: Seq<Seq<Candidate>>, n: int) -> bool {
    forall|d: int| 0 <= d < n && d < sim.len() ==> candidates_wf(#[trigger] sim[d])
}

/// Whether destination line `d` matches source line `s`, both counted from one.
pub open spec fn matched(sim: Seq<Seq<Candidate>>, d: int, s: int) -> bool {
    1 <= d <= sim.len() && 1 <= s && holds_line(sim[d - 1], s as nat)
}

/// The number of lines of the longest diagonal that ends with destination
/// line `d` on source line `s`.
pub open spec fn diag_len(sim: Seq<Seq<Candidate>>, d: int, s: int) -> nat
    decreases d,
{
    if d >= 1 && matched(sim, d, s) {
        1 + diag_len(sim, d - 1, s - 1)
    } else {
        0
    }
}

/// Whether a run ends with destination line `d` on source line `s`: the two
/// lines match and the lines behind them do not.
pub open spec fn ends_run(sim: Seq<Seq<Candidate>>, d: int, s: int) -> bool {
    matched(sim, d, s) && !matched(sim, d + 1, s + 1)
}

/// Whether the run that ends with destination line `d` on source line `s` is
/// kept: it has more than `SHORT_RUN` lines.
pub open spec fn is_kept_run(sim: Seq<Seq<Candidate>>, d: int, s: int) -> bool {
    ends_run(sim, d, s) && diag_len(sim, d, s) > SHORT_RUN
}

/// The run that ends with destination line `d` on source line `s`.
pub open spec fn run_ending_at(sim: Seq<Seq<Candidate>>, d: int, s: int) -> RunView {
    let n = diag_len(sim, d, s);
    RunView {
        source: ((s - n + 1) as nat, s as nat),
        dest: ((d - n + 1) as nat, d as nat),
        percs: Seq::new(n, |k: int| weight_on(sim[d - n + k], (s - n + 1 + k) as nat).unwrap()),
    }
}

/// The length of a run: the number of its destination lines.
pub open spec fn run_length(run: RunView) -> int {
    run.dest.1 - run.dest.0 + 1
}

/// What holds of every run: it has a line, its lines are counted from one,
/// it spans as many source lines as destination lines, it holds a weight for
/// each of its lines, and each weight is a share.
pub open spec fn run_wf(run: RunView) -> bool {
    &&& run.percs.len() >= 1
    &&& run.source.0 >= 1
    &&& run.dest.0 >= 1
    &&& run.source.1 == run.source.0 + run.percs.len() - 1
    &&& run.dest.1 == run.dest.0 + run.percs.len() - 1
    &&& run.dest.1 <= usize::MAX
    &&& run.source.1 <= usize::MAX
    &&& forall|k: int| 0 <= k < run.percs.len() ==> is_share(#[trigger] run.percs[k])
}

/// Whether the end `(d, s)` lies before the end `(limit, bound)`: on an
/// earlier destination line, or on the same one and a source line below `bound`.
pub open spec fn ends_before(d: int, s: int, limit: int, bound: int) -> bool {
    d < limit || (d == limit && s < bound)
}

/// Whether `runs` holds the kept runs that end before `(limit, bound)`, each
/// once, in the order of their ends, and no other run.
pub open spec fn runs_cover(
    sim: Seq<Seq<Candidate>>,
    runs: Seq<RunView>,
    limit: int,
    bound: int,
) -> bool {
    &&& forall|i: int|
        0 <= i < runs.len() ==> {
            let run = #[trigger] runs[i];
            &&& run == run_ending_at(sim, run.dest.1 as int, run.source.1 as int)
            &&& is_kept_run(sim, run.dest.1 as int, run.source.1 as int)
            &&& ends_before(run.dest.1 as int, run.source.1 as int, limit, bound)
        }
    &&& forall|d: int, s: int|
        #![trigger is_kept_run(sim, d, s)]
        is_kept_run(sim, d, s) && ends_before(d, s, limit, bound) ==> exists|i: int|
            0 <= i < runs.len() && (#[trigger] runs[i]).dest.1 == d && runs[i].source.1 == s
    &&& forall|i: int, j: int|
        0 <= i < j < runs.len() ==> ends_before(
            (#[trigger] runs[i]).dest.1 as int,
            runs[i].source.1 as int,
            (#[trigger] runs[j]).dest.1 as int,
            runs[j].source.1 as int,
        )
}

/// The runs of `sim`: every diagonal that can be extended at neither end
/// and has more than `SHORT_RUN` lines, each once, in the order of the lines
/// on which they end.
pub open spec fn runs_of(sim: Seq<Seq<Candidate>>, runs: Seq<RunView>) -> bool {
    runs_cover(sim, runs, sim.len() as int + 1, 0)
}

/// A diagonal is no longer than the lines before its end, and all of its
/// lines match.
pub proof fn lemma_diag(sim: Seq<Seq<Candidate>>, d: int, s: int, back: int)
    requires
        0 <= back < diag_len(sim, d, s),
    ensures
        diag_len(sim, d, s) <= d,
        diag_len(sim, d, s) <= s,
        matched(sim, d - back, s - back),
        diag_len(sim, d - back, s - back) == diag_len(sim, d, s) - back,
    decreases d,
{
    if d >= 1 && matched(sim, d, s) {
        if diag_len(sim, d - 1, s - 1) > 0 {
            lemma_diag(sim, d - 1, s - 1, 0);
        }
        if back > 0 {
            lemma_diag(sim, d - 1, s - 1, back - 1);
        }
    }
}

/// The run at the end of a diagonal is well formed.
pub proof fn lemma_run_ending_at_wf(sim: Seq<Seq<Candidate>>, d: int, s: int)
    requires
        sim_wf(sim, d),
        matched(sim, d, s),
        s <= usize::MAX,
        sim.len() <= usize::MAX,
    ensures
        run_wf(run_ending_at(sim, d, s)),
{
    let n = diag_len(sim, d, s);
    let run = run_ending_at(sim, d, s);
    lemma_diag(sim, d, s, 0);
    assert forall|k: int| 0 <= k < run.percs.len() implies is_share(#[trigger] run.percs[k]) by {
        lemma_diag(sim, d, s, n - 1 - k);
        let candidates = sim[d - n + k];
        let line = (s - n + 1 + k) as nat;
        assert(matched(sim, d - (n - 1 - k), s - (n - 1 - k)));
        assert(holds_line(candidates, line));
        let place = place_of(candidates, line);
        assert(is_share(candidates[place].weight));
    }
}

/// A part of a text that was copied: destination lines that match source
/// lines one after the other.
#[derive(Debug, PartialEq, Eq)]
pub struct Run {
    source_start: usize,
    dest_start: usize,
    percs: Vec<Ratio>,
}

impl View for Run {
    type V = RunView;

    closed spec fn view(&self) -> RunView {
        RunView {
            source: (
                self.source_start as nat,
                (self.source_start + self.percs@.len() - 1) as nat,
            ),
            dest: (self.dest_start as nat, (self.dest_start + self.percs@.len() - 1) as nat),
            percs: Seq::new(self.percs@.len(), |k: int| self.percs@[k]@),
        }
    }
}

impl Clone for Run {
    fn clone(&self) -> (copy: Run)
        ensures
            copy@ == self@,
    {
        proof {
            use_type_invariant(self);
        }
        let mut percs: Vec<Ratio> = Vec::new();
        let mut k: usize = 0;
        while k < self.percs.len()
            invariant
                k <= self.percs@.len(),
                percs@ == self.percs@.take(k as int),
            decreases self.percs@.len() - k,
        {
            percs.push(self.percs[k]);
            assert(percs@ =~= self.percs@.take(k + 1));
            k += 1;
        }
        assert(percs@ =~= self.percs@);
        Run { source_start: self.source_start, dest_start: self.dest_start, percs }
    }
}

impl Run {
    #[verifier::type_invariant]
    closed spec fn well_formed(&self) -> bool {
        &&& self.percs@.len() >= 1
        &&& self.source_start >= 1
        &&& self.dest_start >= 1
        &&& self.source_start + self.percs@.len() - 1 <= usize::MAX
        &&& self.dest_start + self.percs@.len() - 1 <= usize::MAX
        &&& forall|k: int| 0 <= k < self.percs@.len() ==> is_share((#[trigger] self.percs@[k])@)
    }

    /// The run that starts with destination line `dest_start` on source line
    /// `source_start` and has one line for each weight. There is no such
    /// run where no weight is given, where a line is counted from zero, or
    /// where the last line has no number.
    pub fn new(source_start: usize, dest_start: usize, percs: Vec<Ratio>) -> (run: Option<Run>)
        ensures
            run is Some <==> percs@.len() >= 1 && source_start >= 1 && dest_start >= 1
                && source_start + percs@.len() - 1 <= usize::MAX && dest_start + percs@.len() - 1
                <= usize::MAX,
            run matches Some(r) ==> r@ == (RunView {
                source: (source_start as nat, (source_start + percs@.len() - 1) as nat),
                dest: (dest_start as nat, (dest_start + percs@.len() - 1) as nat),
                percs: Seq::new(percs@.len(), |k: int| percs@[k]@),
            }) && run_wf(r@),
    {
        let n: usize = percs.len();
        if n < 1 || source_start < 1 || dest_start < 1 {
            return None;
        }
        if source_start > usize::MAX - (n - 1) || dest_start > usize::MAX - (n - 1) {
            return None;
        }
        let mut k: usize = 0;
        while k < n
            invariant
                n == percs@.len(),
                k <= n,
                forall|j: int| 0 <= j < k ==> is_share((#[trigger] percs@[j])@),
            decreases n - k,
        {
            let weight = percs[k];
            proof {
                use_type_invariant(&weight);
                weight.lemma_share();
            }
            k += 1;
        }
        Some(Run { source_start, dest_start, percs })
    }

    /// The first and the last source line of the run, counted from one.
    pub fn source(&self) -> (range: (usize, usize))
        ensures
            range.0 == self@.source.0,
            range.1 == self@.source.1,
            run_wf(self@),
    {
        proof {
            use_type_invariant(self);
        }
        (self.source_start, self.source_start + (self.percs.len() - 1))
    }

    /// The first and the last destination line of the run, counted from one.
    pub fn dest(&self) -> (range: (usize, usize))
        ensures
            range.0 == self@.dest.0,
            range.1 == self@.dest.1,
            run_wf(self@),
    {
        proof {
            use_type_invariant(self);
        }
        (self.dest_start, self.dest_start + (self.percs.len() - 1))
    }

    /// The weight of each line of the run.
    pub fn percs(&self) -> (percs: &Vec<Ratio>)
        ensures
            percs@.len() == self@.percs.len(),
            forall|k: int| 0 <= k < percs@.len() ==> (#[trigger] percs@[k])@ == self@.percs[k],
            run_wf(self@),
    {
        proof {
            use_type_invariant(self);
        }
        &self.percs
    }

    /// The length of the run: the number of its lines.
    pub fn length(&self) -> (length: usize)
        ensures
            length == run_length(self@),
            length == self@.percs.len(),
    {
        proof {
            use_type_invariant(self);
        }
        self.percs.len()
    }
}

/// The runs as plain values.
pub open spec fn runs_view(runs: Seq<Run>) -> Seq<RunView> {
    Seq::new(runs.len(), |i: int| runs[i]@)
}

/// The run of `lines` lines that ends with destination line `d` on source
/// line `s`.
fn build_run(sim: &Vec<MatchMap>, d: usize, s: usize, lines: usize) -> (run: Run)
    requires
        sim_wf(sim_view(sim@), d as int),
        matched(sim_view(sim@), d as int, s as int),
        lines == diag_len(sim_view(sim@), d as int, s as int),
    ensures
        run@ == run_ending_at(sim_view(sim@), d as int, s as int),
        run_wf(run@),
{
    let ghost view = sim_view(sim@);
    let total: usize = sim.len();
    proof {
        lemma_diag(view, d as int, s as int, 0);
        assert(d <= total);
        lemma_run_ending_at_wf(view, d as int, s as int);
    }
    let mut percs: Vec<Ratio> = Vec::new();
    let mut k: usize = 0;
    while k < lines
        invariant
            view == sim_view(sim@),
            sim_wf(view, d as int),
            1 <= lines <= d <= sim@.len(),
            lines <= s,
            lines == diag_len(view, d as int, s as int),
            k <= lines,
            percs@.len() == k,
            forall|j: int|
                0 <= j < k ==> (#[trigger] percs@[j])@ == run_ending_at(
                    view,
                    d as int,
                    s as int,
                ).percs[j],
        decreases lines - k,
    {
        let line: usize = s - lines + 1 + k;
        proof {
            lemma_diag(view, d as int, s as int, lines - 1 - k);
            assert(matched(view, d - (lines - 1 - k), s - (lines - 1 - k)));
            assert(view[d - lines + k] == sim@[d - lines + k]@);
        }
        let weight = sim[d - lines + k].get(line);
        percs.push(weight.unwrap());
        k += 1;
    }
    let run = Run { source_start: s - lines + 1, dest_start: d - lines + 1, percs };
    assert(run@.percs =~= run_ending_at(view, d as int, s as int).percs);
    run
}

/// The first source line that lies behind the first `p` candidates.
pub open spec fn passed_bound(candidates: Seq<Candidate>, p: int) -> int {
    if p <= 0 {
        0
    } else {
        candidates[p - 1].line as int + 1
    }
}

/// The runs that end before the next candidate of destination line `d`
/// are the runs that end before candidate `p`, and behind them the run that
/// ends on candidate `p`, where that run is kept.
proof fn lemma_cover_next(
    sim: Seq<Seq<Candidate>>,
    before: Seq<RunView>,
    after: Seq<RunView>,
    d: int,
    p: int,
)
    requires
        1 <= d <= sim.len(),
        candidates_wf(sim[d - 1]),
        0 <= p < sim[d - 1].len(),
        runs_cover(sim, before, d, passed_bound(sim[d - 1], p)),
        after == if is_kept_run(sim, d, sim[d - 1][p].line as int) {
            before.push(run_ending_at(sim, d, sim[d - 1][p].line as int))
        } else {
            before
        },
    ensures
        runs_cover(sim, after, d, passed_bound(sim[d - 1], p + 1)),
{
    let candidates = sim[d - 1];
    let s = candidates[p].line as int;
    let bound = passed_bound(candidates, p);
    let next_bound = passed_bound(candidates, p + 1);
    lemma_place_of(candidates, p);
    lemma_diag(sim, d, s, 0);
    if p > 0 {
        assert(candidates[p - 1].line < candidates[p].line);
    }
    assert(bound <= s < next_bound);
    assert forall|i: int| 0 <= i < after.len() implies {
        let r = #[trigger] after[i];
        &&& r == run_ending_at(sim, r.dest.1 as int, r.source.1 as int)
        &&& is_kept_run(sim, r.dest.1 as int, r.source.1 as int)
        &&& ends_before(r.dest.1 as int, r.source.1 as int, d, next_bound)
    } by {
        if i < before.len() {
            assert(after[i] == before[i]);
        }
    }
    assert forall|d2: int, s2: int|
        #![trigger is_kept_run(sim, d2, s2)]
        is_kept_run(sim, d2, s2) && ends_before(d2, s2, d, next_bound) implies exists|i: int|
        0 <= i < after.len() && (#[trigger] after[i]).dest.1 == d2 && after[i].source.1 == s2 by {
        if ends_before(d2, s2, d, bound) {
            let i = choose|i: int|
                0 <= i < before.len() && (#[trigger] before[i]).dest.1 == d2 && before[i].source.1
                    == s2;
            assert(after[i] == before[i]);
        } else {
            lemma_only_candidates_match(candidates, p, s2);
            assert(after[before.len() as int].dest.1 == d2);
        }
    }
    assert forall|i: int, j: int| 0 <= i < j < after.len() implies ends_before(
        (#[trigger] after[i]).dest.1 as int,
        after[i].source.1 as int,
        (#[trigger] after[j]).dest.1 as int,
        after[j].source.1 as int,
    ) by {
        assert(after[i] == before[i]);
        if j < before.len() {
            assert(after[j] == before[j]);
        }
    }
}

/// Closes the runs that end with destination line `d`: those that the next
/// destination line does not extend. Of these the runs of more than
/// `SHORT_RUN` lines are kept.
fn close_runs(sim: &Vec<MatchMap>, d: usize, lens: &Vec<usize>, runs: &mut Vec<Run>)
    requires
        sim_wf(sim_view(sim@), d + 1),
        1 <= d <= sim@.len(),
        lens@.len() == sim@[d - 1]@.len(),
        forall|p: int|
            0 <= p < lens@.len() ==> (#[trigger] lens@[p]) == diag_len(
                sim_view(sim@),
                d as int,
                sim@[d - 1]@[p].line as int,
            ),
        runs_cover(sim_view(sim@), runs_view(old(runs)@), d as int, 0),
    ensures
        runs_cover(sim_view(sim@), runs_view(final(runs)@), d + 1, 0),
{
    let ghost view = sim_view(sim@);
    let current = &sim[d - 1];
    let count: usize = current.len();
    let ghost candidates = current@;
    assert(candidates == view[d - 1]);
    let mut p: usize = 0;
    while p < count
        invariant
            view == sim_view(sim@),
            sim_wf(view, d + 1),
            1 <= d <= sim@.len(),
            candidates == sim@[d - 1]@,
            candidates == view[d - 1],
            candidates == current@,
            candidates_wf(candidates),
            count == candidates.len(),
            lens@.len() == count,
            forall|q: int|
                0 <= q < lens@.len() ==> (#[trigger] lens@[q]) == diag_len(
                    view,
                    d as int,
                    candidates[q].line as int,
                ),
            p <= count,
            runs_cover(view, runs_view(runs@), d as int, passed_bound(candidates, p as int)),
        decreases count - p,
    {
        let s: usize = current.line_at(p);
        let lines: usize = lens[p];
        let ghost before = runs_view(runs@);
        proof {
            lemma_place_of(candidates, p as int);
            assert(matched(view, d as int, s as int));
            lemma_diag(view, d as int, s as int, 0);
        }
        let extended: bool = if d < sim.len() && s < usize::MAX {
            let following = &sim[d];
            assert(following@ == view[d as int]);
            following.position(s + 1).is_some()
        } else {
            proof {
                if d < sim@.len() {
                    // No line has a number above the largest.
                    let following = view[d as int];
                    if holds_line(following, (s + 1) as nat) {
                        let at = place_of(following, (s + 1) as nat);
                        assert(following[at].line <= usize::MAX);
                    }
                }
            }
            false
        };
        assert(extended == matched(view, d + 1, s + 1));
        if !extended && lines > SHORT_RUN {
            let run = build_run(sim, d, s, lines);
            runs.push(run);
            assert(runs_view(runs@) =~= before.push(run@));
        }
        proof {
            lemma_cover_next(view, before, runs_view(runs@), d as int, p as int);
        }
        p += 1;
    }
    proof {
        let all = runs_view(runs@);
        let bound = passed_bound(candidates, count as int);
        assert forall|d2: int, s2: int|
            #![trigger is_kept_run(view, d2, s2)]
            is_kept_run(view, d2, s2) && ends_before(d2, s2, d + 1, 0) implies exists|i: int|
            0 <= i < all.len() && (#[trigger] all[i]).dest.1 == d2 && all[i].source.1 == s2 by {
            if d2 == d {
                assert(holds_line(candidates, s2 as nat));
                let at = place_of(candidates, s2 as nat);
                if count > 0 && at < count - 1 {
                    assert(candidates[at].line < candidates[count - 1].line);
                }
                assert(ends_before(d2, s2, d as int, bound));
            }
        }
    }
}

/// Between two candidates that follow each other no source line matches.
pub proof fn lemma_only_candidates_match(candidates: Seq<Candidate>, p: int, s: int)
    requires
        candidates_wf(candidates),
        0 <= p < candidates.len(),
        s >= 1,
        holds_line(candidates, s as nat),
        passed_bound(candidates, p) <= s < passed_bound(candidates, p + 1),
    ensures
        s == candidates[p].line,
{
    let at = place_of(candidates, s as nat);
    if at < p {
        if at < p - 1 {
            assert(candidates[at].line < candidates[p - 1].line);
        }
    } else if at > p {
        assert(candidates[p].line < candidates[at].line);
    }
}

/// For each candidate of destination line `d + 1` the number of lines of the
/// diagonal that ends on it.
fn extend_runs(sim: &Vec<MatchMap>, d: usize, lens: &Vec<usize>) -> (next: Vec<usize>)
    requires
        sim_wf(sim_view(sim@), d as int),
        d < sim@.len(),
        d >= 1 ==> lens@.len() == sim@[d - 1]@.len(),
        d >= 1 ==> forall|p: int|
            0 <= p < lens@.len() ==> (#[trigger] lens@[p]) == diag_len(
                sim_view(sim@),
                d as int,
                sim@[d - 1]@[p].line as int,
            ),
    ensures
        sim_wf(sim_view(sim@), d + 1),
        next@.len() == sim@[d as int]@.len(),
        forall|q: int|
            0 <= q < next@.len() ==> (#[trigger] next@[q]) == diag_len(
                sim_view(sim@),
                d + 1,
                sim@[d as int]@[q].line as int,
            ),
{
    let ghost view = sim_view(sim@);
    let current = &sim[d];
    let count: usize = current.len();
    let ghost candidates = current@;
    assert(candidates == view[d as int]);
    let mut next: Vec<usize> = Vec::new();
    let mut q: usize = 0;
    while q < count
        invariant
            view == sim_view(sim@),
            sim_wf(view, d + 1),
            d < sim@.len(),
            candidates == sim@[d as int]@,
            candidates == view[d as int],
            candidates == current@,
            candidates_wf(candidates),
            count == candidates.len(),
            d >= 1 ==> lens@.len() == sim@[d - 1]@.len(),
            d >= 1 ==> forall|p: int|
                0 <= p < lens@.len() ==> (#[trigger] lens@[p]) == diag_len(
                    view,
                    d as int,
                    sim@[d - 1]@[p].line as int,
                ),
            q <= count,
            next@.len() == q,
            forall|j: int|
                0 <= j < q ==> (#[trigger] next@[j]) == diag_len(
                    view,
                    d + 1,
                    candidates[j].line as int,
                ),
        decreases count - q,
    {
        let s: usize = current.line_at(q);
        proof {
            lemma_place_of(candidates, q as int);
            assert(matched(view, d + 1, s as int));
        }
        let lines: usize = if d >= 1 && s > 1 {
            let previous = &sim[d - 1];
            assert(previous@ == view[d - 1]);
            match previous.position(s - 1) {
                Some(p) => {
                    proof {
                        assert(matched(view, d as int, s - 1));
                        lemma_diag(view, d as int, s - 1, 0);
                        assert(sim@[d - 1]@[p as int].line == s - 1);
                        assert(lens@[p as int] == diag_len(view, d as int, s - 1));
                    }
                    lens[p] + 1
                },
                None => {
                    assert(!matched(view, d as int, s - 1));
                    assert(diag_len(view, d as int, s - 1) == 0);
                    1
                },
            }
        } else {
            assert(!matched(view, d as int, s - 1));
            assert(diag_len(view, d as int, s - 1) == 0);
            1
        };
        assert(diag_len(view, d + 1, s as int) == 1 + diag_len(view, d as int, s - 1));
        assert(lines == diag_len(view, d + 1, candidates[q as int].line as int));
        next.push(lines);
        q += 1;
    }
    next
}

/// The runs of what the destination lines match: every diagonal that can be
/// extended at neither end and has more than `SHORT_RUN` lines.
pub fn find_runs(sim: Vec<MatchMap>) -> (runs: Vec<Run>)
    ensures
        runs_of(sim_view(sim@), runs_view(runs@)),
        forall|i: int| 0 <= i < runs@.len() ==> run_wf((#[trigger] runs@[i])@),
        forall|i: int| 0 <= i < runs@.len() ==> (#[trigger] runs@[i])@.dest.1 <= sim@.len(),
{
    let ghost view = sim_view(sim@);
    let total: usize = sim.len();
    let mut runs: Vec<Run> = Vec::new();
    let mut lens: Vec<usize> = Vec::new();
    let mut done: usize = 0;
    assert(runs_cover(view, runs_view(runs@), 1, 0)) by {
        assert forall|d2: int, s2: int|
            #![trigger is_kept_run(view, d2, s2)]
            is_kept_run(view, d2, s2) && ends_before(d2, s2, 1, 0) implies false by {}
    }
    while done < total
        invariant
            done <= total,
            total == sim@.len(),
            view == sim_view(sim@),
            sim_wf(view, done as int),
            done >= 1 ==> lens@.len() == sim@[done - 1]@.len(),
            done >= 1 ==> forall|p: int|
                0 <= p < lens@.len() ==> (#[trigger] lens@[p]) == diag_len(
                    view,
                    done as int,
                    sim@[done - 1]@[p].line as int,
                ),
            runs_cover(view, runs_view(runs@), if done >= 1 {
                done as int
            } else {
                1
            }, 0),
        decreases total - done,
    {
        let next = extend_runs(&sim, done, &lens);
        if done >= 1 {
            close_runs(&sim, done, &lens, &mut runs);
        }
        lens = next;
        done += 1;
    }
    if done >= 1 {
        close_runs(&sim, done, &lens, &mut runs);
    }
    proof {
        let found = runs_view(runs@);
        lemma_runs_of_wf(view, found);
        assert forall|i: int| 0 <= i < runs@.len() implies run_wf((#[trigger] runs@[i])@)
            && runs@[i]@.dest.1 <= sim@.len() by {
            assert(found[i] == runs@[i]@);
        }
    }
    runs
}

/// What run `run` says of destination line `line`: the weight of the line
/// where the run holds it, and nothing elsewhere.
pub open spec fn run_value(run: RunView, line: nat) -> Fraction {
    if run.dest.0 <= line <= run.dest.1 && line - run.dest.0 < run.percs.len() {
        run.percs[line - run.dest.0]
    } else {
        no_share()
    }
}

/// The best that the runs say of destination line `line`: the largest
/// weight that a run holds for the line, and nothing where no run holds it.
pub open spec fn best_at(runs: Seq<RunView>, line: nat) -> Fraction
    decreases runs.len(),
{
    if runs.len() == 0 {
        no_share()
    } else {
        frac_max(best_at(runs.drop_last(), line), run_value(runs.last(), line))
    }
}

/// Whether every run is well formed.
pub open spec fn runs_wf(runs: Seq<RunView>) -> bool {
    forall|i: int| 0 <= i < runs.len() ==> run_wf(#[trigger] runs[i])
}

/// Whether every run is well formed and ends within the first `line_count` lines.
pub open spec fn runs_fit(runs: Seq<RunView>, line_count: nat) -> bool {
    forall|i: int| 0 <= i < runs.len() ==> run_wf(#[trigger] runs[i]) && runs[i].dest.1 <= line_count
}

/// Well-formed runs without the last of them are well formed, their best
/// weight for a line is a share, and so is what the last run says of the line.
pub proof fn lemma_runs_before_last(runs: Seq<RunView>, line: nat)
    requires
        runs_wf(runs),
        runs.len() > 0,
    ensures
        runs_wf(runs.drop_last()),
        is_share(best_at(runs.drop_last(), line)),
        is_share(run_value(runs.last(), line)),
        is_share(best_at(runs, line)),
    decreases runs.len(),
{
    let before = runs.drop_last();
    assert forall|i: int| 0 <= i < before.len() implies run_wf(#[trigger] before[i]) by {
        assert(before[i] == runs[i]);
    }
    if before.len() > 0 {
        lemma_runs_before_last(before, line);
    }
    lemma_frac_max_share(best_at(before, line), run_value(runs.last(), line));
}

/// What a well-formed run says of a line is a share.
pub proof fn lemma_run_value_share(run: RunView, line: nat)
    requires
        run_wf(run),
    ensures
        is_share(run_value(run, line)),
{
}

/// The best of well-formed runs is a share.
pub proof fn lemma_best_at_share(runs: Seq<RunView>, line: nat)
    requires
        runs_wf(runs),
    ensures
        is_share(best_at(runs, line)),
{
    if runs.len() > 0 {
        lemma_runs_before_last(runs, line);
    }
}

/// A line that one run holds with the weight one has the best weight one:
/// a run of lines that match in full covers each of its lines in full.
pub proof fn lemma_whole_line_stays_whole(runs: Seq<RunView>, i: int, line: nat)
    requires
        runs_wf(runs),
        0 <= i < runs.len(),
        runs[i].dest.0 <= line <= runs[i].dest.1,
        is_whole(runs[i].percs[line - runs[i].dest.0]),
    ensures
        is_whole(best_at(runs, line)),
    decreases runs.len(),
{
    let before = runs.drop_last();
    lemma_runs_before_last(runs, line);
    if i < runs.len() - 1 {
        assert(before[i] == runs[i]);
        lemma_whole_line_stays_whole(before, i, line);
    }
    lemma_frac_max_whole(best_at(before, line), run_value(runs.last(), line));
}

/// A run whose lines all match in full covers each line of its range in
/// full, whatever the other runs hold.
pub proof fn lemma_whole_run_covers_its_lines(runs: Seq<RunView>, i: int)
    requires
        runs_wf(runs),
        0 <= i < runs.len(),
        forall|k: int| 0 <= k < runs[i].percs.len() ==> is_whole(#[trigger] runs[i].percs[k]),
    ensures
        forall|line: nat|
            runs[i].dest.0 <= line <= runs[i].dest.1 ==> is_whole(#[trigger] best_at(runs, line)),
{
    assert forall|line: nat| runs[i].dest.0 <= line <= runs[i].dest.1 implies is_whole(
        #[trigger] best_at(runs, line),
    ) by {
        assert(is_whole(runs[i].percs[line - runs[i].dest.0]));
        lemma_whole_line_stays_whole(runs, i, line);
    }
}

/// The best weight of a line is not below the weight that any run holds
/// for the line.
pub proof fn lemma_best_at_is_largest(runs: Seq<RunView>, i: int, line: nat)
    requires
        runs_wf(runs),
        0 <= i < runs.len(),
    ensures
        !frac_less(best_at(runs, line), run_value(runs[i], line)),
    decreases runs.len(),
{
    let before = runs.drop_last();
    lemma_runs_before_last(runs, line);
    lemma_frac_max_share(best_at(before, line), run_value(runs.last(), line));
    if i < runs.len() - 1 {
        assert(before[i] == runs[i]);
        lemma_best_at_is_largest(before, i, line);
        lemma_run_value_share(runs[i], line);
        lemma_frac_not_less_transitive(
            best_at(runs, line),
            best_at(before, line),
            run_value(runs[i], line),
        );
    }
}

/// No run that is found is short: each has more than `SHORT_RUN` lines.
pub proof fn lemma_no_short_run(sim: Seq<Seq<Candidate>>, runs: Seq<RunView>, i: int)
    requires
        runs_of(sim, runs),
        0 <= i < runs.len(),
    ensures
        run_length(runs[i]) > SHORT_RUN,
        runs[i].percs.len() == run_length(runs[i]),
{
    let run = runs[i];
    lemma_diag(sim, run.dest.1 as int, run.source.1 as int, 0);
}

/// Whether the runs are well formed and end within the first `line_count` lines.
pub fn runs_end_within(runs: &Vec<Run>, line_count: usize) -> (fit: bool)
    ensures
        fit == runs_fit(runs_view(runs@), line_count as nat),
{
    let mut i: usize = 0;
    while i < runs.len()
        invariant
            i <= runs@.len(),
            forall|j: int|
                0 <= j < i ==> run_wf(#[trigger] runs_view(runs@)[j]) && runs_view(
                    runs@,
                )[j].dest.1 <= line_count,
        decreases runs@.len() - i,
    {
        let range = runs[i].dest();
        assert(runs_view(runs@)[i as int] == runs@[i as int]@);
        if range.1 > line_count {
            return false;
        }
        i += 1;
    }
    true
}

/// For each of the first `line_count` destination lines the best weight
/// that a run holds for it, and zero for a line that no run holds.
pub fn best_per_line(runs: &Vec<Run>, line_count: usize) -> (best: Vec<Ratio>)
    requires
        runs_fit(runs_view(runs@), line_count as nat),
    ensures
        best@.len() == line_count,
        forall|line: int|
            1 <= line <= line_count ==> (#[trigger] best@[line - 1])@ == best_at(
                runs_view(runs@),
                line as nat,
            ),
{
    let ghost all = runs_view(runs@);
    let mut best: Vec<Ratio> = Vec::new();
    let mut x: usize = 0;
    while x < line_count
        invariant
            x <= line_count,
            best@.len() == x,
            forall|j: int| 0 <= j < x ==> (#[trigger] best@[j])@ == no_share(),
        decreases line_count - x,
    {
        best.push(Ratio::zero());
        x += 1;
    }
    let mut i: usize = 0;
    assert(all.take(0) =~= Seq::<RunView>::empty());
    while i < runs.len()
        invariant
            all == runs_view(runs@),
            runs_fit(all, line_count as nat),
            i <= runs@.len(),
            best@.len() == line_count,
            forall|line: int|
                1 <= line <= line_count ==> (#[trigger] best@[line - 1])@ == best_at(
                    all.take(i as int),
                    line as nat,
                ),
        decreases runs@.len() - i,
    {
        let run = &runs[i];
        let range = run.dest();
        let percs = run.percs();
        let count: usize = percs.len();
        let ghost seen = all.take(i as int);
        let ghost view = all[i as int];
        assert(view == run@);
        assert(all.take(i + 1).drop_last() =~= seen);
        assert(all.take(i + 1).last() == view);
        let mut k: usize = 0;
        while k < count
            invariant
                run_wf(view),
                view.dest.1 <= line_count,
                range.0 == view.dest.0,
                count == view.percs.len(),
                percs@.len() == count,
                forall|j: int| 0 <= j < count ==> (#[trigger] percs@[j])@ == view.percs[j],
                k <= count,
                best@.len() == line_count,
                forall|line: int|
                    1 <= line <= line_count ==> (#[trigger] best@[line - 1])@ == if view.dest.0
                        <= line < view.dest.0 + k {
                        frac_max(best_at(seen, line as nat), run_value(view, line as nat))
                    } else {
                        best_at(seen, line as nat)
                    },
            decreases count - k,
        {
            let at: usize = range.0 - 1 + k;
            let ghost before = best@;
            let larger = best[at].max(percs[k]);
            best.set(at, larger);
            proof {
                assert forall|line: int| 1 <= line <= line_count implies (
                #[trigger] best@[line - 1])@ == if view.dest.0 <= line < view.dest.0 + k + 1 {
                    frac_max(best_at(seen, line as nat), run_value(view, line as nat))
                } else {
                    best_at(seen, line as nat)
                } by {
                    if line - 1 == at {
                        assert(before[line - 1]@ == best_at(seen, line as nat));
                    } else {
                        assert(best@[line - 1] == before[line - 1]);
                    }
                }
            }
            k += 1;
        }
        proof {
            assert forall|line: int| 1 <= line <= line_count implies (#[trigger] best@[line - 1])@
                == best_at(all.take(i + 1), line as nat) by {
                lemma_frac_max_nothing(best_at(seen, line as nat));
            }
        }
        i += 1;
    }
    assert(all.take(i as int) =~= all);
    best
}

/// How well each line of the destination text is covered by runs of lines
/// that match lines of the source text.
pub open spec fn similarity_of(source: Seq<String>, dest: Seq<String>, best: Seq<Ratio>) -> bool {
    exists|maps: Seq<MatchMap>, runs: Seq<RunView>|
        #[trigger] similarity_through(source, dest, maps, runs, best)
}

/// Whether `maps` holds what the destination lines match, `runs` the runs
/// of these matches, and `best` the best weight of each destination line.
pub open spec fn similarity_through(
    source: Seq<String>,
    dest: Seq<String>,
    maps: Seq<MatchMap>,
    runs: Seq<RunView>,
    best: Seq<Ratio>,
) -> bool {
    &&& matches_of(source, dest, maps)
    &&& runs_of(sim_view(maps), runs)
    &&& best.len() == dest.len()
    &&& forall|line: int|
        1 <= line <= dest.len() ==> (#[trigger] best[line - 1])@ == best_at(runs, line as nat)
}

/// Where each of the first `n` destination lines matches the source line
/// with its own number, these matches lie on one diagonal.
pub proof fn lemma_main_diagonal(sim: Seq<Seq<Candidate>>, n: int)
    requires
        0 <= n <= sim.len(),
        forall|k: int| 1 <= k <= n ==> #[trigger] matched(sim, k, k),
    ensures
        diag_len(sim, n, n) == n,
    decreases n,
{
    if n >= 1 {
        assert(matched(sim, n, n));
        lemma_main_diagonal(sim, n - 1);
    }
}

/// The runs of well-formed matches are well formed, and end within the
/// destination lines.
pub proof fn lemma_runs_of_wf(sim: Seq<Seq<Candidate>>, runs: Seq<RunView>)
    requires
        sim_wf(sim, sim.len() as int),
        sim.len() <= usize::MAX,
        runs_of(sim, runs),
    ensures
        runs_fit(runs, sim.len()),
{
    assert forall|i: int| 0 <= i < runs.len() implies run_wf(#[trigger] runs[i])
        && runs[i].dest.1 <= sim.len() by {
        let run = runs[i];
        let d = run.dest.1 as int;
        let s = run.source.1 as int;
        assert(is_kept_run(sim, d, s));
        assert(holds_line(sim[d - 1], s as nat));
        let at = place_of(sim[d - 1], s as nat);
        assert(sim[d - 1][at].line <= usize::MAX);
        lemma_run_ending_at_wf(sim, d, s);
    }
}

/// A text of four lines or more is fully similar to itself: against a
/// source text with the same lines, every line of the destination text has
/// the weight one.
pub proof fn lemma_same_text_is_fully_similar(
    source: Seq<String>,
    dest: Seq<String>,
    best: Seq<Ratio>,
)
    requires
        source.len() == dest.len(),
        forall|i: int| 0 <= i < dest.len() ==> (#[trigger] source[i])@ == dest[i]@,
        SHORT_RUN < dest.len() <= usize::MAX,
        similarity_of(source, dest, best),
    ensures
        forall|line: int| 1 <= line <= dest.len() ==> is_whole((#[trigger] best[line - 1])@),
{
    let (maps, runs) = choose|maps: Seq<MatchMap>, runs: Seq<RunView>|
        #[trigger] similarity_through(source, dest, maps, runs, best);
    let sim = sim_view(maps);
    let n = dest.len() as int;
    assert forall|k: int| 1 <= k <= n implies #[trigger] matched(sim, k, k) && is_whole(
        weight_on(sim[k - 1], k as nat).unwrap(),
    ) by {
        assert(source[k - 1]@ == dest[k - 1]@);
        lemma_identical_line_matches_whole(source, dest, maps, k - 1, k - 1);
        assert(sim[k - 1] == maps[k - 1]@);
    }
    lemma_main_diagonal(sim, n);
    assert(is_kept_run(sim, n, n));
    assert(ends_before(n, n, sim.len() as int + 1, 0));
    let i = choose|i: int|
        0 <= i < runs.len() && (#[trigger] runs[i]).dest.1 == n && runs[i].source.1 == n;
    assert(runs[i] == run_ending_at(sim, n, n));
    assert forall|k: int| 0 <= k < runs[i].percs.len() implies is_whole(
        #[trigger] runs[i].percs[k],
    ) by {
        assert(matched(sim, k + 1, k + 1));
    }
    assert(sim_wf(sim, sim.len() as int)) by {
        assert forall|d: int| 0 <= d < sim.len() implies candidates_wf(#[trigger] sim[d]) by {
            assert(candidates_wf(maps[d]@));
        }
    }
    lemma_runs_of_wf(sim, runs);
    lemma_whole_run_covers_its_lines(runs, i);
    assert forall|line: int| 1 <= line <= dest.len() implies is_whole(
        (#[trigger] best[line - 1])@,
    ) by {
        assert(is_whole(best_at(runs, line as nat)));
    }
}

/// For each line of the destination text the best weight with which a run
/// of matching lines covers it. The average of the weights is the share of
/// the destination text that was copied from the source text. A destination
/// text without lines has no weight and no average.
pub fn trigram_similarity(source: &Vec<String>, dest: &Vec<String>) -> (best: Vec<Ratio>)
    ensures
        similarity_of(source@, dest@, best@),
{
    let maps = match_lines(source, dest);
    let ghost sim = maps@;
    let line_count: usize = maps.len();
    let runs = find_runs(maps);
    proof {
        assert forall|i: int| 0 <= i < runs@.len() implies run_wf(
            #[trigger] runs_view(runs@)[i],
        ) && runs_view(runs@)[i].dest.1 <= line_count by {
            assert(runs_view(runs@)[i] == runs@[i]@);
        }
    }
    let best = best_per_line(&runs, line_count);
    assert(similarity_through(source@, dest@, sim, runs_view(runs@), best@));
    best
}

} // verus!
