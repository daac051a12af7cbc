//! The source lines that one destination line matches.
use crate::ratio::{is_share, Fraction, Ratio};
use vstd::prelude::*;

verus! {

/// One source line that a destination line matches, and how well.
pub struct Candidate {
    /// The number of the source line, counted from one.
    pub line: nat,
    /// The share of the trigrams of the source line that the destination line has.
    pub weight: Fraction,
}

/// What holds of the candidates of every destination line: they stand in
/// ascending order of their source lines, no source line twice, lines are
/// counted from one and fit the machine, and every weight is a share.
pub open spec fn candidates_wf(candidates: Seq<Candidate>) -> bool {
    &&& forall|i: int, j: int|
        0 <= i < j < candidates.len() ==> (#[trigger] candidates[i]).line
            < (#[trigger] candidates[j]).line
    &&& forall|i: int|
        0 <= i < candidates.len() ==> 1 <= (#[trigger] candidates[i]).line <= usize::MAX
            && is_share(candidates[i].weight)
}

/// Whether `line` is among the candidates.
pub open spec fn holds_line(candidates: Seq<Candidate>, line: nat) -> bool {
    exists|i: int| 0 <= i < candidates.len() && (#[trigger] candidates[i]).line == line
}

/// The place of `line` among the candidates that hold it.
pub open spec fn place_of(candidates: Seq<Candidate>, line: nat) -> int {
    choose|i: int| 0 <= i < candidates.len() && (#[trigger] candidates[i]).line == line
}

/// How well `line` matches, where it is among the candidates.
pub open spec fn weight_on(candidates: Seq<Candidate>, line: nat) -> Option<Fraction> {
    if holds_line(candidates, line) {
        Some(candidates[place_of(candidates, line)].weight)
    } else {
        None
    }
}

/// A candidate is found at its own place and nowhere else.
pub proof fn lemma_place_of(candidates: Seq<Candidate>, i: int)
    requires
        candidates_wf(candidates),
        0 <= i < candidates.len(),
    ensures
        holds_line(candidates, candidates[i].line),
        place_of(candidates, candidates[i].line) == i,
        weight_on(candidates, candidates[i].line) == Some(candidates[i].weight),
{
    let line = candidates[i].line;
    assert(holds_line(candidates, line));
    let k = place_of(candidates, line);
    if k < i {
        assert(candidates[k].line < candidates[i].line);
    } else if k > i {
        assert(candidates[i].line < candidates[k].line);
    }
}

/// The candidates after `added` was noted in place of what was noted of its
/// line, or as one more candidate.
pub open spec fn noted(before: Seq<Candidate>, added: Candidate, after: Seq<Candidate>) -> bool {
    &&& candidates_wf(after)
    &&& forall|other: nat|
        #[trigger] weight_on(after, other) == if other == added.line {
            Some(added.weight)
        } else {
            weight_on(before, other)
        }
}

/// Well-formed candidates `after` that hold `added` at `place`, and besides
/// it the candidates of `before` with other lines, are what is noted. The
/// candidate at `i` before stands at `to(i)` after, and the candidate at `j`
/// after stood at `from(j)` before.
pub proof fn lemma_noted(
    before: Seq<Candidate>,
    added: Candidate,
    after: Seq<Candidate>,
    place: int,
    to: spec_fn(int) -> int,
    from: spec_fn(int) -> int,
)
    requires
        candidates_wf(before),
        candidates_wf(after),
        0 <= place < after.len(),
        after[place] == added,
        forall|i: int|
            0 <= i < before.len() && (#[trigger] before[i]).line != added.line ==> 0 <= to(i)
                < after.len() && after[to(i)] == before[i],
        forall|j: int|
            0 <= j < after.len() && j != place ==> 0 <= from(j) < before.len() && before[from(j)]
                == #[trigger] after[j],
    ensures
        noted(before, added, after),
{
    assert forall|other: nat| #[trigger]
        weight_on(after, other) == if other == added.line {
            Some(added.weight)
        } else {
            weight_on(before, other)
        } by {
        if other == added.line {
            lemma_place_of(after, place);
        } else if holds_line(before, other) {
            let k = place_of(before, other);
            lemma_place_of(before, k);
            lemma_place_of(after, to(k));
        } else if holds_line(after, other) {
            let m = place_of(after, other);
            assert(before[from(m)].line == other);
        }
    }
}

/// A candidate that is put between the lines below it and the lines above
/// it is noted, and all other candidates stay as they are.
pub proof fn lemma_insert(before: Seq<Candidate>, place: int, added: Candidate)
    requires
        candidates_wf(before),
        0 <= place <= before.len(),
        1 <= added.line <= usize::MAX,
        is_share(added.weight),
        forall|i: int| 0 <= i < place ==> (#[trigger] before[i]).line < added.line,
        forall|i: int| place <= i < before.len() ==> (#[trigger] before[i]).line > added.line,
    ensures
        noted(before, added, before.insert(place, added)),
{
    let after = before.insert(place, added);
    let to = |i: int|
        if i < place {
            i
        } else {
            i + 1
        };
    let from = |j: int|
        if j < place {
            j
        } else {
            j - 1
        };
    assert forall|i: int, j: int| 0 <= i < j < after.len() implies (#[trigger] after[i]).line < (
    #[trigger] after[j]).line by {
        if i == place {
            assert(before[from(j)].line > added.line);
        } else if j == place {
            assert(before[from(i)].line < added.line);
        } else {
            assert(before[from(i)].line < before[from(j)].line);
        }
    }
    assert forall|i: int| 0 <= i < after.len() implies 1 <= (#[trigger] after[i]).line
        <= usize::MAX && is_share(after[i].weight) by {
        if i != place {
            assert(before[from(i)].line >= 1);
        }
    }
    lemma_noted(before, added, after, place, to, from);
}

/// A candidate that is put in the place of the candidate with its line is
/// noted, and all other candidates stay as they are.
pub proof fn lemma_replace(before: Seq<Candidate>, place: int, added: Candidate)
    requires
        candidates_wf(before),
        0 <= place < before.len(),
        before[place].line == added.line,
        is_share(added.weight),
    ensures
        noted(before, added, before.update(place, added)),
{
    let after = before.update(place, added);
    let same = |i: int| i;
    assert(candidates_wf(after)) by {
        assert forall|i: int| 0 <= i < after.len() implies (#[trigger] after[i]).line
            == before[i].line && is_share(after[i].weight) by {
            assert(is_share(before[i].weight));
        }
    }
    lemma_noted(before, added, after, place, same, same);
}

/// The source lines that one destination line matches, each with its
/// weight, in ascending order of the source lines.
#[derive(Debug, PartialEq, Eq)]
pub struct MatchMap {
    entries: Vec<(usize, Ratio)>,
}

/// The candidates that a vector of entries stands for.
pub open spec fn candidates_of(entries: Seq<(usize, Ratio)>) -> Seq<Candidate> {
    Seq::new(entries.len(), |i: int| Candidate { line: entries[i].0 as nat, weight: entries[i].1@ })
}

impl View for MatchMap {
    type V = Seq<Candidate>;

    closed spec fn view(&self) -> Seq<Candidate> {
        candidates_of(self.entries@)
    }
}

impl Clone for MatchMap {
    fn clone(&self) -> (copy: MatchMap)
        ensures
            copy@ == self@,
    {
        proof {
            use_type_invariant(self);
        }
        let mut entries: Vec<(usize, Ratio)> = Vec::new();
        let mut i: usize = 0;
        while i < self.entries.len()
            invariant
                i <= self.entries@.len(),
                entries@ == self.entries@.take(i as int),
            decreases self.entries@.len() - i,
        {
            entries.push(self.entries[i]);
            assert(entries@ =~= self.entries@.take(i + 1));
            i += 1;
        }
        assert(entries@ =~= self.entries@);
        MatchMap { entries }
    }
}

impl Default for MatchMap {
    fn default() -> (map: MatchMap)
        ensures
            map@ == Seq::<Candidate>::empty(),
    {
        MatchMap::new()
    }
}

impl MatchMap {
    #[verifier::type_invariant]
    closed spec fn well_formed(&self) -> bool {
        candidates_wf(candidates_of(self.entries@))
    }

    /// A destination line that matches no source line.
    pub fn new() -> (map: MatchMap)
        ensures
            map@ == Seq::<Candidate>::empty(),
    {
        let map = MatchMap { entries: Vec::new() };
        assert(map@ =~= Seq::<Candidate>::empty());
        map
    }

    /// The number of source lines that are matched.
    pub fn len(&self) -> (count: usize)
        ensures
            count == self@.len(),
            candidates_wf(self@),
    {
        proof {
            use_type_invariant(self);
        }
        self.entries.len()
    }

    /// Whether no source line is matched.
    pub fn is_empty(&self) -> (empty: bool)
        ensures
            empty == (self@.len() == 0),
    {
        self.entries.len() == 0
    }

    /// The source line at place `i` and its weight, where `i` is a place of
    /// the map.
    pub fn entry_at(&self, i: usize) -> (entry: Option<(usize, Ratio)>)
        ensures
            entry is Some <==> i < self@.len(),
            entry matches Some(e) ==> e.0 == self@[i as int].line && e.1@ == self@[i as int].weight,
    {
        if i < self.entries.len() {
            Some(self.entries[i])
        } else {
            None
        }
    }

    /// The source line at place `i`, counted from one.
    pub(crate) fn line_at(&self, i: usize) -> (line: usize)
        requires
            i < self@.len(),
        ensures
            line == self@[i as int].line,
            line >= 1,
    {
        proof {
            use_type_invariant(self);
            assert(candidates_of(self.entries@)[i as int].line >= 1);
        }
        self.entries[i].0
    }

    /// The weight of the source line at place `i`.
    pub(crate) fn weight_at(&self, i: usize) -> (weight: Ratio)
        requires
            i < self@.len(),
        ensures
            weight@ == self@[i as int].weight,
    {
        self.entries[i].1
    }

    /// The place of the first source line that is not below `line`.
    fn lower_bound(&self, line: usize) -> (place: usize)
        ensures
            place <= self@.len(),
            forall|i: int| 0 <= i < place ==> (#[trigger] self@[i]).line < line,
            forall|i: int| place <= i < self@.len() ==> (#[trigger] self@[i]).line >= line,
    {
        proof {
            use_type_invariant(self);
        }
        let mut low: usize = 0;
        let mut high: usize = self.entries.len();
        while low < high
            invariant
                candidates_wf(self@),
                low <= high <= self@.len(),
                forall|i: int| 0 <= i < low ==> (#[trigger] self@[i]).line < line,
                forall|i: int| high <= i < self@.len() ==> (#[trigger] self@[i]).line >= line,
            decreases high - low,
        {
            let mid: usize = low + (high - low) / 2;
            if self.entries[mid].0 < line {
                assert forall|i: int| 0 <= i < mid + 1 implies (#[trigger] self@[i]).line
                    < line by {
                    if i < mid {
                        assert(self@[i].line < self@[mid as int].line);
                    }
                }
                low = mid + 1;
            } else {
                assert forall|i: int| mid <= i < self@.len() implies (#[trigger] self@[i]).line
                    >= line by {
                    if i > mid {
                        assert(self@[mid as int].line < self@[i].line);
                    }
                }
                high = mid;
            }
        }
        low
    }

    /// The place at which `line` is matched, if it is.
    pub fn position(&self, line: usize) -> (place: Option<usize>)
        ensures
            candidates_wf(self@),
            match place {
                Some(i) => i < self@.len() && self@[i as int].line == line && holds_line(
                    self@,
                    line as nat,
                ) && place_of(self@, line as nat) == i,
                None => !holds_line(self@, line as nat),
            },
    {
        proof {
            use_type_invariant(self);
        }
        let place: usize = self.lower_bound(line);
        if place < self.entries.len() && self.entries[place].0 == line {
            proof {
                lemma_place_of(self@, place as int);
            }
            Some(place)
        } else {
            assert forall|i: int| 0 <= i < self@.len() implies (#[trigger] self@[i]).line
                != line by {
                if i >= place {
                    if i > place {
                        assert(self@[place as int].line < self@[i].line);
                    }
                }
            }
            None
        }
    }

    /// The weight with which `line` is matched, if it is.
    pub fn get(&self, line: usize) -> (weight: Option<Ratio>)
        ensures
            candidates_wf(self@),
            match weight {
                Some(w) => weight_on(self@, line as nat) == Some(w@),
                None => weight_on(self@, line as nat).is_none(),
            },
    {
        match self.position(line) {
            Some(i) => Some(self.entries[i].1),
            None => None,
        }
    }

    /// Notes that `line` is matched with `weight`, in place of what was noted
    /// of `line` before. Lines are counted from one: line zero is not
    /// accepted, and the map stays as it is.
    pub fn insert(&mut self, line: usize, weight: Ratio) -> (accepted: bool)
        ensures
            accepted == (line >= 1),
            candidates_wf(final(self)@),
            !accepted ==> final(self)@ == old(self)@,
            accepted ==> noted(
                old(self)@,
                Candidate { line: line as nat, weight: weight@ },
                final(self)@,
            ),
    {
        proof {
            use_type_invariant(&*self);
        }
        if line < 1 {
            return false;
        }
        proof {
            use_type_invariant(&weight);
            weight.lemma_share();
        }
        let ghost before = self@;
        let ghost added = Candidate { line: line as nat, weight: weight@ };
        let place: usize = self.lower_bound(line);
        let replaces: bool = place < self.entries.len() && self.entries[place].0 == line;
        let mut entries: Vec<(usize, Ratio)> = Vec::new();
        core::mem::swap(&mut self.entries, &mut entries);
        if replaces {
            entries.set(place, (line, weight));
            proof {
                assert(candidates_of(entries@) =~= before.update(place as int, added));
                lemma_replace(before, place as int, added);
            }
        } else {
            entries.insert(place, (line, weight));
            proof {
                assert(candidates_of(entries@) =~= before.insert(place as int, added));
                assert forall|i: int| place <= i < before.len() implies (#[trigger] before[i]).line
                    > line by {
                    if i > place {
                        assert(before[place as int].line < before[i].line);
                    }
                }
                lemma_insert(before, place as int, added);
            }
        }
        self.entries = entries;
        true
    }

    /// Notes that `line`, which lies behind every line noted so far, is
    /// matched with `weight`.
    pub(crate) fn push_back(&mut self, line: usize, weight: Ratio)
        requires
            line >= 1,
            forall|i: int| 0 <= i < old(self)@.len() ==> (#[trigger] old(self)@[i]).line < line,
        ensures
            final(self)@ == old(self)@.push(Candidate { line: line as nat, weight: weight@ }),
            noted(old(self)@, Candidate { line: line as nat, weight: weight@ }, final(self)@),
    {
        proof {
            use_type_invariant(&*self);
            use_type_invariant(&weight);
            weight.lemma_share();
        }
        let ghost before = self@;
        let ghost added = Candidate { line: line as nat, weight: weight@ };
        let mut entries: Vec<(usize, Ratio)> = Vec::new();
        core::mem::swap(&mut self.entries, &mut entries);
        entries.push((line, weight));
        proof {
            assert(candidates_of(entries@) =~= before.push(added));
            assert(before.push(added) =~= before.insert(before.len() as int, added));
            lemma_insert(before, before.len() as int, added);
        }
        self.entries = entries;
    }
}

} // verus!
