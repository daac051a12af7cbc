//! Which source lines each destination line matches.
//!
//! A destination line matches a source line where the destination line has
//! more than two fifths of the trigrams of the source line. The index lists,
//! for every trigram, the source lines that have it, so that only those
//! source lines are looked at that share a trigram with the destination line.
use crate::matchmap::{candidates_wf, weight_on, MatchMap};
use crate::members::{lemma_last_is_next, lemma_next_member};
use crate::ratio::{above_threshold, is_whole, Fraction, Ratio};
use crate::spans::NEWLINE;
use crate::trigram::{lemma_trigram_seq, line_trigrams, trigram_seq};
use std::collections::HashMap;
use vstd::prelude::*;
use vstd::utf8::encode_utf8;

verus! {

/// The bytes of a line of text of which the trigrams are taken: the text,
/// and the newline that ends the line.
pub open spec fn line_bytes(text: Seq<char>) -> Seq<u8> {
    encode_utf8(text).push(NEWLINE)
}

/// The trigrams of each line of a text.
pub open spec fn trigrams_of_lines(lines: Seq<String>) -> Seq<Seq<u32>> {
    Seq::new(lines.len(), |i: int| trigram_seq(line_bytes(lines[i]@)))
}

/// How many of the trigrams `dest` the source line has among its trigrams `source`.
pub open spec fn shared_count(dest: Seq<u32>, source: Seq<u32>) -> nat
    decreases dest.len(),
{
    if dest.len() == 0 {
        0
    } else {
        shared_count(dest.drop_last(), source) + if source.contains(dest.last()) {
            1nat
        } else {
            0nat
        }
    }
}

/// How well a destination line with the trigrams `dest` matches a source
/// line with the trigrams `source`: each trigram of the source line weighs
/// as much as any other, and those that the destination line has count.
pub open spec fn source_weight(dest: Seq<u32>, source: Seq<u32>) -> Fraction {
    Fraction { num: shared_count(dest, source), den: source.len() }
}

/// The weight with which a destination line matches source line `line`,
/// counted from one, where the weight is above the threshold.
pub open spec fn line_weight(sources: Seq<Seq<u32>>, dest: Seq<u32>, line: nat) -> Option<
    Fraction,
> {
    if 1 <= line <= sources.len() && above_threshold(source_weight(dest, sources[line - 1])) {
        Some(source_weight(dest, sources[line - 1]))
    } else {
        None
    }
}

/// The numbers, counted from one and in ascending order, of the lines that
/// have the trigram `t`.
pub open spec fn lines_with(lines: Seq<Seq<u32>>, t: u32) -> Seq<usize>
    decreases lines.len(),
{
    if lines.len() == 0 {
        Seq::empty()
    } else {
        let before = lines_with(lines.drop_last(), t);
        if lines.last().contains(t) {
            before.push(lines.len() as usize)
        } else {
            before
        }
    }
}

/// `lines_with` lists the lines that have the trigram, each once, in order.
pub proof fn lemma_lines_with(lines: Seq<Seq<u32>>, t: u32)
    requires
        lines.len() <= usize::MAX,
    ensures
        forall|k: int|
            0 <= k < lines_with(lines, t).len() ==> 1 <= (#[trigger] lines_with(lines, t)[k])
                <= lines.len() && lines[lines_with(lines, t)[k] - 1].contains(t),
        forall|a: int, b: int|
            0 <= a < b < lines_with(lines, t).len() ==> lines_with(lines, t)[a] < lines_with(
                lines,
                t,
            )[b],
        forall|s: int|
            1 <= s <= lines.len() && (#[trigger] lines[s - 1]).contains(t) ==> lines_with(
                lines,
                t,
            ).contains(s as usize),
        lines_with(lines, t).no_duplicates(),
    decreases lines.len(),
{
    if lines.len() > 0 {
        let before = lines.drop_last();
        lemma_lines_with(before, t);
        let found = lines_with(lines, t);
        let found_before = lines_with(before, t);
        assert forall|k: int| 0 <= k < found.len() implies 1 <= (#[trigger] found[k])
            <= lines.len() && lines[found[k] - 1].contains(t) by {
            if k < found_before.len() {
                assert(found[k] == found_before[k]);
                assert(before[found_before[k] - 1] == lines[found_before[k] - 1]);
            }
        }
        assert forall|a: int, b: int| 0 <= a < b < found.len() implies found[a] < found[b] by {
            if b < found_before.len() {
            } else {
                assert(found[a] == found_before[a]);
            }
        }
        assert forall|s: int| 1 <= s <= lines.len() && (#[trigger] lines[s - 1]).contains(
            t,
        ) implies found.contains(s as usize) by {
            if s < lines.len() {
                assert(before[s - 1] == lines[s - 1]);
                assert(found_before.contains(s as usize));
                let k = choose|k: int| 0 <= k < found_before.len() && found_before[k] == s as usize;
                assert(found[k] == s as usize);
            } else {
                assert(found[found.len() - 1] == s as usize);
            }
        }
    }
}

/// No more trigrams are shared than the destination line has.
pub proof fn lemma_shared_count_le_len(dest: Seq<u32>, source: Seq<u32>)
    ensures
        shared_count(dest, source) <= dest.len(),
    decreases dest.len(),
{
    if dest.len() > 0 {
        lemma_shared_count_le_len(dest.drop_last(), source);
    }
}

/// The trigrams that count are those that both lines have: where neither
/// list names a trigram twice, their number is the size of the intersection
/// of the two sets, and no larger than the number of trigrams of the source.
pub proof fn lemma_shared_count_is_intersection(dest: Seq<u32>, source: Seq<u32>)
    requires
        dest.no_duplicates(),
        source.no_duplicates(),
    ensures
        shared_count(dest, source) == dest.to_set().intersect(source.to_set()).len(),
        shared_count(dest, source) <= source.len(),
    decreases dest.len(),
{
    let d = dest.to_set();
    let s = source.to_set();
    vstd::seq_lib::seq_to_set_is_finite(dest);
    vstd::seq_lib::seq_to_set_is_finite(source);
    source.unique_seq_to_set();
    vstd::set_lib::lemma_len_intersect(s, d);
    assert(s.intersect(d) =~= d.intersect(s));
    if dest.len() == 0 {
        assert(d.intersect(s) =~= Set::<u32>::empty());
    } else {
        let before = dest.drop_last();
        let last = dest.last();
        let b = before.to_set();
        vstd::seq_lib::seq_to_set_is_finite(before);
        lemma_last_is_next(dest);
        lemma_next_member(dest, dest.len() - 1);
        assert(before.no_duplicates());
        lemma_shared_count_is_intersection(before, source);
        if source.contains(last) {
            assert(d.intersect(s) =~= b.intersect(s).insert(last));
            assert(!b.intersect(s).contains(last));
        } else {
            assert(d.intersect(s) =~= b.intersect(s));
        }
    }
}

/// A line matches a line with the same trigrams in full.
pub proof fn lemma_same_line_matches_whole(trigrams: Seq<u32>)
    requires
        trigrams.no_duplicates(),
        trigrams.len() > 0,
    ensures
        is_whole(source_weight(trigrams, trigrams)),
        above_threshold(source_weight(trigrams, trigrams)),
{
    lemma_shared_count_is_intersection(trigrams, trigrams);
    assert(trigrams.to_set().intersect(trigrams.to_set()) =~= trigrams.to_set());
    trigrams.unique_seq_to_set();
}

/// The trigrams of a line of text, each once, in the order in which the
/// line first shows them.
pub fn text_trigrams(text: &str) -> (trigrams: Vec<u32>)
    ensures
        trigrams@ == trigram_seq(line_bytes(text@)),
        trigrams@.no_duplicates(),
        trigrams@.len() > 0,
{
    let mut bytes: Vec<u8> = Vec::new();
    bytes.extend_from_slice(text.as_bytes());
    bytes.push(NEWLINE);
    assert(bytes@ =~= line_bytes(text@));
    proof {
        lemma_trigram_seq(line_bytes(text@));
    }
    line_trigrams(bytes.as_slice())
}

/// The trigrams of each line of a text.
pub fn trigramize_lines(lines: &Vec<String>) -> (trigrams: Vec<Vec<u32>>)
    ensures
        trigrams@.len() == lines@.len(),
        forall|i: int|
            0 <= i < lines@.len() ==> (#[trigger] trigrams@[i])@ == trigrams_of_lines(lines@)[i],
{
    let mut trigrams: Vec<Vec<u32>> = Vec::new();
    let mut i: usize = 0;
    while i < lines.len()
        invariant
            i <= lines@.len(),
            trigrams@.len() == i,
            forall|k: int|
                0 <= k < i ==> (#[trigger] trigrams@[k])@ == trigrams_of_lines(lines@)[k],
        decreases lines@.len() - i,
    {
        trigrams.push(text_trigrams(lines[i].as_str()));
        i += 1;
    }
    trigrams
}

/// For every trigram the source lines that have it, and for every source
/// line the number of its trigrams.
pub struct TrigramIndex {
    postings: HashMap<u32, Vec<usize>>,
    totals: Vec<usize>,
    lines: Ghost<Seq<Seq<u32>>>,
}

impl View for TrigramIndex {
    type V = Seq<Seq<u32>>;

    /// The trigrams of each source line.
    closed spec fn view(&self) -> Seq<Seq<u32>> {
        self.lines@
    }
}

/// Whether the lists of `postings` name, for every trigram, the lines of
/// `lines` that have it: a trigram that a line has is a key, its list names
/// the lines that have it, and no key has an empty list.
pub open spec fn postings_list(postings: Map<u32, Vec<usize>>, lines: Seq<Seq<u32>>) -> bool {
    &&& forall|t: u32| #[trigger]
        postings.contains_key(t) ==> postings[t]@ == lines_with(lines, t)
    &&& forall|t: u32| #[trigger] postings.contains_key(t) ==> postings[t]@.len() > 0
    &&& forall|t: u32| !(#[trigger] postings.contains_key(t)) ==> lines_with(lines, t).len() == 0
}

/// Whether `totals` holds the number of trigrams of every line of `lines`,
/// each of which has a trigram and names none twice.
pub open spec fn totals_count(totals: Seq<usize>, lines: Seq<Seq<u32>>) -> bool {
    &&& totals.len() == lines.len()
    &&& forall|i: int| 0 <= i < lines.len() ==> (#[trigger] totals[i]) == lines[i].len()
    &&& forall|i: int|
        0 <= i < lines.len() ==> (#[trigger] lines[i]).no_duplicates() && lines[i].len() > 0
}

impl TrigramIndex {
    #[verifier::type_invariant]
    closed spec fn well_formed(&self) -> bool {
        &&& postings_list(self.postings@, self.lines@)
        &&& totals_count(self.totals@, self.lines@)
    }

    /// For each trigram that a source line has, the list of the source
    /// lines that have it, counted from one and in ascending order.
    pub closed spec fn postings(&self) -> Map<u32, Vec<usize>> {
        self.postings@
    }

    /// For each source line the number of its trigrams, of which each
    /// weighs as much as any other.
    pub closed spec fn totals(&self) -> Seq<usize> {
        self.totals@
    }

    /// The source lines that have the trigram `trigram`, where a line has it.
    pub fn lines_with_trigram(&self, trigram: u32) -> (lines: Option<&Vec<usize>>)
        ensures
            postings_list(self.postings(), self@),
            match lines {
                Some(list) => self.postings().contains_key(trigram) && self.postings()[trigram]
                    == *list,
                None => !self.postings().contains_key(trigram),
            },
    {
        broadcast use vstd::std_specs::hash::group_hash_axioms;

        proof {
            use_type_invariant(self);
        }
        self.postings.get(&trigram)
    }

    /// The number of the trigrams of source line `line`, counted from one,
    /// where there is such a line.
    pub fn trigram_count(&self, line: usize) -> (count: Option<usize>)
        ensures
            totals_count(self.totals(), self@),
            count is Some <==> 1 <= line <= self@.len(),
            count matches Some(n) ==> n == self.totals()[line - 1],
    {
        proof {
            use_type_invariant(self);
        }
        if 1 <= line && line <= self.totals.len() {
            Some(self.totals[line - 1])
        } else {
            None
        }
    }

    /// The index of the lines of a source text.
    pub fn from_lines(lines: &Vec<String>) -> (index: TrigramIndex)
        ensures
            index@ == trigrams_of_lines(lines@),
            postings_list(index.postings(), index@),
            totals_count(index.totals(), index@),
    {
        broadcast use vstd::std_specs::hash::group_hash_axioms;

        let mut postings: HashMap<u32, Vec<usize>> = HashMap::new();
        let mut totals: Vec<usize> = Vec::new();
        let ghost mut done: Seq<Seq<u32>> = Seq::empty();
        let mut i: usize = 0;
        while i < lines.len()
            invariant
                i <= lines@.len(),
                done == trigrams_of_lines(lines@).take(i as int),
                postings_list(postings@, done),
                totals_count(totals@, done),
            decreases lines@.len() - i,
        {
            let trigrams = text_trigrams(lines[i].as_str());
            let ghost next = done.push(trigrams@);
            let line: usize = i + 1;
            let mut k: usize = 0;
            while k < trigrams.len()
                invariant
                    k <= trigrams@.len(),
                    trigrams@.no_duplicates(),
                    line == done.len() + 1,
                    next == done.push(trigrams@),
                    forall|t: u32| #[trigger]
                        postings@.contains_key(t) ==> postings@[t]@ == if trigrams@.take(
                            k as int,
                        ).contains(t) {
                            lines_with(next, t)
                        } else {
                            lines_with(done, t)
                        },
                    forall|t: u32| #[trigger] postings@.contains_key(t) ==> postings@[t]@.len() > 0,
                    forall|t: u32|
                        !(#[trigger] postings@.contains_key(t)) ==> lines_with(done, t).len() == 0
                            && !trigrams@.take(k as int).contains(t),
                decreases trigrams@.len() - k,
            {
                let t: u32 = trigrams[k];
                let ghost before = postings@;
                let mut list: Vec<usize> = match postings.remove(&t) {
                    Some(list) => list,
                    None => Vec::new(),
                };
                proof {
                    assert(next.drop_last() =~= done);
                    lemma_next_member(trigrams@, k as int);
                    assert(list@ =~= lines_with(done, t));
                    assert(trigrams@.contains(t)) by {
                        assert(trigrams@[k as int] == t);
                    }
                }
                list.push(line);
                assert(list@ =~= lines_with(next, t));
                postings.insert(t, list);
                proof {
                    let seen_next = trigrams@.take(k + 1);
                    assert forall|other: u32| #[trigger]
                        postings@.contains_key(other) implies postings@[other]@ == if seen_next.contains(
                        other,
                    ) {
                        lines_with(next, other)
                    } else {
                        lines_with(done, other)
                    } by {
                        if other != t {
                            assert(before.contains_key(other));
                        }
                    }
                    assert forall|other: u32| !(#[trigger] postings@.contains_key(other)) implies lines_with(
                        done,
                        other,
                    ).len() == 0 && !seen_next.contains(other) by {
                        assert(!before.contains_key(other));
                    }
                }
                k += 1;
            }
            totals.push(trigrams.len());
            proof {
                assert(trigrams@.take(k as int) =~= trigrams@);
                assert(next.drop_last() =~= done);
                assert(next =~= trigrams_of_lines(lines@).take(i + 1));
                assert forall|t: u32| #[trigger] postings@.contains_key(t) implies postings@[t]@
                    == lines_with(next, t) by {
                    if !trigrams@.contains(t) {
                    }
                }
                assert forall|t: u32| !(#[trigger] postings@.contains_key(t)) implies lines_with(
                    next,
                    t,
                ).len() == 0 by {
                    assert(!trigrams@.contains(t));
                }
                assert forall|j: int| 0 <= j < next.len() implies (#[trigger] totals@[j])
                    == next[j].len() by {
                    if j < done.len() {
                        assert(next[j] == done[j]);
                    }
                }
                assert forall|j: int| 0 <= j < next.len() implies (#[trigger] next[j]).no_duplicates()
                    && next[j].len() > 0 by {
                    if j < done.len() {
                        assert(next[j] == done[j]);
                    }
                }
                done = next;
            }
            i += 1;
        }
        assert(done =~= trigrams_of_lines(lines@));
        TrigramIndex { postings, totals, lines: Ghost(done) }
    }

    /// The number of source lines.
    pub fn line_count(&self) -> (count: usize)
        ensures
            count == self@.len(),
    {
        proof {
            use_type_invariant(self);
        }
        self.totals.len()
    }

    /// For each source line the number of the trigrams `trigrams` that it has.
    fn count_shared(&self, trigrams: &Vec<u32>) -> (counts: Vec<usize>)
        ensures
            counts@.len() == self@.len(),
            forall|x: int|
                0 <= x < self@.len() ==> (#[trigger] counts@[x]) == shared_count(
                    trigrams@,
                    self@[x],
                ),
    {
        broadcast use vstd::std_specs::hash::group_hash_axioms;

        proof {
            use_type_invariant(self);
        }
        let n: usize = self.totals.len();
        let ghost lines = self.lines@;
        let mut counts: Vec<usize> = Vec::new();
        let mut x: usize = 0;
        while x < n
            invariant
                x <= n,
                counts@.len() == x,
                forall|j: int| 0 <= j < x ==> (#[trigger] counts@[j]) == 0,
            decreases n - x,
        {
            counts.push(0);
            x += 1;
        }
        let mut k: usize = 0;
        let wanted: usize = trigrams.len();
        assert(trigrams@.take(0) =~= Seq::<u32>::empty());
        while k < wanted
            invariant
                wanted == trigrams@.len(),
                k <= trigrams@.len(),
                n == lines.len(),
                lines == self.lines@,
                postings_list(self.postings@, lines),
                counts@.len() == n,
                forall|j: int|
                    0 <= j < n ==> (#[trigger] counts@[j]) == shared_count(
                        trigrams@.take(k as int),
                        lines[j],
                    ),
            decreases trigrams@.len() - k,
        {
            let t: u32 = trigrams[k];
            let ghost seen = trigrams@.take(k as int);
            let ghost hits = lines_with(lines, t);
            proof {
                lemma_next_member(trigrams@, k as int);
                lemma_lines_with(lines, t);
            }
            match self.postings.get(&t) {
                Some(list) => {
                    let mut m: usize = 0;
                    while m < list.len()
                        invariant
                            m <= list@.len(),
                            n == lines.len(),
                            counts@.len() == n,
                            wanted == trigrams@.len(),
                            k < trigrams@.len(),
                            seen == trigrams@.take(k as int),
                            list@ == hits,
                            hits.no_duplicates(),
                            forall|p: int| 0 <= p < hits.len() ==> 1 <= (#[trigger] hits[p]) <= n,
                            forall|j: int|
                                0 <= j < n ==> (#[trigger] counts@[j]) == shared_count(
                                    seen,
                                    lines[j],
                                ) + if hits.take(m as int).contains((j + 1) as usize) {
                                    1nat
                                } else {
                                    0nat
                                },
                        decreases list@.len() - m,
                    {
                        let line: usize = list[m];
                        proof {
                            lemma_next_member(hits, m as int);
                            lemma_shared_count_le_len(seen, lines[line - 1]);
                            assert(1 <= hits[m as int] <= n);
                            assert(counts@[line - 1] == shared_count(seen, lines[line - 1]));
                            assert(seen.len() == k);
                        }
                        let count: usize = counts[line - 1] + 1;
                        counts.set(line - 1, count);
                        m += 1;
                    }
                    assert(hits.take(m as int) =~= hits);
                },
                None => {
                    assert(hits.take(0) =~= hits);
                },
            }
            proof {
                assert forall|j: int| 0 <= j < n implies (#[trigger] counts@[j]) == shared_count(
                    trigrams@.take(k + 1),
                    lines[j],
                ) by {
                    let line = (j + 1) as usize;
                    assert(trigrams@.take(k + 1).drop_last() =~= seen);
                    if hits.contains(line) {
                        let p = choose|p: int| 0 <= p < hits.len() && hits[p] == line;
                        assert(lines[hits[p] - 1].contains(t));
                    }
                    if lines[j].contains(t) {
                        assert(lines[(j + 1) - 1].contains(t));
                    }
                }
            }
            k += 1;
        }
        assert(trigrams@.take(k as int) =~= trigrams@);
        counts
    }

    /// The source lines that a destination line with the trigrams
    /// `trigrams` matches.
    pub(crate) fn score_trigrams(&self, trigrams: &Vec<u32>) -> (map: MatchMap)
        requires
            trigrams@.no_duplicates(),
        ensures
            candidates_wf(map@),
            forall|line: nat| #[trigger] weight_on(map@, line) == line_weight(self@, trigrams@, line),
    {
        proof {
            use_type_invariant(self);
        }
        let counts = self.count_shared(trigrams);
        let n: usize = self.totals.len();
        let ghost lines = self.lines@;
        let mut map = MatchMap::new();
        let mut x: usize = 0;
        assert forall|line: nat| #[trigger] weight_on(map@, line) == None::<Fraction> by {}
        while x < n
            invariant
                x <= n,
                n == lines.len(),
                lines == self@,
                totals_count(self.totals@, lines),
                trigrams@.no_duplicates(),
                counts@.len() == n,
                forall|j: int|
                    0 <= j < n ==> (#[trigger] counts@[j]) == shared_count(trigrams@, lines[j]),
                candidates_wf(map@),
                forall|i: int| 0 <= i < map@.len() ==> (#[trigger] map@[i]).line <= x,
                forall|line: nat| #[trigger]
                    weight_on(map@, line) == if line <= x {
                        line_weight(lines, trigrams@, line)
                    } else {
                        None
                    },
            decreases n - x,
        {
            let shared: usize = counts[x];
            let total: usize = self.totals[x];
            let ghost before = map@;
            let ghost weight = source_weight(trigrams@, lines[x as int]);
            proof {
                assert(lines[x as int].no_duplicates());
                lemma_shared_count_is_intersection(trigrams@, lines[x as int]);
            }
            let weight = Ratio::of(shared, total);
            if weight.is_match() {
                map.push_back(x + 1, weight);
            }
            proof {
                let after = map@;
                assert forall|line: nat| #[trigger]
                    weight_on(after, line) == if line <= x + 1 {
                        line_weight(lines, trigrams@, line)
                    } else {
                        None
                    } by {
                    if line == x + 1 {
                        assert(lines[line - 1] == lines[x as int]);
                    }
                }
                assert forall|i: int| 0 <= i < after.len() implies (#[trigger] after[i]).line <= x
                    + 1 by {
                    if i < before.len() {
                        assert(before[i].line <= x);
                    }
                }
            }
            x += 1;
        }
        map
    }

    /// The source lines that the destination line `text` matches, each with
    /// its weight.
    pub fn score_line(&self, text: &str) -> (map: MatchMap)
        ensures
            candidates_wf(map@),
            forall|line: nat| #[trigger]
                weight_on(map@, line) == line_weight(
                    self@,
                    trigram_seq(line_bytes(text@)),
                    line,
                ),
    {
        let trigrams = text_trigrams(text);
        self.score_trigrams(&trigrams)
    }
}

/// What the lines of the destination text match among the lines of the
/// source text: for every destination line the source lines whose trigrams
/// it has to more than two fifths.
pub open spec fn matches_of(source: Seq<String>, dest: Seq<String>, maps: Seq<MatchMap>) -> bool {
    &&& maps.len() == dest.len()
    &&& forall|d: int| 0 <= d < dest.len() ==> candidates_wf((#[trigger] maps[d])@)
    &&& forall|d: int, line: nat|
        0 <= d < dest.len() ==> #[trigger] weight_on(maps[d]@, line) == line_weight(
            trigrams_of_lines(source),
            trigrams_of_lines(dest)[d],
            line,
        )
}

/// A destination line with the text of a source line matches that source
/// line with the weight one.
pub proof fn lemma_identical_line_matches_whole(
    source: Seq<String>,
    dest: Seq<String>,
    maps: Seq<MatchMap>,
    s: int,
    d: int,
)
    requires
        matches_of(source, dest, maps),
        0 <= s < source.len(),
        0 <= d < dest.len(),
        source[s]@ == dest[d]@,
    ensures
        weight_on(maps[d]@, (s + 1) as nat) matches Some(weight) && is_whole(weight),
{
    let trigrams = trigram_seq(line_bytes(dest[d]@));
    assert(trigrams_of_lines(source)[s] == trigrams);
    assert(trigrams_of_lines(dest)[d] == trigrams);
    lemma_trigram_seq(line_bytes(dest[d]@));
    lemma_same_line_matches_whole(trigrams);
    assert(weight_on(maps[d]@, (s + 1) as nat) == line_weight(
        trigrams_of_lines(source),
        trigrams_of_lines(dest)[d],
        (s + 1) as nat,
    ));
}

/// For every line of the destination text the lines of the source text that
/// it matches.
pub fn match_lines(source: &Vec<String>, dest: &Vec<String>) -> (maps: Vec<MatchMap>)
    ensures
        matches_of(source@, dest@, maps@),
{
    let index = TrigramIndex::from_lines(source);
    let mut maps: Vec<MatchMap> = Vec::new();
    let mut d: usize = 0;
    while d < dest.len()
        invariant
            d <= dest@.len(),
            index@ == trigrams_of_lines(source@),
            maps@.len() == d,
            forall|k: int| 0 <= k < d ==> candidates_wf((#[trigger] maps@[k])@),
            forall|k: int, line: nat|
                0 <= k < d ==> #[trigger] weight_on(maps@[k]@, line) == line_weight(
                    trigrams_of_lines(source@),
                    trigrams_of_lines(dest@)[k],
                    line,
                ),
        decreases dest@.len() - d,
    {
        let map = index.score_line(dest[d].as_str());
        maps.push(map);
        d += 1;
    }
    maps
}

} // verus!
