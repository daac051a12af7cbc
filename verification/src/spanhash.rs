//! The table of spans that a byte stream holds.
use crate::order::{
    canonical_keys, hash_keys, hash_order, keeps_order_of_equals, key_order, keys_of,
    sort_records, SpanOrder,
};
use crate::spans::{
    all_spans, consumed_len, lemma_all_spans_len, lemma_consumed_len, lemma_normalize_len,
    lemma_span_len_bounds, lemma_spans_without_carriage_return, lemma_split_spans_append,
    next_span_len, remainder, split_spans, take_span, total_len, CARRIAGE_RETURN,
    MAX_SPAN_LEN,
};
use std::collections::hash_map::DefaultHasher;
use std::collections::HashMap;
use std::hash::Hasher;
use vstd::prelude::*;
use vstd::relations::sorted_by;
use vstd::std_specs::cmp::PartialEqSpecImpl;
use vstd::std_specs::hash::DefaultHasherAdditionalSpecFns;

verus! {

/// What a table records of one span: its content, the hash of the content,
/// and how many bytes the span contributes to the stream in all.
pub struct SpanEntry {
    pub data: Seq<u8>,
    pub hashval: u64,
    pub occurrences: nat,
}

/// The hash under which the content of a span is compared: what a
/// `DefaultHasher` in its initial state returns once it was fed `content`.
pub open spec fn span_hash(content: Seq<u8>) -> u64 {
    DefaultHasher::spec_finish(seq![content])
}

/// An entry as it stands after the first occurrence of `content`.
pub open spec fn first_entry(content: Seq<u8>) -> SpanEntry {
    SpanEntry { data: content, hashval: span_hash(content), occurrences: content.len() }
}

/// `entry` after `bytes` more bytes of its span were seen.
pub open spec fn grown_entry(entry: SpanEntry, bytes: nat) -> SpanEntry {
    SpanEntry {
        data: entry.data,
        hashval: entry.hashval,
        occurrences: entry.occurrences + bytes,
    }
}

/// Whether `entries` records a span with this content.
pub open spec fn holds_span(entries: Seq<SpanEntry>, content: Seq<u8>) -> bool {
    exists|i: int| 0 <= i < entries.len() && #[trigger] entries[i].data == content
}

/// Where `entries` records the span with this content, if it holds one.
pub open spec fn index_of_span(entries: Seq<SpanEntry>, content: Seq<u8>) -> int {
    choose|i: int| 0 <= i < entries.len() && #[trigger] entries[i].data == content
}

/// `entries` after one more occurrence of the span `content`: its entry
/// grows by the length of the span, and a span not seen before is appended.
pub open spec fn add_span(entries: Seq<SpanEntry>, content: Seq<u8>) -> Seq<SpanEntry> {
    if holds_span(entries, content) {
        let i = index_of_span(entries, content);
        entries.update(i, grown_entry(entries[i], content.len()))
    } else {
        entries.push(first_entry(content))
    }
}

/// `entries` after each of `spans` occurred once more, one after the other.
pub open spec fn tally_from(entries: Seq<SpanEntry>, spans: Seq<Seq<u8>>) -> Seq<SpanEntry>
    decreases spans.len(),
{
    if spans.len() == 0 {
        entries
    } else {
        add_span(tally_from(entries, spans.drop_last()), spans.last())
    }
}

/// The table of a sequence of spans: one entry for each distinct content, in
/// the order of first occurrence.
pub open spec fn tally(spans: Seq<Seq<u8>>) -> Seq<SpanEntry> {
    tally_from(Seq::empty(), spans)
}

/// The table of a stream of bytes: the table of its spans, the last of
/// which ends with the stream.
pub open spec fn table_of(data: Seq<u8>, is_binary: bool) -> Seq<SpanEntry> {
    tally(all_spans(data, is_binary))
}

/// Spans that occur in two parts may as well occur at once.
pub proof fn lemma_tally_from_append(
    start: Seq<SpanEntry>,
    first: Seq<Seq<u8>>,
    second: Seq<Seq<u8>>,
)
    ensures
        tally_from(start, first + second) == tally_from(tally_from(start, first), second),
    decreases second.len(),
{
    if second.len() == 0 {
        assert(first + second =~= first);
    } else {
        assert((first + second).drop_last() =~= first + second.drop_last());
        lemma_tally_from_append(start, first, second.drop_last());
    }
}

/// The table of two sequences of spans, one behind the other, is the table
/// of the first after the spans of the second occurred.
pub proof fn lemma_tally_append(first: Seq<Seq<u8>>, second: Seq<Seq<u8>>)
    ensures
        tally(first + second) == tally_from(tally(first), second),
{
    lemma_tally_from_append(Seq::empty(), first, second);
}

/// The bytes that the spans with the content `content` hold in all: the
/// length of the content, once for each of these spans.
pub open spec fn span_bytes(spans: Seq<Seq<u8>>, content: Seq<u8>) -> nat
    decreases spans.len(),
{
    if spans.len() == 0 {
        0
    } else {
        span_bytes(spans.drop_last(), content) + if spans.last() == content {
            content.len()
        } else {
            0
        }
    }
}

/// Whether no two entries record the same content.
pub open spec fn distinct_spans(entries: Seq<SpanEntry>) -> bool {
    forall|i: int, j: int|
        0 <= i < j < entries.len() ==> #[trigger] entries[i].data != #[trigger] entries[j].data
}

/// What `tally_from` makes of a table: the entries of `start` stay where
/// they are, each grown by the bytes of the spans with its content, and
/// behind them stands one entry for each further content among the spans.
pub open spec fn tallied(start: Seq<SpanEntry>, spans: Seq<Seq<u8>>, table: Seq<SpanEntry>) -> bool {
    &&& start.len() <= table.len()
    &&& distinct_spans(table)
    &&& forall|i: int|
        0 <= i < start.len() ==> (#[trigger] table[i]) == grown_entry(
            start[i],
            span_bytes(spans, start[i].data),
        )
    &&& forall|i: int|
        start.len() <= i < table.len() ==> spans.contains((#[trigger] table[i]).data)
            && table[i].hashval == span_hash(table[i].data) && table[i].occurrences == span_bytes(
            spans,
            table[i].data,
        )
    &&& forall|k: int| 0 <= k < spans.len() ==> holds_span(table, #[trigger] spans[k])
}

/// What one more occurrence of the span `last` does to a table: the entry
/// at the place `at` has the content `last` and is larger by its length, or
/// is new; all other entries are as they were.
pub proof fn lemma_add_span(t: Seq<SpanEntry>, last: Seq<u8>) -> (at: int)
    requires
        distinct_spans(t),
    ensures
        0 <= at <= t.len(),
        at < t.len() <==> holds_span(t, last),
        add_span(t, last).len() == if at < t.len() {
            t.len()
        } else {
            t.len() + 1
        },
        add_span(t, last)[at].data == last,
        at == t.len() ==> add_span(t, last)[at] == first_entry(last),
        forall|i: int|
            0 <= i < t.len() ==> (#[trigger] add_span(t, last)[i]) == grown_entry(
                t[i],
                if i == at {
                    last.len()
                } else {
                    0
                },
            ) && (t[i].data == last <==> i == at),
{
    let at = if holds_span(t, last) {
        index_of_span(t, last)
    } else {
        t.len() as int
    };
    assert forall|i: int| 0 <= i < t.len() implies (t[i].data == last <==> i == at) by {
        if t[i].data == last && i != at {
            if i < at {
                assert(t[i].data != t[at].data);
            } else {
                assert(t[at].data != t[i].data);
            }
        }
    }
    at
}

/// `tally_from` does what `tallied` says.
pub proof fn lemma_tally_from(start: Seq<SpanEntry>, spans: Seq<Seq<u8>>)
    requires
        distinct_spans(start),
    ensures
        tallied(start, spans, tally_from(start, spans)),
    decreases spans.len(),
{
    let table = tally_from(start, spans);
    if spans.len() == 0 {
        assert forall|i: int| 0 <= i < start.len() implies (#[trigger] table[i]) == grown_entry(
            start[i],
            span_bytes(spans, start[i].data),
        ) by {}
    } else {
        let before = spans.drop_last();
        let last = spans.last();
        let t = tally_from(start, before);
        lemma_tally_from(start, before);
        let at = lemma_add_span(t, last);
        if at == t.len() {
            lemma_span_bytes_absent(before, last, t);
        }
        assert forall|i: int, j: int| 0 <= i < j < table.len() implies #[trigger] table[i].data
            != #[trigger] table[j].data by {
            if j < t.len() {
                assert(t[i].data != t[j].data);
            }
        }
        assert forall|i: int| 0 <= i < start.len() implies (#[trigger] table[i]) == grown_entry(
            start[i],
            span_bytes(spans, start[i].data),
        ) by {
            assert(t[i] == grown_entry(start[i], span_bytes(before, start[i].data)));
        }
        assert forall|i: int| start.len() <= i < table.len() implies spans.contains(
            (#[trigger] table[i]).data,
        ) && table[i].hashval == span_hash(table[i].data) && table[i].occurrences == span_bytes(
            spans,
            table[i].data,
        ) by {
            if i < t.len() {
                assert(before.contains(t[i].data));
                let k = choose|k: int| 0 <= k < before.len() && before[k] == t[i].data;
                assert(spans[k] == t[i].data);
            } else {
                assert(spans[spans.len() - 1] == last);
            }
        }
        assert forall|k: int| 0 <= k < spans.len() implies holds_span(
            table,
            #[trigger] spans[k],
        ) by {
            if k < before.len() {
                assert(holds_span(t, before[k]));
                let i = index_of_span(t, before[k]);
                assert(table[i].data == spans[k]);
            } else {
                assert(table[at].data == last);
            }
        }
    }
}

/// Spans of which a table holds each one, and does not hold `content`, hold
/// no bytes under `content`.
proof fn lemma_span_bytes_absent(spans: Seq<Seq<u8>>, content: Seq<u8>, table: Seq<SpanEntry>)
    requires
        forall|k: int| 0 <= k < spans.len() ==> holds_span(table, #[trigger] spans[k]),
        !holds_span(table, content),
    ensures
        span_bytes(spans, content) == 0,
    decreases spans.len(),
{
    if spans.len() > 0 {
        let before = spans.drop_last();
        assert forall|k: int| 0 <= k < before.len() implies holds_span(
            table,
            #[trigger] before[k],
        ) by {
            assert(before[k] == spans[k]);
        }
        lemma_span_bytes_absent(before, content, table);
        assert(holds_span(table, spans[spans.len() - 1]));
    }
}

/// The table of a sequence of spans holds one entry for each content among
/// the spans, with the hash of the content and the bytes of the spans that
/// have it, and no other entry.
pub proof fn lemma_tally(spans: Seq<Seq<u8>>)
    ensures
        tallied(Seq::empty(), spans, tally(spans)),
{
    lemma_tally_from(Seq::empty(), spans);
}

/// The number of bytes that the entries account for.
pub open spec fn table_size(entries: Seq<SpanEntry>) -> nat
    decreases entries.len(),
{
    if entries.len() == 0 {
        0
    } else {
        table_size(entries.drop_last()) + entries.last().occurrences
    }
}

/// What holds of every entry of a table: the span is not empty, it occurred,
/// and the hash is that of its content.
pub open spec fn entry_wf(entry: SpanEntry) -> bool {
    &&& entry.data.len() > 0
    &&& entry.occurrences > 0
    &&& entry.hashval == span_hash(entry.data)
}

/// What holds of every table: no content is recorded twice, every entry is
/// well formed, and the size fits the machine.
pub open spec fn table_wf(entries: Seq<SpanEntry>) -> bool {
    &&& distinct_spans(entries)
    &&& forall|i: int| 0 <= i < entries.len() ==> entry_wf(#[trigger] entries[i])
    &&& table_size(entries) <= usize::MAX
}

/// Replacing one entry changes the size by the difference of the two.
pub proof fn lemma_update_size(entries: Seq<SpanEntry>, i: int, entry: SpanEntry)
    requires
        0 <= i < entries.len(),
    ensures
        table_size(entries.update(i, entry)) + entries[i].occurrences == table_size(entries)
            + entry.occurrences,
    decreases entries.len(),
{
    let updated = entries.update(i, entry);
    if i == entries.len() - 1 {
        assert(updated.drop_last() =~= entries.drop_last());
    } else {
        assert(updated.drop_last() =~= entries.drop_last().update(i, entry));
        lemma_update_size(entries.drop_last(), i, entry);
    }
}

/// No entry is larger than the table.
pub proof fn lemma_entry_le_size(entries: Seq<SpanEntry>, i: int)
    requires
        0 <= i < entries.len(),
    ensures
        entries[i].occurrences <= table_size(entries),
    decreases entries.len(),
{
    if i < entries.len() - 1 {
        lemma_entry_le_size(entries.drop_last(), i);
    }
}

/// An entry of a table is found at its own place.
pub proof fn lemma_index_of_span(entries: Seq<SpanEntry>, i: int)
    requires
        table_wf(entries),
        0 <= i < entries.len(),
    ensures
        holds_span(entries, entries[i].data),
        index_of_span(entries, entries[i].data) == i,
{
    assert(holds_span(entries, entries[i].data));
    let k = index_of_span(entries, entries[i].data);
    if k < i {
        assert(entries[k].data != entries[i].data);
    } else if k > i {
        assert(entries[i].data != entries[k].data);
    }
}

/// One more span makes the table larger by the length of that span.
pub proof fn lemma_add_span_size(entries: Seq<SpanEntry>, content: Seq<u8>)
    ensures
        table_size(add_span(entries, content)) == table_size(entries) + content.len(),
{
    if holds_span(entries, content) {
        let i = index_of_span(entries, content);
        lemma_update_size(entries, i, grown_entry(entries[i], content.len()));
    } else {
        assert(entries.push(first_entry(content)).drop_last() =~= entries);
    }
}

/// One more span keeps a table well formed, as long as the size still fits.
pub proof fn lemma_add_span_wf(entries: Seq<SpanEntry>, content: Seq<u8>)
    requires
        table_wf(entries),
        content.len() > 0,
        table_size(entries) + content.len() <= usize::MAX,
    ensures
        table_wf(add_span(entries, content)),
{
    lemma_add_span_size(entries, content);
    let added = add_span(entries, content);
    let at = lemma_add_span(entries, content);
    assert forall|i: int, j: int| 0 <= i < j < added.len() implies #[trigger] added[i].data
        != #[trigger] added[j].data by {
        if j < entries.len() {
            assert(entries[i].data != entries[j].data);
        }
    }
    assert forall|i: int| 0 <= i < added.len() implies entry_wf(#[trigger] added[i]) by {
        if i < entries.len() {
            assert(entry_wf(entries[i]));
        }
    }
}

/// The table of a text without a carriage return accounts for every byte
/// of the text.
pub proof fn lemma_table_size_of_plain_text(data: Seq<u8>)
    requires
        !data.contains(CARRIAGE_RETURN),
    ensures
        table_of(data, false) == table_of(data, true),
        table_size(table_of(data, false)) == data.len(),
{
    lemma_spans_without_carriage_return(data);
    lemma_table_size(data, true);
}

/// Spans that occur make the table larger by their lengths.
pub proof fn lemma_tally_from_size(start: Seq<SpanEntry>, spans: Seq<Seq<u8>>)
    ensures
        table_size(tally_from(start, spans)) == table_size(start) + total_len(spans),
    decreases spans.len(),
{
    if spans.len() > 0 {
        lemma_tally_from_size(start, spans.drop_last());
        lemma_add_span_size(tally_from(start, spans.drop_last()), spans.last());
    }
}

/// The table of a stream accounts for every byte of every span of the
/// stream, and for no more bytes than the stream holds. The table of a
/// stream that is not empty is not empty, and the table of binary data
/// accounts for every byte. Text may hold fewer bytes than the stream: a
/// line that ends in CRLF is recorded without its carriage return.
pub proof fn lemma_table_size(data: Seq<u8>, is_binary: bool)
    ensures
        table_size(table_of(data, is_binary)) == total_len(all_spans(data, is_binary)),
        table_size(table_of(data, is_binary)) <= data.len(),
        data.len() > 0 ==> table_size(table_of(data, is_binary)) > 0,
        data.len() == 0 ==> table_size(table_of(data, is_binary)) == 0,
        table_size(table_of(data, true)) == data.len(),
{
    lemma_tally_from_size(Seq::empty(), all_spans(data, is_binary));
    lemma_tally_from_size(Seq::empty(), all_spans(data, true));
    lemma_all_spans_len(data, is_binary);
}

/// The 64-bit hash of `content`.
pub fn hash_span(content: &[u8]) -> (hashval: u64)
    ensures
        hashval == span_hash(content@),
{
    let mut hasher = DefaultHasher::new();
    hasher.write(content);
    hasher.finish()
}

/// One span of a table: its content, the hash of the content, and the number
/// of bytes that the span contributes to the stream in all.
#[derive(Debug, PartialEq, Eq)]
pub struct Spanhash {
    data: Vec<u8>,
    hashval: u64,
    occurrences: usize,
}

impl View for Spanhash {
    type V = SpanEntry;

    closed spec fn view(&self) -> SpanEntry {
        SpanEntry {
            data: self.data@,
            hashval: self.hashval,
            occurrences: self.occurrences as nat,
        }
    }
}

impl Default for Spanhash {
    /// The empty record: no content, no occurrence.
    fn default() -> (record: Spanhash)
        ensures
            record@ == (SpanEntry { data: Seq::empty(), hashval: 0, occurrences: 0 }),
    {
        Spanhash { data: Vec::new(), hashval: 0, occurrences: 0 }
    }
}

impl Spanhash {
    /// The content of the span.
    pub fn data(&self) -> (data: &Vec<u8>)
        ensures
            data@ == self@.data,
    {
        &self.data
    }

    /// The hash of the content.
    pub fn hashval(&self) -> (hashval: u64)
        ensures
            hashval == self@.hashval,
    {
        self.hashval
    }

    /// The number of bytes that the span contributes in all.
    pub fn occurrences(&self) -> (occurrences: usize)
        ensures
            occurrences == self@.occurrences,
    {
        self.occurrences
    }
}

impl Clone for Spanhash {
    fn clone(&self) -> (copy: Spanhash)
        ensures
            copy@ == self@,
    {
        let data = self.data.clone();
        assert(data@ =~= self.data@);
        Spanhash { data, hashval: self.hashval, occurrences: self.occurrences }
    }
}

/// The entries that a vector of records stands for.
pub open spec fn entries_of(records: Seq<Spanhash>) -> Seq<SpanEntry> {
    Seq::new(records.len(), |i: int| records[i]@)
}

/// Whether the two byte strings are equal.
fn same_bytes(a: &[u8], b: &[u8]) -> (same: bool)
    ensures
        same == (a@ == b@),
{
    if a.len() != b.len() {
        return false;
    }
    let mut i: usize = 0;
    while i < a.len()
        invariant
            a@.len() == b@.len(),
            i <= a@.len(),
            forall|j: int| 0 <= j < i ==> a@[j] == b@[j],
        decreases a@.len() - i,
    {
        if a[i] != b[i] {
            return false;
        }
        i += 1;
    }
    assert(a@ =~= b@);
    true
}

/// Whether `places` lists, under the hash of each entry, the place of that
/// entry, and no place under a hash that the entry at that place has not.
pub open spec fn places_wf(places: Map<u64, Vec<usize>>, entries: Seq<SpanEntry>) -> bool {
    &&& forall|h: u64, k: int|
        places.contains_key(h) && 0 <= k < places[h]@.len() ==> (#[trigger] places[h]@[k])
            < entries.len() && entries[places[h]@[k] as int].hashval == h
    &&& forall|i: int|
        0 <= i < entries.len() ==> places.contains_key((#[trigger] entries[i]).hashval)
            && places[entries[i].hashval]@.contains(i as usize)
}

/// Where `records` holds the span `content`, if it does.
fn find_span(
    records: &Vec<Spanhash>,
    places: &HashMap<u64, Vec<usize>>,
    content: &[u8],
    hashval: u64,
) -> (found: Option<usize>)
    requires
        table_wf(entries_of(records@)),
        places_wf(places@, entries_of(records@)),
        hashval == span_hash(content@),
    ensures
        match found {
            Some(i) => i < records@.len() && records@[i as int]@.data == content@,
            None => !holds_span(entries_of(records@), content@),
        },
{
    broadcast use vstd::std_specs::hash::group_hash_axioms;

    let ghost entries = entries_of(records@);
    let count: usize = records.len();
    match places.get(&hashval) {
        Some(bucket) => {
            let mut k: usize = 0;
            while k < bucket.len()
                invariant
                    entries == entries_of(records@),
                    count == entries.len(),
                    places_wf(places@, entries),
                    places@.contains_key(hashval),
                    places@[hashval] == *bucket,
                    k <= bucket@.len(),
                    forall|j: int| 0 <= j < k ==> entries[bucket@[j] as int].data != content@,
                decreases bucket@.len() - k,
            {
                let place: usize = bucket[k];
                assert(places@[hashval]@[k as int] < entries.len());
                if same_bytes(records[place].data.as_slice(), content) {
                    return Some(place);
                }
                k += 1;
            }
            proof {
                assert forall|i: int| 0 <= i < entries.len() implies #[trigger] entries[i].data
                    != content@ by {
                    if entries[i].data == content@ {
                        assert(entry_wf(entries[i]));
                        assert(bucket@.contains(i as usize));
                        let j = choose|j: int| 0 <= j < bucket@.len() && bucket@[j] == i as usize;
                        assert(entries[bucket@[j] as int].data != content@);
                    }
                }
            }
            None
        },
        None => {
            proof {
                assert forall|i: int| 0 <= i < entries.len() implies #[trigger] entries[i].data
                    != content@ by {
                    if entries[i].data == content@ {
                        assert(entry_wf(entries[i]));
                    }
                }
            }
            None
        },
    }
}

/// Records one more occurrence of `span`.
fn record_span(records: &mut Vec<Spanhash>, places: &mut HashMap<u64, Vec<usize>>, span: Vec<u8>)
    requires
        table_wf(entries_of(old(records)@)),
        places_wf(old(places)@, entries_of(old(records)@)),
        span@.len() > 0,
        table_size(entries_of(old(records)@)) + span@.len() <= usize::MAX,
    ensures
        entries_of(final(records)@) == add_span(entries_of(old(records)@), span@),
        table_wf(entries_of(final(records)@)),
        places_wf(final(places)@, entries_of(final(records)@)),
{
    broadcast use vstd::std_specs::hash::group_hash_axioms;

    let ghost before = entries_of(records@);
    let ghost listed = places@;
    proof {
        lemma_add_span_wf(before, span@);
    }
    let hashval: u64 = hash_span(span.as_slice());
    match find_span(records, places, span.as_slice(), hashval) {
        Some(i) => {
            proof {
                assert(before[i as int].data == span@);
                lemma_index_of_span(before, i as int);
                lemma_entry_le_size(before, i as int);
            }
            let kept: u64 = records[i].hashval;
            let occurrences: usize = records[i].occurrences + span.len();
            records.set(i, Spanhash { data: span, hashval: kept, occurrences });
            proof {
                let after = entries_of(records@);
                assert(after =~= add_span(before, span@));
                assert forall|h: u64, k: int|
                    listed.contains_key(h) && 0 <= k < listed[h]@.len() implies (
                #[trigger] listed[h]@[k]) < after.len() && after[listed[h]@[k] as int].hashval
                    == h by {
                    assert(before[listed[h]@[k] as int].hashval == h);
                }
                assert forall|j: int| 0 <= j < after.len() implies listed.contains_key(
                    (#[trigger] after[j]).hashval,
                ) && listed[after[j].hashval]@.contains(j as usize) by {
                    assert(before[j].hashval == after[j].hashval);
                }
            }
        },
        None => {
            let place: usize = records.len();
            let occurrences: usize = span.len();
            records.push(Spanhash { data: span, hashval, occurrences });
            let mut bucket: Vec<usize> = match places.remove(&hashval) {
                Some(bucket) => bucket,
                None => Vec::new(),
            };
            let ghost old_bucket = bucket@;
            bucket.push(place);
            places.insert(hashval, bucket);
            proof {
                let after = entries_of(records@);
                assert(after =~= add_span(before, span@));
                assert forall|h: u64, k: int|
                    places@.contains_key(h) && 0 <= k < places@[h]@.len() implies (
                #[trigger] places@[h]@[k]) < after.len() && after[places@[h]@[k] as int].hashval
                    == h by {
                    if h == hashval {
                        if k < old_bucket.len() {
                            assert(listed.contains_key(h));
                            assert(listed[h]@[k] == old_bucket[k]);
                            assert(before[listed[h]@[k] as int].hashval == h);
                        }
                    } else {
                        assert(listed.contains_key(h));
                        assert(before[listed[h]@[k] as int].hashval == h);
                    }
                }
                assert forall|j: int| 0 <= j < after.len() implies places@.contains_key(
                    (#[trigger] after[j]).hashval,
                ) && places@[after[j].hashval]@.contains(j as usize) by {
                    if j < before.len() {
                        assert(after[j] == before[j]);
                        let h = before[j].hashval;
                        assert(listed[h]@.contains(j as usize));
                        let k = choose|k: int| 0 <= k < listed[h]@.len() && listed[h]@[k] == j as usize;
                        if h == hashval {
                            assert(places@[h]@[k] == j as usize);
                        }
                    } else {
                        assert(places@[hashval]@[old_bucket.len() as int] == j as usize);
                    }
                }
            }
        },
    }
}

/// Records the last span of a stream: the bytes `tail` that are left behind
/// the spans `complete`, where there are any.
fn record_tail(
    records: &mut Vec<Spanhash>,
    places: &mut HashMap<u64, Vec<usize>>,
    tail: Vec<u8>,
    Ghost(complete): Ghost<Seq<Seq<u8>>>,
)
    requires
        table_wf(entries_of(old(records)@)),
        places_wf(old(places)@, entries_of(old(records)@)),
        entries_of(old(records)@) == tally(complete),
        table_size(entries_of(old(records)@)) + tail@.len() <= usize::MAX,
    ensures
        entries_of(final(records)@) == tally(
            complete + if tail@.len() > 0 {
                seq![tail@]
            } else {
                Seq::empty()
            },
        ),
        table_wf(entries_of(final(records)@)),
        places_wf(final(places)@, entries_of(final(records)@)),
{
    if tail.len() > 0 {
        proof {
            let all = complete + seq![tail@];
            assert(all.drop_last() =~= complete);
            assert(all.last() == tail@);
        }
        record_span(records, places, tail);
    } else {
        assert(complete + Seq::<Seq<u8>>::empty() =~= complete);
    }
}

/// Records the spans of `data`, and returns the number of bytes that the
/// spans were cut from.
fn absorb(
    records: &mut Vec<Spanhash>,
    places: &mut HashMap<u64, Vec<usize>>,
    data: &[u8],
    is_binary: bool,
) -> (consumed: usize)
    requires
        table_wf(entries_of(old(records)@)),
        places_wf(old(places)@, entries_of(old(records)@)),
        table_size(entries_of(old(records)@)) + data@.len() <= usize::MAX,
    ensures
        entries_of(final(records)@) == tally_from(
            entries_of(old(records)@),
            split_spans(data@, is_binary),
        ),
        table_wf(entries_of(final(records)@)),
        places_wf(final(places)@, entries_of(final(records)@)),
        consumed == consumed_len(data@),
        table_size(entries_of(final(records)@)) <= table_size(entries_of(old(records)@))
            + consumed,
{
    let ghost start = entries_of(records@);
    let len: usize = data.len();
    let mut pos: usize = 0;
    let ghost mut emitted: Seq<Seq<u8>> = Seq::empty();
    proof {
        assert(data@.skip(0) =~= data@);
        assert(emitted + split_spans(data@, is_binary) =~= split_spans(data@, is_binary));
    }
    loop
        invariant
            len == data@.len(),
            pos <= data@.len(),
            split_spans(data@, is_binary) == emitted + split_spans(
                data@.skip(pos as int),
                is_binary,
            ),
            consumed_len(data@) == pos + consumed_len(data@.skip(pos as int)),
            entries_of(records@) == tally_from(start, emitted),
            table_wf(entries_of(records@)),
            places_wf(places@, entries_of(records@)),
            table_size(start) + data@.len() <= usize::MAX,
            table_size(entries_of(records@)) <= table_size(start) + pos,
        ensures
            entries_of(records@) == tally_from(start, split_spans(data@, is_binary)),
            table_wf(entries_of(records@)),
            places_wf(places@, entries_of(records@)),
            pos == consumed_len(data@),
            table_size(entries_of(records@)) <= table_size(start) + pos,
        decreases data@.len() - pos,
    {
        let n: usize = next_span_len(data, pos);
        if n == 0 {
            assert(split_spans(data@.skip(pos as int), is_binary) =~= Seq::empty());
            assert(emitted + Seq::<Seq<u8>>::empty() =~= emitted);
            break ;
        }
        let span = take_span(data, pos, n, is_binary);
        proof {
            let rest = data@.skip(pos as int);
            let raw = rest.take(n as int);
            lemma_normalize_len(raw, is_binary);
            lemma_add_span_size(entries_of(records@), span@);
            assert(rest.skip(n as int) =~= data@.skip(pos + n));
            assert(emitted.push(span@).drop_last() =~= emitted);
            assert(emitted + (seq![span@] + split_spans(rest.skip(n as int), is_binary))
                =~= emitted.push(span@) + split_spans(data@.skip(pos + n), is_binary));
            emitted = emitted.push(span@);
        }
        record_span(records, places, span);
        pos = pos + n;
    }
    pos
}

/// What `entries` records of the span `content`, if it records the span.
pub open spec fn entry_for(entries: Seq<SpanEntry>, content: Seq<u8>) -> Option<SpanEntry> {
    if holds_span(entries, content) {
        Some(entries[index_of_span(entries, content)])
    } else {
        None
    }
}

/// Whether two tables record the same of every span, in whatever order.
pub open spec fn same_entries(a: Seq<SpanEntry>, b: Seq<SpanEntry>) -> bool {
    forall|content: Seq<u8>| #[trigger] entry_for(a, content) == entry_for(b, content)
}

/// Whether `b` records of every span of `a` what `a` records of it.
pub open spec fn entries_within(a: Seq<SpanEntry>, b: Seq<SpanEntry>) -> bool {
    forall|i: int| 0 <= i < a.len() ==> entry_for(b, (#[trigger] a[i]).data) == Some(a[i])
}

/// Two tables record the same where each records what the other records.
pub proof fn lemma_same_entries(a: Seq<SpanEntry>, b: Seq<SpanEntry>)
    requires
        table_wf(a),
        table_wf(b),
    ensures
        same_entries(a, b) <==> entries_within(a, b) && entries_within(b, a),
{
    if entries_within(a, b) && entries_within(b, a) {
        assert forall|content: Seq<u8>| #[trigger]
            entry_for(a, content) == entry_for(b, content) by {
            if holds_span(a, content) {
                let i = index_of_span(a, content);
                assert(entry_for(b, a[i].data) == Some(a[i]));
            } else if holds_span(b, content) {
                let j = index_of_span(b, content);
                assert(entry_for(a, b[j].data) == Some(b[j]));
            }
        }
    }
    if same_entries(a, b) {
        assert forall|i: int| 0 <= i < a.len() implies entry_for(b, (#[trigger] a[i]).data)
            == Some(a[i]) by {
            lemma_index_of_span(a, i);
            assert(entry_for(a, a[i].data) == entry_for(b, a[i].data));
        }
        assert forall|j: int| 0 <= j < b.len() implies entry_for(a, (#[trigger] b[j]).data)
            == Some(b[j]) by {
            lemma_index_of_span(b, j);
            assert(entry_for(a, b[j].data) == entry_for(b, b[j].data));
        }
    }
}

/// The spans of one byte stream, each with the hash of its content and the
/// number of bytes that it contributes. No content is recorded twice. Two
/// tables are equal where they record the same of every span.
#[derive(Debug)]
pub struct SpanhashTop {
    records: Vec<Spanhash>,
    places: HashMap<u64, Vec<usize>>,
}

impl PartialEq for SpanhashTop {
    fn eq(&self, other: &SpanhashTop) -> (same: bool) {
        proof {
            use_type_invariant(self);
            use_type_invariant(other);
            lemma_same_entries(self@, other@);
        }
        self.within(other) && other.within(self)
    }
}

impl Eq for SpanhashTop {

}

impl PartialEqSpecImpl for SpanhashTop {
    open spec fn obeys_eq_spec() -> bool {
        true
    }

    open spec fn eq_spec(&self, other: &SpanhashTop) -> bool {
        same_entries(self@, other@)
    }
}

impl View for SpanhashTop {
    type V = Seq<SpanEntry>;

    closed spec fn view(&self) -> Seq<SpanEntry> {
        entries_of(self.records@)
    }
}

impl Default for SpanhashTop {
    /// The table of the empty stream.
    fn default() -> (table: SpanhashTop)
        ensures
            table@ == Seq::<SpanEntry>::empty(),
    {
        let table = SpanhashTop { records: Vec::new(), places: HashMap::new() };
        assert(table@ =~= Seq::<SpanEntry>::empty());
        table
    }
}

impl Clone for SpanhashTop {
    fn clone(&self) -> (copy: SpanhashTop)
        ensures
            copy@ == self@,
    {
        proof {
            use_type_invariant(self);
        }
        let mut records: Vec<Spanhash> = Vec::new();
        let mut i: usize = 0;
        while i < self.records.len()
            invariant
                i <= self.records@.len(),
                records@.len() == i,
                forall|j: int| 0 <= j < i ==> records@[j]@ == self.records@[j]@,
            decreases self.records@.len() - i,
        {
            records.push(self.records[i].clone());
            i += 1;
        }
        assert(entries_of(records@) =~= entries_of(self.records@));
        SpanhashTop { records, places: self.places.clone() }
    }
}

impl SpanhashTop {
    #[verifier::type_invariant]
    closed spec fn well_formed(&self) -> bool {
        &&& table_wf(entries_of(self.records@))
        &&& places_wf(self.places@, entries_of(self.records@))
    }

    /// What the table records of the span `content`, if it records the span.
    pub fn get(&self, content: &[u8]) -> (record: Option<&Spanhash>)
        ensures
            match record {
                Some(r) => entry_for(self@, content@) == Some(r@),
                None => entry_for(self@, content@).is_none(),
            },
    {
        proof {
            use_type_invariant(self);
        }
        let hashval: u64 = hash_span(content);
        match find_span(&self.records, &self.places, content, hashval) {
            Some(i) => {
                proof {
                    lemma_index_of_span(self@, i as int);
                }
                Some(&self.records[i])
            },
            None => None,
        }
    }

    /// Whether `other` records of every span of this table what this table
    /// records of it.
    fn within(&self, other: &SpanhashTop) -> (all: bool)
        ensures
            all == entries_within(self@, other@),
    {
        let mut i: usize = 0;
        while i < self.records.len()
            invariant
                i <= self.records@.len(),
                forall|j: int|
                    0 <= j < i ==> entry_for(other@, (#[trigger] self@[j]).data) == Some(self@[j]),
            decreases self.records@.len() - i,
        {
            let record = &self.records[i];
            assert(record@ == self@[i as int]);
            let same: bool = match other.get(record.data.as_slice()) {
                Some(found) => found.hashval == record.hashval && found.occurrences
                    == record.occurrences,
                None => false,
            };
            if !same {
                assert(entry_for(other@, self@[i as int].data) != Some(self@[i as int]));
                return false;
            }
            i += 1;
        }
        true
    }

    /// The table of the spans of `data`, from its first byte to its last:
    /// what stands behind the last newline is the last span. Text
    /// (`is_binary` false) records a line that ends in CRLF under the content
    /// that ends in LF alone.
    pub fn from_bytes(data: &[u8], is_binary: bool) -> (table: SpanhashTop)
        ensures
            table@ == table_of(data@, is_binary),
            table_wf(table@),
    {
        let len: usize = data.len();
        let mut records: Vec<Spanhash> = Vec::new();
        let mut places: HashMap<u64, Vec<usize>> = HashMap::new();
        assert(entries_of(records@) =~= Seq::<SpanEntry>::empty());
        assert(table_size(entries_of(records@)) + len <= usize::MAX);
        let consumed: usize = absorb(&mut records, &mut places, data, is_binary);
        proof {
            lemma_consumed_len(data@, is_binary);
        }
        let mut tail: Vec<u8> = Vec::new();
        tail.extend_from_slice(&data[consumed..len]);
        assert(tail@ =~= remainder(data@));
        record_tail(&mut records, &mut places, tail, Ghost(split_spans(data@, is_binary)));
        SpanhashTop { records, places }
    }

    /// The number of bytes that the spans of the table account for.
    pub fn len(&self) -> (size: usize)
        ensures
            size == table_size(self@),
            table_wf(self@),
    {
        proof {
            use_type_invariant(self);
        }
        let mut size: usize = 0;
        let mut i: usize = 0;
        while i < self.records.len()
            invariant
                i <= self.records@.len(),
                size == table_size(entries_of(self.records@).take(i as int)),
                table_size(entries_of(self.records@)) <= usize::MAX,
            decreases self.records@.len() - i,
        {
            proof {
                let entries = entries_of(self.records@);
                assert(entries.take(i + 1).drop_last() =~= entries.take(i as int));
                lemma_prefix_size(entries, i + 1);
            }
            size = size + self.records[i].occurrences;
            i += 1;
        }
        assert(entries_of(self.records@).take(i as int) =~= entries_of(self.records@));
        size
    }

    /// The records with the largest first: descending by the bytes that a
    /// span contributes, ascending by hash among spans that contribute as
    /// many bytes. Spans with the same bytes and hash keep the order in which
    /// they first occurred.
    pub fn into_sorted(self) -> (sorted: Vec<Spanhash>)
        ensures
            entries_of(sorted@).to_multiset() == self@.to_multiset(),
            sorted_by(keys_of(entries_of(sorted@)), key_order()),
            keys_of(entries_of(sorted@)) == canonical_keys(self@),
            keeps_order_of_equals(entries_of(sorted@), self@),
            table_wf(self@),
    {
        proof {
            use_type_invariant(&self);
        }
        sort_records(&self.records, SpanOrder::ByBytes)
    }

    /// The records in the order in which two tables are compared: ascending
    /// by hash, descending by bytes among spans with the same hash. Spans
    /// with the same bytes and hash keep the order in which they first
    /// occurred.
    pub fn into_hash_order(self) -> (sorted: Vec<Spanhash>)
        ensures
            entries_of(sorted@).to_multiset() == self@.to_multiset(),
            sorted_by(keys_of(entries_of(sorted@)), hash_order()),
            keys_of(entries_of(sorted@)) == hash_keys(self@),
            keeps_order_of_equals(entries_of(sorted@), self@),
            table_wf(self@),
    {
        proof {
            use_type_invariant(&self);
        }
        sort_records(&self.records, SpanOrder::ByHash)
    }

    /// The number of distinct spans.
    pub fn span_count(&self) -> (count: usize)
        ensures
            count == self@.len(),
    {
        self.records.len()
    }

    /// The records of the table, in the order in which the spans first occurred.
    pub fn records(&self) -> (records: &Vec<Spanhash>)
        ensures
            entries_of(records@) == self@,
    {
        &self.records
    }
}

/// The first `n` entries are no larger than the whole table.
pub proof fn lemma_prefix_size(entries: Seq<SpanEntry>, n: int)
    requires
        0 <= n <= entries.len(),
    ensures
        table_size(entries.take(n)) <= table_size(entries),
    decreases entries.len() - n,
{
    if n < entries.len() {
        assert(entries.take(n + 1).drop_last() =~= entries.take(n));
        lemma_prefix_size(entries, n + 1);
    } else {
        assert(entries.take(n) =~= entries);
    }
}

/// Builds the table of a byte stream that arrives in pieces. Between two
/// pieces the table holds the complete spans of the stream so far, and less
/// than one span is kept for the next piece.
pub struct SpanHasher {
    is_binary: bool,
    records: Vec<Spanhash>,
    places: HashMap<u64, Vec<usize>>,
    pending: Vec<u8>,
    total: usize,
    fed: Ghost<Seq<u8>>,
}

impl SpanHasher {
    #[verifier::type_invariant]
    closed spec fn well_formed(&self) -> bool {
        &&& table_wf(entries_of(self.records@))
        &&& places_wf(self.places@, entries_of(self.records@))
        &&& entries_of(self.records@) == tally(split_spans(self.fed@, self.is_binary))
        &&& self.pending@ == remainder(self.fed@)
        &&& self.total == self.fed@.len()
        &&& table_size(entries_of(self.records@)) + self.pending@.len() <= self.total
    }

    /// The bytes that arrived so far.
    pub closed spec fn fed(&self) -> Seq<u8> {
        self.fed@
    }

    /// Whether the stream is binary data: text records a line that ends in
    /// CRLF under the content that ends in LF alone.
    pub closed spec fn binary(&self) -> bool {
        self.is_binary
    }

    /// The bytes that are kept for the next piece: those behind the last
    /// span of the stream so far.
    pub closed spec fn pending(&self) -> Seq<u8> {
        self.pending@
    }

    /// The number of bytes that are kept for the next piece, which is
    /// below the length of the longest span.
    pub fn pending_len(&self) -> (len: usize)
        ensures
            len == self.pending().len(),
            self.pending() == remainder(self.fed()),
            len < MAX_SPAN_LEN,
    {
        proof {
            use_type_invariant(self);
            lemma_consumed_len(self.fed@, self.is_binary);
        }
        self.pending.len()
    }

    /// A hasher to which no byte has arrived.
    pub fn new(is_binary: bool) -> (hasher: SpanHasher)
        ensures
            hasher.fed() == Seq::<u8>::empty(),
            hasher.binary() == is_binary,
            hasher.pending() == Seq::<u8>::empty(),
    {
        let ghost none = Seq::<u8>::empty();
        proof {
            lemma_span_len_bounds(none);
            assert(remainder(none) =~= none);
            assert(split_spans(none, is_binary) =~= Seq::<Seq<u8>>::empty());
        }
        let records: Vec<Spanhash> = Vec::new();
        assert(entries_of(records@) =~= tally(split_spans(none, is_binary)));
        SpanHasher {
            is_binary,
            records,
            places: HashMap::new(),
            pending: Vec::new(),
            total: 0,
            fed: Ghost(none),
        }
    }

    /// The hasher after the next piece of the stream arrived. There is none
    /// where the stream would be longer than the largest number.
    pub fn update(self, chunk: &[u8]) -> (hasher: Option<SpanHasher>)
        ensures
            hasher is Some <==> self.fed().len() + chunk@.len() <= usize::MAX,
            hasher matches Some(h) ==> h.fed() == self.fed() + chunk@ && h.binary()
                == self.binary() && h.pending() == remainder(h.fed()),
    {
        proof {
            use_type_invariant(&self);
        }
        if chunk.len() > usize::MAX - self.total {
            return None;
        }
        let SpanHasher { is_binary, records, places, pending, total, fed } = self;
        let mut records = records;
        let mut places = places;
        let mut pending = pending;
        let ghost before = fed@;
        let ghost all = before + chunk@;
        let ghost start = entries_of(records@);
        pending.extend_from_slice(chunk);
        assert(pending@ =~= remainder(before) + chunk@);
        let consumed: usize = absorb(&mut records, &mut places, pending.as_slice(), is_binary);
        proof {
            lemma_split_spans_append(before, chunk@, is_binary);
            lemma_tally_append(
                split_spans(before, is_binary),
                split_spans(pending@, is_binary),
            );
            lemma_consumed_len(pending@, is_binary);
            lemma_consumed_len(before, is_binary);
        }
        let ghost joined = pending@;
        let rest = pending.split_off(consumed);
        assert(rest@ =~= remainder(joined));
        Some(
            SpanHasher {
                is_binary,
                records,
                places,
                pending: rest,
                total: total + chunk.len(),
                fed: Ghost(all),
            },
        )
    }

    /// The table of the stream that arrived. The stream ends here: the bytes
    /// that were kept for the next piece are its last span.
    pub fn finish(self) -> (table: SpanhashTop)
        ensures
            table@ == table_of(self.fed(), self.binary()),
            table_wf(table@),
    {
        proof {
            use_type_invariant(&self);
        }
        let ghost complete = split_spans(self.fed@, self.is_binary);
        let SpanHasher { records, places, pending, .. } = self;
        let mut records = records;
        let mut places = places;
        record_tail(&mut records, &mut places, pending, Ghost(complete));
        SpanhashTop { records, places }
    }
}

} // verus!
