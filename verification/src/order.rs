//! The orders in which the spans of a table are put.
//!
//! Two tables are compared span by span in the order of the hashes of their
//! spans. A table hands out its spans with the largest first.
use crate::spanhash::{
    entries_of, index_of_span, lemma_entry_le_size, lemma_index_of_span, table_size, table_wf,
    SpanEntry, Spanhash,
};
use vstd::prelude::*;
use vstd::relations::{sorted_by, total_ordering};
use vstd::seq_lib::{
    lemma_sorted_unique, to_multiset_contains, to_multiset_insert, to_multiset_len,
    to_multiset_remove,
};

verus! {

/// What two tables are compared by: the hash of a span and the number of
/// bytes that the span contributes.
pub struct SpanKey {
    pub hashval: u64,
    pub occurrences: nat,
}

/// The key of an entry.
pub open spec fn key_of(entry: SpanEntry) -> SpanKey {
    SpanKey { hashval: entry.hashval, occurrences: entry.occurrences }
}

/// `key_of` as a function value.
pub open spec fn key_fn() -> spec_fn(SpanEntry) -> SpanKey {
    |entry: SpanEntry| key_of(entry)
}

/// The keys of the entries, in the order of the entries.
pub open spec fn keys_of(entries: Seq<SpanEntry>) -> Seq<SpanKey> {
    entries.map_values(key_fn())
}

/// Whether `a` may stand before `b`: the key with more bytes comes first, and
/// of two keys with as many bytes the one with the smaller hash.
pub open spec fn key_leq(a: SpanKey, b: SpanKey) -> bool {
    a.occurrences > b.occurrences || (a.occurrences == b.occurrences && a.hashval <= b.hashval)
}

/// `key_leq` as a relation.
pub open spec fn key_order() -> spec_fn(SpanKey, SpanKey) -> bool {
    |a: SpanKey, b: SpanKey| key_leq(a, b)
}

/// Whether `a` may stand before `b` where two tables are compared: the key
/// with the smaller hash comes first, and of two keys with the same hash the
/// one with more bytes.
pub open spec fn hash_leq(a: SpanKey, b: SpanKey) -> bool {
    a.hashval < b.hashval || (a.hashval == b.hashval && a.occurrences >= b.occurrences)
}

/// `hash_leq` as a relation.
pub open spec fn hash_order() -> spec_fn(SpanKey, SpanKey) -> bool {
    |a: SpanKey, b: SpanKey| hash_leq(a, b)
}

/// The orders of the spans of a table.
#[derive(Debug, Clone, Copy)]
pub enum SpanOrder {
    /// Descending by bytes, ascending by hash among spans with as many bytes.
    ByBytes,
    /// Ascending by hash, descending by bytes among spans with the same hash.
    ByHash,
}

/// The relation of an order.
pub open spec fn order_of(by: SpanOrder) -> spec_fn(SpanKey, SpanKey) -> bool {
    match by {
        SpanOrder::ByBytes => key_order(),
        SpanOrder::ByHash => hash_order(),
    }
}

/// The keys of a table in the given order.
pub open spec fn sorted_keys(entries: Seq<SpanEntry>, by: SpanOrder) -> Seq<SpanKey> {
    keys_of(entries).sort_by(order_of(by))
}

/// The keys of a table with the largest first: descending by bytes,
/// ascending by hash among keys with as many bytes.
pub open spec fn canonical_keys(entries: Seq<SpanEntry>) -> Seq<SpanKey> {
    sorted_keys(entries, SpanOrder::ByBytes)
}

/// The keys of a table in the order in which two tables are compared:
/// ascending by hash, descending by bytes among keys with the same hash.
pub open spec fn hash_keys(entries: Seq<SpanEntry>) -> Seq<SpanKey> {
    sorted_keys(entries, SpanOrder::ByHash)
}

/// The sum of the bytes of the keys.
pub open spec fn keys_size(keys: Seq<SpanKey>) -> nat
    decreases keys.len(),
{
    if keys.len() == 0 {
        0
    } else {
        keys_size(keys.drop_last()) + keys.last().occurrences
    }
}

/// Each order orders the keys totally.
pub proof fn lemma_order_total(by: SpanOrder)
    ensures
        total_ordering(order_of(by)),
{
    let leq = order_of(by);
    assert forall|x: SpanKey, y: SpanKey| #[trigger] leq(x, y) && #[trigger] leq(y, x) implies x
        == y by {}
}

/// Where two sequences have the same members, the last member of the first
/// stands at some place of the second, and without it the two still have the
/// same members.
pub proof fn lemma_last_member<A>(x: Seq<A>, y: Seq<A>) -> (i: int)
    requires
        x.to_multiset() == y.to_multiset(),
        x.len() > 0,
    ensures
        0 <= i < y.len(),
        y[i] == x.last(),
        y.len() == x.len(),
        x.drop_last().to_multiset() == y.remove(i).to_multiset(),
{
    let last = x.len() - 1;
    let a = x[last];
    to_multiset_len(x);
    to_multiset_len(y);
    to_multiset_contains(x, a);
    to_multiset_contains(y, a);
    assert(x.contains(a));
    let i = choose|i: int| 0 <= i < y.len() && y[i] == a;
    assert(x.remove(last) =~= x.drop_last());
    to_multiset_remove(x, last);
    to_multiset_remove(y, i);
    i
}

/// Two sequences with the same members still have the same members after
/// each member was replaced by its image under `f`.
pub proof fn lemma_map_keeps_members<A, B>(x: Seq<A>, y: Seq<A>, f: spec_fn(A) -> B)
    requires
        x.to_multiset() == y.to_multiset(),
    ensures
        x.map_values(f).to_multiset() == y.map_values(f).to_multiset(),
    decreases x.len(),
{
    to_multiset_len(x);
    to_multiset_len(y);
    if x.len() == 0 {
        assert(x.map_values(f) =~= y.map_values(f));
    } else {
        let i = lemma_last_member(x, y);
        let x_rest = x.drop_last();
        let y_rest = y.remove(i);
        lemma_map_keeps_members(x_rest, y_rest, f);
        assert(x.map_values(f) =~= x_rest.map_values(f).insert(x.len() - 1, f(x.last())));
        assert(y.map_values(f) =~= y_rest.map_values(f).insert(i, f(x.last())));
        to_multiset_insert(x_rest.map_values(f), x.len() - 1, f(x.last()));
        to_multiset_insert(y_rest.map_values(f), i, f(x.last()));
    }
}

/// Taking one key out lowers the sum by the bytes of that key.
pub proof fn lemma_keys_size_remove(keys: Seq<SpanKey>, i: int)
    requires
        0 <= i < keys.len(),
    ensures
        keys_size(keys.remove(i)) + keys[i].occurrences == keys_size(keys),
    decreases keys.len(),
{
    if i == keys.len() - 1 {
        assert(keys.remove(i) =~= keys.drop_last());
    } else {
        assert(keys.remove(i).drop_last() =~= keys.drop_last().remove(i));
        lemma_keys_size_remove(keys.drop_last(), i);
    }
}

/// Sequences of keys with the same members have the same sum.
pub proof fn lemma_keys_size_of_members(x: Seq<SpanKey>, y: Seq<SpanKey>)
    requires
        x.to_multiset() == y.to_multiset(),
    ensures
        keys_size(x) == keys_size(y),
    decreases x.len(),
{
    to_multiset_len(x);
    to_multiset_len(y);
    if x.len() > 0 {
        let i = lemma_last_member(x, y);
        lemma_keys_size_of_members(x.drop_last(), y.remove(i));
        lemma_keys_size_remove(y, i);
    }
}

/// The keys of a table sum up to the size of the table.
pub proof fn lemma_keys_size_of_entries(entries: Seq<SpanEntry>)
    ensures
        keys_size(keys_of(entries)) == table_size(entries),
    decreases entries.len(),
{
    if entries.len() > 0 {
        assert(keys_of(entries).drop_last() =~= keys_of(entries.drop_last()));
        lemma_keys_size_of_entries(entries.drop_last());
    }
}

/// The sorted keys are the keys of the table, rearranged and in order.
pub proof fn lemma_sorted_keys(entries: Seq<SpanEntry>, by: SpanOrder)
    ensures
        sorted_keys(entries, by).to_multiset() == keys_of(entries).to_multiset(),
        sorted_keys(entries, by).len() == entries.len(),
        sorted_by(sorted_keys(entries, by), order_of(by)),
        keys_size(sorted_keys(entries, by)) == table_size(entries),
{
    lemma_order_total(by);
    keys_of(entries).lemma_sort_by_ensures(order_of(by));
    to_multiset_len(sorted_keys(entries, by));
    to_multiset_len(keys_of(entries));
    lemma_keys_size_of_members(sorted_keys(entries, by), keys_of(entries));
    lemma_keys_size_of_entries(entries);
}

/// Keys that hold the members of the keys of a table, in order, are the
/// sorted keys of that table.
pub proof fn lemma_sorted_keys_unique(keys: Seq<SpanKey>, entries: Seq<SpanEntry>, by: SpanOrder)
    requires
        keys.to_multiset() == keys_of(entries).to_multiset(),
        sorted_by(keys, order_of(by)),
    ensures
        keys == sorted_keys(entries, by),
{
    lemma_order_total(by);
    lemma_sorted_keys(entries, by);
    lemma_sorted_unique(keys, sorted_keys(entries, by), order_of(by));
}

/// What a record is sorted by: the bytes counted down from the largest
/// number and the hash, the one first by which the order goes first, and
/// the place of the record in its table.
pub open spec fn rank_of(entry: SpanEntry, place: int, by: SpanOrder) -> (u64, u64, usize) {
    match by {
        SpanOrder::ByBytes => (
            (u64::MAX - entry.occurrences) as u64,
            entry.hashval,
            place as usize,
        ),
        SpanOrder::ByHash => (
            entry.hashval,
            (u64::MAX - entry.occurrences) as u64,
            place as usize,
        ),
    }
}

/// The order of tuples of integers: by the first field, among equal first
/// fields by the second, among equal second fields by the third.
pub open spec fn rank_leq(a: (u64, u64, usize), b: (u64, u64, usize)) -> bool {
    a.0 < b.0 || (a.0 == b.0 && (a.1 < b.1 || (a.1 == b.1 && a.2 <= b.2)))
}

/// `<[T]>::sort` of the standard library, on tuples of integers: it
/// rearranges the members of the slice into ascending order, and tuples are
/// ordered field by field.
#[verifier::external_body]
pub(crate) fn sort_ranks(ranks: &mut Vec<(u64, u64, usize)>)
    ensures
        final(ranks)@.to_multiset() == old(ranks)@.to_multiset(),
        forall|i: int, j: int|
            0 <= i < j < final(ranks)@.len() ==> rank_leq(
                #[trigger] final(ranks)@[i],
                #[trigger] final(ranks)@[j],
            ),
{
    ranks.sort();
}

/// Whether entries with the same key stand in `sorted` in the order in
/// which they stand in `entries`.
pub open spec fn keeps_order_of_equals(sorted: Seq<SpanEntry>, entries: Seq<SpanEntry>) -> bool {
    forall|a: int, b: int|
        0 <= a < b < sorted.len() && key_of(#[trigger] sorted[a]) == key_of(#[trigger] sorted[b])
            ==> index_of_span(entries, sorted[a].data) < index_of_span(entries, sorted[b].data)
}

/// The records in the given order. Records with the same bytes and hash
/// keep their order.
pub(crate) fn sort_records(records: &Vec<Spanhash>, by: SpanOrder) -> (sorted: Vec<Spanhash>)
    requires
        table_wf(entries_of(records@)),
    ensures
        entries_of(sorted@).to_multiset() == entries_of(records@).to_multiset(),
        sorted_by(keys_of(entries_of(sorted@)), order_of(by)),
        keys_of(entries_of(sorted@)) == sorted_keys(entries_of(records@), by),
        keeps_order_of_equals(entries_of(sorted@), entries_of(records@)),
{
    let ghost entries = entries_of(records@);
    let n: usize = records.len();
    let mut ranks: Vec<(u64, u64, usize)> = Vec::new();
    let mut i: usize = 0;
    while i < n
        invariant
            n == records@.len(),
            entries == entries_of(records@),
            i <= n,
            ranks@.len() == i,
            forall|k: int| 0 <= k < i ==> ranks@[k] == rank_of(entries[k], k, by),
        decreases n - i,
    {
        let record = &records[i];
        let bytes_down: u64 = u64::MAX - record.occurrences() as u64;
        let rank: (u64, u64, usize) = match by {
            SpanOrder::ByBytes => (bytes_down, record.hashval(), i),
            SpanOrder::ByHash => (record.hashval(), bytes_down, i),
        };
        ranks.push(rank);
        i += 1;
    }
    let ghost unsorted = ranks@;
    sort_ranks(&mut ranks);
    proof {
        to_multiset_len(ranks@);
        to_multiset_len(unsorted);
        assert forall|k: int| 0 <= k < n implies 0 <= (#[trigger] ranks@[k]).2 < n && ranks@[k]
            == rank_of(entries[ranks@[k].2 as int], ranks@[k].2 as int, by) by {
            to_multiset_contains(ranks@, ranks@[k]);
            to_multiset_contains(unsorted, ranks@[k]);
            assert(ranks@.contains(ranks@[k]));
            let at = choose|at: int| 0 <= at < unsorted.len() && unsorted[at] == ranks@[k];
            assert(unsorted[at] == rank_of(entries[at], at, by));
        }
    }
    let mut sorted: Vec<Spanhash> = Vec::new();
    let mut j: usize = 0;
    while j < n
        invariant
            n == records@.len(),
            entries == entries_of(records@),
            ranks@.len() == n,
            j <= n,
            sorted@.len() == j,
            forall|k: int| 0 <= k < n ==> 0 <= (#[trigger] ranks@[k]).2 < n,
            forall|k: int| 0 <= k < j ==> sorted@[k]@ == entries[ranks@[k].2 as int],
        decreases n - j,
    {
        let place: usize = ranks[j].2;
        sorted.push(records[place].clone());
        j += 1;
    }
    proof {
        let pick = |rank: (u64, u64, usize)| entries[rank.2 as int];
        assert(entries_of(sorted@) =~= ranks@.map_values(pick));
        assert(entries =~= unsorted.map_values(pick));
        lemma_map_keeps_members(ranks@, unsorted, pick);
        lemma_map_keeps_members(entries_of(sorted@), entries, key_fn());
        let keys = keys_of(entries_of(sorted@));
        let leq = order_of(by);
        assert forall|a: int, b: int| 0 <= a < b < keys.len() implies #[trigger] leq(
            keys[a],
            keys[b],
        ) by {
            assert(rank_leq(ranks@[a], ranks@[b]));
            lemma_entry_le_size(entries, ranks@[a].2 as int);
            lemma_entry_le_size(entries, ranks@[b].2 as int);
        }
        lemma_sorted_keys_unique(keys, entries, by);
        // No rank occurs twice, before the sort or after it.
        assert(unsorted.no_duplicates()) by {
            assert forall|x: int, y: int|
                0 <= x < unsorted.len() && 0 <= y < unsorted.len() && x != y implies unsorted[x]
                != unsorted[y] by {
                assert(unsorted[x].2 == x);
                assert(unsorted[y].2 == y);
            }
        }
        unsorted.lemma_multiset_has_no_duplicates();
        ranks@.lemma_multiset_has_no_duplicates_conv();
        let placed = entries_of(sorted@);
        assert forall|a: int, b: int|
            0 <= a < b < placed.len() && key_of(#[trigger] placed[a]) == key_of(
                #[trigger] placed[b],
            ) implies index_of_span(entries, placed[a].data) < index_of_span(
            entries,
            placed[b].data,
        ) by {
            let x = ranks@[a].2 as int;
            let y = ranks@[b].2 as int;
            assert(rank_leq(ranks@[a], ranks@[b]));
            assert(ranks@[a] != ranks@[b]);
            lemma_entry_le_size(entries, x);
            lemma_entry_le_size(entries, y);
            assert(x < y);
            lemma_index_of_span(entries, x);
            lemma_index_of_span(entries, y);
        }
    }
    sorted
}

} // verus!
