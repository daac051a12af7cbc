//! How much of one table of spans is found in another.
//!
//! The spans of the two tables are walked in the order of their hashes. A
//! span of the left table whose hash meets the hash of a span of the right
//! table counts as copied, with the smaller of the two byte counts. Where no
//! two spans of a table share a hash, what is copied is the sum, over the
//! hashes that both tables hold, of the smaller of the two byte counts. The
//! score is the share of the larger table that was copied, on the scale from
//! zero to `MAX_SCORE`.
use crate::order::{
    hash_keys, hash_order, key_fn, key_of, keys_of, keys_size, lemma_keys_size_of_members,
    lemma_map_keeps_members, lemma_sorted_keys, lemma_sorted_keys_unique, SpanKey, SpanOrder,
};
use crate::ratio::{is_share, no_share, Fraction, Ratio};
use crate::spanhash::{
    entries_of, entry_for, entry_wf, grown_entry, holds_span, index_of_span, lemma_same_entries,
    lemma_table_size, lemma_tally, lemma_tally_append, lemma_tally_from, same_entries,
    span_bytes, table_of, table_size, table_wf, tally, SpanEntry,
};
use crate::spans::{all_spans, lemma_split_spans_append, remainder, split_spans};
use vstd::prelude::*;
use vstd::seq_lib::to_multiset_contains;

pub use crate::spanhash::{SpanHasher, Spanhash, SpanhashTop};

verus! {

/// The score of two inputs that hold the same spans.
pub const MAX_SCORE: u64 = 60000;

/// The lowest score of interest. The sizes of two inputs that could reach
/// it differ by less than `(MAX_SCORE - MIN_SCORE) / MAX_SCORE` of the larger
/// size; inputs whose sizes differ by more are not compared.
pub const MIN_SCORE: u64 = 30000;

/// The smaller of two numbers.
pub open spec fn smaller(a: nat, b: nat) -> nat {
    if a < b {
        a
    } else {
        b
    }
}

/// The bytes copied from `left[i..]` to `right[j..]`. Keys of the right side
/// whose hash is below that of the current left key are passed over. A right
/// key with the same hash is matched with the left key: the smaller of the
/// two byte counts is copied. A left key that meets a larger hash is not
/// matched at all.
pub open spec fn copied_from(left: Seq<SpanKey>, right: Seq<SpanKey>, i: int, j: int) -> nat
    decreases left.len() - i + right.len() - j,
{
    if i < 0 || j < 0 || i >= left.len() || j >= right.len() {
        0
    } else if right[j].hashval < left[i].hashval {
        copied_from(left, right, i, j + 1)
    } else if right[j].hashval == left[i].hashval {
        smaller(left[i].occurrences, right[j].occurrences) + copied_from(left, right, i + 1, j + 1)
    } else {
        copied_from(left, right, i + 1, j)
    }
}

/// The bytes copied from the keys `left` to the keys `right`.
pub open spec fn copied_bytes(left: Seq<SpanKey>, right: Seq<SpanKey>) -> nat {
    copied_from(left, right, 0, 0)
}

/// The bytes of the left table that the right table holds too.
pub open spec fn source_copied(left: Seq<SpanEntry>, right: Seq<SpanEntry>) -> nat {
    copied_bytes(hash_keys(left), hash_keys(right))
}

/// The bytes of the right table that were not copied from the left one.
pub open spec fn literal_added(left: Seq<SpanEntry>, right: Seq<SpanEntry>) -> int {
    table_size(right) - source_copied(left, right)
}

/// The larger of the sizes of two tables.
pub open spec fn max_size(left: Seq<SpanEntry>, right: Seq<SpanEntry>) -> nat {
    if table_size(left) < table_size(right) {
        table_size(right)
    } else {
        table_size(left)
    }
}

/// The difference of the sizes of two tables.
pub open spec fn delta_size(left: Seq<SpanEntry>, right: Seq<SpanEntry>) -> nat {
    if table_size(left) < table_size(right) {
        (table_size(right) - table_size(left)) as nat
    } else {
        (table_size(left) - table_size(right)) as nat
    }
}

/// Whether the sizes of the two tables differ so much that the tables are
/// not compared: by `(MAX_SCORE - MIN_SCORE) / MAX_SCORE` of the larger size
/// or more.
pub open spec fn sizes_too_far_apart(left: Seq<SpanEntry>, right: Seq<SpanEntry>) -> bool {
    delta_size(left, right) * MAX_SCORE >= max_size(left, right) * (MAX_SCORE - MIN_SCORE)
}

/// The similarity of two tables. Two empty tables are as similar as can be.
/// An empty table and one that is not, or tables whose sizes are too far
/// apart, have nothing in common. The score of any other pair is the copied
/// share of the larger table.
pub open spec fn similarity_score(left: Seq<SpanEntry>, right: Seq<SpanEntry>) -> int {
    if table_size(left) == 0 && table_size(right) == 0 {
        MAX_SCORE as int
    } else if table_size(left) == 0 || table_size(right) == 0 {
        0
    } else if sizes_too_far_apart(left, right) {
        0
    } else {
        source_copied(left, right) * MAX_SCORE / (max_size(left, right) as int)
    }
}

/// The similarity of two tables as a share: the score is this share of
/// `MAX_SCORE`. Two empty tables share all, an empty table and one that is
/// not, or tables whose sizes are too far apart, share nothing, and any other
/// pair shares what was copied, out of the size of the larger table.
pub open spec fn similarity_share(left: Seq<SpanEntry>, right: Seq<SpanEntry>) -> Fraction {
    if table_size(left) == 0 && table_size(right) == 0 {
        Fraction { num: 1, den: 1 }
    } else if table_size(left) == 0 || table_size(right) == 0 {
        no_share()
    } else if sizes_too_far_apart(left, right) {
        no_share()
    } else {
        Fraction { num: source_copied(left, right), den: max_size(left, right) }
    }
}

/// The score is the similarity as a share, brought to the scale of `MAX_SCORE`
/// and rounded down.
pub proof fn lemma_score_of_share(left: Seq<SpanEntry>, right: Seq<SpanEntry>)
    ensures
        similarity_score(left, right) == similarity_share(left, right).num * MAX_SCORE / (
        similarity_share(left, right).den as int),
        is_share(similarity_share(left, right)),
{
    lemma_copied_bound(left, right);
    let share = similarity_share(left, right);
    if share.den == 1 {
        assert(share.num * MAX_SCORE / 1 == share.num * MAX_SCORE);
    }
}

/// The sum of the bytes of the first `n` keys.
pub open spec fn passed_size(keys: Seq<SpanKey>, n: int) -> nat {
    keys_size(keys.take(n))
}

/// One more key adds its bytes to the sum of the keys before it.
pub proof fn lemma_passed_size_step(keys: Seq<SpanKey>, n: int)
    requires
        0 <= n < keys.len(),
    ensures
        passed_size(keys, n + 1) == passed_size(keys, n) + keys[n].occurrences,
{
    assert(keys.take(n + 1).drop_last() =~= keys.take(n));
}

/// The first `n` keys do not sum up to more than all of them.
pub proof fn lemma_passed_size_bound(keys: Seq<SpanKey>, n: int)
    requires
        0 <= n <= keys.len(),
    ensures
        passed_size(keys, n) <= keys_size(keys),
    decreases keys.len() - n,
{
    if n < keys.len() {
        lemma_passed_size_step(keys, n);
        lemma_passed_size_bound(keys, n + 1);
    } else {
        assert(keys.take(n) =~= keys);
    }
}

/// What is copied from `left[i..]` to `right[j..]` is found in both.
pub proof fn lemma_copied_from_bound(left: Seq<SpanKey>, right: Seq<SpanKey>, i: int, j: int)
    requires
        0 <= i <= left.len(),
        0 <= j <= right.len(),
    ensures
        copied_from(left, right, i, j) + passed_size(left, i) <= keys_size(left),
        copied_from(left, right, i, j) + passed_size(right, j) <= keys_size(right),
    decreases left.len() - i + right.len() - j,
{
    lemma_passed_size_bound(left, i);
    lemma_passed_size_bound(right, j);
    if i >= left.len() || j >= right.len() {
    } else {
        lemma_passed_size_step(left, i);
        lemma_passed_size_step(right, j);
        if right[j].hashval < left[i].hashval {
            lemma_copied_from_bound(left, right, i, j + 1);
        } else if right[j].hashval == left[i].hashval {
            lemma_copied_from_bound(left, right, i + 1, j + 1);
        } else {
            lemma_copied_from_bound(left, right, i + 1, j);
        }
    }
}

/// No more is copied than either table holds.
pub proof fn lemma_copied_bound(left: Seq<SpanEntry>, right: Seq<SpanEntry>)
    ensures
        source_copied(left, right) <= table_size(left),
        source_copied(left, right) <= table_size(right),
        source_copied(left, right) <= max_size(left, right),
{
    lemma_sorted_keys(left, SpanOrder::ByHash);
    lemma_sorted_keys(right, SpanOrder::ByHash);
    lemma_copied_from_bound(hash_keys(left), hash_keys(right), 0, 0);
}

/// Count the bytes that the right table has from the left one, and those
/// that it has beside them.
pub fn count_changes(left: SpanhashTop, right: SpanhashTop) -> (changes: (usize, usize))
    ensures
        changes.0 == source_copied(left@, right@),
        changes.1 == literal_added(left@, right@),
{
    let ghost left_keys = hash_keys(left@);
    let ghost right_keys = hash_keys(right@);
    let source = left.into_hash_order();
    let dest = right.into_hash_order();
    proof {
        lemma_sorted_keys(left@, SpanOrder::ByHash);
        lemma_sorted_keys(right@, SpanOrder::ByHash);
        assert(keys_size(right_keys) <= usize::MAX);
        assert(left_keys.len() == source@.len());
        assert(right_keys.len() == dest@.len());
        assert(right_keys.take(0) =~= Seq::<SpanKey>::empty());
    }
    let mut added: usize = 0;
    let mut copied: usize = 0;
    let mut i: usize = 0;
    let mut j: usize = 0;
    while i < source.len()
        invariant
            left_keys == keys_of(entries_of(source@)),
            right_keys == keys_of(entries_of(dest@)),
            keys_size(right_keys) <= usize::MAX,
            i <= source@.len(),
            j <= dest@.len(),
            copied + copied_from(left_keys, right_keys, i as int, j as int) == copied_bytes(
                left_keys,
                right_keys,
            ),
            copied + added == passed_size(right_keys, j as int),
        decreases source@.len() - i,
    {
        let hashval: u64 = source[i].hashval();
        while j < dest.len() && dest[j].hashval() < hashval
            invariant
                left_keys == keys_of(entries_of(source@)),
                right_keys == keys_of(entries_of(dest@)),
                keys_size(right_keys) <= usize::MAX,
                i < source@.len(),
                j <= dest@.len(),
                hashval == left_keys[i as int].hashval,
                copied + copied_from(left_keys, right_keys, i as int, j as int)
                    == copied_bytes(left_keys, right_keys),
                copied + added == passed_size(right_keys, j as int),
            decreases dest@.len() - j,
        {
            proof {
                lemma_passed_size_step(right_keys, j as int);
                lemma_passed_size_bound(right_keys, j + 1);
            }
            added = added + dest[j].occurrences();
            j += 1;
        }
        let src_cnt: usize = source[i].occurrences();
        let mut dst_cnt: usize = 0;
        if j < dest.len() && dest[j].hashval() == hashval {
            proof {
                lemma_passed_size_step(right_keys, j as int);
                lemma_passed_size_bound(right_keys, j + 1);
            }
            dst_cnt = dest[j].occurrences();
            j += 1;
        }
        if src_cnt < dst_cnt {
            added = added + (dst_cnt - src_cnt);
            copied = copied + src_cnt;
        } else {
            copied = copied + dst_cnt;
        }
        i += 1;
    }
    while j < dest.len()
        invariant
            right_keys == keys_of(entries_of(dest@)),
            keys_size(right_keys) <= usize::MAX,
            j <= dest@.len(),
            copied == copied_bytes(left_keys, right_keys),
            copied + added == passed_size(right_keys, j as int),
        decreases dest@.len() - j,
    {
        proof {
            lemma_passed_size_step(right_keys, j as int);
            lemma_passed_size_bound(right_keys, j + 1);
        }
        added = added + dest[j].occurrences();
        j += 1;
    }
    assert(right_keys.take(j as int) =~= right_keys);
    (copied, added)
}

/// Estimate the similarity of two tables as a share between zero and one.
pub fn estimate_share(left: SpanhashTop, right: SpanhashTop) -> (share: Ratio)
    ensures
        share@ == similarity_share(left@, right@),
{
    let left_size: usize = left.len();
    let right_size: usize = right.len();
    // An empty table is not compared.
    if left_size == 0 && right_size == 0 {
        return Ratio::one();
    }
    if left_size == 0 || right_size == 0 {
        return Ratio::zero();
    }
    let larger: usize = if left_size < right_size {
        right_size
    } else {
        left_size
    };
    let base: usize = if left_size < right_size {
        left_size
    } else {
        right_size
    };
    let delta: usize = larger - base;
    // Edits that change the size this much are not looked at.
    let margin: u128 = (MAX_SCORE - MIN_SCORE) as u128;
    assert(larger * margin <= u128::MAX) by (nonlinear_arith)
        requires
            larger <= u64::MAX,
            margin == 30000,
    ;
    if delta as u128 * MAX_SCORE as u128 >= larger as u128 * margin {
        return Ratio::zero();
    }
    proof {
        lemma_copied_bound(left@, right@);
    }
    let (copied, _) = count_changes(left, right);
    Ratio::of(copied, larger)
}

/// Estimate the similarity of two tables: `MAX_SCORE` for tables that hold
/// the same spans, zero for tables that have nothing in common.
pub fn estimate_similarity(left: SpanhashTop, right: SpanhashTop) -> (score: u64)
    ensures
        score == similarity_score(left@, right@),
        score <= MAX_SCORE,
{
    proof {
        lemma_score_of_share(left@, right@);
        lemma_score_in_range(left@, right@);
    }
    let share = estimate_share(left, right);
    let num: usize = share.num();
    let den: usize = share.den();
    assert(num * MAX_SCORE <= u64::MAX * MAX_SCORE) by (nonlinear_arith)
        requires
            num <= u64::MAX,
    ;
    let score: u128 = num as u128 * MAX_SCORE as u128 / den as u128;
    score as u64
}

/// The similarity of two streams of bytes: the similarity of their tables.
pub open spec fn stream_score(left: Seq<u8>, right: Seq<u8>, is_binary: bool) -> int {
    similarity_score(table_of(left, is_binary), table_of(right, is_binary))
}

/// Estimate the similarity of two streams of bytes, which are both text or
/// both binary data.
pub fn estimate_similarity_of_bytes(left: &[u8], right: &[u8], is_binary: bool) -> (score: u64)
    ensures
        score == stream_score(left@, right@, is_binary),
        score <= MAX_SCORE,
{
    estimate_similarity(
        SpanhashTop::from_bytes(left, is_binary),
        SpanhashTop::from_bytes(right, is_binary),
    )
}

/// Keys walked against themselves are copied in full.
pub proof fn lemma_copied_from_self(keys: Seq<SpanKey>, i: int)
    requires
        0 <= i <= keys.len(),
    ensures
        copied_from(keys, keys, i, i) + passed_size(keys, i) == keys_size(keys),
    decreases keys.len() - i,
{
    if i < keys.len() {
        lemma_passed_size_step(keys, i);
        lemma_copied_from_self(keys, i + 1);
    } else {
        assert(keys.take(i) =~= keys);
    }
}

/// A table compared with itself gets the highest score: the same content is
/// as similar as can be.
pub proof fn lemma_same_table_scores_max(table: Seq<SpanEntry>)
    ensures
        source_copied(table, table) == table_size(table),
        similarity_score(table, table) == MAX_SCORE,
{
    let keys = hash_keys(table);
    lemma_sorted_keys(table, SpanOrder::ByHash);
    lemma_copied_from_self(keys, 0);
    assert(keys.take(0) =~= Seq::<SpanKey>::empty());
    let size = table_size(table);
    if size > 0 {
        assert(size * MAX_SCORE / (size as int) == MAX_SCORE) by (nonlinear_arith)
            requires
                size > 0,
        ;
        assert(max_size(table, table) * (MAX_SCORE - MIN_SCORE) > 0) by (nonlinear_arith)
            requires
                max_size(table, table) > 0,
                MAX_SCORE - MIN_SCORE > 0,
        ;
    }
}

/// A stream compared with itself gets the highest score, as text and as
/// binary data.
pub proof fn lemma_same_stream_scores_max(data: Seq<u8>, is_binary: bool)
    ensures
        stream_score(data, data, is_binary) == MAX_SCORE,
{
    lemma_same_table_scores_max(table_of(data, is_binary));
}

/// A table holds no entry twice.
pub proof fn lemma_no_entry_twice(entries: Seq<SpanEntry>)
    requires
        table_wf(entries),
    ensures
        entries.no_duplicates(),
{
    assert forall|i: int, j: int|
        0 <= i < entries.len() && 0 <= j < entries.len() && i != j implies entries[i]
        != entries[j] by {
        if i < j {
            assert(entries[i].data != entries[j].data);
        } else {
            assert(entries[j].data != entries[i].data);
        }
    }
}

/// Tables that record the same of every span have the same members.
pub proof fn lemma_same_entries_same_members(a: Seq<SpanEntry>, b: Seq<SpanEntry>)
    requires
        table_wf(a),
        table_wf(b),
        same_entries(a, b),
    ensures
        a.to_multiset() == b.to_multiset(),
{
    lemma_same_entries(a, b);
    lemma_no_entry_twice(a);
    lemma_no_entry_twice(b);
    a.lemma_multiset_has_no_duplicates();
    b.lemma_multiset_has_no_duplicates();
    assert forall|e: SpanEntry| a.to_multiset().count(e) == b.to_multiset().count(e) by {
        to_multiset_contains(a, e);
        to_multiset_contains(b, e);
        if a.contains(e) {
            let i = choose|i: int| 0 <= i < a.len() && a[i] == e;
            assert(entry_for(b, a[i].data) == Some(a[i]));
            assert(b[index_of_span(b, e.data)] == e);
        }
        if b.contains(e) {
            let j = choose|j: int| 0 <= j < b.len() && b[j] == e;
            assert(entry_for(a, b[j].data) == Some(b[j]));
            assert(a[index_of_span(a, e.data)] == e);
        }
    }
    assert(a.to_multiset() =~= b.to_multiset());
}

/// The order in which a table records its spans is of no account: tables
/// that record the same of every span have the same keys in the order of hashes,
/// the same size, and the same score against any other table.
pub proof fn lemma_order_is_irrelevant(a: Seq<SpanEntry>, b: Seq<SpanEntry>, other: Seq<SpanEntry>)
    requires
        table_wf(a),
        table_wf(b),
        same_entries(a, b),
    ensures
        hash_keys(a) == hash_keys(b),
        table_size(a) == table_size(b),
        similarity_score(a, other) == similarity_score(b, other),
        similarity_score(other, a) == similarity_score(other, b),
{
    lemma_same_entries_same_members(a, b);
    lemma_map_keeps_members(a, b, key_fn());
    lemma_sorted_keys(a, SpanOrder::ByHash);
    lemma_sorted_keys(b, SpanOrder::ByHash);
    lemma_sorted_keys_unique(hash_keys(a), b, SpanOrder::ByHash);
}

/// Two empty tables get the highest score, and an empty table has nothing in
/// common with one that is not empty, whichever side it stands on.
pub proof fn lemma_empty_table_scores(left: Seq<SpanEntry>, right: Seq<SpanEntry>)
    ensures
        table_size(left) == 0 && table_size(right) == 0 ==> similarity_score(left, right)
            == MAX_SCORE,
        table_size(left) == 0 && table_size(right) > 0 ==> similarity_score(left, right) == 0,
        table_size(left) > 0 && table_size(right) == 0 ==> similarity_score(left, right) == 0,
{
}

/// Whether no two entries have the same hash.
pub open spec fn distinct_hashes(entries: Seq<SpanEntry>) -> bool {
    distinct_key_hashes(keys_of(entries))
}

/// Whether no two keys have the same hash.
pub open spec fn distinct_key_hashes(keys: Seq<SpanKey>) -> bool {
    forall|i: int, j: int|
        0 <= i < j < keys.len() ==> (#[trigger] keys[i]).hashval != (#[trigger] keys[j]).hashval
}

/// Whether `keys` hold a key with the hash `hashval`.
pub open spec fn holds_hash(keys: Seq<SpanKey>, hashval: u64) -> bool {
    exists|j: int| 0 <= j < keys.len() && (#[trigger] keys[j]).hashval == hashval
}

/// The bytes that `keys` hold under the hash `hashval`: the bytes of the key
/// with that hash, and none where no key has it.
pub open spec fn bytes_under(keys: Seq<SpanKey>, hashval: u64) -> nat {
    if holds_hash(keys, hashval) {
        keys[choose|j: int| 0 <= j < keys.len() && (#[trigger] keys[j]).hashval == hashval].occurrences
    } else {
        0
    }
}

/// What both sides hold under the hash of a key of the left side: the
/// smaller of the bytes of the key and the bytes that `right` holds under
/// its hash.
pub open spec fn shared_key(right: Seq<SpanKey>) -> spec_fn(SpanKey) -> SpanKey {
    |key: SpanKey|
        SpanKey {
            hashval: key.hashval,
            occurrences: smaller(key.occurrences, bytes_under(right, key.hashval)),
        }
}

/// The sum, over the keys of `left`, of the smaller of the bytes of the key
/// and the bytes that `right` holds under its hash.
pub open spec fn shared_size(left: Seq<SpanKey>, right: Seq<SpanKey>) -> nat {
    keys_size(left.map_values(shared_key(right)))
}

/// The bytes that two tables have in common: the sum, over the hashes that
/// both tables hold, of the smaller of the two byte counts.
pub open spec fn common_bytes(left: Seq<SpanEntry>, right: Seq<SpanEntry>) -> nat {
    shared_size(keys_of(left), keys_of(right))
}

/// Among keys with distinct hashes a key holds the bytes under its hash.
pub proof fn lemma_bytes_under(keys: Seq<SpanKey>, j: int)
    requires
        distinct_key_hashes(keys),
        0 <= j < keys.len(),
    ensures
        holds_hash(keys, keys[j].hashval),
        bytes_under(keys, keys[j].hashval) == keys[j].occurrences,
{
    let h = keys[j].hashval;
    assert(holds_hash(keys, h));
    let k = choose|k: int| 0 <= k < keys.len() && (#[trigger] keys[k]).hashval == h;
    if k < j {
        assert(keys[k].hashval != keys[j].hashval);
    } else if k > j {
        assert(keys[j].hashval != keys[k].hashval);
    }
}

/// Keys with distinct hashes keep distinct hashes where they are rearranged,
/// and hold the same bytes under every hash.
pub proof fn lemma_distinct_hashes_of_members(x: Seq<SpanKey>, y: Seq<SpanKey>)
    requires
        x.to_multiset() == y.to_multiset(),
        distinct_key_hashes(x),
    ensures
        distinct_key_hashes(y),
        forall|h: u64| #[trigger] bytes_under(x, h) == bytes_under(y, h),
{
    assert(x.no_duplicates()) by {
        assert forall|i: int, j: int| 0 <= i < x.len() && 0 <= j < x.len() && i != j implies x[i]
            != x[j] by {
            if i < j {
                assert(x[i].hashval != x[j].hashval);
            } else {
                assert(x[j].hashval != x[i].hashval);
            }
        }
    }
    x.lemma_multiset_has_no_duplicates();
    y.lemma_multiset_has_no_duplicates_conv();
    // Each member of one is a member of the other.
    assert forall|k: SpanKey| #[trigger] x.contains(k) <==> y.contains(k) by {
        to_multiset_contains(x, k);
        to_multiset_contains(y, k);
    }
    assert forall|a: int, b: int| 0 <= a < b < y.len() implies (#[trigger] y[a]).hashval != (
    #[trigger] y[b]).hashval by {
        assert(y.contains(y[a]) && y.contains(y[b]));
        assert(x.contains(y[a]) && x.contains(y[b]));
        let i = choose|i: int| 0 <= i < x.len() && x[i] == y[a];
        let j = choose|j: int| 0 <= j < x.len() && x[j] == y[b];
        if i < j {
            assert(x[i].hashval != x[j].hashval);
        } else if j < i {
            assert(x[j].hashval != x[i].hashval);
        }
    }
    assert forall|h: u64| #[trigger] bytes_under(x, h) == bytes_under(y, h) by {
        if holds_hash(x, h) {
            let i = choose|i: int| 0 <= i < x.len() && (#[trigger] x[i]).hashval == h;
            assert(x.contains(x[i]));
            assert(y.contains(x[i]));
            let m = choose|m: int| 0 <= m < y.len() && y[m] == x[i];
            lemma_bytes_under(x, i);
            lemma_bytes_under(y, m);
        } else if holds_hash(y, h) {
            let m = choose|m: int| 0 <= m < y.len() && (#[trigger] y[m]).hashval == h;
            assert(y.contains(y[m]));
            assert(x.contains(y[m]));
            let i = choose|i: int| 0 <= i < x.len() && x[i] == y[m];
            assert(x[i].hashval == h);
        }
    }
}

/// One more key of the left side adds what both sides hold under its hash.
pub proof fn lemma_shared_size_step(left: Seq<SpanKey>, right: Seq<SpanKey>, i: int)
    requires
        0 <= i < left.len(),
    ensures
        shared_size(left.take(i + 1), right) == shared_size(left.take(i), right) + smaller(
            left[i].occurrences,
            bytes_under(right, left[i].hashval),
        ),
{
    let shared = shared_key(right);
    assert(left.take(i + 1).map_values(shared).drop_last() =~= left.take(i).map_values(shared));
}

/// The walk over keys in ascending order of hash, no hash twice on either
/// side, copies what both sides hold under each hash.
pub proof fn lemma_copied_from_shared(left: Seq<SpanKey>, right: Seq<SpanKey>, i: int, j: int)
    requires
        hashes_ascend(left),
        hashes_ascend(right),
        0 <= i <= left.len(),
        0 <= j <= right.len(),
        i < left.len() ==> forall|b: int|
            0 <= b < j ==> (#[trigger] right[b]).hashval < left[i].hashval,
    ensures
        copied_from(left, right, i, j) + shared_size(left.take(i), right) == shared_size(
            left,
            right,
        ),
    decreases left.len() - i + right.len() - j,
{
    if i >= left.len() {
        assert(left.take(i) =~= left);
    } else {
        lemma_shared_size_step(left, right, i);
        let h = left[i].hashval;
        if j < right.len() && right[j].hashval < h {
            lemma_copied_from_shared(left, right, i, j + 1);
        } else {
            if j < right.len() && right[j].hashval == h {
                lemma_bytes_under(right, j);
            } else {
                // No key of the right side has the hash of the left key.
                assert(!holds_hash(right, h)) by {
                    if holds_hash(right, h) {
                        let b = choose|b: int|
                            0 <= b < right.len() && (#[trigger] right[b]).hashval == h;
                        if b > j {
                            assert(right[j].hashval < right[b].hashval);
                        }
                    }
                }
            }
            let next = if j < right.len() && right[j].hashval == h {
                j + 1
            } else {
                j
            };
            if i + 1 < left.len() {
                assert(left[i].hashval < left[i + 1].hashval);
            }
            lemma_copied_from_shared(left, right, i + 1, next);
        }
    }
}

/// Whether the hashes of the keys ascend, no hash twice.
pub open spec fn hashes_ascend(keys: Seq<SpanKey>) -> bool {
    forall|a: int, b: int|
        0 <= a < b < keys.len() ==> (#[trigger] keys[a]).hashval < (#[trigger] keys[b]).hashval
}

/// The keys of a table without a hash twice, in the order of hashes, ascend,
/// and hold under every hash what the keys of the table hold.
pub proof fn lemma_hash_keys_ascend(entries: Seq<SpanEntry>)
    requires
        distinct_hashes(entries),
    ensures
        hashes_ascend(hash_keys(entries)),
        forall|h: u64| #[trigger] bytes_under(keys_of(entries), h) == bytes_under(hash_keys(entries), h),
{
    let keys = hash_keys(entries);
    lemma_sorted_keys(entries, SpanOrder::ByHash);
    lemma_distinct_hashes_of_members(keys_of(entries), keys);
    assert forall|a: int, b: int| 0 <= a < b < keys.len() implies (#[trigger] keys[a]).hashval < (
    #[trigger] keys[b]).hashval by {
        assert(hash_order()(keys[a], keys[b]));
    }
}

/// Where no two spans of a table share a hash, what is copied is the sum,
/// over the hashes that both tables hold, of the smaller of the two byte
/// counts.
pub proof fn lemma_copied_is_common_bytes(left: Seq<SpanEntry>, right: Seq<SpanEntry>)
    requires
        distinct_hashes(left),
        distinct_hashes(right),
    ensures
        source_copied(left, right) == common_bytes(left, right),
{
    let l = hash_keys(left);
    let r = hash_keys(right);
    lemma_sorted_keys(left, SpanOrder::ByHash);
    lemma_sorted_keys(right, SpanOrder::ByHash);
    lemma_hash_keys_ascend(left);
    lemma_hash_keys_ascend(right);
    lemma_copied_from_shared(l, r, 0, 0);
    assert(l.take(0).map_values(shared_key(r)) =~= Seq::<SpanKey>::empty());
    // The sum does not depend on the order of the keys on either side.
    lemma_map_keeps_members(l, keys_of(left), shared_key(r));
    lemma_keys_size_of_members(
        l.map_values(shared_key(r)),
        keys_of(left).map_values(shared_key(r)),
    );
    assert(keys_of(left).map_values(shared_key(r)) =~= keys_of(left).map_values(
        shared_key(keys_of(right)),
    ));
}

/// Whether entries with unlike contents have unlike hashes.
pub open spec fn hashes_tell_apart(entries: Seq<SpanEntry>) -> bool {
    forall|i: int, j: int|
        0 <= i < entries.len() && 0 <= j < entries.len() && (#[trigger] entries[i]).data != (
        #[trigger] entries[j]).data ==> entries[i].hashval != entries[j].hashval
}

/// Whether spans with unlike contents have unlike hashes, within the two
/// tables and across them.
pub open spec fn hashes_tell_spans_apart(left: Seq<SpanEntry>, right: Seq<SpanEntry>) -> bool {
    hashes_tell_apart(left + right)
}

/// A table whose hashes tell its spans apart has no hash twice.
pub proof fn lemma_hashes_apart_are_distinct(entries: Seq<SpanEntry>, others: Seq<SpanEntry>)
    requires
        table_wf(entries),
        hashes_tell_apart(entries + others) || hashes_tell_apart(others + entries),
    ensures
        distinct_hashes(entries),
{
    let shift = if hashes_tell_apart(entries + others) {
        0
    } else {
        others.len() as int
    };
    let all = if hashes_tell_apart(entries + others) {
        entries + others
    } else {
        others + entries
    };
    assert forall|a: int, b: int| 0 <= a < b < entries.len() implies (
    #[trigger] keys_of(entries)[a]).hashval != (#[trigger] keys_of(entries)[b]).hashval by {
        assert(entries[a].data != entries[b].data);
        assert(all[shift + a] == entries[a] && all[shift + b] == entries[b]);
    }
}

/// The bytes that a table holds of the span `content`, none where it does
/// not hold the span.
pub open spec fn bytes_of_span(entries: Seq<SpanEntry>, content: Seq<u8>) -> nat {
    match entry_for(entries, content) {
        Some(entry) => entry.occurrences,
        None => 0,
    }
}

/// The sum, over the spans of `left`, of the smaller of the bytes that the
/// two tables hold of the span: the sum over the spans that both hold.
pub open spec fn common_span_bytes(left: Seq<SpanEntry>, right: Seq<SpanEntry>) -> nat
    decreases left.len(),
{
    if left.len() == 0 {
        0
    } else {
        common_span_bytes(left.drop_last(), right) + smaller(
            left.last().occurrences,
            bytes_of_span(right, left.last().data),
        )
    }
}

/// Where a span of the left table and a span of the right table have the
/// same hash only if they are the same span, the right table holds under
/// the hash of a span what it holds of the span.
pub proof fn lemma_bytes_under_hash_of_span(
    left: Seq<SpanEntry>,
    right: Seq<SpanEntry>,
    i: int,
)
    requires
        table_wf(left),
        table_wf(right),
        hashes_tell_spans_apart(left, right),
        0 <= i < left.len(),
    ensures
        distinct_hashes(left),
        distinct_hashes(right),
        bytes_under(keys_of(right), left[i].hashval) == bytes_of_span(right, left[i].data),
{
    let all = left + right;
    let keys = keys_of(right);
    lemma_hashes_apart_are_distinct(left, right);
    lemma_hashes_apart_are_distinct(right, left);
    let content = left[i].data;
    assert(all[i] == left[i]);
    if holds_span(right, content) {
        let j = index_of_span(right, content);
        assert(entry_wf(left[i]) && entry_wf(right[j]));
        lemma_bytes_under(keys, j);
    } else if holds_hash(keys, left[i].hashval) {
        let j = choose|j: int| 0 <= j < keys.len() && (#[trigger] keys[j]).hashval == left[i].hashval;
        assert(all[left.len() + j] == right[j]);
        assert(right[j].data != content);
    }
}

/// Where spans with unlike contents have unlike hashes, what is copied is the
/// sum, over the spans that both tables hold, of the smaller of the two
/// byte counts.
pub proof fn lemma_copied_is_common_span_bytes(left: Seq<SpanEntry>, right: Seq<SpanEntry>)
    requires
        table_wf(left),
        table_wf(right),
        hashes_tell_spans_apart(left, right),
    ensures
        source_copied(left, right) == common_span_bytes(left, right),
{
    lemma_hashes_apart_are_distinct(left, right);
    lemma_hashes_apart_are_distinct(right, left);
    lemma_copied_is_common_bytes(left, right);
    lemma_common_bytes_by_span(left, right, left.len() as int);
    assert(left.take(left.len() as int) =~= left);
}

/// The sums by hash and by span agree on the first `n` spans of `left`.
pub proof fn lemma_common_bytes_by_span(left: Seq<SpanEntry>, right: Seq<SpanEntry>, n: int)
    requires
        table_wf(left),
        table_wf(right),
        hashes_tell_spans_apart(left, right),
        0 <= n <= left.len(),
    ensures
        shared_size(keys_of(left.take(n)), keys_of(right)) == common_span_bytes(left.take(n), right),
    decreases n,
{
    let shared = shared_key(keys_of(right));
    if n > 0 {
        lemma_common_bytes_by_span(left, right, n - 1);
        lemma_bytes_under_hash_of_span(left, right, n - 1);
        assert(left.take(n).drop_last() =~= left.take(n - 1));
        assert(keys_of(left.take(n)).map_values(shared).drop_last() =~= keys_of(
            left.take(n - 1),
        ).map_values(shared));
    }
}

/// Two empty streams get the highest score, and the empty stream has
/// nothing in common with a stream that holds a byte, whichever side it
/// stands on and whether or not the stream ends in a newline.
pub proof fn lemma_empty_stream_scores(data: Seq<u8>, is_binary: bool)
    ensures
        stream_score(Seq::empty(), Seq::empty(), is_binary) == MAX_SCORE,
        data.len() > 0 ==> stream_score(Seq::empty(), data, is_binary) == 0,
        data.len() > 0 ==> stream_score(data, Seq::empty(), is_binary) == 0,
{
    lemma_table_size(Seq::empty(), is_binary);
    lemma_table_size(data, is_binary);
}

/// Whether no span of one table has the hash of a span of the other.
pub open spec fn no_common_hash(left: Seq<SpanEntry>, right: Seq<SpanEntry>) -> bool {
    forall|i: int, j: int|
        0 <= i < left.len() && 0 <= j < right.len() ==> (#[trigger] left[i]).hashval != (
        #[trigger] right[j]).hashval
}

/// Keys without a common hash copy nothing.
pub proof fn lemma_copied_from_apart(left: Seq<SpanKey>, right: Seq<SpanKey>, i: int, j: int)
    requires
        forall|a: int, b: int|
            0 <= a < left.len() && 0 <= b < right.len() ==> (#[trigger] left[a]).hashval != (
            #[trigger] right[b]).hashval,
    ensures
        copied_from(left, right, i, j) == 0,
    decreases left.len() - i + right.len() - j,
{
    if i < 0 || j < 0 || i >= left.len() || j >= right.len() {
    } else {
        assert(left[i].hashval != right[j].hashval);
        if right[j].hashval < left[i].hashval {
            lemma_copied_from_apart(left, right, i, j + 1);
        } else {
            lemma_copied_from_apart(left, right, i + 1, j);
        }
    }
}

/// Every sorted key of a table is the key of one of its entries.
pub proof fn lemma_hash_key_is_of_entry(entries: Seq<SpanEntry>, a: int)
    requires
        0 <= a < hash_keys(entries).len(),
    ensures
        exists|i: int|
            0 <= i < entries.len() && key_of(#[trigger] entries[i]) == hash_keys(entries)[a],
{
    let keys = hash_keys(entries);
    lemma_sorted_keys(entries, SpanOrder::ByHash);
    to_multiset_contains(keys, keys[a]);
    to_multiset_contains(keys_of(entries), keys[a]);
    assert(keys.contains(keys[a]));
    let i = choose|i: int| 0 <= i < keys_of(entries).len() && keys_of(entries)[i] == keys[a];
    assert(key_of(entries[i]) == keys[a]);
}

/// Tables without a common hash, as the tables of files without a common
/// span are, copy nothing, and score zero unless both are empty.
pub proof fn lemma_tables_apart_score_zero(left: Seq<SpanEntry>, right: Seq<SpanEntry>)
    requires
        no_common_hash(left, right),
    ensures
        source_copied(left, right) == 0,
        table_size(left) > 0 || table_size(right) > 0 ==> similarity_score(left, right) == 0,
{
    let left_keys = hash_keys(left);
    let right_keys = hash_keys(right);
    assert forall|a: int, b: int|
        0 <= a < left_keys.len() && 0 <= b < right_keys.len() implies (
    #[trigger] left_keys[a]).hashval != (#[trigger] right_keys[b]).hashval by {
        lemma_hash_key_is_of_entry(left, a);
        lemma_hash_key_is_of_entry(right, b);
        let i = choose|i: int| 0 <= i < left.len() && key_of(#[trigger] left[i]) == left_keys[a];
        let j = choose|j: int|
            0 <= j < right.len() && key_of(#[trigger] right[j]) == right_keys[b];
        assert(left[i].hashval != right[j].hashval);
    }
    lemma_copied_from_apart(left_keys, right_keys, 0, 0);
    let largest = max_size(left, right);
    if largest > 0 {
        assert(0 * MAX_SCORE / (largest as int) == 0) by (nonlinear_arith)
            requires
                largest > 0,
        ;
    }
}

/// Tables whose sizes differ by more than the allowed share of the larger
/// size score zero, whatever they hold.
pub proof fn lemma_distant_sizes_score_zero(left: Seq<SpanEntry>, right: Seq<SpanEntry>)
    requires
        delta_size(left, right) * MAX_SCORE > max_size(left, right) * (MAX_SCORE - MIN_SCORE),
    ensures
        similarity_score(left, right) == 0,
{
}

/// The score lies between zero and `MAX_SCORE`.
pub proof fn lemma_score_in_range(left: Seq<SpanEntry>, right: Seq<SpanEntry>)
    ensures
        0 <= similarity_score(left, right) <= MAX_SCORE,
{
    lemma_copied_bound(left, right);
    let copied = source_copied(left, right);
    let largest = max_size(left, right);
    if largest > 0 {
        assert(0 <= copied * MAX_SCORE / (largest as int) <= MAX_SCORE) by (nonlinear_arith)
            requires
                copied <= largest,
                largest > 0,
                MAX_SCORE == 60000,
        ;
    }
}

/// An entry whose span occurs twice as often.
pub open spec fn doubled_entry(entry: SpanEntry) -> SpanEntry {
    SpanEntry {
        data: entry.data,
        hashval: entry.hashval,
        occurrences: entry.occurrences + entry.occurrences,
    }
}

/// `doubled_entry` as a function value.
pub open spec fn doubled_entry_fn() -> spec_fn(SpanEntry) -> SpanEntry {
    |entry: SpanEntry| doubled_entry(entry)
}

/// A table in which every span occurs twice as often, as the table of a
/// stream that is followed by a copy of itself.
pub open spec fn doubled(entries: Seq<SpanEntry>) -> Seq<SpanEntry> {
    entries.map_values(doubled_entry_fn())
}

/// A key with twice the bytes.
pub open spec fn doubled_key(key: SpanKey) -> SpanKey {
    SpanKey { hashval: key.hashval, occurrences: key.occurrences + key.occurrences }
}

/// `doubled_key` as a function value.
pub open spec fn doubled_key_fn() -> spec_fn(SpanKey) -> SpanKey {
    |key: SpanKey| doubled_key(key)
}

/// Doubling every span of a table keeps the order of its keys.
pub proof fn lemma_doubled_hash_keys(entries: Seq<SpanEntry>)
    ensures
        hash_keys(doubled(entries)) == hash_keys(entries).map_values(doubled_key_fn()),
{
    let keys = hash_keys(entries);
    let twice = keys.map_values(doubled_key_fn());
    lemma_sorted_keys(entries, SpanOrder::ByHash);
    lemma_map_keeps_members(keys, keys_of(entries), doubled_key_fn());
    assert(keys_of(entries).map_values(doubled_key_fn()) =~= keys_of(doubled(entries)));
    assert forall|a: int, b: int| 0 <= a < b < twice.len() implies #[trigger] hash_order()(
        twice[a],
        twice[b],
    ) by {
        assert(hash_order()(keys[a], keys[b]));
    }
    lemma_sorted_keys_unique(twice, doubled(entries), SpanOrder::ByHash);
}

/// Whether `more` holds the hashes of `keys`, each with at least as many bytes.
pub open spec fn keys_grown(keys: Seq<SpanKey>, more: Seq<SpanKey>) -> bool {
    &&& keys.len() == more.len()
    &&& forall|i: int|
        0 <= i < keys.len() ==> (#[trigger] keys[i]).hashval == more[i].hashval
            && keys[i].occurrences <= more[i].occurrences
}

/// More bytes under the same hashes never lower what is copied.
pub proof fn lemma_copied_from_grows(
    left: Seq<SpanKey>,
    right: Seq<SpanKey>,
    more_left: Seq<SpanKey>,
    more_right: Seq<SpanKey>,
    i: int,
    j: int,
)
    requires
        keys_grown(left, more_left),
        keys_grown(right, more_right),
    ensures
        copied_from(left, right, i, j) <= copied_from(more_left, more_right, i, j),
    decreases left.len() - i + right.len() - j,
{
    if i < 0 || j < 0 || i >= left.len() || j >= right.len() {
    } else {
        assert(left[i].hashval == more_left[i].hashval);
        assert(right[j].hashval == more_right[j].hashval);
        if right[j].hashval < left[i].hashval {
            lemma_copied_from_grows(left, right, more_left, more_right, i, j + 1);
        } else if right[j].hashval == left[i].hashval {
            lemma_copied_from_grows(left, right, more_left, more_right, i + 1, j + 1);
        } else {
            lemma_copied_from_grows(left, right, more_left, more_right, i + 1, j);
        }
    }
}

/// Doubling every span of one table, as by appending a stream to itself,
/// never lowers the number of bytes that count as copied.
pub proof fn lemma_doubling_keeps_copied(left: Seq<SpanEntry>, right: Seq<SpanEntry>)
    ensures
        source_copied(doubled(left), right) >= source_copied(left, right),
        source_copied(left, doubled(right)) >= source_copied(left, right),
{
    let left_keys = hash_keys(left);
    let right_keys = hash_keys(right);
    lemma_doubled_hash_keys(left);
    lemma_doubled_hash_keys(right);
    lemma_copied_from_grows(
        left_keys,
        right_keys,
        left_keys.map_values(doubled_key_fn()),
        right_keys,
        0,
        0,
    );
    lemma_copied_from_grows(
        left_keys,
        right_keys,
        left_keys,
        right_keys.map_values(doubled_key_fn()),
        0,
        0,
    );
}

/// The table of a sequence of spans that is followed by a copy of itself
/// is the table of the sequence with every span doubled.
pub proof fn lemma_tally_twice(spans: Seq<Seq<u8>>)
    ensures
        tally(spans + spans) == doubled(tally(spans)),
{
    let once = tally(spans);
    let twice = tally(spans + spans);
    lemma_tally(spans);
    lemma_tally_append(spans, spans);
    lemma_tally_from(once, spans);
    assert(twice.len() == once.len()) by {
        if twice.len() > once.len() {
            let extra = twice[once.len() as int];
            assert(spans.contains(extra.data));
            let k = choose|k: int| 0 <= k < spans.len() && spans[k] == extra.data;
            assert(holds_span(once, spans[k]));
            let i = index_of_span(once, spans[k]);
            assert(twice[i].data == once[i].data);
            assert(twice[i].data != twice[once.len() as int].data);
        }
    }
    assert forall|i: int| 0 <= i < once.len() implies twice[i] == doubled(once)[i] by {
        assert(twice[i] == grown_entry(once[i], span_bytes(spans, once[i].data)));
    }
    assert(twice =~= doubled(once));
}

/// The table of a stream that ends with a complete span, and is followed
/// by a copy of itself, is the table of the stream with every span doubled.
/// Where bytes stand behind the last complete span, they and the first span
/// of the copy are one span, which the stream alone does not hold.
pub proof fn lemma_stream_twice(data: Seq<u8>, is_binary: bool)
    requires
        remainder(data).len() == 0,
    ensures
        table_of(data + data, is_binary) == doubled(table_of(data, is_binary)),
{
    lemma_split_spans_append(data, data, is_binary);
    assert(remainder(data) + data =~= data);
    assert(all_spans(data, is_binary) =~= split_spans(data, is_binary));
    assert(all_spans(data + data, is_binary) =~= split_spans(data, is_binary) + split_spans(
        data,
        is_binary,
    ));
    lemma_tally_twice(split_spans(data, is_binary));
}

/// Appending a stream that ends with a complete span to itself never lowers
/// the number of bytes that count as copied, on whichever side the stream
/// stands.
pub proof fn lemma_appended_copy_keeps_copied(
    data: Seq<u8>,
    is_binary: bool,
    other: Seq<SpanEntry>,
)
    requires
        remainder(data).len() == 0,
    ensures
        source_copied(table_of(data + data, is_binary), other) >= source_copied(
            table_of(data, is_binary),
            other,
        ),
        source_copied(other, table_of(data + data, is_binary)) >= source_copied(
            other,
            table_of(data, is_binary),
        ),
{
    lemma_stream_twice(data, is_binary);
    lemma_doubling_keeps_copied(table_of(data, is_binary), other);
    lemma_doubling_keeps_copied(other, table_of(data, is_binary));
}

} // verus!
