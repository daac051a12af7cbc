//! The three-byte windows of a line.
//!
//! A trigram is one window of three bytes, packed into a number of 24 bits
//! with the first byte on top. A line of one or two bytes has windows of one
//! and two bytes, so every line but the empty one has a trigram.
use crate::members::{lemma_last_is_next, lemma_next_member};
use std::collections::HashSet;
use vstd::prelude::*;
use vstd::string::StringSliceAdditionalSpecFns;

verus! {

/// Why a value could not be computed.
#[derive(Debug, Clone, Copy, PartialEq, Eq, Structural)]
pub enum DiffError {
    /// A window held `len` bytes, more than the three that a trigram has.
    TooManyElements { len: usize },
}

/// A value, or the reason why there is none.
pub type DiffResult<T> = Result<T, DiffError>;

/// The number that stands for a window of up to three bytes: the first byte
/// times 65536, plus the second times 256, plus the third. A byte that the
/// window lacks counts as zero.
pub open spec fn pack(window: Seq<u8>) -> int {
    (if window.len() > 0 {
        window[0] * 65536
    } else {
        0
    }) + (if window.len() > 1 {
        window[1] * 256
    } else {
        0
    }) + (if window.len() > 2 {
        window[2] as int
    } else {
        0
    })
}

/// The trigram of a window of up to three bytes. A longer window has none.
pub fn slice_to_trigram(slice: &[u8]) -> (trigram: DiffResult<u32>)
    ensures
        match trigram {
            Ok(t) => slice@.len() <= 3 && t == pack(slice@),
            Err(e) => slice@.len() > 3 && e == (DiffError::TooManyElements { len: slice@.len() as usize }),
        },
{
    let len: usize = slice.len();
    if len == 0 {
        Ok(0)
    } else if len == 1 {
        let a: u8 = slice[0];
        assert((a as u32) << 16 == a * 65536) by (bit_vector);
        Ok((a as u32) << 16)
    } else if len == 2 {
        let a: u8 = slice[0];
        let b: u8 = slice[1];
        assert(((a as u32) << 16) | ((b as u32) << 8) == a * 65536 + b * 256) by (bit_vector);
        Ok(((a as u32) << 16) | ((b as u32) << 8))
    } else if len == 3 {
        let a: u8 = slice[0];
        let b: u8 = slice[1];
        let c: u8 = slice[2];
        assert(((a as u32) << 16) | ((b as u32) << 8) | (c as u32) == a * 65536 + b * 256 + c)
            by (bit_vector);
        Ok(((a as u32) << 16) | ((b as u32) << 8) | (c as u32))
    } else {
        Err(DiffError::TooManyElements { len })
    }
}

/// The values of the windows of a line, in the order of the windows. A line
/// of three bytes or more has one window of three bytes at each place at
/// which three bytes are left. A shorter line has its last byte as a window,
/// and, where it has two bytes, both of them as a second one.
pub open spec fn windows_of(line: Seq<u8>) -> Seq<u32> {
    if line.len() >= 3 {
        Seq::new((line.len() - 2) as nat, |i: int| pack(line.subrange(i, i + 3)) as u32)
    } else if line.len() == 2 {
        seq![pack(line.subrange(1, 2)) as u32, pack(line) as u32]
    } else if line.len() == 1 {
        seq![pack(line) as u32]
    } else {
        Seq::empty()
    }
}

/// The trigrams of a line.
pub open spec fn trigram_set(line: Seq<u8>) -> Set<u32> {
    windows_of(line).to_set()
}

/// `found` with `next` behind it, unless `found` holds `next` already.
pub open spec fn add_distinct(found: Seq<u32>, next: u32) -> Seq<u32> {
    if found.contains(next) {
        found
    } else {
        found.push(next)
    }
}

/// The values of `values`, each at the place of its first occurrence alone.
pub open spec fn distinct(values: Seq<u32>) -> Seq<u32>
    decreases values.len(),
{
    if values.len() == 0 {
        Seq::empty()
    } else {
        add_distinct(distinct(values.drop_last()), values.last())
    }
}

/// The trigrams of a line, each once, in the order in which the line first
/// shows them.
pub open spec fn trigram_seq(line: Seq<u8>) -> Seq<u32> {
    distinct(windows_of(line))
}

/// `distinct` keeps every value and lists none twice.
pub proof fn lemma_distinct(values: Seq<u32>)
    ensures
        distinct(values).no_duplicates(),
        distinct(values).to_set() == values.to_set(),
        distinct(values).len() <= values.len(),
        values.len() > 0 ==> distinct(values).len() > 0,
    decreases values.len(),
{
    if values.len() == 0 {
        assert(distinct(values).to_set() =~= values.to_set());
    } else {
        let before = values.drop_last();
        let next = values.last();
        let found = distinct(before);
        lemma_distinct(before);
        lemma_last_is_next(values);
        lemma_next_member(values, values.len() - 1);
        if found.contains(next) {
            assert(found.to_set().insert(next) =~= found.to_set());
        } else {
            found.lemma_push_to_set_commute(next);
        }
    }
}

/// The trigrams of a line are listed once each, and every line but the
/// empty one has at least one.
pub proof fn lemma_trigram_seq(line: Seq<u8>)
    ensures
        trigram_seq(line).no_duplicates(),
        trigram_seq(line).to_set() == trigram_set(line),
        trigram_set(line).finite(),
        trigram_set(line).len() == trigram_seq(line).len(),
        line.len() > 0 ==> trigram_seq(line).len() > 0,
{
    lemma_distinct(windows_of(line));
    trigram_seq(line).unique_seq_to_set();
    vstd::seq_lib::seq_to_set_is_finite(trigram_seq(line));
}

/// Notes the trigram `next` unless it was noted before.
fn note_trigram(seen: &mut HashSet<u32>, list: &mut Vec<u32>, next: u32)
    requires
        old(seen)@ == old(list)@.to_set(),
    ensures
        final(list)@ == add_distinct(old(list)@, next),
        final(seen)@ == final(list)@.to_set(),
{
    broadcast use vstd::std_specs::hash::group_hash_axioms;

    if seen.insert(next) {
        list.push(next);
        proof {
            old(list)@.lemma_push_to_set_commute(next);
        }
    } else {
        assert(seen@ =~= old(seen)@);
    }
}

/// The trigrams of a line, each once, in the order in which the line first
/// shows them.
pub fn line_trigrams(line: &[u8]) -> (list: Vec<u32>)
    ensures
        list@ == trigram_seq(line@),
{
    let len: usize = line.len();
    let mut seen: HashSet<u32> = HashSet::new();
    let mut list: Vec<u32> = Vec::new();
    let ghost windows = windows_of(line@);
    assert(list@.to_set() =~= Set::<u32>::empty());
    if len >= 3 {
        let mut i: usize = 0;
        assert(windows.take(0) =~= Seq::<u32>::empty());
        while i <= len - 3
            invariant
                len == line@.len(),
                len >= 3,
                windows == windows_of(line@),
                i + 2 <= len,
                list@ == distinct(windows.take(i as int)),
                seen@ == list@.to_set(),
            decreases len - i,
        {
            let trigram: u32 = slice_to_trigram(&line[i..i + 3]).unwrap();
            proof {
                assert(windows.take(i + 1).drop_last() =~= windows.take(i as int));
                assert(windows.take(i + 1).last() == trigram);
            }
            note_trigram(&mut seen, &mut list, trigram);
            i += 1;
        }
        assert(windows.take(i as int) =~= windows);
    } else if len == 2 {
        let last: u32 = slice_to_trigram(&line[1..2]).unwrap();
        let both: u32 = slice_to_trigram(line).unwrap();
        note_trigram(&mut seen, &mut list, last);
        note_trigram(&mut seen, &mut list, both);
        proof {
            assert(windows.drop_last() =~= seq![last]);
            assert(windows.drop_last().drop_last() =~= Seq::<u32>::empty());
            reveal_with_fuel(distinct, 3);
        }
    } else if len == 1 {
        let last: u32 = slice_to_trigram(line).unwrap();
        note_trigram(&mut seen, &mut list, last);
        proof {
            assert(windows.drop_last() =~= Seq::<u32>::empty());
            reveal_with_fuel(distinct, 2);
        }
    }
    list
}

/// The trigrams of a text. Every text but the empty one has at least one.
pub fn make_trigrams(text: &str) -> (trigrams: HashSet<u32>)
    ensures
        trigrams@ == trigram_set(text.spec_bytes()),
        trigrams@.finite(),
        text.spec_bytes().len() > 0 ==> trigrams@.len() > 0,
{
    broadcast use vstd::std_specs::hash::group_hash_axioms;

    let list = line_trigrams(text.as_bytes());
    let mut trigrams: HashSet<u32> = HashSet::new();
    let mut i: usize = 0;
    assert(list@.take(0) =~= Seq::<u32>::empty());
    assert(list@.take(0).to_set() =~= Set::<u32>::empty());
    while i < list.len()
        invariant
            i <= list@.len(),
            trigrams@ == list@.take(i as int).to_set(),
        decreases list@.len() - i,
    {
        trigrams.insert(list[i]);
        proof {
            lemma_next_member(list@, i as int);
        }
        i += 1;
    }
    proof {
        assert(list@.take(i as int) =~= list@);
        lemma_trigram_seq(text.spec_bytes());
    }
    trigrams
}

} // verus!
