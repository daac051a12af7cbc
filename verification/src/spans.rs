//! Cutting a byte stream into spans.
//!
//! A span is a line with its newline, or the next 64 bytes where the line is
//! longer than that. While a stream arrives, the bytes behind its last
//! complete span wait for the bytes that follow. Where the stream ends, the
//! bytes that still wait are its last span.
use vstd::prelude::*;

verus! {

/// No span is longer than this many bytes.
pub const MAX_SPAN_LEN: usize = 64;

/// The byte that ends a line.
pub const NEWLINE: u8 = 10;

/// The byte that precedes the newline in a CRLF line ending.
pub const CARRIAGE_RETURN: u8 = 13;

/// `memchr::memchr` returns the index of the first byte of `haystack` that
/// equals `needle`, and `None` where no byte does.
pub assume_specification[ memchr::memchr ](needle: u8, haystack: &[u8]) -> (found: Option<usize>)
    ensures
        match found {
            Some(i) => {
                &&& i < haystack@.len()
                &&& haystack@[i as int] == needle
                &&& forall|j: int| 0 <= j < i ==> haystack@[j] != needle
            },
            None => forall|j: int| 0 <= j < haystack@.len() ==> haystack@[j] != needle,
        },
;

/// The bytes of `data` in which the end of its first span is looked for.
pub open spec fn window(data: Seq<u8>) -> Seq<u8> {
    if data.len() < MAX_SPAN_LEN {
        data
    } else {
        data.take(MAX_SPAN_LEN as int)
    }
}

/// Length of the first span of `data`: up to and including the first newline
/// among the first 64 bytes, else 64 where that many bytes are left. Zero
/// where `data` starts no complete span.
pub open spec fn span_len(data: Seq<u8>) -> nat {
    match window(data).index_of_first(NEWLINE) {
        Some(i) => (i + 1) as nat,
        None => if data.len() < MAX_SPAN_LEN {
            0
        } else {
            MAX_SPAN_LEN as nat
        },
    }
}

/// Whether `raw` ends in a carriage return followed by a newline.
pub open spec fn ends_with_crlf(raw: Seq<u8>) -> bool {
    &&& raw.len() >= 2
    &&& raw[raw.len() - 1] == NEWLINE
    &&& raw[raw.len() - 2] == CARRIAGE_RETURN
}

/// The content under which a span is recorded. Text loses the carriage
/// return of a CRLF ending; binary data is kept as it is.
pub open spec fn normalize_span(raw: Seq<u8>, is_binary: bool) -> Seq<u8> {
    if !is_binary && ends_with_crlf(raw) {
        raw.take(raw.len() - 2).push(NEWLINE)
    } else {
        raw
    }
}

/// The complete spans of `data`, in the order in which they occur: those
/// that bytes behind `data` could not change.
pub open spec fn split_spans(data: Seq<u8>, is_binary: bool) -> Seq<Seq<u8>>
    decreases data.len(),
{
    let n = span_len(data);
    if n == 0 || n > data.len() {
        Seq::empty()
    } else {
        seq![normalize_span(data.take(n as int), is_binary)] + split_spans(
            data.skip(n as int),
            is_binary,
        )
    }
}

/// The sum of the lengths of `spans`.
pub open spec fn total_len(spans: Seq<Seq<u8>>) -> nat
    decreases spans.len(),
{
    if spans.len() == 0 {
        0
    } else {
        total_len(spans.drop_last()) + spans.last().len()
    }
}

/// A span is never empty and never longer than the bytes it was cut from.
pub proof fn lemma_span_len_bounds(data: Seq<u8>)
    ensures
        span_len(data) <= data.len(),
        span_len(data) <= MAX_SPAN_LEN,
        span_len(data) == 0 <==> (data.len() < MAX_SPAN_LEN && !data.contains(NEWLINE)),
{
    let w = window(data);
    w.index_of_first_ensures(NEWLINE);
    match w.index_of_first(NEWLINE) {
        Some(i) => {
            assert(data[i] == NEWLINE);
        },
        None => {
            if data.len() < MAX_SPAN_LEN {
                assert(w == data);
            }
        },
    }
}

/// The number of bytes of `data` that its spans are cut from.
pub open spec fn consumed_len(data: Seq<u8>) -> nat
    decreases data.len(),
{
    let n = span_len(data);
    if n == 0 || n > data.len() {
        0
    } else {
        n + consumed_len(data.skip(n as int))
    }
}

/// The bytes of `data` behind its last span: too few for a span of 64
/// bytes, and without a newline.
pub open spec fn remainder(data: Seq<u8>) -> Seq<u8> {
    data.skip(consumed_len(data) as int)
}

/// The last span of a stream that ends with `data`: the bytes behind the
/// last complete span as they are, where there are any.
pub open spec fn tail_spans(data: Seq<u8>) -> Seq<Seq<u8>> {
    if remainder(data).len() > 0 {
        seq![remainder(data)]
    } else {
        Seq::empty()
    }
}

/// The spans of the stream `data`, from its first byte to its last.
pub open spec fn all_spans(data: Seq<u8>, is_binary: bool) -> Seq<Seq<u8>> {
    split_spans(data, is_binary) + tail_spans(data)
}

/// The complete spans of binary data hold the bytes that they are cut from.
pub proof fn lemma_binary_spans_keep_bytes(data: Seq<u8>)
    ensures
        total_len(split_spans(data, true)) == consumed_len(data),
    decreases data.len(),
{
    let n = span_len(data);
    lemma_span_len_bounds(data);
    if n > 0 {
        let rest = data.skip(n as int);
        lemma_binary_spans_keep_bytes(rest);
        lemma_total_len_prepend(data.take(n as int), split_spans(rest, true));
    }
}

/// The spans of a stream hold no more bytes than the stream. They hold a
/// byte where the stream does, and every byte where the stream is binary.
pub proof fn lemma_all_spans_len(data: Seq<u8>, is_binary: bool)
    ensures
        total_len(all_spans(data, is_binary)) <= data.len(),
        data.len() > 0 ==> total_len(all_spans(data, is_binary)) > 0,
        total_len(all_spans(data, true)) == data.len(),
        forall|i: int|
            0 <= i < all_spans(data, is_binary).len() ==> 0 < (#[trigger] all_spans(
                data,
                is_binary,
            )[i]).len() <= MAX_SPAN_LEN,
{
    lemma_consumed_len(data, is_binary);
    lemma_consumed_len(data, true);
    lemma_binary_spans_keep_bytes(data);
    lemma_span_len_bounds(data);
    lemma_total_len_append(split_spans(data, is_binary), tail_spans(data));
    lemma_total_len_append(split_spans(data, true), tail_spans(data));
    let tail = tail_spans(data);
    if tail.len() > 0 {
        assert(tail.drop_last() =~= Seq::<Seq<u8>>::empty());
        assert(total_len(tail.drop_last()) == 0);
    }
    let complete = split_spans(data, is_binary);
    if complete.len() > 0 {
        assert(complete.last().len() > 0);
    } else {
        assert(data.skip(0) =~= data);
    }
}

/// Text without a carriage return has the spans of binary data.
pub proof fn lemma_spans_without_carriage_return(data: Seq<u8>)
    requires
        !data.contains(CARRIAGE_RETURN),
    ensures
        split_spans(data, false) == split_spans(data, true),
        all_spans(data, false) == all_spans(data, true),
    decreases data.len(),
{
    let n = span_len(data);
    lemma_span_len_bounds(data);
    if n > 0 {
        let raw = data.take(n as int);
        let rest = data.skip(n as int);
        if ends_with_crlf(raw) {
            assert(data[raw.len() - 2] == CARRIAGE_RETURN);
        }
        if rest.contains(CARRIAGE_RETURN) {
            let i = choose|i: int| 0 <= i < rest.len() && rest[i] == CARRIAGE_RETURN;
            assert(data[n + i] == CARRIAGE_RETURN);
        }
        lemma_spans_without_carriage_return(rest);
    }
}

/// The lengths of two sequences of spans add up.
pub proof fn lemma_total_len_append(first: Seq<Seq<u8>>, second: Seq<Seq<u8>>)
    ensures
        total_len(first + second) == total_len(first) + total_len(second),
    decreases second.len(),
{
    if second.len() == 0 {
        assert(first + second =~= first);
    } else {
        assert((first + second).drop_last() =~= first + second.drop_last());
        lemma_total_len_append(first, second.drop_last());
    }
}

/// The spans of `data` are cut from its first bytes, and hold no more bytes
/// than they are cut from. What is left behind them starts no span.
pub proof fn lemma_consumed_len(data: Seq<u8>, is_binary: bool)
    ensures
        consumed_len(data) <= data.len(),
        total_len(split_spans(data, is_binary)) <= consumed_len(data),
        span_len(remainder(data)) == 0,
        remainder(data).len() < MAX_SPAN_LEN,
        forall|i: int|
            0 <= i < split_spans(data, is_binary).len() ==> 0 < (#[trigger] split_spans(
                data,
                is_binary,
            )[i]).len() <= MAX_SPAN_LEN,
    decreases data.len(),
{
    let n = span_len(data);
    lemma_span_len_bounds(data);
    if n == 0 {
        assert(data.skip(0) =~= data);
    } else {
        let rest = data.skip(n as int);
        let first = normalize_span(data.take(n as int), is_binary);
        lemma_consumed_len(rest, is_binary);
        lemma_normalize_len(data.take(n as int), is_binary);
        assert(rest.skip(consumed_len(rest) as int) =~= data.skip(consumed_len(data) as int));
        lemma_total_len_prepend(first, split_spans(rest, is_binary));
    }
}

/// A span in front adds its length to the sum.
pub proof fn lemma_total_len_prepend(first: Seq<u8>, spans: Seq<Seq<u8>>)
    ensures
        total_len(seq![first] + spans) == first.len() + total_len(spans),
    decreases spans.len(),
{
    let all = seq![first] + spans;
    if spans.len() == 0 {
        assert(all.drop_last() =~= Seq::<Seq<u8>>::empty());
        assert(total_len(all.drop_last()) == 0);
        assert(all.last() == first);
    } else {
        assert(all.drop_last() =~= seq![first] + spans.drop_last());
        assert(all.last() == spans.last());
        lemma_total_len_prepend(first, spans.drop_last());
    }
}

/// Bytes that follow do not change a span that is complete.
pub proof fn lemma_span_len_stable(data: Seq<u8>, more: Seq<u8>)
    requires
        span_len(data) > 0,
    ensures
        span_len(data + more) == span_len(data),
{
    let all = data + more;
    let w = window(data);
    let v = window(all);
    w.index_of_first_ensures(NEWLINE);
    v.index_of_first_ensures(NEWLINE);
    assert forall|j: int| 0 <= j < w.len() implies w[j] == v[j] by {}
    match w.index_of_first(NEWLINE) {
        Some(i) => {
            assert(v[i] == NEWLINE);
            assert(v.contains(NEWLINE));
            let k = v.index_of_first(NEWLINE).unwrap();
            if k < i {
                assert(w[k] == NEWLINE);
            }
        },
        None => {
            assert(w =~= v);
        },
    }
}

/// The spans of a stream that arrives in two pieces: the spans of the first
/// piece, and the spans of what the first piece leaves over together with
/// the second piece.
pub proof fn lemma_split_spans_append(data: Seq<u8>, more: Seq<u8>, is_binary: bool)
    ensures
        split_spans(data + more, is_binary) == split_spans(data, is_binary) + split_spans(
            remainder(data) + more,
            is_binary,
        ),
        remainder(data + more) == remainder(remainder(data) + more),
    decreases data.len(),
{
    let n = span_len(data);
    lemma_span_len_bounds(data);
    if n == 0 {
        assert(data.skip(0) =~= data);
        assert(Seq::<Seq<u8>>::empty() + split_spans(data + more, is_binary) =~= split_spans(
            data + more,
            is_binary,
        ));
    } else {
        let all = data + more;
        let rest = data.skip(n as int);
        lemma_span_len_stable(data, more);
        lemma_consumed_len(rest, is_binary);
        lemma_split_spans_append(rest, more, is_binary);
        assert(all.take(n as int) =~= data.take(n as int));
        assert(all.skip(n as int) =~= rest + more);
        assert(remainder(rest) =~= remainder(data));
        let first = seq![normalize_span(data.take(n as int), is_binary)];
        assert(first + (split_spans(rest, is_binary) + split_spans(
            remainder(rest) + more,
            is_binary,
        )) =~= (first + split_spans(rest, is_binary)) + split_spans(
            remainder(data) + more,
            is_binary,
        ));
        lemma_span_len_bounds(all);
        lemma_consumed_len(rest + more, is_binary);
        assert(remainder(all) =~= remainder(rest + more));
    }
}

/// A normalized span holds at least one byte and at most as many as the raw span.
pub proof fn lemma_normalize_len(raw: Seq<u8>, is_binary: bool)
    requires
        raw.len() > 0,
    ensures
        0 < normalize_span(raw, is_binary).len() <= raw.len(),
{
}

/// Length of the span of `data` that starts at `pos`, zero where none does.
pub(crate) fn next_span_len(data: &[u8], pos: usize) -> (n: usize)
    requires
        pos <= data@.len(),
    ensures
        n == span_len(data@.skip(pos as int)),
        pos + n <= data@.len(),
{
    let remaining: usize = data.len() - pos;
    let reach: usize = if remaining < MAX_SPAN_LEN {
        remaining
    } else {
        MAX_SPAN_LEN
    };
    let searched = &data[pos..pos + reach];
    let found = memchr::memchr(NEWLINE, searched);
    proof {
        let rest = data@.skip(pos as int);
        assert(searched@ =~= window(rest));
        window(rest).index_of_first_ensures(NEWLINE);
        match found {
            Some(i) => {
                assert(window(rest).contains(NEWLINE));
            },
            None => {
                if window(rest).contains(NEWLINE) {
                    let k = window(rest).index_of_first(NEWLINE).unwrap();
                    assert(searched@[k] == NEWLINE);
                }
            },
        }
    }
    match found {
        Some(i) => i + 1,
        None => if remaining < MAX_SPAN_LEN {
            0
        } else {
            MAX_SPAN_LEN
        },
    }
}

/// The span of `data` that starts at `pos` and is `n` bytes long, as it is recorded.
pub(crate) fn take_span(data: &[u8], pos: usize, n: usize, is_binary: bool) -> (span: Vec<u8>)
    requires
        0 < n,
        pos + n <= data@.len(),
    ensures
        span@ == normalize_span(data@.skip(pos as int).take(n as int), is_binary),
{
    let len: usize = data.len();
    assert(pos + n <= len);
    let end: usize = pos + n;
    let mut span: Vec<u8> = Vec::new();
    span.extend_from_slice(&data[pos..end]);
    assert(span@ =~= data@.skip(pos as int).take(n as int));
    let has_crlf: bool = n > 1 && span[n - 1] == NEWLINE && span[n - 2] == CARRIAGE_RETURN;
    if !is_binary && has_crlf {
        span.pop();
        span.pop();
        span.push(NEWLINE);
        assert(span@ =~= data@.skip(pos as int).take(n as int).take(n - 2).push(NEWLINE));
    }
    span
}

} // verus!
