//! Which values a sequence holds while it is walked from its first member
//! to its last.
use vstd::prelude::*;

verus! {

/// The first `k + 1` members of a sequence are the first `k` and the member
/// at `k`. Where the sequence holds no value twice, the first `k` members do
/// not hold the member at `k`.
pub proof fn lemma_next_member<A>(s: Seq<A>, k: int)
    requires
        0 <= k < s.len(),
    ensures
        s.take(k + 1) == s.take(k).push(s[k]),
        forall|x: A| #[trigger] s.take(k + 1).contains(x) <==> s.take(k).contains(x) || x == s[k],
        s.take(k + 1).to_set() == s.take(k).to_set().insert(s[k]),
        s.no_duplicates() ==> !s.take(k).contains(s[k]),
{
    let before = s.take(k);
    assert(s.take(k + 1) =~= before.push(s[k]));
    assert forall|x: A| #[trigger] s.take(k + 1).contains(x) <==> before.contains(x) || x
        == s[k] by {
        vstd::seq_lib::lemma_seq_contains_after_push(before, s[k], x);
    }
    before.lemma_push_to_set_commute(s[k]);
    if s.no_duplicates() && before.contains(s[k]) {
        let i = choose|i: int| 0 <= i < before.len() && before[i] == s[k];
        assert(s[i] == s[k]);
    }
}

/// A sequence without its last member, and its last member, as the first
/// members and the next.
pub proof fn lemma_last_is_next<A>(s: Seq<A>)
    requires
        s.len() > 0,
    ensures
        s.drop_last() == s.take(s.len() - 1),
        s.take(s.len() as int) == s,
{
    assert(s.drop_last() =~= s.take(s.len() - 1));
    assert(s.take(s.len() as int) =~= s);
}

} // verus!
