//! The eviction policy on the names found in a storage root: which entries
//! are to be removed so that only the newest stay.

use vstd::prelude::*;
use crate::ident::{entry_ids, ids_named};

verus! {

/// The number of identifiers at the front of `s` that are greater than `id`.
pub open spec fn rank_in(s: Seq<u64>, id: u64) -> int
    decreases s.len(),
{
    if s.len() > 0 && s[0] > id {
        1 + rank_in(s.drop_first(), id)
    } else {
        0
    }
}

/// `s` with `id` put at its rank, unless `s` holds it there already.
pub open spec fn ranked_with(s: Seq<u64>, id: u64) -> Seq<u64> {
    if rank_in(s, id) < s.len() && s[rank_in(s, id)] == id {
        s
    } else {
        s.insert(rank_in(s, id), id)
    }
}

/// The identifiers of `ids` from the greatest to the least, each once.
pub open spec fn newest_first_of(ids: Seq<u64>) -> Seq<u64>
    decreases ids.len(),
{
    if ids.len() == 0 {
        Seq::empty()
    } else {
        ranked_with(newest_first_of(ids.drop_last()), ids.last())
    }
}

/// Strictly descending.
pub open spec fn descending(s: Seq<u64>) -> bool {
    forall|i: int, j: int| 0 <= i < j < s.len() ==> s[i] > s[j]
}

/// What lies beyond the first `max` of `s`.
pub open spec fn beyond(s: Seq<u64>, max: nat) -> Seq<u64> {
    if s.len() <= max {
        Seq::empty()
    } else {
        s.subrange(max as int, s.len() as int)
    }
}

/// The rank of `id` lies within `s`; everything before it is greater than
/// `id`, and what stands at it is not.
pub proof fn lemma_rank_in(s: Seq<u64>, id: u64)
    ensures
        0 <= rank_in(s, id) <= s.len(),
        forall|j: int| 0 <= j < rank_in(s, id) ==> s[j] > id,
        rank_in(s, id) < s.len() ==> s[rank_in(s, id)] <= id,
    decreases s.len(),
{
    if s.len() > 0 && s[0] > id {
        let rest = s.drop_first();
        lemma_rank_in(rest, id);
        assert forall|j: int| 0 <= j < rank_in(s, id) implies s[j] > id by {
            if j > 0 {
                assert(s[j] == rest[j - 1]);
            }
        }
        assert(rank_in(rest, id) < rest.len() ==> s[rank_in(s, id)] == rest[rank_in(rest, id)]);
    }
}

/// Putting an identifier at its rank keeps the order strictly descending
/// and adds that identifier, and nothing else, to what is there.
pub proof fn lemma_ranked_with(s: Seq<u64>, id: u64)
    requires
        descending(s),
    ensures
        descending(ranked_with(s, id)),
        forall|x: u64| ranked_with(s, id).contains(x) <==> s.contains(x) || x == id,
{
    let t = ranked_with(s, id);
    let k = rank_in(s, id);
    lemma_rank_in(s, id);
    if k < s.len() && s[k] == id {
        assert(s.contains(id));
    } else {
        assert forall|i: int, j: int| 0 <= i < j < t.len() implies t[i] > t[j] by {
            let a = if i < k { i } else { i - 1 };
            let b = if j < k { j } else { j - 1 };
            if i != k && j != k {
                assert(t[i] == s[a] && t[j] == s[b]);
            } else if i == k {
                assert(t[j] == s[b]);
                assert(s[k] < id);
                assert(b == k || s[k] > s[b]);
            } else {
                assert(t[i] == s[a]);
            }
        }
        assert forall|x: u64| t.contains(x) <==> s.contains(x) || x == id by {
            if t.contains(x) {
                let i = choose|i: int| 0 <= i < t.len() && t[i] == x;
                if i < k {
                    assert(s[i] == x);
                } else if i > k {
                    assert(s[i - 1] == x);
                }
            }
            if s.contains(x) {
                let i = choose|i: int| 0 <= i < s.len() && s[i] == x;
                if i < k {
                    assert(t[i] == x);
                } else {
                    assert(t[i + 1] == x);
                }
            }
            if x == id {
                assert(t[k] == x);
            }
        }
    }
}

/// Ordering keeps what there is: the ordered identifiers are strictly
/// descending, and they are those of `ids`, however `ids` was ordered.
pub proof fn lemma_newest_first_of(ids: Seq<u64>)
    ensures
        descending(newest_first_of(ids)),
        forall|x: u64| newest_first_of(ids).contains(x) <==> ids.contains(x),
    decreases ids.len(),
{
    if ids.len() > 0 {
        let init = ids.drop_last();
        lemma_newest_first_of(init);
        lemma_ranked_with(newest_first_of(init), ids.last());
        assert forall|x: u64| newest_first_of(ids).contains(x) <==> ids.contains(x) by {
            if ids.contains(x) {
                let i = choose|i: int| 0 <= i < ids.len() && ids[i] == x;
                if i < ids.len() - 1 {
                    assert(init[i] == x);
                }
            }
            if init.contains(x) {
                let i = choose|i: int| 0 <= i < init.len() && init[i] == x;
                assert(ids[i] == x);
            }
            if x == ids.last() {
                assert(ids[ids.len() - 1] == x);
            }
        }
    }
}

/// Eviction removes the oldest: every identifier that is to go is less than
/// every identifier that stays, and at most `max` stay.
pub proof fn lemma_beyond_are_oldest(s: Seq<u64>, max: nat)
    requires
        descending(s),
    ensures
        s.len() - beyond(s, max).len() <= max,
        forall|i: int, j: int|
            0 <= i < s.len() - beyond(s, max).len() && 0 <= j < beyond(s, max).len() ==> s[i]
                > beyond(s, max)[j],
{
}

/// The identifiers of `ids` from the newest to the oldest, each once.
pub fn newest_first(ids: &Vec<u64>) -> (out: Vec<u64>)
    ensures
        out@ == newest_first_of(ids@),
{
    let mut out: Vec<u64> = Vec::new();
    let mut i: usize = 0;
    while i < ids.len()
        invariant
            i <= ids.len(),
            out@ == newest_first_of(ids@.subrange(0, i as int)),
        decreases ids.len() - i,
    {
        let id = ids[i];
        proof {
            let next = ids@.subrange(0, i + 1);
            assert(next.drop_last() =~= ids@.subrange(0, i as int));
            assert(next.last() == id);
        }
        let ghost sorted = out@;
        let mut k: usize = 0;
        while k < out.len() && out[k] > id
            invariant
                k <= out.len(),
                out@ == sorted,
                forall|j: int| 0 <= j < k ==> sorted[j] > id,
            decreases out.len() - k,
        {
            k += 1;
        }
        proof {
            lemma_rank_in(sorted, id);
            assert(rank_in(sorted, id) == k);
        }
        if !(k < out.len() && out[k] == id) {
            out.insert(k, id);
        }
        i += 1;
    }
    assert(ids@.subrange(0, i as int) =~= ids@);
    out
}

/// The entries to remove from a storage root that holds `names`, so that
/// the `max` newest stay: the identifiers named, from the newest to the
/// oldest, without the first `max` of them.
pub fn evictable(names: &Vec<String>, max: usize) -> (gone: Vec<u64>)
    ensures
        gone@ == beyond(newest_first_of(ids_named(names@)), max as nat),
{
    let ids = entry_ids(names);
    let sorted = newest_first(&ids);
    let mut gone: Vec<u64> = Vec::new();
    if max >= sorted.len() {
        return gone;
    }
    let mut i: usize = max;
    while i < sorted.len()
        invariant
            max <= i <= sorted.len(),
            gone@ == sorted@.subrange(max as int, i as int),
        decreases sorted.len() - i,
    {
        gone.push(sorted[i]);
        i += 1;
        assert(gone@ =~= sorted@.subrange(max as int, i as int));
    }
    assert(gone@ =~= beyond(sorted@, max as nat));
    gone
}

} // verus!
