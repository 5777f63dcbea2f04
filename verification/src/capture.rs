//! The capture session: what one clipboard event does to the repository.

use vstd::prelude::*;
use crate::format::{key_of, round_trips};
use crate::repository::{
    blobs_of, copy_bytes, evicted, holds, ids_of, kept, lemma_blob_slot, lemma_put_effect,
    lemma_put_keeps_well_formed, put_model, read_back, well_formed, EntryModel, Repository,
};

verus! {

/// One format that a clipboard event offers, with the bytes fetched for it;
/// `None` where the fetch failed.
#[derive(Clone, Debug, PartialEq, Eq)]
pub struct Offer {
    pub format: String,
    pub bytes: Option<Vec<u8>>,
}

/// The offers as plain values.
pub open spec fn offers_of(offers: Seq<Offer>) -> Seq<(Seq<char>, Option<Seq<u8>>)> {
    Seq::new(
        offers.len(),
        |i: int|
            (
                offers[i].format@,
                match offers[i].bytes {
                    Some(bytes) => Some(bytes@),
                    None => None,
                },
            ),
    )
}

/// `s` after the offers were stored in order for entry `id`; an offer whose
/// fetch failed is passed over.
pub open spec fn put_all(
    s: Seq<EntryModel>,
    id: u64,
    offers: Seq<(Seq<char>, Option<Seq<u8>>)>,
) -> Seq<EntryModel>
    decreases offers.len(),
{
    if offers.len() == 0 {
        s
    } else {
        match offers.last().1 {
            Some(bytes) => put_model(
                put_all(s, id, offers.drop_last()),
                id,
                key_of(offers.last().0),
                bytes,
            ),
            None => put_all(s, id, offers.drop_last()),
        }
    }
}

/// Storing offers keeps a table well formed.
pub proof fn lemma_put_all_keeps_well_formed(
    s: Seq<EntryModel>,
    id: u64,
    offers: Seq<(Seq<char>, Option<Seq<u8>>)>,
)
    requires
        well_formed(s),
    ensures
        well_formed(put_all(s, id, offers)),
    decreases offers.len(),
{
    if offers.len() > 0 {
        lemma_put_all_keeps_well_formed(s, id, offers.drop_last());
        match offers.last().1 {
            Some(bytes) => {
                lemma_put_keeps_well_formed(
                    put_all(s, id, offers.drop_last()),
                    id,
                    key_of(offers.last().0),
                    bytes,
                );
            },
            None => {},
        }
    }
}

/// The blobs that the offers are stored as: every offer fetched, each under
/// the storage key of its tag.
pub open spec fn stored_as(
    offers: Seq<(Seq<char>, Option<Seq<u8>>)>,
) -> Seq<(Seq<char>, Seq<u8>)> {
    Seq::new(offers.len(), |i: int| (key_of(offers[i].0), offers[i].1->0))
}

/// The representations that the offers hold: every offer fetched, each under
/// its tag.
pub open spec fn offered_as(
    offers: Seq<(Seq<char>, Option<Seq<u8>>)>,
) -> Seq<(Seq<char>, Seq<u8>)> {
    Seq::new(offers.len(), |i: int| (offers[i].0, offers[i].1->0))
}

/// All offers were fetched, and no two of their tags share a storage key.
pub open spec fn fetched_apart(offers: Seq<(Seq<char>, Option<Seq<u8>>)>) -> bool {
    &&& forall|i: int| 0 <= i < offers.len() ==> (#[trigger] offers[i]).1 is Some
    &&& forall|a: int, b: int|
        0 <= a < b < offers.len() ==> key_of(offers[a].0) != key_of(offers[b].0)
}

/// The blobs of a new entry after its offers were stored: one for each
/// offer, in order, under the storage key of the offer's tag.
pub proof fn lemma_blobs_after_put_all(
    s: Seq<EntryModel>,
    id: u64,
    offers: Seq<(Seq<char>, Option<Seq<u8>>)>,
)
    requires
        well_formed(s),
        !holds(s, id),
        fetched_apart(offers),
    ensures
        well_formed(put_all(s, id, offers)),
        offers.len() > 0 ==> holds(put_all(s, id, offers), id),
        blobs_of(put_all(s, id, offers), id) == stored_as(offers),
    decreases offers.len(),
{
    if offers.len() == 0 {
        assert(blobs_of(s, id) =~= stored_as(offers));
    } else {
        let init = offers.drop_last();
        let earlier = put_all(s, id, init);
        let key = key_of(offers.last().0);
        let bytes = offers.last().1->0;
        assert(offers.last().1 is Some);
        assert forall|i: int| 0 <= i < init.len() implies (#[trigger] init[i]).1 is Some by {
            assert(init[i] == offers[i]);
        }
        lemma_blobs_after_put_all(s, id, init);
        lemma_put_effect(earlier, id, key, bytes);
        lemma_put_keeps_well_formed(earlier, id, key, bytes);
        lemma_blob_slot(stored_as(init), key);
        assert forall|j: int| 0 <= j < init.len() implies stored_as(init)[j].0 != key by {
            assert(init[j] == offers[j]);
        }
        assert(stored_as(init).push((key, bytes)) =~= stored_as(offers));
    }
}

/// Reading after storing: where a new entry is stored with offers that were
/// all fetched, whose tags have storage keys of their own and are read back
/// from them unchanged, all representations of the entry are exactly those
/// offers, in order, with their bytes.
pub proof fn lemma_read_all_after_put_all(
    s: Seq<EntryModel>,
    id: u64,
    offers: Seq<(Seq<char>, Option<Seq<u8>>)>,
)
    requires
        well_formed(s),
        !holds(s, id),
        offers.len() > 0,
        fetched_apart(offers),
        forall|i: int| 0 <= i < offers.len() ==> round_trips(#[trigger] offers[i].0),
    ensures
        holds(put_all(s, id, offers), id),
        read_back(blobs_of(put_all(s, id, offers), id)) == offered_as(offers),
{
    lemma_blobs_after_put_all(s, id, offers);
    assert(read_back(stored_as(offers)) =~= offered_as(offers));
}

/// Records one clipboard event: stores every offer that was fetched as a
/// representation of entry `id`, then keeps the `max` newest entries.
/// Returns the identifiers of the entries that were removed, newest first.
pub fn capture(
    repo: &mut Repository,
    id: u64,
    offers: &Vec<Offer>,
    max: usize,
) -> (gone: Vec<u64>)
    requires
        old(repo).wf(),
    ensures
        final(repo).wf(),
        final(repo)@ == kept(put_all(old(repo)@, id, offers_of(offers@)), max as nat),
        gone@ == ids_of(evicted(put_all(old(repo)@, id, offers_of(offers@)), max as nat)),
        final(repo)@.len() <= max,
{
    let ghost before = repo@;
    let ghost all = offers_of(offers@);
    let mut i: usize = 0;
    while i < offers.len()
        invariant
            i <= offers.len(),
            all == offers_of(offers@),
            repo.wf(),
            repo@ == put_all(before, id, all.subrange(0, i as int)),
        decreases offers.len() - i,
    {
        proof {
            let next = all.subrange(0, i + 1);
            assert(next.drop_last() =~= all.subrange(0, i as int));
            assert(next.last() == all[i as int]);
        }
        match &offers[i].bytes {
            Some(bytes) => {
                repo.put(id, offers[i].format.as_str(), copy_bytes(bytes));
            },
            None => {},
        }
        i += 1;
    }
    assert(all.subrange(0, i as int) =~= all);
    repo.trim(max)
}

} // verus!
