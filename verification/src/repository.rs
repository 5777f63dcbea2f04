//! The entry repository: a table of captured entries, newest first, each
//! with one blob per storage key.

use vstd::prelude::*;
use crate::format::{format_of_key, key_of, storage_key, tag_of};

verus! {

/// One representation of an entry: a format tag and the bytes offered under
/// it.
#[derive(Clone, Debug, PartialEq, Eq)]
pub struct Representation {
    pub format: String,
    pub bytes: Vec<u8>,
}

/// What a repository holds of one entry: its identifier and, in the order of
/// their first storing, its blobs as pairs of storage key and bytes.
pub struct EntryModel {
    pub id: u64,
    pub blobs: Seq<(Seq<char>, Seq<u8>)>,
}

/// One line of a listing: an entry's identifier and the format tags that it
/// is stored under.
#[derive(Clone, Debug, PartialEq, Eq)]
pub struct Listing {
    pub id: u64,
    pub formats: Vec<String>,
}

/// Why the repository could not answer.
#[derive(Clone, Copy, Debug, PartialEq, Eq, Structural)]
pub enum StoreError {
    /// The entry, or the representation asked for, is not stored.
    NotFound,
}

/// One stored blob: its storage key and its bytes.
struct Blob {
    key: String,
    bytes: Vec<u8>,
}

/// One stored entry: its identifier and its blobs.
struct Entry {
    id: u64,
    blobs: Vec<Blob>,
}

/// The table of entries.
pub struct Repository {
    entries: Vec<Entry>,
}

/// The number of entries at the front of `s` that are newer than `id`: the
/// position of `id` in `s`, whether or not `s` holds it.
pub open spec fn slot(s: Seq<EntryModel>, id: u64) -> int
    decreases s.len(),
{
    if s.len() > 0 && s[0].id > id {
        1 + slot(s.drop_first(), id)
    } else {
        0
    }
}

/// The position of the first blob stored under `key`, or the number of blobs
/// if there is none.
pub open spec fn blob_slot(blobs: Seq<(Seq<char>, Seq<u8>)>, key: Seq<char>) -> int
    decreases blobs.len(),
{
    if blobs.len() > 0 && blobs[0].0 != key {
        1 + blob_slot(blobs.drop_first(), key)
    } else {
        0
    }
}

/// Whether `s` holds an entry `id`.
pub open spec fn holds(s: Seq<EntryModel>, id: u64) -> bool {
    slot(s, id) < s.len() && s[slot(s, id)].id == id
}

/// The blobs of entry `id`; none where `s` does not hold it.
pub open spec fn blobs_of(s: Seq<EntryModel>, id: u64) -> Seq<(Seq<char>, Seq<u8>)> {
    if holds(s, id) {
        s[slot(s, id)].blobs
    } else {
        Seq::empty()
    }
}

/// Whether `blobs` holds one under `key`.
pub open spec fn has_key(blobs: Seq<(Seq<char>, Seq<u8>)>, key: Seq<char>) -> bool {
    blob_slot(blobs, key) < blobs.len()
}

/// The bytes stored under `key`.
pub open spec fn bytes_at(blobs: Seq<(Seq<char>, Seq<u8>)>, key: Seq<char>) -> Seq<u8>
    recommends
        has_key(blobs, key),
{
    blobs[blob_slot(blobs, key)].1
}

/// Entries are in strictly descending order of their identifiers.
pub open spec fn newest_first(s: Seq<EntryModel>) -> bool {
    forall|i: int, j: int| 0 <= i < j < s.len() ==> s[i].id > s[j].id
}

/// No two blobs share a storage key.
pub open spec fn distinct_keys(blobs: Seq<(Seq<char>, Seq<u8>)>) -> bool {
    forall|a: int, b: int| 0 <= a < b < blobs.len() ==> blobs[a].0 != blobs[b].0
}

/// The invariant of a repository: entries newest first, no identifier twice,
/// every entry with at least one blob and no storage key twice.
pub open spec fn well_formed(s: Seq<EntryModel>) -> bool {
    &&& newest_first(s)
    &&& forall|i: int|
        0 <= i < s.len() ==> (#[trigger] s[i]).blobs.len() > 0 && distinct_keys(s[i].blobs)
}

/// `blobs` after storing `bytes` under `key`: an earlier blob under that key
/// is replaced where it stands, a new key is added at the end.
pub open spec fn put_blob(
    blobs: Seq<(Seq<char>, Seq<u8>)>,
    key: Seq<char>,
    bytes: Seq<u8>,
) -> Seq<(Seq<char>, Seq<u8>)> {
    if has_key(blobs, key) {
        blobs.update(blob_slot(blobs, key), (key, bytes))
    } else {
        blobs.push((key, bytes))
    }
}

/// `s` after storing `bytes` under `key` for entry `id`: an entry that `s`
/// holds gains or replaces the blob, a new one takes its place in the order.
pub open spec fn put_model(
    s: Seq<EntryModel>,
    id: u64,
    key: Seq<char>,
    bytes: Seq<u8>,
) -> Seq<EntryModel> {
    if holds(s, id) {
        s.update(
            slot(s, id),
            (EntryModel { id, blobs: put_blob(s[slot(s, id)].blobs, key, bytes) }),
        )
    } else {
        s.insert(slot(s, id), (EntryModel { id, blobs: seq![(key, bytes)] }))
    }
}

/// `s` without entry `id`.
pub open spec fn delete_model(s: Seq<EntryModel>, id: u64) -> Seq<EntryModel> {
    if holds(s, id) {
        s.remove(slot(s, id))
    } else {
        s
    }
}

/// The `max` newest entries of `s`: all of `s` if it holds no more.
pub open spec fn kept(s: Seq<EntryModel>, max: nat) -> Seq<EntryModel> {
    if s.len() <= max {
        s
    } else {
        s.subrange(0, max as int)
    }
}

/// The entries of `s` beyond its `max` newest.
pub open spec fn evicted(s: Seq<EntryModel>, max: nat) -> Seq<EntryModel> {
    if s.len() <= max {
        Seq::empty()
    } else {
        s.subrange(max as int, s.len() as int)
    }
}

/// The identifiers of `s`, in its order.
pub open spec fn ids_of(s: Seq<EntryModel>) -> Seq<u64> {
    Seq::new(s.len(), |i: int| s[i].id)
}

/// The representations that the blobs are read back as: each storage key
/// turned back into a format tag.
pub open spec fn read_back(blobs: Seq<(Seq<char>, Seq<u8>)>) -> Seq<(Seq<char>, Seq<u8>)> {
    Seq::new(blobs.len(), |j: int| (tag_of(blobs[j].0), blobs[j].1))
}

/// The representations in `reps`, as pairs of format tag and bytes.
pub open spec fn pairs_of(reps: Seq<Representation>) -> Seq<(Seq<char>, Seq<u8>)> {
    Seq::new(reps.len(), |j: int| (reps[j].format@, reps[j].bytes@))
}

/// The format tags that the blobs are read back under, in order.
pub open spec fn tags_of(blobs: Seq<(Seq<char>, Seq<u8>)>) -> Seq<Seq<char>> {
    Seq::new(blobs.len(), |j: int| tag_of(blobs[j].0))
}

/// The format tags of a line of a listing, as sequences of characters.
pub open spec fn formats_of(formats: Seq<String>) -> Seq<Seq<char>> {
    Seq::new(formats.len(), |j: int| formats[j]@)
}

/// Whether `lines` is the listing of `s`: one line for each entry, in the
/// order of `s`, with the entry's identifier and its format tags.
pub open spec fn lists(lines: Seq<Listing>, s: Seq<EntryModel>) -> bool {
    &&& lines.len() == s.len()
    &&& forall|i: int|
        0 <= i < s.len() ==> (#[trigger] lines[i]).id == s[i].id && formats_of(lines[i].formats@)
            == tags_of(s[i].blobs)
}

/// The slot of `id` lies within the table; every entry before it is newer
/// than `id`, and the entry at it, if any, is not.
pub proof fn lemma_slot(s: Seq<EntryModel>, id: u64)
    ensures
        0 <= slot(s, id) <= s.len(),
        forall|j: int| 0 <= j < slot(s, id) ==> s[j].id > id,
        slot(s, id) < s.len() ==> s[slot(s, id)].id <= id,
    decreases s.len(),
{
    if s.len() > 0 && s[0].id > id {
        let rest = s.drop_first();
        lemma_slot(rest, id);
        assert forall|j: int| 0 <= j < slot(s, id) implies s[j].id > id by {
            if j > 0 {
                assert(s[j] == rest[j - 1]);
            }
        }
        assert(slot(rest, id) < rest.len() ==> s[slot(s, id)] == rest[slot(rest, id)]);
    }
}

/// The slot of a key lies within the blobs; no blob before it has the key,
/// and the blob at it, if any, has the key.
pub proof fn lemma_blob_slot(blobs: Seq<(Seq<char>, Seq<u8>)>, key: Seq<char>)
    ensures
        0 <= blob_slot(blobs, key) <= blobs.len(),
        forall|j: int| 0 <= j < blob_slot(blobs, key) ==> blobs[j].0 != key,
        blob_slot(blobs, key) < blobs.len() ==> blobs[blob_slot(blobs, key)].0 == key,
    decreases blobs.len(),
{
    if blobs.len() > 0 && blobs[0].0 != key {
        let rest = blobs.drop_first();
        lemma_blob_slot(rest, key);
        assert forall|j: int| 0 <= j < blob_slot(blobs, key) implies blobs[j].0 != key by {
            if j > 0 {
                assert(blobs[j] == rest[j - 1]);
            }
        }
        assert(blob_slot(rest, key) < rest.len() ==> blobs[blob_slot(blobs, key)] == rest[
            blob_slot(rest, key)]);
    }
}

/// In a well-formed table an entry stands at position `i` exactly if `i` is
/// the slot of its identifier.
pub proof fn lemma_slot_of_member(s: Seq<EntryModel>, i: int)
    requires
        newest_first(s),
        0 <= i < s.len(),
    ensures
        slot(s, s[i].id) == i,
        holds(s, s[i].id),
{
    lemma_slot(s, s[i].id);
}

/// Storing a blob leaves no storage key twice, and at least one blob.
pub proof fn lemma_put_blob_keeps_distinct(
    blobs: Seq<(Seq<char>, Seq<u8>)>,
    key: Seq<char>,
    bytes: Seq<u8>,
)
    requires
        distinct_keys(blobs),
    ensures
        distinct_keys(put_blob(blobs, key, bytes)),
        put_blob(blobs, key, bytes).len() > 0,
{
    lemma_blob_slot(blobs, key);
}

/// Storing keeps a table well formed.
pub proof fn lemma_put_keeps_well_formed(
    s: Seq<EntryModel>,
    id: u64,
    key: Seq<char>,
    bytes: Seq<u8>,
)
    requires
        well_formed(s),
    ensures
        well_formed(put_model(s, id, key, bytes)),
{
    lemma_slot(s, id);
    let t = put_model(s, id, key, bytes);
    let k = slot(s, id);
    if holds(s, id) {
        lemma_put_blob_keeps_distinct(s[k].blobs, key, bytes);
        assert forall|i: int| 0 <= i < t.len() implies (#[trigger] t[i]).blobs.len() > 0
            && distinct_keys(t[i].blobs) by {
            if i != k {
                assert(t[i] == s[i]);
            }
        }
        assert(newest_first(t));
    } else {
        assert forall|i: int| 0 <= i < t.len() implies (#[trigger] t[i]).blobs.len() > 0
            && distinct_keys(t[i].blobs) by {
            if i < k {
                assert(t[i] == s[i]);
            } else if i > k {
                assert(t[i] == s[i - 1]);
            }
        }
        assert forall|i: int, j: int| 0 <= i < j < t.len() implies t[i].id > t[j].id by {
            let a = if i < k { i } else { i - 1 };
            let b = if j < k { j } else { j - 1 };
            if i != k && j != k {
                assert(t[i] == s[a] && t[j] == s[b]);
            } else if i == k {
                assert(t[j] == s[b]);
                assert(s[k].id <= id);
                assert(b == k || s[k].id > s[b].id);
            } else {
                assert(t[i] == s[a]);
            }
        }
    }
}

/// The slot of `id` is the one position with only newer entries before it
/// and no newer entry at it.
pub proof fn lemma_slot_is(s: Seq<EntryModel>, id: u64, k: int)
    requires
        0 <= k <= s.len(),
        forall|j: int| 0 <= j < k ==> s[j].id > id,
        k < s.len() ==> s[k].id <= id,
    ensures
        slot(s, id) == k,
{
    lemma_slot(s, id);
}

/// What storing does: afterwards the table holds entry `id`, whose blobs are
/// those it had with the new one put among them, and every other entry is
/// held as before, with the blobs it had.
pub proof fn lemma_put_effect(s: Seq<EntryModel>, id: u64, key: Seq<char>, bytes: Seq<u8>)
    requires
        well_formed(s),
    ensures
        holds(put_model(s, id, key, bytes), id),
        blobs_of(put_model(s, id, key, bytes), id) == put_blob(blobs_of(s, id), key, bytes),
        forall|other: u64|
            other != id ==> holds(put_model(s, id, key, bytes), other) == holds(s, other)
                && blobs_of(put_model(s, id, key, bytes), other) == blobs_of(s, other),
{
    let t = put_model(s, id, key, bytes);
    let k = slot(s, id);
    lemma_slot(s, id);
    lemma_slot_is(t, id, k);
    if !holds(s, id) {
        assert(put_blob(Seq::empty(), key, bytes) =~= seq![(key, bytes)]);
    }
    assert forall|other: u64| other != id implies holds(t, other) == holds(s, other) && blobs_of(
        t,
        other,
    ) == blobs_of(s, other) by {
        let m = slot(s, other);
        lemma_slot(s, other);
        if holds(s, id) {
            lemma_slot_is(t, other, m);
        } else if other > id {
            assert(m <= k);
            lemma_slot_is(t, other, m);
        } else {
            assert(m >= k);
            assert forall|j: int| 0 <= j < m + 1 implies t[j].id > other by {
                if j > k {
                    assert(t[j] == s[j - 1]);
                }
            }
            lemma_slot_is(t, other, m + 1);
        }
    }
}

/// Reading after storing: the entry has the stored bytes under the storage
/// key, and under every other key what it had before.
pub proof fn lemma_read_after_put(s: Seq<EntryModel>, id: u64, key: Seq<char>, bytes: Seq<u8>)
    requires
        well_formed(s),
    ensures
        has_key(blobs_of(put_model(s, id, key, bytes), id), key),
        bytes_at(blobs_of(put_model(s, id, key, bytes), id), key) == bytes,
        forall|other: Seq<char>|
            other != key ==> has_key(blobs_of(put_model(s, id, key, bytes), id), other) == has_key(
                blobs_of(s, id),
                other,
            ) && (has_key(blobs_of(s, id), other) ==> bytes_at(
                blobs_of(put_model(s, id, key, bytes), id),
                other,
            ) == bytes_at(blobs_of(s, id), other)),
{
    let before = blobs_of(s, id);
    let after = put_blob(before, key, bytes);
    lemma_put_effect(s, id, key, bytes);
    lemma_blob_slot(before, key);
    lemma_blob_slot(after, key);
    assert(after[blob_slot(before, key)].0 == key);
    assert forall|other: Seq<char>| other != key implies has_key(after, other) == has_key(
        before,
        other,
    ) && (has_key(before, other) ==> bytes_at(after, other) == bytes_at(before, other)) by {
        lemma_blob_slot(before, other);
        lemma_blob_slot(after, other);
        let m = blob_slot(before, other);
        let n = blob_slot(after, other);
        if m < before.len() {
            assert(after[m] == before[m]);
        }
        if n < before.len() {
            assert(after[n].0 == other);
            assert(after[n] == before[n]);
        }
    }
}

/// What trimming keeps: at most `max` entries, which are the newest; the
/// entries that it removes are all older than every entry that it keeps,
/// and together the two are the table as it was.
pub proof fn lemma_kept_are_newest(s: Seq<EntryModel>, max: nat)
    requires
        well_formed(s),
    ensures
        well_formed(kept(s, max)),
        kept(s, max).len() <= max,
        kept(s, max).len() == if s.len() <= max { s.len() } else { max },
        kept(s, max) + evicted(s, max) == s,
        forall|i: int, j: int|
            0 <= i < kept(s, max).len() && 0 <= j < evicted(s, max).len() ==> kept(s, max)[i].id
                > evicted(s, max)[j].id,
{
    assert(kept(s, max) + evicted(s, max) =~= s);
}

impl Blob {
    /// The blob as a pair of storage key and bytes.
    spec fn model(self) -> (Seq<char>, Seq<u8>) {
        (self.key@, self.bytes@)
    }
}

impl Entry {
    /// The entry as plain values.
    spec fn model(self) -> EntryModel {
        EntryModel {
            id: self.id,
            blobs: Seq::new(self.blobs.len() as nat, |j: int| self.blobs[j].model()),
        }
    }
}

/// A copy of `bytes`.
pub(crate) fn copy_bytes(bytes: &Vec<u8>) -> (out: Vec<u8>)
    ensures
        out@ == bytes@,
{
    let mut out: Vec<u8> = Vec::new();
    let mut i: usize = 0;
    while i < bytes.len()
        invariant
            i <= bytes.len(),
            out@ == bytes@.subrange(0, i as int),
        decreases bytes.len() - i,
    {
        out.push(bytes[i]);
        i += 1;
        assert(out@ =~= bytes@.subrange(0, i as int));
    }
    assert(bytes@.subrange(0, i as int) =~= bytes@);
    out
}

/// The slot of `key` among the blobs of `entry`.
fn find_blob(entry: &Entry, key: &String) -> (j: usize)
    ensures
        j == blob_slot(entry.model().blobs, key@),
        j <= entry.blobs.len(),
{
    let ghost blobs = entry.model().blobs;
    let mut j: usize = 0;
    while j < entry.blobs.len()
        invariant
            j <= entry.blobs.len(),
            blobs == entry.model().blobs,
            forall|k: int| 0 <= k < j ==> blobs[k].0 != key@,
        decreases entry.blobs.len() - j,
    {
        assert(blobs[j as int] == entry.blobs[j as int].model());
        if entry.blobs[j].key == *key {
            proof {
                lemma_blob_slot(blobs, key@);
            }
            return j;
        }
        j += 1;
    }
    proof {
        lemma_blob_slot(blobs, key@);
    }
    j
}

impl Repository {
    /// The entries, newest first.
    pub closed spec fn view(&self) -> Seq<EntryModel> {
        Seq::new(self.entries.len() as nat, |i: int| self.entries[i].model())
    }

    /// Whether the invariant of the repository holds.
    pub open spec fn wf(&self) -> bool {
        well_formed(self@)
    }

    /// A repository without entries.
    pub fn new() -> (repo: Repository)
        ensures
            repo.wf(),
            repo@ == Seq::<EntryModel>::empty(),
    {
        let repo = Repository { entries: Vec::new() };
        assert(repo@ =~= Seq::<EntryModel>::empty());
        repo
    }

    /// The number of entries.
    pub fn len(&self) -> (n: usize)
        ensures
            n == self@.len(),
    {
        self.entries.len()
    }

    /// The slot of `id` in the table.
    fn find_slot(&self, id: u64) -> (i: usize)
        ensures
            i == slot(self@, id),
            i <= self.entries.len(),
    {
        let mut i: usize = 0;
        while i < self.entries.len()
            invariant
                i <= self.entries.len(),
                forall|k: int| 0 <= k < i ==> self@[k].id > id,
            decreases self.entries.len() - i,
        {
            if self.entries[i].id <= id {
                proof {
                    assert(self@[i as int].id <= id);
                    lemma_slot(self@, id);
                }
                return i;
            }
            assert(self@[i as int].id > id);
            i += 1;
        }
        proof {
            lemma_slot(self@, id);
        }
        i
    }

    /// Whether the repository holds an entry `id`.
    pub fn contains(&self, id: u64) -> (r: bool)
        ensures
            r == holds(self@, id),
    {
        let i = self.find_slot(id);
        let r = i < self.entries.len() && self.entries[i].id == id;
        assert(i < self.entries.len() ==> self@[i as int].id == self.entries[i as int].id);
        r
    }

    /// Stores `bytes` as the representation `format` of entry `id`. The entry
    /// is created if the repository does not hold it; an earlier blob under
    /// the same storage key is replaced.
    pub fn put(&mut self, id: u64, format: &str, bytes: Vec<u8>)
        requires
            old(self).wf(),
        ensures
            final(self).wf(),
            final(self)@ == put_model(old(self)@, id, key_of(format@), bytes@),
    {
        let key = storage_key(format);
        let i = self.find_slot(id);
        let ghost before = self@;
        let ghost blob = (key@, bytes@);
        assert(i < self.entries.len() ==> self@[i as int].id == self.entries[i as int].id);
        if i < self.entries.len() && self.entries[i].id == id {
            let mut entry = self.entries.remove(i);
            let ghost blobs = entry.model().blobs;
            assert(entry.model() == before[i as int]);
            let j = find_blob(&entry, &key);
            if j < entry.blobs.len() {
                entry.blobs.set(j, Blob { key, bytes });
            } else {
                entry.blobs.push(Blob { key, bytes });
            }
            assert(entry.model().blobs =~= put_blob(blobs, blob.0, blob.1));
            self.entries.insert(i, entry);
            assert(self@ =~= put_model(before, id, blob.0, blob.1));
        } else {
            let mut blobs: Vec<Blob> = Vec::new();
            blobs.push(Blob { key, bytes });
            let entry = Entry { id, blobs };
            assert(entry.model().blobs =~= seq![blob]);
            self.entries.insert(i, entry);
            assert(self@ =~= put_model(before, id, blob.0, blob.1));
        }
        proof {
            lemma_put_keeps_well_formed(before, id, blob.0, blob.1);
        }
    }

    /// The bytes stored for entry `id` under `format`.
    pub fn read(&self, id: u64, format: &str) -> (r: Result<Vec<u8>, StoreError>)
        ensures
            match r {
                Ok(bytes) => has_key(blobs_of(self@, id), key_of(format@)) && bytes@ == bytes_at(
                    blobs_of(self@, id),
                    key_of(format@),
                ),
                Err(e) => e == StoreError::NotFound && !has_key(
                    blobs_of(self@, id),
                    key_of(format@),
                ),
            },
    {
        let key = storage_key(format);
        let i = self.find_slot(id);
        assert(i < self.entries.len() ==> self@[i as int] == self.entries[i as int].model());
        if i < self.entries.len() && self.entries[i].id == id {
            let j = find_blob(&self.entries[i], &key);
            if j < self.entries[i].blobs.len() {
                Ok(copy_bytes(&self.entries[i].blobs[j].bytes))
            } else {
                Err(StoreError::NotFound)
            }
        } else {
            Err(StoreError::NotFound)
        }
    }

    /// Every representation of entry `id`, in the order of first storing,
    /// each under the format tag that its storage key is read back as.
    pub fn read_all(&self, id: u64) -> (r: Result<Vec<Representation>, StoreError>)
        ensures
            match r {
                Ok(reps) => holds(self@, id) && pairs_of(reps@) == read_back(blobs_of(self@, id)),
                Err(e) => e == StoreError::NotFound && !holds(self@, id),
            },
    {
        let i = self.find_slot(id);
        assert(i < self.entries.len() ==> self@[i as int] == self.entries[i as int].model());
        if i < self.entries.len() && self.entries[i].id == id {
            let entry = &self.entries[i];
            let ghost blobs = entry.model().blobs;
            let mut reps: Vec<Representation> = Vec::new();
            let mut j: usize = 0;
            while j < entry.blobs.len()
                invariant
                    j <= entry.blobs.len(),
                    blobs == entry.model().blobs,
                    pairs_of(reps@) == read_back(blobs).subrange(0, j as int),
                decreases entry.blobs.len() - j,
            {
                assert(blobs[j as int] == entry.blobs[j as int].model());
                let format = format_of_key(entry.blobs[j].key.as_str());
                let bytes = copy_bytes(&entry.blobs[j].bytes);
                let ghost earlier = reps@;
                assert(pairs_of(earlier).len() == j);
                assert((format@, bytes@) == read_back(blobs)[j as int]);
                reps.push(Representation { format, bytes });
                j += 1;
                assert forall|k: int| 0 <= k < j implies pairs_of(reps@)[k] == read_back(
                    blobs,
                )[k] by {
                    if k < j - 1 {
                        assert(reps@[k] == earlier[k]);
                        assert(pairs_of(earlier)[k] == read_back(blobs).subrange(0, j - 1)[k]);
                    } else {
                        assert(reps@[k].format@ == format@);
                    }
                }
                assert(pairs_of(reps@) =~= read_back(blobs).subrange(0, j as int));
            }
            assert(read_back(blobs).subrange(0, j as int) =~= read_back(blobs));
            Ok(reps)
        } else {
            Err(StoreError::NotFound)
        }
    }

    /// The identifiers of the entries, newest first.
    pub fn ids(&self) -> (out: Vec<u64>)
        ensures
            out@ == ids_of(self@),
    {
        let mut out: Vec<u64> = Vec::new();
        let mut i: usize = 0;
        while i < self.entries.len()
            invariant
                i <= self.entries.len(),
                out@ == ids_of(self@).subrange(0, i as int),
            decreases self.entries.len() - i,
        {
            out.push(self.entries[i].id);
            i += 1;
            assert(out@ =~= ids_of(self@).subrange(0, i as int));
        }
        assert(ids_of(self@).subrange(0, i as int) =~= ids_of(self@));
        out
    }

    /// The listing of the repository: every entry, newest first, with the
    /// format tags that it is stored under.
    pub fn list(&self) -> (lines: Vec<Listing>)
        ensures
            lists(lines@, self@),
    {
        let mut lines: Vec<Listing> = Vec::new();
        let mut i: usize = 0;
        while i < self.entries.len()
            invariant
                i <= self.entries.len(),
                lists(lines@, self@.subrange(0, i as int)),
            decreases self.entries.len() - i,
        {
            let entry = &self.entries[i];
            let ghost blobs = entry.model().blobs;
            let mut formats: Vec<String> = Vec::new();
            let mut j: usize = 0;
            while j < entry.blobs.len()
                invariant
                    j <= entry.blobs.len(),
                    blobs == entry.model().blobs,
                    formats@.len() == j,
                    formats_of(formats@) == tags_of(blobs).subrange(0, j as int),
                decreases entry.blobs.len() - j,
            {
                assert(blobs[j as int] == entry.blobs[j as int].model());
                let ghost earlier = formats@;
                formats.push(format_of_key(entry.blobs[j].key.as_str()));
                j += 1;
                assert forall|k: int| 0 <= k < j implies formats_of(formats@)[k] == tags_of(
                    blobs,
                )[k] by {
                    if k < j - 1 {
                        assert(formats@[k] == earlier[k]);
                        assert(formats_of(earlier)[k] == tags_of(blobs).subrange(0, j - 1)[k]);
                    }
                }
                assert(formats_of(formats@) =~= tags_of(blobs).subrange(0, j as int));
            }
            assert(tags_of(blobs).subrange(0, j as int) =~= tags_of(blobs));
            let ghost above = lines@;
            lines.push(Listing { id: entry.id, formats });
            i += 1;
            assert forall|k: int| 0 <= k < i implies (#[trigger] lines@[k]).id == self@[k].id
                && formats_of(lines@[k].formats@) == tags_of(self@[k].blobs) by {
                if k < i - 1 {
                    assert(lines@[k] == above[k]);
                    assert(self@.subrange(0, i - 1)[k] == self@[k]);
                }
            }
        }
        assert(self@.subrange(0, i as int) =~= self@);
        lines
    }

    /// Removes entry `id` with all its representations, and says whether the
    /// repository held it. Removing an entry that is not there changes
    /// nothing.
    pub fn delete(&mut self, id: u64) -> (removed: bool)
        requires
            old(self).wf(),
        ensures
            final(self).wf(),
            removed == holds(old(self)@, id),
            final(self)@ == delete_model(old(self)@, id),
    {
        let i = self.find_slot(id);
        let ghost before = self@;
        assert(i < self.entries.len() ==> self@[i as int].id == self.entries[i as int].id);
        if i < self.entries.len() && self.entries[i].id == id {
            self.entries.remove(i);
            assert(self@ =~= before.remove(i as int));
            true
        } else {
            false
        }
    }

    /// Keeps the `max` newest entries and removes the others, whose
    /// identifiers it returns, newest first.
    pub fn trim(&mut self, max: usize) -> (gone: Vec<u64>)
        requires
            old(self).wf(),
        ensures
            final(self).wf(),
            final(self)@ == kept(old(self)@, max as nat),
            gone@ == ids_of(evicted(old(self)@, max as nat)),
    {
        let ghost before = self@;
        let mut gone: Vec<u64> = Vec::new();
        if self.entries.len() > max {
            let mut i: usize = max;
            while i < self.entries.len()
                invariant
                    max <= i <= self.entries.len(),
                    self@ == before,
                    before.len() > max,
                    gone@ == ids_of(evicted(before, max as nat)).subrange(0, i - max),
                decreases self.entries.len() - i,
            {
                gone.push(self.entries[i].id);
                i += 1;
                assert(gone@ =~= ids_of(evicted(before, max as nat)).subrange(0, i - max));
            }
            assert(gone@ =~= ids_of(evicted(before, max as nat)));
            self.entries.truncate(max);
            assert(self@ =~= kept(before, max as nat));
        } else {
            assert(gone@ =~= ids_of(evicted(before, max as nat)));
        }
        gone
    }
}

} // verus!
