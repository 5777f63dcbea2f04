//! Format tags and the storage keys under which their blobs are kept.
//!
//! A format tag such as `text/plain` names one representation of a clipboard
//! entry. Its storage key is the tag with every `/` replaced by `.`, so that
//! a key never holds a path separator. Reading a key back restores the first
//! `.` to `/`.

use vstd::prelude::*;
use crate::text::{chars_of, string_of};

verus! {

/// The storage key of a tag: the tag with every `/` replaced by `.`.
pub open spec fn key_of(tag: Seq<char>) -> Seq<char> {
    Seq::new(tag.len(), |i: int| if tag[i] == '/' { '.' } else { tag[i] })
}

/// The position of the first `.` in `key`, or its length if it holds none.
pub open spec fn first_dot(key: Seq<char>) -> int
    decreases key.len(),
{
    if key.len() == 0 {
        0
    } else if key[0] == '.' {
        0
    } else {
        1 + first_dot(key.drop_first())
    }
}

/// The tag that a storage key is read back as: the key with its first `.`
/// replaced by `/`.
pub open spec fn tag_of(key: Seq<char>) -> Seq<char> {
    if first_dot(key) < key.len() {
        key.update(first_dot(key), '/')
    } else {
        key
    }
}

/// A tag survives a round trip through its storage key exactly if it is read
/// back as itself.
pub open spec fn round_trips(tag: Seq<char>) -> bool {
    tag_of(key_of(tag)) == tag
}

/// The first dot lies within the key; no dot stands before it, and where it
/// lies before the end a dot stands at it.
pub proof fn lemma_first_dot(key: Seq<char>)
    ensures
        0 <= first_dot(key) <= key.len(),
        forall|j: int| 0 <= j < first_dot(key) ==> key[j] != '.',
        first_dot(key) < key.len() ==> key[first_dot(key)] == '.',
    decreases key.len(),
{
    if key.len() > 0 && key[0] != '.' {
        let rest = key.drop_first();
        lemma_first_dot(rest);
        assert forall|j: int| 0 <= j < first_dot(key) implies key[j] != '.' by {
            if j > 0 {
                assert(key[j] == rest[j - 1]);
            }
        }
        assert(first_dot(rest) < rest.len() ==> key[first_dot(key)] == rest[first_dot(rest)]);
    }
}

/// A storage key holds no path separator, whatever the tag.
pub proof fn lemma_key_has_no_separator(tag: Seq<char>)
    ensures
        key_of(tag).len() == tag.len(),
        forall|i: int| 0 <= i < tag.len() ==> key_of(tag)[i] != '/',
{
}

/// A tag made of a part without `.` or `/`, one `/`, and a part without `/`
/// is read back from its storage key unchanged; so is a tag without either
/// character.
pub proof fn lemma_round_trip(tag: Seq<char>, slash: int)
    requires
        0 <= slash <= tag.len(),
        forall|i: int| 0 <= i < slash ==> tag[i] != '.' && tag[i] != '/',
        slash < tag.len() ==> tag[slash] == '/',
        forall|i: int| slash < i < tag.len() ==> tag[i] != '/',
    ensures
        round_trips(tag),
{
    let key = key_of(tag);
    lemma_first_dot(key);
    let d = first_dot(key);
    if d < slash {
        assert(key[d] == '.');
        assert(tag[d] != '.' && tag[d] != '/');
    }
    if slash < tag.len() {
        assert(key[slash] == '.');
        assert(d == slash);
    } else {
        assert(d == key.len());
    }
    assert(tag_of(key) =~= tag);
}

/// The storage key of `tag`.
pub fn storage_key(tag: &str) -> (key: String)
    ensures
        key@ == key_of(tag@),
{
    let chars = chars_of(tag);
    let mut out: Vec<char> = Vec::new();
    let mut i: usize = 0;
    while i < chars.len()
        invariant
            i <= chars.len(),
            chars@ == tag@,
            out@ == key_of(tag@).subrange(0, i as int),
        decreases chars.len() - i,
    {
        let c = chars[i];
        out.push(if c == '/' { '.' } else { c });
        i += 1;
        assert(out@ =~= key_of(tag@).subrange(0, i as int));
    }
    assert(key_of(tag@).subrange(0, i as int) =~= key_of(tag@));
    string_of(&out)
}

/// The format tag that the storage key `key` is read back as.
pub fn format_of_key(key: &str) -> (tag: String)
    ensures
        tag@ == tag_of(key@),
{
    let mut chars = chars_of(key);
    let mut i: usize = 0;
    while i < chars.len()
        invariant
            i <= chars.len(),
            chars@ == key@,
            forall|j: int| 0 <= j < i ==> key@[j] != '.',
        decreases chars.len() - i,
    {
        if chars[i] == '.' {
            proof {
                lemma_first_dot(key@);
                assert(first_dot(key@) == i);
            }
            chars.set(i, '/');
            return string_of(&chars);
        }
        i += 1;
    }
    proof {
        lemma_first_dot(key@);
        assert(first_dot(key@) == key@.len());
    }
    string_of(&chars)
}

} // verus!
