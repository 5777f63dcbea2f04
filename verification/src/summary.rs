//! The summary builder: from the entries of a repository and the configured
//! favorites to the index of one listing.

use vstd::prelude::*;
use vstd::string::StringExecFns;
use vstd::utf8::{decode_utf8, valid_utf8};
use crate::ident::{name_of_id, render_id};
use crate::index::{
    distinct_labels, has_label, labels_of, lemma_offered, lemma_offered_labels, offered,
    source_at, texts_of, Source, SummaryIndex,
};
use crate::label::{derive_label, label_of};
use crate::format::key_of;
use crate::repository::{
    blobs_of, bytes_at, has_key, ids_of, lemma_slot_of_member, EntryModel, Repository,
};
use crate::text::{chars_of, string_of};

verus! {

/// A favorite: a permanent label with a fixed text.
#[derive(Clone, Debug, PartialEq, Eq)]
pub struct Favorite {
    pub label: String,
    pub value: String,
}

/// The number of format tags that are tried for an entry's text.
pub const TEXT_TAGS: usize = 5;

/// The format tags under which an entry's text is looked for, by rank: the
/// lowest rank is tried first.
pub open spec fn text_tag(rank: int) -> Seq<char> {
    if rank <= 0 {
        "UTF8_STRING"@
    } else if rank == 1 {
        "TEXT"@
    } else if rank == 2 {
        "text/plain"@
    } else if rank == 3 {
        "text/html"@
    } else {
        "STRING"@
    }
}

/// The text of an entry with these blobs, as found from `rank` on: that of
/// the first tag in the order of ranks under which the entry has a blob that
/// is valid UTF-8.
pub open spec fn text_from(blobs: Seq<(Seq<char>, Seq<u8>)>, rank: int) -> Option<Seq<char>>
    decreases TEXT_TAGS - rank,
{
    if rank < 0 || rank >= TEXT_TAGS {
        None
    } else if has_key(blobs, key_of(text_tag(rank))) && valid_utf8(
        bytes_at(blobs, key_of(text_tag(rank))),
    ) {
        Some(decode_utf8(bytes_at(blobs, key_of(text_tag(rank)))))
    } else {
        text_from(blobs, rank + 1)
    }
}

/// The label of an entry: that of its text or, where it has none, the name
/// of its identifier.
pub open spec fn entry_label(entry: EntryModel, max: nat) -> Seq<char> {
    match text_from(entry.blobs, 0) {
        Some(text) => label_of(text, max),
        None => name_of_id(entry.id as nat),
    }
}

/// `pairs` after the entries of `s` were offered in order, each under its
/// label.
pub open spec fn with_entries(
    pairs: Seq<(Seq<char>, Source)>,
    s: Seq<EntryModel>,
    max: nat,
) -> Seq<(Seq<char>, Source)>
    decreases s.len(),
{
    if s.len() == 0 {
        pairs
    } else {
        offered(
            with_entries(pairs, s.drop_last(), max),
            entry_label(s.last(), max),
            Source::Entry(s.last().id),
        )
    }
}

/// `pairs` after the favorites with these labels were offered in order, each
/// under its own label and for its position.
pub open spec fn with_favorites(
    pairs: Seq<(Seq<char>, Source)>,
    labels: Seq<Seq<char>>,
) -> Seq<(Seq<char>, Source)>
    decreases labels.len(),
{
    if labels.len() == 0 {
        pairs
    } else {
        offered(
            with_favorites(pairs, labels.drop_last()),
            labels.last(),
            Source::Favorite((labels.len() - 1) as usize),
        )
    }
}

/// The labels of the favorites, in order.
pub open spec fn favorite_labels(favorites: Seq<Favorite>) -> Seq<Seq<char>> {
    Seq::new(favorites.len(), |i: int| favorites[i].label@)
}

/// The index of a listing: the entries newest first, then the favorites,
/// none of them replacing a label that is already there.
pub open spec fn summary_of(
    s: Seq<EntryModel>,
    favorites: Seq<Seq<char>>,
    max: nat,
) -> Seq<(Seq<char>, Source)> {
    with_favorites(with_entries(Seq::empty(), s, max), favorites)
}

/// The lines of `labels`, joined by newlines.
pub open spec fn joined(labels: Seq<Seq<char>>) -> Seq<char>
    decreases labels.len(),
{
    if labels.len() == 0 {
        Seq::empty()
    } else if labels.len() == 1 {
        labels[0]
    } else {
        joined(labels.drop_last()).push('\n') + labels.last()
    }
}

/// `s` without the line terminator at its end: one `\n`, and one `\r` before
/// it, are left out.
pub open spec fn without_line_end(s: Seq<char>) -> Seq<char> {
    let t = if s.len() > 0 && s.last() == '\n' {
        s.drop_last()
    } else {
        s
    };
    if t.len() > 0 && t.last() == '\r' {
        t.drop_last()
    } else {
        t
    }
}

/// `String::from_utf8` of the standard library: the text that the bytes
/// encode, or `None` where they are not valid UTF-8.
#[verifier::external_body]
fn text_of_bytes(bytes: Vec<u8>) -> (text: Option<String>)
    ensures
        match text {
            Some(t) => valid_utf8(bytes@) && t@ == decode_utf8(bytes@),
            None => !valid_utf8(bytes@),
        },
{
    String::from_utf8(bytes).ok()
}

/// The format tag of rank `rank`.
pub fn text_format(rank: usize) -> (tag: &'static str)
    ensures
        tag@ == text_tag(rank as int),
{
    if rank == 0 {
        "UTF8_STRING"
    } else if rank == 1 {
        "TEXT"
    } else if rank == 2 {
        "text/plain"
    } else if rank == 3 {
        "text/html"
    } else {
        "STRING"
    }
}

/// The text of entry `id`, if the entry has one.
pub fn entry_text(repo: &Repository, id: u64) -> (text: Option<String>)
    ensures
        match text {
            Some(t) => text_from(blobs_of(repo@, id), 0) == Some(t@),
            None => text_from(blobs_of(repo@, id), 0) is None,
        },
{
    let ghost blobs = blobs_of(repo@, id);
    let mut rank: usize = 0;
    while rank < TEXT_TAGS
        invariant
            rank <= TEXT_TAGS,
            blobs == blobs_of(repo@, id),
            text_from(blobs, 0) == text_from(blobs, rank as int),
        decreases TEXT_TAGS - rank,
    {
        match repo.read(id, text_format(rank)) {
            Ok(bytes) => {
                match text_of_bytes(bytes) {
                    Some(t) => {
                        return Some(t);
                    },
                    None => {},
                }
            },
            Err(_) => {},
        }
        rank += 1;
    }
    None
}

/// The label of entry `id`, cut to `max` characters.
pub fn label_for(repo: &Repository, id: u64, max: usize) -> (label: String)
    ensures
        label@ == entry_label((EntryModel { id, blobs: blobs_of(repo@, id) }), max as nat),
{
    match entry_text(repo, id) {
        Some(text) => derive_label(text.as_str(), max),
        None => render_id(id),
    }
}

/// Every index of a listing is free of repeated labels.
pub proof fn lemma_summary_has_distinct_labels(
    s: Seq<EntryModel>,
    favorites: Seq<Seq<char>>,
    max: nat,
)
    ensures
        distinct_labels(summary_of(s, favorites, max)),
{
    lemma_entries_keep_distinct(Seq::empty(), s, max);
    lemma_favorites_keep_distinct(with_entries(Seq::empty(), s, max), favorites);
}

/// Offering entries leaves no label twice.
pub proof fn lemma_entries_keep_distinct(
    pairs: Seq<(Seq<char>, Source)>,
    s: Seq<EntryModel>,
    max: nat,
)
    requires
        distinct_labels(pairs),
    ensures
        distinct_labels(with_entries(pairs, s, max)),
    decreases s.len(),
{
    if s.len() > 0 {
        lemma_entries_keep_distinct(pairs, s.drop_last(), max);
        lemma_offered(
            with_entries(pairs, s.drop_last(), max),
            entry_label(s.last(), max),
            Source::Entry(s.last().id),
        );
    }
}

/// Offering favorites leaves no label twice.
pub proof fn lemma_favorites_keep_distinct(pairs: Seq<(Seq<char>, Source)>, labels: Seq<Seq<char>>)
    requires
        distinct_labels(pairs),
    ensures
        distinct_labels(with_favorites(pairs, labels)),
    decreases labels.len(),
{
    if labels.len() > 0 {
        lemma_favorites_keep_distinct(pairs, labels.drop_last());
        lemma_offered(
            with_favorites(pairs, labels.drop_last()),
            labels.last(),
            Source::Favorite((labels.len() - 1) as usize),
        );
    }
}

/// Offering entries adds no label but theirs: a label that the index lacks
/// and no entry has is still lacking afterwards.
pub proof fn lemma_entries_add_only_their_labels(
    pairs: Seq<(Seq<char>, Source)>,
    s: Seq<EntryModel>,
    max: nat,
    label: Seq<char>,
)
    requires
        !has_label(pairs, label),
        forall|k: int| 0 <= k < s.len() ==> entry_label(#[trigger] s[k], max) != label,
    ensures
        !has_label(with_entries(pairs, s, max), label),
    decreases s.len(),
{
    if s.len() > 0 {
        let init = s.drop_last();
        assert forall|k: int| 0 <= k < init.len() implies entry_label(#[trigger] init[k], max)
            != label by {
            assert(init[k] == s[k]);
        }
        lemma_entries_add_only_their_labels(pairs, init, max, label);
        lemma_offered_labels(
            with_entries(pairs, init, max),
            entry_label(s.last(), max),
            Source::Entry(s.last().id),
            label,
        );
    }
}

/// Offering favorites adds no label but theirs: a label that the index
/// lacks and no favorite has is still lacking afterwards.
pub proof fn lemma_favorites_add_only_their_labels(
    pairs: Seq<(Seq<char>, Source)>,
    labels: Seq<Seq<char>>,
    label: Seq<char>,
)
    requires
        !has_label(pairs, label),
        forall|k: int| 0 <= k < labels.len() ==> #[trigger] labels[k] != label,
    ensures
        !has_label(with_favorites(pairs, labels), label),
    decreases labels.len(),
{
    if labels.len() > 0 {
        let init = labels.drop_last();
        assert forall|k: int| 0 <= k < init.len() implies #[trigger] init[k] != label by {
            assert(init[k] == labels[k]);
        }
        lemma_favorites_add_only_their_labels(pairs, init, label);
        lemma_offered_labels(
            with_favorites(pairs, init),
            labels.last(),
            Source::Favorite((labels.len() - 1) as usize),
            label,
        );
    }
}

/// A label that the index holds keeps its source while favorites are
/// offered.
pub proof fn lemma_favorites_keep_source(
    pairs: Seq<(Seq<char>, Source)>,
    labels: Seq<Seq<char>>,
    label: Seq<char>,
)
    requires
        distinct_labels(pairs),
        has_label(pairs, label),
    ensures
        has_label(with_favorites(pairs, labels), label),
        source_at(with_favorites(pairs, labels), label) == source_at(pairs, label),
    decreases labels.len(),
{
    if labels.len() > 0 {
        let init = labels.drop_last();
        let source = Source::Favorite((labels.len() - 1) as usize);
        lemma_favorites_keep_source(pairs, init, label);
        lemma_favorites_keep_distinct(pairs, init);
        lemma_offered(with_favorites(pairs, init), labels.last(), source);
        lemma_offered_labels(with_favorites(pairs, init), labels.last(), source, label);
    }
}

/// A label that the index lacks comes to stand for the first entry offered
/// under it.
pub proof fn lemma_first_entry_wins(
    pairs: Seq<(Seq<char>, Source)>,
    s: Seq<EntryModel>,
    max: nat,
    i: int,
)
    requires
        distinct_labels(pairs),
        0 <= i < s.len(),
        !has_label(pairs, entry_label(s[i], max)),
        forall|k: int| 0 <= k < i ==> entry_label(#[trigger] s[k], max) != entry_label(s[i], max),
    ensures
        has_label(with_entries(pairs, s, max), entry_label(s[i], max)),
        source_at(with_entries(pairs, s, max), entry_label(s[i], max)) == Some(
            Source::Entry(s[i].id),
        ),
    decreases s.len(),
{
    let label = entry_label(s[i], max);
    let init = s.drop_last();
    let earlier = with_entries(pairs, init, max);
    let source = Source::Entry(s.last().id);
    lemma_entries_keep_distinct(pairs, init, max);
    lemma_offered(earlier, entry_label(s.last(), max), source);
    lemma_offered_labels(earlier, entry_label(s.last(), max), source, label);
    if i == s.len() - 1 {
        assert forall|k: int| 0 <= k < init.len() implies entry_label(#[trigger] init[k], max)
            != label by {
            assert(init[k] == s[k]);
        }
        lemma_entries_add_only_their_labels(pairs, init, max, label);
    } else {
        assert(init[i] == s[i]);
        assert forall|k: int| 0 <= k < i implies entry_label(#[trigger] init[k], max)
            != entry_label(init[i], max) by {
            assert(init[k] == s[k]);
        }
        lemma_first_entry_wins(pairs, init, max, i);
    }
}

/// A label that the index lacks comes to stand for the first favorite
/// offered under it.
pub proof fn lemma_first_favorite_wins(
    pairs: Seq<(Seq<char>, Source)>,
    labels: Seq<Seq<char>>,
    j: int,
)
    requires
        distinct_labels(pairs),
        0 <= j < labels.len(),
        !has_label(pairs, labels[j]),
        forall|k: int| 0 <= k < j ==> #[trigger] labels[k] != labels[j],
    ensures
        source_at(with_favorites(pairs, labels), labels[j]) == Some(Source::Favorite(j as usize)),
    decreases labels.len(),
{
    let label = labels[j];
    let init = labels.drop_last();
    let earlier = with_favorites(pairs, init);
    let source = Source::Favorite((labels.len() - 1) as usize);
    lemma_favorites_keep_distinct(pairs, init);
    lemma_offered(earlier, labels.last(), source);
    lemma_offered_labels(earlier, labels.last(), source, label);
    if j == labels.len() - 1 {
        assert forall|k: int| 0 <= k < init.len() implies #[trigger] init[k] != label by {
            assert(init[k] == labels[k]);
        }
        lemma_favorites_add_only_their_labels(pairs, init, label);
    } else {
        assert(init[j] == labels[j]);
        assert forall|k: int| 0 <= k < j implies #[trigger] init[k] != init[j] by {
            assert(init[k] == labels[k]);
        }
        lemma_first_favorite_wins(pairs, init, j);
    }
}

/// Among entries with one label the newest wins: in the index of a listing
/// the label of an entry stands for that entry if no newer entry has the
/// same label, whatever older entries and favorites are called.
pub proof fn lemma_newest_entry_wins(
    s: Seq<EntryModel>,
    favorites: Seq<Seq<char>>,
    max: nat,
    i: int,
)
    requires
        0 <= i < s.len(),
        forall|k: int| 0 <= k < i ==> entry_label(#[trigger] s[k], max) != entry_label(s[i], max),
    ensures
        source_at(summary_of(s, favorites, max), entry_label(s[i], max)) == Some(
            Source::Entry(s[i].id),
        ),
{
    let none = Seq::<(Seq<char>, Source)>::empty();
    lemma_first_entry_wins(none, s, max, i);
    lemma_entries_keep_distinct(none, s, max);
    lemma_favorites_keep_source(with_entries(none, s, max), favorites, entry_label(s[i], max));
}

/// A favorite is always listed: its label stands for it in the index of a
/// listing if no entry and no earlier favorite has the same label.
pub proof fn lemma_favorite_is_listed(
    s: Seq<EntryModel>,
    favorites: Seq<Seq<char>>,
    max: nat,
    j: int,
)
    requires
        0 <= j < favorites.len(),
        forall|k: int| 0 <= k < s.len() ==> entry_label(#[trigger] s[k], max) != favorites[j],
        forall|k: int| 0 <= k < j ==> #[trigger] favorites[k] != favorites[j],
    ensures
        source_at(summary_of(s, favorites, max), favorites[j]) == Some(
            Source::Favorite(j as usize),
        ),
{
    let none = Seq::<(Seq<char>, Source)>::empty();
    lemma_entries_add_only_their_labels(none, s, max, favorites[j]);
    lemma_entries_keep_distinct(none, s, max);
    lemma_first_favorite_wins(with_entries(none, s, max), favorites, j);
}

/// The index of a listing of `repo` and `favorites`, with labels of at most
/// `max` characters.
pub fn build(repo: &Repository, favorites: &Vec<Favorite>, max: usize) -> (index: SummaryIndex)
    requires
        repo.wf(),
    ensures
        index.wf(),
        index@ == summary_of(repo@, favorite_labels(favorites@), max as nat),
{
    let mut index = SummaryIndex::new();
    let ids = repo.ids();
    let ghost s = repo@;
    let mut i: usize = 0;
    while i < ids.len()
        invariant
            i <= ids.len(),
            s == repo@,
            repo.wf(),
            ids@ == ids_of(s),
            index.wf(),
            index@ == with_entries(Seq::empty(), s.subrange(0, i as int), max as nat),
        decreases ids.len() - i,
    {
        let id = ids[i];
        let label = label_for(repo, id, max);
        proof {
            lemma_slot_of_member(s, i as int);
            let next = s.subrange(0, i + 1);
            assert(next.drop_last() =~= s.subrange(0, i as int));
            assert(next.last() == s[i as int]);
            assert(s[i as int] == (EntryModel { id, blobs: blobs_of(s, id) }));
        }
        index.offer(label, Source::Entry(id));
        i += 1;
    }
    assert(s.subrange(0, i as int) =~= s);
    let ghost base = index@;
    let ghost labels = favorite_labels(favorites@);
    let mut j: usize = 0;
    while j < favorites.len()
        invariant
            j <= favorites.len(),
            labels == favorite_labels(favorites@),
            index.wf(),
            index@ == with_favorites(base, labels.subrange(0, j as int)),
        decreases favorites.len() - j,
    {
        let label = favorites[j].label.clone();
        proof {
            let next = labels.subrange(0, j + 1);
            assert(next.drop_last() =~= labels.subrange(0, j as int));
            assert(next.last() == labels[j as int]);
        }
        index.offer(label, Source::Favorite(j));
        j += 1;
    }
    assert(labels.subrange(0, j as int) =~= labels);
    index
}

/// What is written to the chooser: the labels of the index in order, one on
/// each line.
pub fn chooser_input(index: &SummaryIndex) -> (input: String)
    ensures
        input@ == joined(labels_of(index@)),
{
    let labels = index.labels();
    let ghost lines = labels_of(index@);
    let mut input = String::new();
    let mut i: usize = 0;
    assert(texts_of(labels@).len() == labels@.len());
    while i < labels.len()
        invariant
            i <= labels.len(),
            lines == texts_of(labels@),
            input@ == joined(lines.subrange(0, i as int)),
        decreases labels.len() - i,
    {
        proof {
            let next = lines.subrange(0, i + 1);
            assert(next.drop_last() =~= lines.subrange(0, i as int));
            assert(next.last() == labels@[i as int]@);
            assert(i == 0 ==> next[0] == next.last());
        }
        if i > 0 {
            input.push('\n');
        }
        input.append(labels[i].as_str());
        i += 1;
        assert(input@ =~= joined(lines.subrange(0, i as int)));
    }
    assert(lines.subrange(0, i as int) =~= lines);
    input
}

/// The line that the chooser gave back, without its line terminator.
pub fn selection_of(output: &str) -> (line: String)
    ensures
        line@ == without_line_end(output@),
{
    let mut chars = chars_of(output);
    if chars.len() > 0 && chars[chars.len() - 1] == '\n' {
        chars.pop();
        assert(chars@ =~= output@.drop_last());
    }
    if chars.len() > 0 && chars[chars.len() - 1] == '\r' {
        let ghost before = chars@;
        chars.pop();
        assert(chars@ =~= before.drop_last());
    }
    string_of(&chars)
}

} // verus!
