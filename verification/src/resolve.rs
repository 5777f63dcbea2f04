//! The selection resolver: from the label that the chooser gave back to what
//! is to be restored onto the clipboard.

use vstd::prelude::*;
use crate::index::{has_label, source_at, Source, SummaryIndex};
use crate::label::{trim_text, trimmed};
use crate::repository::{
    blobs_of, holds, lemma_slot_of_member, pairs_of, read_back, well_formed, EntryModel,
    Repository, Representation,
};
use crate::summary::{
    entry_label, lemma_favorite_is_listed, lemma_newest_entry_wins, summary_of, Favorite,
};

verus! {

/// What is handed to the clipboard in one piece.
#[derive(Clone, Debug, PartialEq, Eq)]
pub enum RestorePlan {
    /// One text, whose format the clipboard detects.
    Text(String),
    /// The representations of one entry, offered together.
    Formats(Vec<Representation>),
}

/// Why a chosen label could not be resolved. In either case nothing is
/// handed to the clipboard.
#[derive(Clone, Copy, Debug, PartialEq, Eq, Structural)]
pub enum ResolveError {
    /// The index holds no such label, or the label stands for a favorite
    /// that is not configured.
    UnknownLabel,
    /// The entry that the label stands for is no longer stored.
    EntryMissing,
}

/// A restore plan as plain values.
pub enum PlanModel {
    Text(Seq<char>),
    Formats(Seq<(Seq<char>, Seq<u8>)>),
}

impl RestorePlan {
    /// The plan as plain values.
    pub open spec fn model(self) -> PlanModel {
        match self {
            RestorePlan::Text(text) => PlanModel::Text(text@),
            RestorePlan::Formats(reps) => PlanModel::Formats(pairs_of(reps@)),
        }
    }
}

/// The values of the favorites, in order.
pub open spec fn favorite_values(favorites: Seq<Favorite>) -> Seq<Seq<char>> {
    Seq::new(favorites.len(), |i: int| favorites[i].value@)
}

/// The label that is looked up for a chosen line: the line itself where the
/// index holds it, else the line without the white space around it.
pub open spec fn wanted_label(chosen: Seq<char>, pairs: Seq<(Seq<char>, Source)>) -> Seq<char> {
    if has_label(pairs, chosen) {
        chosen
    } else {
        trimmed(chosen)
    }
}

/// What a chosen line resolves to. A line of white space alone selects
/// nothing. A label of a favorite gives the favorite's text. A label of an
/// entry gives all representations of the entry, and fails where the
/// repository no longer holds any. Any other line fails.
pub open spec fn resolution_of(
    chosen: Seq<char>,
    pairs: Seq<(Seq<char>, Source)>,
    s: Seq<EntryModel>,
    values: Seq<Seq<char>>,
) -> Result<Option<PlanModel>, ResolveError> {
    if trimmed(chosen).len() == 0 {
        Ok(None)
    } else {
        match source_at(pairs, wanted_label(chosen, pairs)) {
            None => Err(ResolveError::UnknownLabel),
            Some(Source::Favorite(j)) => if j < values.len() {
                Ok(Some(PlanModel::Text(values[j as int])))
            } else {
                Err(ResolveError::UnknownLabel)
            },
            Some(Source::Entry(id)) => if holds(s, id) && blobs_of(s, id).len() > 0 {
                Ok(Some(PlanModel::Formats(read_back(blobs_of(s, id)))))
            } else {
                Err(ResolveError::EntryMissing)
            },
        }
    }
}

/// A favorite is restored without a look at the repository: what its label
/// resolves to is the same whatever is stored.
pub proof fn lemma_favorite_needs_no_entry(
    chosen: Seq<char>,
    pairs: Seq<(Seq<char>, Source)>,
    s1: Seq<EntryModel>,
    s2: Seq<EntryModel>,
    values: Seq<Seq<char>>,
)
    requires
        source_at(pairs, wanted_label(chosen, pairs)) matches Some(Source::Favorite(_)),
    ensures
        resolution_of(chosen, pairs, s1, values) == resolution_of(chosen, pairs, s2, values),
{
}

/// A favorite can always be restored: where its label is not blank and no
/// entry and no earlier favorite has the same label, choosing the label from
/// the listing gives the favorite's text.
pub proof fn lemma_favorite_is_restorable(
    s: Seq<EntryModel>,
    labels: Seq<Seq<char>>,
    values: Seq<Seq<char>>,
    max: nat,
    j: int,
)
    requires
        0 <= j < labels.len(),
        labels.len() == values.len(),
        labels.len() <= usize::MAX,
        trimmed(labels[j]).len() > 0,
        forall|k: int| 0 <= k < s.len() ==> entry_label(#[trigger] s[k], max) != labels[j],
        forall|k: int| 0 <= k < j ==> #[trigger] labels[k] != labels[j],
    ensures
        resolution_of(labels[j], summary_of(s, labels, max), s, values) == Ok::<
            Option<PlanModel>,
            ResolveError,
        >(Some(PlanModel::Text(values[j]))),
{
    lemma_favorite_is_listed(s, labels, max, j);
}

/// The newest entry under a label can be restored: where the label is not
/// blank, choosing it from the listing gives all representations of the
/// newest entry that has it, and of no other.
pub proof fn lemma_newest_entry_is_restorable(
    s: Seq<EntryModel>,
    labels: Seq<Seq<char>>,
    values: Seq<Seq<char>>,
    max: nat,
    i: int,
)
    requires
        well_formed(s),
        0 <= i < s.len(),
        trimmed(entry_label(s[i], max)).len() > 0,
        forall|k: int| 0 <= k < i ==> entry_label(#[trigger] s[k], max) != entry_label(s[i], max),
    ensures
        resolution_of(entry_label(s[i], max), summary_of(s, labels, max), s, values) == Ok::<
            Option<PlanModel>,
            ResolveError,
        >(Some(PlanModel::Formats(read_back(s[i].blobs)))),
{
    lemma_newest_entry_wins(s, labels, max, i);
    lemma_slot_of_member(s, i);
}

/// An entry that is no longer stored is never restored: where the label
/// stands for an entry that the repository does not hold, resolving fails.
pub proof fn lemma_missing_entry_is_a_fault(
    chosen: Seq<char>,
    pairs: Seq<(Seq<char>, Source)>,
    s: Seq<EntryModel>,
    values: Seq<Seq<char>>,
    id: u64,
)
    requires
        trimmed(chosen).len() > 0,
        source_at(pairs, wanted_label(chosen, pairs)) == Some(Source::Entry(id)),
        !holds(s, id),
    ensures
        resolution_of(chosen, pairs, s, values) == Err::<Option<PlanModel>, ResolveError>(
            ResolveError::EntryMissing,
        ),
{
}

/// Resolves the line `chosen` against the index of the listing that was
/// shown, the repository as it is now, and the configured favorites.
pub fn resolve(
    chosen: &str,
    index: &SummaryIndex,
    repo: &Repository,
    favorites: &Vec<Favorite>,
) -> (r: Result<Option<RestorePlan>, ResolveError>)
    ensures
        match r {
            Ok(None) => resolution_of(chosen@, index@, repo@, favorite_values(favorites@)) == Ok::<
                Option<PlanModel>,
                ResolveError,
            >(None),
            Ok(Some(plan)) => resolution_of(chosen@, index@, repo@, favorite_values(favorites@))
                == Ok::<Option<PlanModel>, ResolveError>(Some(plan.model())),
            Err(e) => resolution_of(chosen@, index@, repo@, favorite_values(favorites@)) == Err::<
                Option<PlanModel>,
                ResolveError,
            >(e),
        },
{
    let bare = trim_text(chosen);
    if bare.as_str().unicode_len() == 0 {
        return Ok(None);
    }
    let source = if index.contains(chosen) {
        index.source_of(chosen)
    } else {
        index.source_of(bare.as_str())
    };
    match source {
        None => Err(ResolveError::UnknownLabel),
        Some(Source::Favorite(j)) => {
            if j < favorites.len() {
                Ok(Some(RestorePlan::Text(favorites[j].value.clone())))
            } else {
                Err(ResolveError::UnknownLabel)
            }
        },
        Some(Source::Entry(id)) => {
            match repo.read_all(id) {
                Ok(reps) => {
                    assert(pairs_of(reps@).len() == reps@.len());
                    if reps.len() > 0 {
                        Ok(Some(RestorePlan::Formats(reps)))
                    } else {
                        Err(ResolveError::EntryMissing)
                    }
                },
                Err(_) => Err(ResolveError::EntryMissing),
            }
        },
    }
}

} // verus!
