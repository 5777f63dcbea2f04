//! The summary index: the labels of one listing, in the order in which they
//! are shown, each with the source that it stands for.

use vstd::prelude::*;
use indexmap::IndexMap;

verus! {

/// What a label stands for.
#[derive(Clone, Copy, Debug, PartialEq, Eq, Structural)]
pub enum Source {
    /// The history entry with this identifier.
    Entry(u64),
    /// The configured favorite at this position.
    Favorite(usize),
}

/// `indexmap::IndexMap`, a hash map that keeps its pairs in the order in
/// which their keys were first inserted. Nothing inside it is visible here;
/// what it holds is spoken of through `pairs_in`.
#[verifier::external_type_specification]
#[verifier::external_body]
#[verifier::reject_recursive_types(K)]
#[verifier::reject_recursive_types(V)]
#[verifier::reject_recursive_types(S)]
pub struct ExIndexMap<K, V, S>(IndexMap<K, V, S>);

/// The pairs of key and value that an `IndexMap` holds, in the map's order.
pub uninterp spec fn pairs_in(map: IndexMap<String, Source>) -> Seq<(Seq<char>, Source)>;

/// The position of the first pair whose label is `label`, or the number of
/// pairs if there is none.
pub open spec fn label_slot(pairs: Seq<(Seq<char>, Source)>, label: Seq<char>) -> int
    decreases pairs.len(),
{
    if pairs.len() > 0 && pairs[0].0 != label {
        1 + label_slot(pairs.drop_first(), label)
    } else {
        0
    }
}

/// Whether some pair has the label `label`.
pub open spec fn has_label(pairs: Seq<(Seq<char>, Source)>, label: Seq<char>) -> bool {
    label_slot(pairs, label) < pairs.len()
}

/// The source that `label` stands for, if any pair has that label.
pub open spec fn source_at(pairs: Seq<(Seq<char>, Source)>, label: Seq<char>) -> Option<Source> {
    if has_label(pairs, label) {
        Some(pairs[label_slot(pairs, label)].1)
    } else {
        None
    }
}

/// `pairs` after `label` was set to `source`: a pair with that label keeps
/// its place and takes the new source, a new label goes to the end.
pub open spec fn assigned(
    pairs: Seq<(Seq<char>, Source)>,
    label: Seq<char>,
    source: Source,
) -> Seq<(Seq<char>, Source)> {
    if has_label(pairs, label) {
        pairs.update(label_slot(pairs, label), (label, source))
    } else {
        pairs.push((label, source))
    }
}

/// `pairs` after `label` was offered for `source`: a label that is already
/// there keeps its source, a new one goes to the end.
pub open spec fn offered(
    pairs: Seq<(Seq<char>, Source)>,
    label: Seq<char>,
    source: Source,
) -> Seq<(Seq<char>, Source)> {
    if has_label(pairs, label) {
        pairs
    } else {
        pairs.push((label, source))
    }
}

/// No label occurs twice.
pub open spec fn distinct_labels(pairs: Seq<(Seq<char>, Source)>) -> bool {
    forall|a: int, b: int| 0 <= a < b < pairs.len() ==> pairs[a].0 != pairs[b].0
}

/// The labels of `pairs`, in order.
pub open spec fn labels_of(pairs: Seq<(Seq<char>, Source)>) -> Seq<Seq<char>> {
    Seq::new(pairs.len(), |i: int| pairs[i].0)
}

/// The strings of `labels`, as sequences of characters.
pub open spec fn texts_of(labels: Seq<String>) -> Seq<Seq<char>> {
    Seq::new(labels.len(), |i: int| labels[i]@)
}

/// The slot of a label lies within the pairs; no pair before it has the
/// label, and where a pair has the label the one at the slot has it.
pub proof fn lemma_label_slot(pairs: Seq<(Seq<char>, Source)>, label: Seq<char>)
    ensures
        0 <= label_slot(pairs, label) <= pairs.len(),
        forall|j: int| 0 <= j < label_slot(pairs, label) ==> pairs[j].0 != label,
        has_label(pairs, label) ==> pairs[label_slot(pairs, label)].0 == label,
    decreases pairs.len(),
{
    if pairs.len() > 0 && pairs[0].0 != label {
        let rest = pairs.drop_first();
        lemma_label_slot(rest, label);
        assert forall|j: int| 0 <= j < label_slot(pairs, label) implies pairs[j].0 != label by {
            if j > 0 {
                assert(pairs[j] == rest[j - 1]);
            }
        }
        assert(has_label(rest, label) ==> pairs[label_slot(pairs, label)] == rest[label_slot(
            rest,
            label,
        )]);
    }
}

/// Offering a label changes nothing before the end of the index: what was
/// there stays, in place and with its source, and no label comes to stand
/// twice.
pub proof fn lemma_offered(pairs: Seq<(Seq<char>, Source)>, label: Seq<char>, source: Source)
    requires
        distinct_labels(pairs),
    ensures
        distinct_labels(offered(pairs, label, source)),
        has_label(offered(pairs, label, source), label),
        forall|other: Seq<char>|
            has_label(pairs, other) ==> source_at(offered(pairs, label, source), other)
                == source_at(pairs, other),
        !has_label(pairs, label) ==> source_at(offered(pairs, label, source), label) == Some(
            source,
        ),
{
    let after = offered(pairs, label, source);
    lemma_label_slot(pairs, label);
    lemma_label_slot(after, label);
    assert forall|other: Seq<char>| has_label(pairs, other) implies source_at(after, other)
        == source_at(pairs, other) by {
        lemma_label_slot(pairs, other);
        lemma_label_slot(after, other);
        let k = label_slot(pairs, other);
        assert(after[k] == pairs[k]);
    }
    if !has_label(pairs, label) {
        assert(after[pairs.len() as int].0 == label);
    }
}

/// After a label was offered the index holds that label and those it held
/// before, and no other.
pub proof fn lemma_offered_labels(
    pairs: Seq<(Seq<char>, Source)>,
    label: Seq<char>,
    source: Source,
    other: Seq<char>,
)
    ensures
        has_label(offered(pairs, label, source), other) <==> has_label(pairs, other) || other
            == label,
{
    let after = offered(pairs, label, source);
    lemma_label_slot(pairs, label);
    lemma_label_slot(pairs, other);
    lemma_label_slot(after, other);
    if has_label(pairs, other) {
        assert(after[label_slot(pairs, other)] == pairs[label_slot(pairs, other)]);
    } else if other == label {
        assert(after[pairs.len() as int].0 == label);
    } else if has_label(after, other) {
        let k = label_slot(after, other);
        assert(k < pairs.len() ==> after[k] == pairs[k]);
    }
}

/// `IndexMap::new`: a map that holds nothing.
#[verifier::external_body]
fn map_new() -> (map: IndexMap<String, Source>)
    ensures
        pairs_in(map) == Seq::<(Seq<char>, Source)>::empty(),
{
    IndexMap::new()
}

/// `IndexMap::len`: the number of pairs in the map.
#[verifier::external_body]
fn map_len(map: &IndexMap<String, Source>) -> (n: usize)
    ensures
        n == pairs_in(*map).len(),
{
    map.len()
}

/// `IndexMap::contains_key`: whether the map holds a pair with this key.
#[verifier::external_body]
fn map_contains_key(map: &IndexMap<String, Source>, key: &str) -> (r: bool)
    ensures
        r == has_label(pairs_in(*map), key@),
{
    map.contains_key(key)
}

/// `IndexMap::get`: the value stored for this key, or `None` where the map
/// holds no such key. A map holds a key once, so the value is that of the
/// one pair with the key.
#[verifier::external_body]
fn map_get(map: &IndexMap<String, Source>, key: &str) -> (r: Option<Source>)
    ensures
        r == source_at(pairs_in(*map), key@),
{
    map.get(key).copied()
}

/// `IndexMap::insert`: where the key is in the map, its pair keeps its place
/// and takes the new value, and the old value is returned; where it is not,
/// the pair is added last in the order and `None` is returned.
#[verifier::external_body]
fn map_insert(map: &mut IndexMap<String, Source>, key: String, value: Source) -> (prev: Option<
    Source,
>)
    ensures
        pairs_in(*final(map)) == assigned(pairs_in(*old(map)), key@, value),
        prev == source_at(pairs_in(*old(map)), key@),
{
    map.insert(key, value)
}

/// `IndexMap::get_index`: the pair at position `i` of the map's order, or
/// `None` where `i` is not below the number of pairs.
#[verifier::external_body]
fn map_get_index(map: &IndexMap<String, Source>, i: usize) -> (r: Option<(String, Source)>)
    ensures
        match r {
            Some(pair) => i < pairs_in(*map).len() && pair.0@ == pairs_in(*map)[i as int].0
                && pair.1 == pairs_in(*map)[i as int].1,
            None => i >= pairs_in(*map).len(),
        },
{
    match map.get_index(i) {
        Some((k, v)) => Some((k.clone(), *v)),
        None => None,
    }
}

/// The index of one listing.
pub struct SummaryIndex {
    map: IndexMap<String, Source>,
}

impl SummaryIndex {
    /// The pairs of label and source, in the order of the listing.
    pub closed spec fn view(&self) -> Seq<(Seq<char>, Source)> {
        pairs_in(self.map)
    }

    /// The invariant of an index: no label occurs twice.
    pub open spec fn wf(&self) -> bool {
        distinct_labels(self@)
    }

    /// An index without labels.
    pub fn new() -> (index: SummaryIndex)
        ensures
            index.wf(),
            index@ == Seq::<(Seq<char>, Source)>::empty(),
    {
        SummaryIndex { map: map_new() }
    }

    /// The number of labels.
    pub fn len(&self) -> (n: usize)
        ensures
            n == self@.len(),
    {
        map_len(&self.map)
    }

    /// Whether the index holds `label`.
    pub fn contains(&self, label: &str) -> (r: bool)
        ensures
            r == has_label(self@, label@),
    {
        map_contains_key(&self.map, label)
    }

    /// The source that `label` stands for, if the index holds it.
    pub fn source_of(&self, label: &str) -> (r: Option<Source>)
        ensures
            r == source_at(self@, label@),
    {
        map_get(&self.map, label)
    }

    /// Adds `label` for `source` at the end of the index unless the index
    /// holds the label already; says whether it was added.
    pub fn offer(&mut self, label: String, source: Source) -> (added: bool)
        requires
            old(self).wf(),
        ensures
            final(self).wf(),
            final(self)@ == offered(old(self)@, label@, source),
            added == !has_label(old(self)@, label@),
    {
        proof {
            lemma_offered(self@, label@, source);
        }
        if map_contains_key(&self.map, label.as_str()) {
            false
        } else {
            let _ = map_insert(&mut self.map, label, source);
            true
        }
    }

    /// The pair at position `i`, or `None` beyond the end of the index.
    pub fn pair_at(&self, i: usize) -> (r: Option<(String, Source)>)
        ensures
            match r {
                Some(pair) => i < self@.len() && pair.0@ == self@[i as int].0 && pair.1
                    == self@[i as int].1,
                None => i >= self@.len(),
            },
    {
        map_get_index(&self.map, i)
    }

    /// The labels, in the order of the listing.
    pub fn labels(&self) -> (out: Vec<String>)
        ensures
            texts_of(out@) == labels_of(self@),
    {
        let mut out: Vec<String> = Vec::new();
        let n = map_len(&self.map);
        let mut i: usize = 0;
        while i < n
            invariant
                i <= n,
                n == self@.len(),
                out@.len() == i,
                texts_of(out@) == labels_of(self@).subrange(0, i as int),
            decreases n - i,
        {
            let ghost earlier = out@;
            match map_get_index(&self.map, i) {
                Some(pair) => {
                    out.push(pair.0);
                },
                None => {
                    assert(false);
                },
            }
            i += 1;
            assert forall|k: int| 0 <= k < i implies texts_of(out@)[k] == labels_of(self@)[k] by {
                if k < i - 1 {
                    assert(out@[k] == earlier[k]);
                    assert(texts_of(earlier)[k] == labels_of(self@).subrange(0, i - 1)[k]);
                }
            }
            assert(texts_of(out@) =~= labels_of(self@).subrange(0, i as int));
        }
        assert(labels_of(self@).subrange(0, i as int) =~= labels_of(self@));
        out
    }
}

} // verus!
