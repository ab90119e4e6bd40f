//! The ordered maps from paths to file metadata that make up a table of contents.
//!
//! They are `indexmap::IndexMap`s: lookups by path, and iteration in the order in
//! which the paths were first inserted.
use crate::format::{FileMeta, MetaView};
use indexmap::IndexMap;
use vstd::prelude::*;

verus! {

/// Declares `indexmap::IndexMap`.
#[verifier::external_type_specification]
#[verifier::external_body]
#[verifier::reject_recursive_types(K)]
#[verifier::reject_recursive_types(V)]
#[verifier::reject_recursive_types(S)]
pub struct ExIndexMap<K, V, S>(IndexMap<K, V, S>);

/// The entries of a map from paths to file metadata, in the map's order.
pub uninterp spec fn toc_entries(m: IndexMap<String, FileMeta>) -> Seq<(Seq<char>, FileMeta)>;

/// The position of the key `k` in the entries `s`, if it occurs there.
pub open spec fn key_position<V>(s: Seq<(Seq<char>, V)>, k: Seq<char>) -> Option<int>
    decreases s.len(),
{
    if s.len() == 0 {
        None
    } else {
        match key_position(s.drop_last(), k) {
            Some(i) => Some(i),
            None => if s.last().0 == k {
                Some(s.len() - 1)
            } else {
                None
            },
        }
    }
}

/// The entries after inserting `k` with `v`: an existing key keeps its place and
/// takes the new value; a new key goes last.
pub open spec fn entries_insert<V>(s: Seq<(Seq<char>, V)>, k: Seq<char>, v: V) -> Seq<(Seq<char>, V)> {
    match key_position(s, k) {
        Some(i) => s.update(i, (k, v)),
        None => s.push((k, v)),
    }
}

/// The value stored for `k` in the entries `s`.
pub open spec fn entries_get<V>(s: Seq<(Seq<char>, V)>, k: Seq<char>) -> Option<V> {
    match key_position(s, k) {
        Some(i) => Some(s[i].1),
        None => None,
    }
}

/// No key occurs twice.
pub open spec fn keys_unique<V>(s: Seq<(Seq<char>, V)>) -> bool {
    forall|i: int, j: int| 0 <= i < j < s.len() ==> s[i].0 != s[j].0
}

/// What [`key_position`] finds.
pub proof fn lemma_key_position<V>(s: Seq<(Seq<char>, V)>, k: Seq<char>)
    ensures
        key_position(s, k) matches Some(i) ==> 0 <= i < s.len() && s[i].0 == k && forall|j: int|
            0 <= j < i ==> s[j].0 != k,
        key_position(s, k) is None ==> forall|j: int| 0 <= j < s.len() ==> s[j].0 != k,
    decreases s.len(),
{
    if s.len() > 0 {
        let t = s.drop_last();
        lemma_key_position(t, k);
        assert forall|j: int| 0 <= j < t.len() implies t[j] == s[j] by {}
        if key_position(t, k) is None {
            assert forall|j: int| 0 <= j < s.len() - 1 implies s[j].0 != k by {
                assert(t[j] == s[j]);
            }
        }
    }
}

/// Inserting keeps the keys unique.
pub proof fn lemma_insert_keeps_unique<V>(s: Seq<(Seq<char>, V)>, k: Seq<char>, v: V)
    requires
        keys_unique(s),
    ensures
        keys_unique(entries_insert(s, k, v)),
{
    lemma_key_position(s, k);
}

/// The entries with each value replaced by its view.
pub open spec fn view_entries(s: Seq<(Seq<char>, FileMeta)>) -> Seq<(Seq<char>, MetaView)> {
    s.map_values(|e: (Seq<char>, FileMeta)| (e.0, e.1@))
}

/// Keys are found at the same place once the values are viewed.
pub proof fn lemma_view_key_position(s: Seq<(Seq<char>, FileMeta)>, k: Seq<char>)
    ensures
        key_position(view_entries(s), k) == key_position(s, k),
    decreases s.len(),
{
    if s.len() > 0 {
        assert(view_entries(s).drop_last() =~= view_entries(s.drop_last()));
        lemma_view_key_position(s.drop_last(), k);
    }
}

/// Viewing the values commutes with inserting.
pub proof fn lemma_view_insert(s: Seq<(Seq<char>, FileMeta)>, k: Seq<char>, v: FileMeta)
    ensures
        view_entries(entries_insert(s, k, v)) == entries_insert(view_entries(s), k, v@),
{
    lemma_view_key_position(s, k);
    lemma_key_position(s, k);
    assert(view_entries(entries_insert(s, k, v)) =~= entries_insert(view_entries(s), k, v@));
}

/// Looking up a key finds the view of the value once the values are viewed.
pub proof fn lemma_view_get(s: Seq<(Seq<char>, FileMeta)>, k: Seq<char>)
    ensures
        entries_get(view_entries(s), k) == match entries_get(s, k) {
            Some(v) => Some(v@),
            None => None::<MetaView>,
        },
{
    lemma_view_key_position(s, k);
    lemma_key_position(s, k);
}

/// Creates an empty map with `IndexMap::new`.
///
/// Trusted: the new map holds no entries.
#[verifier::external_body]
pub(crate) fn toc_new() -> (m: IndexMap<String, FileMeta>)
    ensures
        toc_entries(m) == Seq::<(Seq<char>, FileMeta)>::empty(),
{
    IndexMap::new()
}

/// Inserts `value` under `key` with `IndexMap::insert`.
///
/// Trusted: as indexmap documents, an existing key keeps its place in the order
/// and takes the new value, and a new key is appended last.
#[verifier::external_body]
pub(crate) fn toc_insert(m: &mut IndexMap<String, FileMeta>, key: String, value: FileMeta)
    ensures
        toc_entries(*final(m)) == entries_insert(toc_entries(*old(m)), key@, value),
{
    m.insert(key, value);
}

/// Looks up `key` with `IndexMap::get` and copies the value out.
///
/// Trusted: the result is the value stored under the key, if any.
#[verifier::external_body]
pub(crate) fn toc_get(m: &IndexMap<String, FileMeta>, key: &str) -> (r: Option<FileMeta>)
    ensures
        r == entries_get(toc_entries(*m), key@),
{
    m.get(key).copied()
}

/// Returns the entry at position `index` with `IndexMap::get_index`.
///
/// Trusted: the entry at that position of the map's order, if the position exists.
#[verifier::external_body]
pub(crate) fn toc_get_index(m: &IndexMap<String, FileMeta>, index: usize) -> (r: Option<(&String, &FileMeta)>)
    ensures
        index < toc_entries(*m).len() ==> r is Some,
        r matches Some(e) ==> e.0@ == toc_entries(*m)[index as int].0 && *e.1 == toc_entries(*m)[index as int].1,
        index >= toc_entries(*m).len() ==> r is None,
{
    m.get_index(index)
}

/// The number of entries, with `IndexMap::len`.
///
/// Trusted: the number of entries of the map.
#[verifier::external_body]
pub(crate) fn toc_len(m: &IndexMap<String, FileMeta>) -> (r: usize)
    ensures
        r == toc_entries(*m).len(),
{
    m.len()
}

} // verus!
