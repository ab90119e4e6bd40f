//! Reading a group of asset packs in which packs of higher precedence override
//! the files of those below them (modding).
//!
//! The group keeps, in order of precedence, the packs that are enabled (the first
//! one has the most precedence), the override packs (the last one added has the
//! most precedence, and all of them stand above the enabled packs), the packs that
//! are available, and an index from every file path to the pack that serves it.
//! Finding packs on disk, opening them and writing `packs.toml` is left to the
//! caller; loading is done in steps: [`AssetPackGroupReader::begin_load`], then
//! [`AssetPackGroupReader::discover_pack`] and
//! [`AssetPackGroupReader::add_available_pack`] for what is found,
//! [`AssetPackGroupReader::retain_available`], then, when it asks for a rebuild,
//! [`AssetPackGroupReader::packs_to_open`] with
//! [`AssetPackGroupReader::set_pack_reader`], and
//! [`AssetPackGroupReader::build_index`].
use crate::errors::{IoErrorKind, ReadError, ReadErrorView, ReadResult, ReadStepView};
use crate::file_reader::{spec_file_contents, AssetFileReader};
use crate::pack_front::PackFront;
use crate::pack_reader::{lookup, str_equal, AssetPackReader};
use crate::pack_spec::spec_pack_front;
use crate::toc_map::{
    entries_get, entries_insert, key_position, keys_unique, lemma_insert_keeps_unique,
    lemma_key_position, lemma_view_get, toc_entries,
    toc_get_index, toc_len, view_entries,
};
use crate::format::MetaView;
use crate::digest::bytes_equal;
use vstd::prelude::*;
use vstd::slice::slice_subrange;
use vstd::utf8::encode_utf8;

verus! {

/// Whether a pack is enabled, whether it is external and whether it is built in.
#[derive(Clone, Copy, Debug)]
pub struct PackDescriptor {
    /// If the pack is enabled
    pub enabled: bool,
    /// If the pack is external
    pub is_external: bool,
    /// If the pack is built in
    pub is_built_in: bool,
}

/// An enabled pack: whether it is external, and its reader once it has been opened.
pub struct EnabledPack {
    /// If the pack is external
    pub external: bool,
    /// The reader of the pack, once opened.
    pub pack_reader: Option<AssetPackReader>,
}

/// Where the index finds a file: an enabled pack or an override pack, by position.
#[derive(Clone, Copy, Debug, PartialEq, Eq, Structural)]
pub enum PackIndex {
    /// The enabled pack at this position.
    Enabled(usize),
    /// The override pack at this position.
    OverridePack(usize),
}

/// The content of an enabled pack: whether it is external and the bytes of its
/// pack once opened.
pub struct EnabledView {
    pub external: bool,
    pub pack: Option<Seq<u8>>,
}

/// The content of an [`AssetPackGroupReader`].
pub struct GroupView {
    /// The enabled packs by path, the first with the most precedence.
    pub enabled: Seq<(Seq<char>, EnabledView)>,
    /// The packs that can be enabled, by path.
    pub available: Seq<(Seq<char>, PackDescriptor)>,
    /// The paths where external packs are looked for.
    pub external_sources: Seq<Seq<char>>,
    /// The index from file paths to the packs that serve them.
    pub index: Seq<(Seq<char>, PackIndex)>,
    /// Whether changes were made since the last load.
    pub packs_changed: bool,
    /// The extension of pack files.
    pub pack_extension: Seq<char>,
    /// The directory of the group.
    pub root_dir: Seq<char>,
    /// The override packs by identifier with the bytes of their packs, the last
    /// with the most precedence.
    pub overrides: Seq<(Seq<char>, Seq<u8>)>,
}

/// The entries of an association list, each key taken by its view.
pub open spec fn keyed<V>(s: Seq<(String, V)>) -> Seq<(Seq<char>, V)> {
    s.map_values(|e: (String, V)| (e.0@, e.1))
}

/// The enabled packs by path, each viewed.
pub open spec fn enabled_of(s: Seq<(String, EnabledPack)>) -> Seq<(Seq<char>, EnabledView)> {
    keyed(s).map_values(|e: (Seq<char>, EnabledPack)| (e.0, enabled_view(e.1)))
}

/// The override packs by identifier, each with the bytes of its pack.
pub open spec fn overrides_of(s: Seq<(String, AssetPackReader)>) -> Seq<(Seq<char>, Seq<u8>)> {
    keyed(s).map_values(|e: (Seq<char>, AssetPackReader)| (e.0, e.1.pack()))
}

/// The view of an enabled pack.
pub open spec fn enabled_view(e: EnabledPack) -> EnabledView {
    EnabledView {
        external: e.external,
        pack: match e.pack_reader {
            Some(r) => Some(r.pack()),
            None => None,
        },
    }
}

/// The files (not pack-unique) of the pack `pack`; none when it cannot be read.
pub open spec fn pack_toc(pack: Seq<u8>) -> Seq<(Seq<char>, MetaView)> {
    match spec_pack_front(pack) {
        Ok(f) => f.toc,
        Err(_) => seq![],
    }
}

/// Whether the pack `pack`, if any, has the file `path`.
pub open spec fn pack_has(pack: Option<Seq<u8>>, path: Seq<char>) -> bool {
    match pack {
        Some(p) => lookup(pack_toc(p), path) is Some,
        None => false,
    }
}

/// Among the override packs at positions `lo` to `hi` (excluded), the position of
/// the last one that has `path`.
pub open spec fn top_override(ovr: Seq<(Seq<char>, Seq<u8>)>, path: Seq<char>, lo: int, hi: int) -> Option<int>
    decreases hi - lo,
{
    if hi <= lo {
        None
    } else if pack_has(Some(ovr[hi - 1].1), path) {
        Some(hi - 1)
    } else {
        top_override(ovr, path, lo, hi - 1)
    }
}

/// Among the first `n` enabled packs, the position of the first one that has `path`.
pub open spec fn first_enabled(en: Seq<(Seq<char>, EnabledView)>, path: Seq<char>, n: int) -> Option<int>
    decreases n,
{
    if n <= 0 {
        None
    } else {
        match first_enabled(en, path, n - 1) {
            Some(i) => Some(i),
            None => if pack_has(en[n - 1].1.pack, path) {
                Some(n - 1)
            } else {
                None
            },
        }
    }
}

/// The pack that serves `path`: the override pack of most precedence that has it,
/// or else the enabled pack of most precedence that has it.
pub open spec fn serving_pack(v: GroupView, path: Seq<char>) -> Option<PackIndex> {
    match top_override(v.overrides, path, 0, v.overrides.len() as int) {
        Some(i) => Some(PackIndex::OverridePack(i as usize)),
        None => match first_enabled(v.enabled, path, v.enabled.len() as int) {
            Some(i) => Some(PackIndex::Enabled(i as usize)),
            None => None,
        },
    }
}

/// The bytes of the pack at `pi`.
pub open spec fn pack_at(v: GroupView, pi: PackIndex) -> Option<Seq<u8>> {
    match pi {
        PackIndex::Enabled(i) => if i < v.enabled.len() {
            v.enabled[i as int].1.pack
        } else {
            None
        },
        PackIndex::OverridePack(i) => if i < v.overrides.len() {
            Some(v.overrides[i as int].1)
        } else {
            None
        },
    }
}

/// Every pack of the group is open and can be read, and the index sends each
/// path to the pack that serves it.
pub open spec fn loaded(v: GroupView) -> bool {
    &&& forall|i: int| 0 <= i < v.enabled.len() ==> ((#[trigger] v.enabled[i]).1.pack matches Some(p)
        && spec_pack_front(p) is Ok)
    &&& forall|i: int| 0 <= i < v.overrides.len() ==> spec_pack_front((#[trigger] v.overrides[i]).1) is Ok
    &&& forall|path: Seq<char>| #[trigger] entries_get(v.index, path) == serving_pack(v, path)
}

/// A reader for a group of asset packs.
///
/// If a file appears in two or more packs, the version from the pack of higher
/// precedence overrides those below it. Override packs stand above all enabled
/// packs, the last one added highest; among the enabled packs the first has the
/// most precedence.
///
/// Most functions only register changes: loading applies them, and until it has,
/// files cannot be read.
pub struct AssetPackGroupReader {
    enabled_packs: Vec<(String, EnabledPack)>,
    available_packs: Vec<(String, PackDescriptor)>,
    external_packs: Vec<String>,
    file_name_to_asset_pack: Vec<(String, PackIndex)>,
    packs_changed: bool,
    pack_extension: String,
    root_dir: String,
    override_packs: Vec<(String, AssetPackReader)>,
}

impl View for AssetPackGroupReader {
    type V = GroupView;

    closed spec fn view(&self) -> GroupView {
        GroupView {
            enabled: enabled_of(self.enabled_packs@),
            available: keyed(self.available_packs@),
            external_sources: self.external_packs@.map_values(|s: String| s@),
            index: keyed(self.file_name_to_asset_pack@),
            packs_changed: self.packs_changed,
            pack_extension: self.pack_extension@,
            root_dir: self.root_dir@,
            overrides: overrides_of(self.override_packs@),
        }
    }
}

impl AssetPackGroupReader {
    /// Every pack path, identifier and indexed path occurs once, every reader is
    /// well formed, and when no change is pending the group is loaded.
    pub closed spec fn wf(&self) -> bool {
        &&& keys_unique(self@.enabled)
        &&& keys_unique(self@.available)
        &&& keys_unique(self@.overrides)
        &&& keys_unique(self@.index)
        &&& forall|i: int| 0 <= i < self.enabled_packs@.len() ==> ((#[trigger] self.enabled_packs@[i]).1.pack_reader matches Some(r) ==> r.wf())
        &&& forall|i: int| 0 <= i < self.override_packs@.len() ==> (#[trigger] self.override_packs@[i]).1.wf()
        &&& !self.packs_changed ==> loaded(self@) && self.fronts_cached()
    }

    /// A well-formed group has each enabled pack, available pack and override
    /// pack once.
    pub proof fn lemma_wf_keys_unique(&self)
        requires
            self.wf(),
        ensures
            keys_unique(self@.enabled),
            keys_unique(self@.available),
            keys_unique(self@.overrides),
    {
    }

    /// Every pack of the group has its pack front read and kept.
    pub closed spec fn fronts_cached(&self) -> bool {
        &&& forall|i: int| 0 <= i < self.enabled_packs@.len() ==> ((#[trigger] self.enabled_packs@[i]).1.pack_reader matches Some(r) ==> r.front_cached())
        &&& forall|i: int| 0 <= i < self.override_packs@.len() ==> (#[trigger] self.override_packs@[i]).1.front_cached()
    }
}

/// The position of the key `k` in the association list `v`.
fn find_key<V>(v: &Vec<(String, V)>, k: &str) -> (r: Option<usize>)
    ensures
        match r {
            Some(i) => i < v@.len() && v@[i as int].0@ == k@ && key_position(keyed(v@), k@) == Some(
                i as int,
            ),
            None => key_position(keyed(v@), k@) is None,
        },
{
    let ghost s = keyed(v@);
    let mut i: usize = 0;
    while i < v.len()
        invariant
            i <= v@.len(),
            s == keyed(v@),
            forall|j: int| 0 <= j < i ==> s[j].0 != k@,
        decreases v@.len() - i,
    {
        if str_equal(v[i].0.as_str(), k) {
            proof {
                assert(s[i as int].0 == v@[i as int].0@);
                lemma_key_position(s, k@);
                if let Some(j) = key_position(s, k@) {
                    assert(!(j < i));
                    assert(!(j > i));
                }
            }
            return Some(i);
        }
        assert(s[i as int].0 == v@[i as int].0@);
        i = i + 1;
    }
    proof {
        lemma_key_position(s, k@);
    }
    None
}

/// Inserts `val` under `k`: an existing key keeps its place and takes the new
/// value, whose old value is returned; a new key goes last.
fn assoc_insert<V>(v: &mut Vec<(String, V)>, k: String, val: V) -> (r: Option<V>)
    ensures
        keyed(final(v)@) == entries_insert(keyed(old(v)@), k@, val),
        r == match key_position(keyed(old(v)@), k@) {
            Some(i) => Some(old(v)@[i].1),
            None => None::<V>,
        },
{
    let ghost s = keyed(v@);
    match find_key(v, k.as_str()) {
        Some(i) => {
            let (_old_key, old_val) = v.remove(i);
            v.insert(i, (k, val));
            proof {
                assert(keyed(v@) =~= s.update(i as int, (k@, val)));
            }
            Some(old_val)
        },
        None => {
            v.push((k, val));
            proof {
                assert(keyed(v@) =~= s.push((k@, val)));
            }
            None
        },
    }
}

/// Removes the entry of `k`, keeping the order of the others.
fn assoc_shift_remove<V>(v: &mut Vec<(String, V)>, k: &str) -> (r: Option<V>)
    ensures
        match key_position(keyed(old(v)@), k@) {
            Some(i) => final(v)@ == old(v)@.remove(i) && keyed(final(v)@) == keyed(old(v)@).remove(i)
                && r == Some(old(v)@[i].1),
            None => final(v)@ == old(v)@ && r is None,
        },
{
    let ghost s = keyed(v@);
    match find_key(v, k) {
        Some(i) => {
            let (_key, val) = v.remove(i);
            proof {
                assert(keyed(v@) =~= s.remove(i as int));
            }
            Some(val)
        },
        None => None,
    }
}

/// Removes the entry of `k`, moving the last entry into its place.
fn assoc_swap_remove<V>(v: &mut Vec<(String, V)>, k: &str) -> (r: Option<(String, V)>)
    ensures
        match key_position(keyed(old(v)@), k@) {
            Some(i) => final(v)@ == old(v)@.update(i, old(v)@.last()).drop_last() && r == Some(old(v)@[i]),
            None => final(v)@ == old(v)@ && r is None,
        },
{
    match find_key(v, k) {
        Some(i) => Some(v.swap_remove(i)),
        None => None,
    }
}

/// Removing entries keeps the keys of the others unique.
proof fn lemma_keys_unique_remove<V>(s: Seq<(Seq<char>, V)>, i: int)
    requires
        keys_unique(s),
        0 <= i < s.len(),
    ensures
        keys_unique(s.remove(i)),
        keys_unique(s.update(i, s.last()).drop_last()),
{
    let t = s.remove(i);
    assert forall|a: int, b: int| 0 <= a < b < t.len() implies t[a].0 != t[b].0 by {
        let a2 = if a < i { a } else { a + 1 };
        let b2 = if b < i { b } else { b + 1 };
        assert(t[a] == s[a2] && t[b] == s[b2]);
    }
    let u = s.update(i, s.last()).drop_last();
    assert forall|a: int, b: int| 0 <= a < b < u.len() implies u[a].0 != u[b].0 by {
        let a2 = if a == i { s.len() - 1 } else { a };
        let b2 = if b == i { s.len() - 1 } else { b };
        assert(u[a] == s[a2] && u[b] == s[b2]);
    }
}

/// The path of the built-in pack `identifier`: `/__built_in/` followed by it, or
/// the identifier itself when it is an absolute path.
pub open spec fn built_in_path(identifier: Seq<char>) -> Seq<char> {
    if identifier.len() > 0 && identifier[0] == '/' {
        identifier
    } else {
        "/__built_in/"@ + identifier
    }
}

/// The enabled packs that a list of (path, external) entries gives, read in order,
/// with no pack opened yet.
pub open spec fn enabled_from(list: Seq<(Seq<char>, bool)>) -> Seq<(Seq<char>, EnabledView)>
    decreases list.len(),
{
    if list.len() == 0 {
        seq![]
    } else {
        entries_insert(
            enabled_from(list.drop_last()),
            list.last().0,
            EnabledView { external: list.last().1, pack: None },
        )
    }
}

/// The list with the value of each entry replaced by its view.
pub open spec fn enabled_views(s: Seq<(Seq<char>, EnabledPack)>) -> Seq<(Seq<char>, EnabledView)> {
    s.map_values(|e: (Seq<char>, EnabledPack)| (e.0, enabled_view(e.1)))
}

/// Keys are found at the same place once the values are viewed.
proof fn lemma_enabled_views_key_position(s: Seq<(Seq<char>, EnabledPack)>, k: Seq<char>)
    ensures
        key_position(enabled_views(s), k) == key_position(s, k),
    decreases s.len(),
{
    if s.len() > 0 {
        assert(enabled_views(s).drop_last() =~= enabled_views(s.drop_last()));
        lemma_enabled_views_key_position(s.drop_last(), k);
    }
}

/// Inserting commutes with viewing the values.
proof fn lemma_enabled_views_insert(s: Seq<(Seq<char>, EnabledPack)>, k: Seq<char>, v: EnabledPack)
    ensures
        enabled_views(entries_insert(s, k, v)) == entries_insert(enabled_views(s), k, enabled_view(v)),
{
    lemma_enabled_views_key_position(s, k);
    match key_position(s, k) {
        Some(i) => {
            lemma_key_position(s, k);
            assert(enabled_views(entries_insert(s, k, v)) =~= entries_insert(enabled_views(s), k, enabled_view(v)));
        },
        None => {
            assert(enabled_views(entries_insert(s, k, v)) =~= entries_insert(enabled_views(s), k, enabled_view(v)));
        },
    }
}

impl AssetPackGroupReader {
    /// Creates a reader for the pack group whose directory is `root_dir`, with the
    /// packs that `packs.toml` lists as enabled: their paths and whether each is
    /// external, first the one of most precedence.
    ///
    /// Nothing is loaded yet: call the load steps before reading files.
    pub fn new(root_dir: String, enabled_packs: Vec<(String, bool)>) -> (r: Self)
        ensures
            r.wf(),
            r@.enabled == enabled_from(enabled_packs@.map_values(|e: (String, bool)| (e.0@, e.1))),
            r@.available.len() == 0,
            r@.external_sources.len() == 0,
            r@.index.len() == 0,
            r@.packs_changed,
            r@.pack_extension == "smap"@,
            r@.root_dir == root_dir@,
            r@.overrides.len() == 0,
    {
        let ghost list = enabled_packs@.map_values(|e: (String, bool)| (e.0@, e.1));
        let mut enabled: Vec<(String, EnabledPack)> = Vec::new();
        let n = enabled_packs.len();
        let mut rest = enabled_packs;
        let mut taken: Vec<(String, bool)> = Vec::new();
        while rest.len() > 0
            invariant
                taken@.len() + rest@.len() == n,
                list == enabled_packs@.map_values(|e: (String, bool)| (e.0@, e.1)),
                enabled_packs@ == taken@ + rest@,
                enabled_views(keyed(enabled@)) == enabled_from(list.take(taken@.len() as int)),
                keys_unique(keyed(enabled@)),
                forall|j: int| 0 <= j < enabled@.len() ==> (#[trigger] enabled@[j]).1.pack_reader is None,
            decreases rest@.len(),
        {
            let (path, external) = rest.remove(0);
            proof {
                let t = taken@.len() as int;
                assert(list.take(t + 1).drop_last() =~= list.take(t));
                assert(list[t] == (path@, external));
                lemma_enabled_views_insert(keyed(enabled@), path@, EnabledPack { external, pack_reader: None });
                lemma_insert_keeps_unique(keyed(enabled@), path@, EnabledPack { external, pack_reader: None });
            }
            taken.push((path.clone(), external));
            let ghost before = enabled@;
            assoc_insert(&mut enabled, path, EnabledPack { external, pack_reader: None });
            proof {
                assert forall|j: int| 0 <= j < enabled@.len() implies (#[trigger] enabled@[j]).1.pack_reader is None by {
                    lemma_key_position(keyed(before), taken@.last().0@);
                    assert(keyed(enabled@)[j].1 == enabled@[j].1);
                    if j < before.len() {
                        assert(keyed(before)[j].1 == before[j].1);
                    }
                }
                assert(enabled_packs@ =~= taken@ + rest@);
            }
        }
        proof {
            assert(list.take(n as int) =~= list);
        }
        let r = AssetPackGroupReader {
            enabled_packs: enabled,
            available_packs: Vec::new(),
            external_packs: Vec::new(),
            file_name_to_asset_pack: Vec::new(),
            packs_changed: true,
            pack_extension: String::from_str("smap"),
            root_dir,
            override_packs: Vec::new(),
        };
        proof {
            assert(r@.enabled =~= enabled_views(keyed(r.enabled_packs@)));
        }
        r
    }
}

/// The path of a built-in pack.
fn built_in_path_of(identifier: &str) -> (r: String)
    ensures
        r@ == built_in_path(identifier@),
{
    if identifier.unicode_len() > 0 && identifier.get_char(0) == '/' {
        identifier.to_owned()
    } else {
        let mut p = String::from_str("/__built_in/");
        p.append(identifier);
        p
    }
}

/// Every enabled pack of `s` but the one at `i` keeps its reader and path.
pub open spec fn same_but(a: Seq<(Seq<char>, EnabledView)>, b: Seq<(Seq<char>, EnabledView)>, i: int) -> bool {
    &&& a.len() == b.len()
    &&& forall|j: int| 0 <= j < a.len() && j != i ==> a[j] == b[j]
}

impl AssetPackGroupReader {
    /// Sets the extension of pack files to look for. Takes effect at the next load.
    pub fn set_pack_extension(&mut self, ext: String)
        requires
            old(self).wf(),
        ensures
            final(self).wf(),
            final(self)@ == (GroupView { pack_extension: ext@, ..old(self)@ }),
    {
        self.pack_extension = ext;
        proof {
            assert(self@.enabled =~= old(self)@.enabled);
            assert(self@.overrides =~= old(self)@.overrides);
        }
    }

    /// Adds an external pack source: a directory whose pack files are available,
    /// or a pack file. It is looked at by the next load.
    pub fn add_external_pack(&mut self, path: String)
        requires
            old(self).wf(),
        ensures
            final(self).wf(),
            final(self)@ == (GroupView {
                external_sources: old(self)@.external_sources.push(path@),
                ..old(self)@
            }),
    {
        self.external_packs.push(path);
        proof {
            assert(self@.enabled =~= old(self)@.enabled);
            assert(self@.overrides =~= old(self)@.overrides);
            assert(self@.external_sources =~= old(self)@.external_sources.push(path@));
        }
    }

    /// The paths of the places where external packs are looked for.
    pub fn get_external_packs(&self) -> (r: &Vec<String>)
        ensures
            r@.map_values(|s: String| s@) == self@.external_sources,
    {
        &self.external_packs
    }

    /// Returns the enabled packs, the first with the most precedence.
    pub fn get_enabled_packs(&self) -> (r: &Vec<(String, EnabledPack)>)
        ensures
            enabled_views(keyed(r@)) == self@.enabled,
    {
        &self.enabled_packs
    }

    /// Returns the packs found in the group directory and the external sources;
    /// built-in packs are not among them.
    pub fn get_available_packs(&self) -> (r: &Vec<(String, PackDescriptor)>)
        ensures
            keyed(r@) == self@.available,
    {
        &self.available_packs
    }

    /// Adds an override pack under `identifier`, above every other pack (the
    /// override packs already present included); an override pack with that
    /// identifier is taken out first and its reader returned. Takes effect at the
    /// next load.
    pub fn add_override_pack(&mut self, reader: AssetPackReader, identifier: &str) -> (r: Option<AssetPackReader>)
        requires
            old(self).wf(),
            reader.wf(),
        ensures
            final(self).wf(),
            final(self)@ == (GroupView {
                overrides: match key_position(old(self)@.overrides, identifier@) {
                    Some(i) => old(self)@.overrides.remove(i),
                    None => old(self)@.overrides,
                }.push((identifier@, reader.pack())),
                packs_changed: true,
                ..old(self)@
            }),
            match key_position(old(self)@.overrides, identifier@) {
                Some(i) => r matches Some(o) && o.pack() == old(self)@.overrides[i].1 && o.wf(),
                None => r is None,
            },
    {
        let ghost s = self.override_packs@;
        let r = self.remove_override_pack(identifier);
        let ghost mid = self.override_packs@;
        proof {
            lemma_overrides_keys(mid, identifier@);
            lemma_key_position(keyed(mid), identifier@);
            lemma_key_position(self@.overrides, identifier@);
            lemma_insert_keeps_unique(keyed(mid), identifier@, reader);
            if let Some(i) = key_position(old(self)@.overrides, identifier@) {
                lemma_key_position(old(self)@.overrides, identifier@);
                assert forall|j: int| 0 <= j < self@.overrides.len() implies self@.overrides[j].0 != identifier@ by {
                    if j < i {
                        assert(self@.overrides[j] == old(self)@.overrides[j]);
                    } else {
                        assert(self@.overrides[j] == old(self)@.overrides[j + 1]);
                    }
                }
            }
        }
        self.override_packs.push((identifier.to_owned(), reader));
        proof {
            assert(keyed(self.override_packs@) =~= keyed(mid).push((identifier@, reader)));
            lemma_overrides_keys(self.override_packs@, identifier@);
            assert(overrides_of(self.override_packs@) =~= overrides_of(mid).push((identifier@, reader.pack())));
            assert forall|j: int| 0 <= j < self.override_packs@.len() implies (#[trigger] self.override_packs@[j]).1.wf() by {
                if j < mid.len() {
                    assert(self.override_packs@[j] == mid[j]);
                }
            }
            assert(self@.enabled =~= old(self)@.enabled);
        }
        r
    }
}

/// Mapping the values keeps keys where they are.
proof fn lemma_map_key_position<V, W>(s: Seq<(Seq<char>, V)>, k: Seq<char>, f: spec_fn((Seq<char>, V)) -> (Seq<char>, W))
    requires
        forall|e: (Seq<char>, V)| (#[trigger] f(e)).0 == e.0,
    ensures
        key_position(s.map_values(f), k) == key_position(s, k),
    decreases s.len(),
{
    if s.len() > 0 {
        assert(s.map_values(f).drop_last() =~= s.drop_last().map_values(f));
        lemma_map_key_position(s.drop_last(), k, f);
        assert(f(s.last()).0 == s.last().0);
    }
}

/// Mapping the values keeps keys unique, and only then.
proof fn lemma_map_keys_unique<V, W>(s: Seq<(Seq<char>, V)>, f: spec_fn((Seq<char>, V)) -> (Seq<char>, W))
    requires
        forall|e: (Seq<char>, V)| (#[trigger] f(e)).0 == e.0,
    ensures
        keys_unique(s.map_values(f)) == keys_unique(s),
{
    let t = s.map_values(f);
    assert forall|a: int, b: int| 0 <= a < b < t.len() implies (t[a].0 == t[b].0) == (s[a].0 == s[b].0) by {
        assert(f(s[a]).0 == s[a].0);
        assert(f(s[b]).0 == s[b].0);
    }
}

/// Viewing the override packs keeps their identifiers where they are.
proof fn lemma_overrides_keys(s: Seq<(String, AssetPackReader)>, k: Seq<char>)
    ensures
        key_position(overrides_of(s), k) == key_position(keyed(s), k),
        keys_unique(overrides_of(s)) == keys_unique(keyed(s)),
        overrides_of(s).len() == s.len(),
        forall|i: int| 0 <= i < s.len() ==> (#[trigger] overrides_of(s)[i]) == (s[i].0@, s[i].1.pack()),
{
    let f = |e: (Seq<char>, AssetPackReader)| (e.0, e.1.pack());
    lemma_map_key_position(keyed(s), k, f);
    lemma_map_keys_unique(keyed(s), f);
}

/// Viewing the enabled packs keeps their paths where they are.
proof fn lemma_enabled_keys(s: Seq<(String, EnabledPack)>, k: Seq<char>)
    ensures
        key_position(enabled_of(s), k) == key_position(keyed(s), k),
        keys_unique(enabled_of(s)) == keys_unique(keyed(s)),
        enabled_of(s).len() == s.len(),
        forall|i: int| 0 <= i < s.len() ==> (#[trigger] enabled_of(s)[i]) == (s[i].0@, enabled_view(s[i].1)),
{
    let f = |e: (Seq<char>, EnabledPack)| (e.0, enabled_view(e.1));
    lemma_map_key_position(keyed(s), k, f);
    lemma_map_keys_unique(keyed(s), f);
}

impl AssetPackGroupReader {
    /// Removes the override pack `id` and returns its reader. Takes effect at the
    /// next load.
    pub fn remove_override_pack(&mut self, id: &str) -> (r: Option<AssetPackReader>)
        requires
            old(self).wf(),
        ensures
            final(self).wf(),
            match key_position(old(self)@.overrides, id@) {
                Some(i) => final(self)@ == (GroupView {
                    overrides: old(self)@.overrides.remove(i),
                    packs_changed: true,
                    ..old(self)@
                }) && (r matches Some(o) && o.pack() == old(self)@.overrides[i].1 && o.wf()),
                None => final(self)@ == (GroupView { packs_changed: true, ..old(self)@ }) && r is None,
            },
    {
        let ghost s = self.override_packs@;
        self.packs_changed = true;
        let r = assoc_shift_remove(&mut self.override_packs, id);
        proof {
            lemma_overrides_keys(s, id@);
            lemma_overrides_keys(self.override_packs@, id@);
            assert(self@.enabled =~= old(self)@.enabled);
            if let Some(i) = key_position(keyed(s), id@) {
                lemma_key_position(keyed(s), id@);
                assert(keyed(s)[i].1 == s[i].1);
                assert(self.override_packs@ =~= s.remove(i));
                assert(overrides_of(self.override_packs@) =~= overrides_of(s).remove(i));
                lemma_keys_unique_remove(keyed(s), i);
                assert(keyed(s.remove(i)) =~= keyed(s).remove(i));
                assert forall|j: int| 0 <= j < self.override_packs@.len() implies (#[trigger] self.override_packs@[j]).1.wf() by {
                    if j < i {
                        assert(self.override_packs@[j] == s[j]);
                    } else {
                        assert(self.override_packs@[j] == s[j + 1]);
                    }
                }
            }
        }
        r
    }

    /// Registers a built-in pack under `identifier` (its path is `/__built_in/`
    /// followed by the identifier): it can be moved in the order of precedence but
    /// not disabled, and it is not listed among the available packs. A new one
    /// goes last among the enabled packs; one already
    /// registered keeps its place and takes the new reader, and its old reader is
    /// returned. Takes effect at the next load.
    pub fn register_built_in_pack(&mut self, identifier: &str, reader: AssetPackReader) -> (r: Option<AssetPackReader>)
        requires
            old(self).wf(),
            reader.wf(),
        ensures
            final(self).wf(),
            ({
                let path = built_in_path(identifier@);
                &&& final(self)@ == (GroupView {
                    enabled: match key_position(old(self)@.enabled, path) {
                        Some(i) => old(self)@.enabled.update(
                            i,
                            (path, EnabledView { external: old(self)@.enabled[i].1.external, pack: Some(reader.pack()) }),
                        ),
                        None => old(self)@.enabled.push(
                            (path, EnabledView { external: true, pack: Some(reader.pack()) }),
                        ),
                    },
                    packs_changed: true,
                    ..old(self)@
                })
                &&& match key_position(old(self)@.enabled, path) {
                    Some(i) => match old(self)@.enabled[i].1.pack {
                        Some(p) => r matches Some(o) && o.pack() == p && o.wf(),
                        None => r is None,
                    },
                    None => r is None,
                }
            }),
    {
        let ghost s = self.enabled_packs@;
        let path = built_in_path_of(identifier);
        proof {
            lemma_enabled_keys(s, path@);
            lemma_key_position(keyed(s), path@);
        }
        let r = match find_key(&self.enabled_packs, path.as_str()) {
            Some(i) => {
                let (p, e) = self.enabled_packs.remove(i);
                let old_reader = e.pack_reader;
                self.enabled_packs.insert(i, (p, EnabledPack { external: e.external, pack_reader: Some(reader) }));
                proof {
                    assert(keyed(s)[i as int].1 == s[i as int].1);
                    assert(enabled_of(self.enabled_packs@) =~= enabled_of(s).update(
                        i as int,
                        (path@, EnabledView { external: s[i as int].1.external, pack: Some(reader.pack()) }),
                    ));
                    assert(keyed(self.enabled_packs@) =~= keyed(s).update(i as int, (path@, self.enabled_packs@[i as int].1)));
                    lemma_insert_keeps_unique(keyed(s), path@, self.enabled_packs@[i as int].1);
                    assert forall|j: int| 0 <= j < self.enabled_packs@.len() implies ((#[trigger] self.enabled_packs@[j]).1.pack_reader matches Some(rd) ==> rd.wf()) by {
                        if j != i {
                            assert(self.enabled_packs@[j] == s[j]);
                        }
                    }
                }
                old_reader
            },
            None => {
                self.enabled_packs.push((path.clone(), EnabledPack { external: true, pack_reader: Some(reader) }));
                proof {
                    assert(enabled_of(self.enabled_packs@) =~= enabled_of(s).push(
                        (path@, EnabledView { external: true, pack: Some(reader.pack()) }),
                    ));
                    assert(keyed(self.enabled_packs@) =~= keyed(s).push((path@, self.enabled_packs@.last().1)));
                    lemma_insert_keeps_unique(keyed(s), path@, self.enabled_packs@.last().1);
                    assert forall|j: int| 0 <= j < self.enabled_packs@.len() implies ((#[trigger] self.enabled_packs@[j]).1.pack_reader matches Some(rd) ==> rd.wf()) by {
                        if j < s.len() {
                            assert(self.enabled_packs@[j] == s[j]);
                        }
                    }
                }
                None
            },
        };
        proof {
            lemma_enabled_keys(self.enabled_packs@, path@);
        }
        self.packs_changed = true;
        proof {
            assert(self@.overrides =~= old(self)@.overrides);
        }
        r
    }

    /// Removes the built-in pack registered under `identifier`, and returns its
    /// reader, if any; an identifier that is not registered changes nothing. Takes
    /// effect at the next load.
    pub fn remove_built_in_pack(&mut self, identifier: &str) -> (r: Option<AssetPackReader>)
        requires
            old(self).wf(),
        ensures
            final(self).wf(),
            ({
                let path = built_in_path(identifier@);
                match key_position(old(self)@.enabled, path) {
                    None => final(self)@ == old(self)@ && r is None,
                    Some(i) => {
                        &&& final(self)@ == (GroupView {
                            enabled: old(self)@.enabled.remove(i),
                            packs_changed: true,
                            ..old(self)@
                        })
                        &&& match old(self)@.enabled[i].1.pack {
                            Some(p) => r matches Some(o) && o.pack() == p && o.wf(),
                            None => r is None,
                        }
                    },
                }
            }),
    {
        let ghost s = self.enabled_packs@;
        let path = built_in_path_of(identifier);
        proof {
            lemma_enabled_keys(s, path@);
            lemma_key_position(keyed(s), path@);
        }
        let i = match find_key(&self.enabled_packs, path.as_str()) {
            Some(i) => i,
            None => {
                return None;
            },
        };
        self.packs_changed = true;
        let (_p, e) = self.enabled_packs.remove(i);
        proof {
            assert(keyed(s)[i as int].1 == s[i as int].1);
            assert(enabled_of(self.enabled_packs@) =~= enabled_of(s).remove(i as int));
            assert(keyed(self.enabled_packs@) =~= keyed(s).remove(i as int));
            lemma_keys_unique_remove(keyed(s), i as int);
            assert forall|j: int| 0 <= j < self.enabled_packs@.len() implies ((#[trigger] self.enabled_packs@[j]).1.pack_reader matches Some(rd) ==> rd.wf()) by {
                if j < i {
                    assert(self.enabled_packs@[j] == s[j]);
                } else {
                    assert(self.enabled_packs@[j] == s[j + 1]);
                }
            }
            assert(self@.overrides =~= old(self)@.overrides);
        }
        e.pack_reader
    }
}

/// Finding a key after pushing an entry.
proof fn lemma_key_position_push<V>(s: Seq<(Seq<char>, V)>, e: (Seq<char>, V), k: Seq<char>)
    ensures
        key_position(s.push(e), k) == match key_position(s, k) {
            Some(i) => Some(i),
            None => if e.0 == k {
                Some(s.len() as int)
            } else {
                None
            },
        },
{
    assert(s.push(e).drop_last() =~= s);
}

/// Adds to the index every path of the table of contents of `front` that the
/// index does not have yet, served by `pi`.
fn index_pack(index: &mut Vec<(String, PackIndex)>, front: &PackFront, pi: PackIndex)
    requires
        keys_unique(keyed(old(index)@)),
    ensures
        keys_unique(keyed(final(index)@)),
        forall|p: Seq<char>| #[trigger] entries_get(keyed(final(index)@), p) == match entries_get(
            keyed(old(index)@),
            p,
        ) {
            Some(x) => Some(x),
            None => if lookup(front@.toc, p) is Some {
                Some(pi)
            } else {
                None
            },
        },
{
    let ghost start = keyed(index@);
    let ghost toc = toc_entries(front.toc);
    let n = toc_len(&front.toc);
    let mut k: usize = 0;
    while k < n
        invariant
            n == toc.len(),
            toc == toc_entries(front.toc),
            k <= n,
            keys_unique(keyed(index@)),
            forall|p: Seq<char>| #[trigger] entries_get(keyed(index@), p) == match entries_get(start, p) {
                Some(x) => Some(x),
                None => if exists|j: int| 0 <= j < k && toc[j].0 == p {
                    Some(pi)
                } else {
                    None
                },
            },
        decreases n - k,
    {
        let entry = toc_get_index(&front.toc, k);
        match entry {
            Some((key, _meta)) => {
                match find_key(index, key.as_str()) {
                    Some(_) => {
                        proof {
                            assert(entries_get(keyed(index@), key@) is Some);
                            assert(toc[k as int].0 == key@);
                            assert forall|p: Seq<char>| #[trigger] entries_get(keyed(index@), p) == match entries_get(start, p) {
                                Some(x) => Some(x),
                                None => if exists|j: int| 0 <= j < k + 1 && toc[j].0 == p {
                                    Some(pi)
                                } else {
                                    None
                                },
                            } by {
                                let ex_k = exists|j: int| 0 <= j < k && toc[j].0 == p;
                                let ex_k1 = exists|j: int| 0 <= j < k + 1 && toc[j].0 == p;
                                assert(entries_get(keyed(index@), p) == match entries_get(start, p) {
                                    Some(x) => Some(x),
                                    None => if ex_k { Some(pi) } else { None },
                                });
                                if p == key@ {
                                    assert(toc[k as int].0 == p);
                                    assert(ex_k1);
                                    assert(entries_get(keyed(index@), p) is Some);
                                    if entries_get(start, p) is None {
                                        assert(ex_k);
                                    }
                                } else if exists|j: int| 0 <= j < k + 1 && toc[j].0 == p {
                                    let j = choose|j: int| 0 <= j < k + 1 && toc[j].0 == p;
                                    assert(j < k);
                                }
                            }
                        }
                    },
                    None => {
                        let ghost before = keyed(index@);
                        proof {
                            lemma_key_position(before, key@);
                        }
                        index.push((key.clone(), pi));
                        proof {
                            assert(keyed(index@) =~= before.push((key@, pi)));
                            assert forall|p: Seq<char>| #[trigger] entries_get(keyed(index@), p) == match entries_get(start, p) {
                                Some(x) => Some(x),
                                None => if exists|j: int| 0 <= j < k + 1 && toc[j].0 == p {
                                    Some(pi)
                                } else {
                                    None
                                },
                            } by {
                                let ex_k = exists|j: int| 0 <= j < k && toc[j].0 == p;
                                let ex_k1 = exists|j: int| 0 <= j < k + 1 && toc[j].0 == p;
                                assert(entries_get(before, p) == match entries_get(start, p) {
                                    Some(x) => Some(x),
                                    None => if ex_k { Some(pi) } else { None },
                                });
                                lemma_key_position_push(before, (key@, pi), p);
                                lemma_key_position(before, p);
                                if let Some(i) = key_position(before, p) {
                                    assert(before.push((key@, pi))[i] == before[i]);
                                }
                                if p == key@ {
                                    assert(toc[k as int].0 == p);
                                    assert(ex_k1);
                                } else if exists|j: int| 0 <= j < k + 1 && toc[j].0 == p {
                                    let j = choose|j: int| 0 <= j < k + 1 && toc[j].0 == p;
                                    assert(j < k);
                                }
                            }
                            assert forall|a: int, b: int| 0 <= a < b < keyed(index@).len() implies keyed(index@)[a].0 != keyed(index@)[b].0 by {
                                if b == before.len() {
                                    assert(before[a].0 != key@);
                                } else {
                                    assert(keyed(index@)[a] == before[a] && keyed(index@)[b] == before[b]);
                                }
                            }
                        }
                    },
                }
            },
            None => {},
        }
        k = k + 1;
    }
    proof {
        lemma_view_key_position_toc(toc);
        assert forall|p: Seq<char>| #[trigger] entries_get(keyed(index@), p) == match entries_get(start, p) {
            Some(x) => Some(x),
            None => if lookup(front@.toc, p) is Some {
                Some(pi)
            } else {
                None
            },
        } by {
            lemma_key_position(toc, p);
            crate::toc_map::lemma_view_key_position(toc, p);
            if exists|j: int| 0 <= j < n && toc[j].0 == p {
                let j = choose|j: int| 0 <= j < n && toc[j].0 == p;
                assert(toc[j].0 == p);
            }
        }
    }
}

/// Viewing the values of a table of contents keeps its keys.
proof fn lemma_view_key_position_toc(toc: Seq<(Seq<char>, crate::format::FileMeta)>)
    ensures
        forall|p: Seq<char>| #[trigger] key_position(view_entries(toc), p) == key_position(toc, p),
{
    assert forall|p: Seq<char>| #[trigger] key_position(view_entries(toc), p) == key_position(toc, p) by {
        crate::toc_map::lemma_view_key_position(toc, p);
    }
}

/// Looking one override pack lower.
proof fn lemma_top_override_lower(ovr: Seq<(Seq<char>, Seq<u8>)>, p: Seq<char>, lo: int, hi: int)
    requires
        0 < lo <= hi,
    ensures
        top_override(ovr, p, lo - 1, hi) == match top_override(ovr, p, lo, hi) {
            Some(x) => Some(x),
            None => if pack_has(Some(ovr[lo - 1].1), p) {
                Some(lo - 1)
            } else {
                None
            },
        },
    decreases hi - lo,
{
    if hi > lo {
        lemma_top_override_lower(ovr, p, lo, hi - 1);
    } else {
        assert(top_override(ovr, p, lo - 1, lo - 1) is None);
        assert(top_override(ovr, p, lo, hi) is None);
    }
}

/// The error that reading the pack front of `pack` meets, if any.
pub open spec fn front_error(pack: Seq<u8>) -> Option<ReadErrorView> {
    match spec_pack_front(pack) {
        Err(e) => Some(e),
        Ok(_) => None,
    }
}

/// The first error met reading the override packs below position `hi`, from the
/// last one down.
pub open spec fn override_error(ovr: Seq<(Seq<char>, Seq<u8>)>, hi: int) -> Option<ReadErrorView>
    decreases hi,
{
    if hi <= 0 {
        None
    } else {
        match front_error(ovr[hi - 1].1) {
            Some(e) => Some(e),
            None => override_error(ovr, hi - 1),
        }
    }
}

/// The first error met reading the first `n` enabled packs, in order.
pub open spec fn enabled_error(en: Seq<(Seq<char>, EnabledView)>, n: int) -> Option<ReadErrorView>
    decreases n,
{
    if n <= 0 {
        None
    } else {
        match enabled_error(en, n - 1) {
            Some(e) => Some(e),
            None => match en[n - 1].1.pack {
                Some(p) => front_error(p),
                None => None,
            },
        }
    }
}

/// The error that loading meets: reading the override packs from the last one
/// down, then the enabled packs in order.
pub open spec fn load_error(v: GroupView) -> Option<ReadErrorView> {
    match override_error(v.overrides, v.overrides.len() as int) {
        Some(e) => Some(e),
        None => enabled_error(v.enabled, v.enabled.len() as int),
    }
}

/// An error met among the first packs is the first error among more of them.
proof fn lemma_enabled_error_prefix(en: Seq<(Seq<char>, EnabledView)>, a: int, b: int)
    requires
        0 <= a <= b,
        enabled_error(en, a) is Some,
    ensures
        enabled_error(en, b) == enabled_error(en, a),
    decreases b - a,
{
    if b > a {
        lemma_enabled_error_prefix(en, a, b - 1);
    }
}

/// The available packs with each one that is enabled marked so.
pub open spec fn mark_enabled(av: Seq<(Seq<char>, PackDescriptor)>, en: Seq<(Seq<char>, EnabledView)>) -> Seq<
    (Seq<char>, PackDescriptor),
> {
    av.map_values(
        |e: (Seq<char>, PackDescriptor)|
            if key_position(en, e.0) is Some {
                (e.0, PackDescriptor { enabled: true, is_external: e.1.is_external, is_built_in: e.1.is_built_in })
            } else {
                e
            },
    )
}

/// What the index holds after the override packs at positions `lo` and above are indexed.
pub open spec fn override_index(v: GroupView, p: Seq<char>, lo: int) -> Option<PackIndex> {
    match top_override(v.overrides, p, lo, v.overrides.len() as int) {
        Some(x) => Some(PackIndex::OverridePack(x as usize)),
        None => None,
    }
}

/// What the index holds after the override packs and the first `n` enabled packs are indexed.
pub open spec fn enabled_index(v: GroupView, p: Seq<char>, n: int) -> Option<PackIndex> {
    match top_override(v.overrides, p, 0, v.overrides.len() as int) {
        Some(x) => Some(PackIndex::OverridePack(x as usize)),
        None => match first_enabled(v.enabled, p, n) {
            Some(y) => Some(PackIndex::Enabled(y as usize)),
            None => None,
        },
    }
}

impl AssetPackGroupReader {
    /// Indexes the files of the override packs, from the last one down.
    fn index_overrides(&mut self) -> (r: ReadResult<()>)
        requires
            old(self).wf(),
            old(self).packs_changed,
            old(self).file_name_to_asset_pack@.len() == 0,
        ensures
            final(self).wf(),
            final(self)@ == (GroupView { index: final(self)@.index, ..old(self)@ }),
            match override_error(old(self)@.overrides, old(self)@.overrides.len() as int) {
                Some(e) => r matches Err(re) && re@ == e,
                None => r is Ok && (forall|i: int| 0 <= i < old(self)@.overrides.len() ==> spec_pack_front(
                    (#[trigger] old(self)@.overrides[i]).1,
                ) is Ok) && (forall|p: Seq<char>| #[trigger] entries_get(final(self)@.index, p) == override_index(old(self)@, p, 0))
                    && (forall|i: int| 0 <= i < final(self).override_packs@.len() ==> (#[trigger] final(self).override_packs@[i]).1.front_cached()),
            },
    {
        let ghost v = self@;
        let n = self.override_packs.len();
        let mut i = n;
        proof {
            lemma_overrides_keys(self.override_packs@, seq![]);
        }
        while i > 0
            invariant
                old(self).wf(),
                v == old(self)@,
                n == v.overrides.len(),
                i <= n,
                self.packs_changed,
                self.enabled_packs == old(self).enabled_packs,
                self.available_packs == old(self).available_packs,
                self.external_packs == old(self).external_packs,
                self.pack_extension == old(self).pack_extension,
                self.root_dir == old(self).root_dir,
                overrides_of(self.override_packs@) == v.overrides,
                forall|j: int| 0 <= j < self.override_packs@.len() ==> (#[trigger] self.override_packs@[j]).1.wf(),
                forall|j: int| i <= j < n ==> spec_pack_front((#[trigger] v.overrides[j]).1) is Ok,
                forall|j: int| i <= j < n ==> (#[trigger] self.override_packs@[j]).1.front_cached(),
                override_error(v.overrides, n as int) == override_error(v.overrides, i as int),
                keys_unique(keyed(self.file_name_to_asset_pack@)),
                forall|p: Seq<char>| #[trigger] entries_get(keyed(self.file_name_to_asset_pack@), p) == override_index(v, p, i as int),
            decreases i,
        {
            i = i - 1;
            let ghost before = self.override_packs@;
            proof {
                lemma_overrides_keys(before, seq![]);
            }
            let entry = &mut self.override_packs[i];
            let front = match entry.1.get_pack_front() {
                Ok(f) => f,
                Err(e) => {
                    proof {
                        assert(v.overrides[i as int].1 == before[i as int].1.pack());
                        lemma_overrides_keys(self.override_packs@, seq![]);
                        assert(overrides_of(self.override_packs@) =~= v.overrides) by {
                            assert forall|j: int| 0 <= j < n implies overrides_of(self.override_packs@)[j] == v.overrides[j] by {
                                if j != i {
                                    assert(self.override_packs@[j] == before[j]);
                                }
                            }
                        }
                        assert forall|j: int| 0 <= j < self.override_packs@.len() implies (#[trigger] self.override_packs@[j]).1.wf() by {
                            if j != i {
                                assert(self.override_packs@[j] == before[j]);
                            }
                        }
                        assert(self@.enabled =~= v.enabled);
                    }
                    return Err(e);
                },
            };
            let ghost old_index = keyed(self.file_name_to_asset_pack@);
            index_pack(&mut self.file_name_to_asset_pack, front, PackIndex::OverridePack(i));
            proof {
                assert(v.overrides[i as int].1 == before[i as int].1.pack());
                lemma_overrides_keys(self.override_packs@, seq![]);
                assert(overrides_of(self.override_packs@) =~= v.overrides) by {
                    assert forall|j: int| 0 <= j < n implies overrides_of(self.override_packs@)[j] == v.overrides[j] by {
                        if j != i {
                            assert(self.override_packs@[j] == before[j]);
                        }
                    }
                }
                assert forall|j: int| 0 <= j < self.override_packs@.len() implies (#[trigger] self.override_packs@[j]).1.wf() by {
                    if j != i {
                        assert(self.override_packs@[j] == before[j]);
                    }
                }
                assert forall|j: int| i <= j < n implies (#[trigger] self.override_packs@[j]).1.front_cached() by {
                    if j != i {
                        assert(self.override_packs@[j] == before[j]);
                    }
                }
                assert forall|p: Seq<char>| #[trigger] entries_get(keyed(self.file_name_to_asset_pack@), p) == override_index(v, p, i as int) by {
                    assert(entries_get(old_index, p) == override_index(v, p, i + 1));
                    lemma_top_override_lower(v.overrides, p, i + 1, n as int);
                }
            }
        }
        Ok(())
    }
}

impl AssetPackGroupReader {
    /// Indexes the files of the enabled packs, in order, after the override packs.
    fn index_enabled(&mut self) -> (r: ReadResult<()>)
        requires
            old(self).wf(),
            old(self).packs_changed,
            forall|i: int| 0 <= i < old(self)@.enabled.len() ==> (#[trigger] old(self)@.enabled[i]).1.pack is Some,
            forall|p: Seq<char>| #[trigger] entries_get(old(self)@.index, p) == override_index(old(self)@, p, 0),
        ensures
            final(self).wf(),
            final(self)@ == (GroupView { index: final(self)@.index, ..old(self)@ }),
            match enabled_error(old(self)@.enabled, old(self)@.enabled.len() as int) {
                Some(e) => r matches Err(re) && re@ == e,
                None => r is Ok && (forall|i: int| 0 <= i < old(self)@.enabled.len() ==> ((#[trigger] old(self)@.enabled[i]).1.pack matches Some(pk) && spec_pack_front(pk) is Ok))
                    && (forall|p: Seq<char>| #[trigger] entries_get(final(self)@.index, p) == enabled_index(old(self)@, p, old(self)@.enabled.len() as int))
                    && (forall|i: int| 0 <= i < final(self).enabled_packs@.len() ==> ((#[trigger] final(self).enabled_packs@[i]).1.pack_reader matches Some(rd) ==> rd.front_cached()))
                    && final(self).override_packs == old(self).override_packs,
            },
    {
        let ghost v = self@;
        let n = self.enabled_packs.len();
        let mut i: usize = 0;
        proof {
            lemma_enabled_keys(self.enabled_packs@, seq![]);
            assert forall|p: Seq<char>| #[trigger] entries_get(keyed(self.file_name_to_asset_pack@), p) == enabled_index(v, p, 0) by {
                assert(entries_get(v.index, p) == override_index(v, p, 0));
            }
        }
        while i < n
            invariant
                old(self).wf(),
                v == old(self)@,
                n == v.enabled.len(),
                i <= n,
                self.packs_changed,
                self.override_packs == old(self).override_packs,
                self.available_packs == old(self).available_packs,
                self.external_packs == old(self).external_packs,
                self.pack_extension == old(self).pack_extension,
                self.root_dir == old(self).root_dir,
                enabled_of(self.enabled_packs@) == v.enabled,
                forall|j: int| 0 <= j < self.enabled_packs@.len() ==> ((#[trigger] self.enabled_packs@[j]).1.pack_reader matches Some(rd) ==> rd.wf()),
                forall|j: int| 0 <= j < n ==> (#[trigger] v.enabled[j]).1.pack is Some,
                forall|j: int| 0 <= j < i ==> ((#[trigger] v.enabled[j]).1.pack matches Some(pk) && spec_pack_front(pk) is Ok),
                forall|j: int| 0 <= j < i ==> ((#[trigger] self.enabled_packs@[j]).1.pack_reader matches Some(rd) ==> rd.front_cached()),
                enabled_error(v.enabled, i as int) is None,
                keys_unique(keyed(self.file_name_to_asset_pack@)),
                forall|p: Seq<char>| #[trigger] entries_get(keyed(self.file_name_to_asset_pack@), p) == enabled_index(v, p, i as int),
            decreases n - i,
        {
            let ghost before = self.enabled_packs@;
            proof {
                lemma_enabled_keys(before, seq![]);
                assert(v.enabled[i as int].1.pack is Some);
                assert(v.enabled[i as int] == (before[i as int].0@, enabled_view(before[i as int].1)));
            }
            let entry = &mut self.enabled_packs[i];
            match &mut entry.1.pack_reader {
                Some(reader) => {
                    let front = match reader.get_pack_front() {
                        Ok(f) => f,
                        Err(e) => {
                            proof {
                                lemma_enabled_keys(self.enabled_packs@, seq![]);
                                assert(enabled_of(self.enabled_packs@) =~= v.enabled) by {
                                    assert forall|j: int| 0 <= j < n implies enabled_of(self.enabled_packs@)[j] == v.enabled[j] by {
                                        if j != i {
                                            assert(self.enabled_packs@[j] == before[j]);
                                        }
                                    }
                                }
                                assert forall|j: int| 0 <= j < self.enabled_packs@.len() implies ((#[trigger] self.enabled_packs@[j]).1.pack_reader matches Some(rd) ==> rd.wf()) by {
                                    if j != i {
                                        assert(self.enabled_packs@[j] == before[j]);
                                    }
                                }
                                assert(self@.overrides =~= v.overrides);
                                assert(enabled_error(v.enabled, i + 1) == Some(e@));
                                lemma_enabled_error_prefix(v.enabled, i + 1, n as int);
                            }
                            return Err(e);
                        },
                    };
                    let ghost old_index = keyed(self.file_name_to_asset_pack@);
                    index_pack(&mut self.file_name_to_asset_pack, front, PackIndex::Enabled(i));
                    proof {
                        assert forall|p: Seq<char>| #[trigger] entries_get(keyed(self.file_name_to_asset_pack@), p) == enabled_index(v, p, i + 1) by {
                            assert(entries_get(old_index, p) == enabled_index(v, p, i as int));
                        }
                    }
                },
                None => {
                    proof {
                        assert(false);
                    }
                },
            }
            proof {
                lemma_enabled_keys(self.enabled_packs@, seq![]);
                assert(enabled_of(self.enabled_packs@) =~= v.enabled) by {
                    assert forall|j: int| 0 <= j < n implies enabled_of(self.enabled_packs@)[j] == v.enabled[j] by {
                        if j != i {
                            assert(self.enabled_packs@[j] == before[j]);
                        }
                    }
                }
                assert forall|j: int| 0 <= j < self.enabled_packs@.len() implies ((#[trigger] self.enabled_packs@[j]).1.pack_reader matches Some(rd) ==> rd.wf()) by {
                    if j != i {
                        assert(self.enabled_packs@[j] == before[j]);
                    }
                }
                assert forall|j: int| 0 <= j < i + 1 implies ((#[trigger] self.enabled_packs@[j]).1.pack_reader matches Some(rd) ==> rd.front_cached()) by {
                    if j != i {
                        assert(self.enabled_packs@[j] == before[j]);
                    }
                }
            }
            i = i + 1;
        }
        proof {
            assert(self@.overrides =~= v.overrides);
        }
        Ok(())
    }
}

impl AssetPackGroupReader {
    /// Marks every available pack that is enabled as enabled.
    fn mark_available(&mut self)
        requires
            old(self).wf(),
        ensures
            final(self).wf(),
            final(self)@ == (GroupView { available: mark_enabled(old(self)@.available, old(self)@.enabled), ..old(self)@ }),
            final(self).enabled_packs == old(self).enabled_packs,
            final(self).override_packs == old(self).override_packs,
    {
        let ghost v = self@;
        let n = self.available_packs.len();
        let mut a: usize = 0;
        while a < n
            invariant
                old(self).wf(),
                v == old(self)@,
                n == v.available.len(),
                a <= n,
                self.packs_changed == old(self).packs_changed,
                self.enabled_packs == old(self).enabled_packs,
                self.override_packs == old(self).override_packs,
                self.file_name_to_asset_pack == old(self).file_name_to_asset_pack,
                self.external_packs == old(self).external_packs,
                self.pack_extension == old(self).pack_extension,
                self.root_dir == old(self).root_dir,
                self.available_packs@.len() == n,
                forall|j: int| 0 <= j < n ==> (#[trigger] keyed(self.available_packs@)[j]) == if j < a {
                    mark_enabled(v.available, v.enabled)[j]
                } else {
                    v.available[j]
                },
            decreases n - a,
        {
            let ghost before = self.available_packs@;
            let e = &mut self.available_packs[a];
            let found = find_key(&self.enabled_packs, e.0.as_str());
            proof {
                lemma_enabled_keys(self.enabled_packs@, e.0@);
                assert(keyed(before)[a as int] == (before[a as int].0@, before[a as int].1));
            }
            if found.is_some() {
                e.1.enabled = true;
            }
            proof {
                assert forall|j: int| 0 <= j < n implies (#[trigger] keyed(self.available_packs@)[j]) == if j < a + 1 {
                    mark_enabled(v.available, v.enabled)[j]
                } else {
                    v.available[j]
                } by {
                    if j != a {
                        assert(self.available_packs@[j] == before[j]);
                        assert(keyed(before)[j] == (before[j].0@, before[j].1));
                    }
                }
            }
            a = a + 1;
        }
        proof {
            assert(keyed(self.available_packs@) =~= mark_enabled(v.available, v.enabled));
            let ma = mark_enabled(v.available, v.enabled);
            assert forall|x: int, y: int| 0 <= x < y < ma.len() implies ma[x].0 != ma[y].0 by {
                assert(ma[x].0 == v.available[x].0);
                assert(ma[y].0 == v.available[y].0);
            }
            assert(self@.enabled =~= v.enabled);
            assert(self@.overrides =~= v.overrides);
        }
    }

    /// Rebuilds the index from every path to the pack that serves it, and marks the
    /// enabled packs as enabled among the available ones; the group is then loaded.
    /// Every enabled pack must have been opened. The caller writes `packs.toml`
    /// from the enabled packs afterwards.
    ///
    /// # Errors
    /// Fails with the error of the first pack whose pack front cannot be read: the
    /// override packs from the last one down, then the enabled packs in order.
    pub fn build_index(&mut self) -> (r: ReadResult<()>)
        requires
            old(self).wf(),
            forall|i: int| 0 <= i < old(self)@.enabled.len() ==> (#[trigger] old(self)@.enabled[i]).1.pack is Some,
        ensures
            final(self).wf(),
            match load_error(old(self)@) {
                Some(e) => (r matches Err(re) && re@ == e) && final(self)@ == (GroupView {
                    index: final(self)@.index,
                    packs_changed: true,
                    ..old(self)@
                }),
                None => r is Ok && final(self)@ == (GroupView {
                    index: final(self)@.index,
                    available: mark_enabled(old(self)@.available, old(self)@.enabled),
                    packs_changed: false,
                    ..old(self)@
                }) && loaded(final(self)@),
            },
    {
        self.packs_changed = true;
        self.file_name_to_asset_pack = Vec::new();
        proof {
            assert(self@.enabled =~= old(self)@.enabled);
            assert(self@.overrides =~= old(self)@.overrides);
            assert(keyed(self.file_name_to_asset_pack@) =~= Seq::<(Seq<char>, PackIndex)>::empty());
        }
        let ghost v0 = self@;
        match self.index_overrides() {
            Ok(()) => {},
            Err(e) => {
                return Err(e);
            },
        }
        match self.index_enabled() {
            Ok(()) => {},
            Err(e) => {
                return Err(e);
            },
        }
        let ghost v1 = self@;
        let ghost cached_before = self.fronts_cached();
        self.mark_available();
        self.packs_changed = false;
        proof {
            assert(self@.enabled =~= v1.enabled);
            assert(self@.overrides =~= v1.overrides);
            assert forall|p: Seq<char>| #[trigger] entries_get(self@.index, p) == serving_pack(self@, p) by {
                assert(entries_get(v1.index, p) == enabled_index(v0, p, v0.enabled.len() as int));
            }
        }
        Ok(())
    }
}

/// The override pack found has the file.
proof fn lemma_top_override_found(ovr: Seq<(Seq<char>, Seq<u8>)>, p: Seq<char>, lo: int, hi: int)
    ensures
        top_override(ovr, p, lo, hi) matches Some(x) ==> lo <= x < hi && pack_has(Some(ovr[x].1), p),
    decreases hi - lo,
{
    if hi > lo {
        lemma_top_override_found(ovr, p, lo, hi - 1);
    }
}

/// The enabled pack found has the file.
proof fn lemma_first_enabled_found(en: Seq<(Seq<char>, EnabledView)>, p: Seq<char>, n: int)
    ensures
        first_enabled(en, p, n) matches Some(y) ==> 0 <= y < n && pack_has(en[y].1.pack, p),
    decreases n,
{
    if n > 0 {
        lemma_first_enabled_found(en, p, n - 1);
    }
}

/// What reading `path` from the pack `pack` gives: a reader of the contents of
/// the file, or the error that decompressing it meets.
pub open spec fn served_file(pack: Seq<u8>, path: Seq<char>, r: ReadResult<Option<AssetFileReader>>) -> bool {
    match lookup(pack_toc(pack), path) {
        Some(m) => (match r {
            Ok(Some(fr)) => spec_file_contents(pack, m) == Some(fr.contents()) && fr.position() == 0,
            Ok(None) => false,
            Err(e) => e@ == ReadErrorView::IoError(IoErrorKind::Other, ReadStepView::DecompressFile(m)),
        }) && (spec_file_contents(pack, m) is None ==> r is Err),
        None => false,
    }
}

/// The bytes of the pack that serves `path`: the last override pack that has it,
/// or else the first enabled pack that has it; none when no pack has it.
pub open spec fn served_by(v: GroupView, path: Seq<char>) -> Option<Seq<u8>> {
    match top_override(v.overrides, path, 0, v.overrides.len() as int) {
        Some(i) => Some(v.overrides[i].1),
        None => match first_enabled(v.enabled, path, v.enabled.len() as int) {
            Some(i) => v.enabled[i].1.pack,
            None => None,
        },
    }
}

/// The pack the index names serves what [`served_by`] says.
proof fn lemma_served_by_positions(v: GroupView, path: Seq<char>)
    requires
        v.overrides.len() <= usize::MAX,
        v.enabled.len() <= usize::MAX,
    ensures
        serving_bytes(v, path) == served_by(v, path),
{
    lemma_top_override_found(v.overrides, path, 0, v.overrides.len() as int);
    lemma_first_enabled_found(v.enabled, path, v.enabled.len() as int);
    if let Some(x) = top_override(v.overrides, path, 0, v.overrides.len() as int) {
        assert(x as usize as int == x);
    } else if let Some(y) = first_enabled(v.enabled, path, v.enabled.len() as int) {
        assert(y as usize as int == y);
    }
}

/// The bytes of the pack that serves `path`, if any pack does.
pub open spec fn serving_bytes(v: GroupView, path: Seq<char>) -> Option<Seq<u8>> {
    match serving_pack(v, path) {
        Some(pi) => pack_at(v, pi),
        None => None,
    }
}

impl AssetPackGroupReader {
    /// Returns a reader of the file `file_path`, as the pack of most precedence that
    /// has it holds it: the last added override pack that has it, or else the first
    /// enabled pack that has it; `None` when no pack has it.
    ///
    /// # Errors
    /// Fails with [`ReadError::LoadNotCalled`] when changes were made since the last
    /// load, and when the file cannot be decompressed.
    pub fn get_file_reader(&self, file_path: &str) -> (r: ReadResult<Option<AssetFileReader<'_>>>)
        requires
            self.wf(),
        ensures
            self@.packs_changed ==> (r matches Err(e) && e@ == ReadErrorView::LoadNotCalled),
            !self@.packs_changed ==> match served_by(self@, file_path@) {
                None => r matches Ok(None),
                Some(pack) => served_file(pack, file_path@, r),
            },
    {
        if self.packs_changed {
            return Err(ReadError::LoadNotCalled);
        }
        let ghost v = self@;
        let n_o = self.override_packs.len();
        let n_e = self.enabled_packs.len();
        proof {
            lemma_enabled_keys(self.enabled_packs@, seq![]);
            lemma_overrides_keys(self.override_packs@, seq![]);
            lemma_served_by_positions(v, file_path@);
            lemma_top_override_found(v.overrides, file_path@, 0, v.overrides.len() as int);
            lemma_first_enabled_found(v.enabled, file_path@, v.enabled.len() as int);
            lemma_enabled_keys(self.enabled_packs@, seq![]);
            lemma_overrides_keys(self.override_packs@, seq![]);
            assert(entries_get(v.index, file_path@) == serving_pack(v, file_path@));
            match top_override(v.overrides, file_path@, 0, v.overrides.len() as int) {
                Some(x) => {
                    assert(x < n_o);
                    assert(x as usize as int == x);
                },
                None => match first_enabled(v.enabled, file_path@, v.enabled.len() as int) {
                    Some(y) => {
                        assert(y < n_e);
                        assert(y as usize as int == y);
                    },
                    None => {},
                },
            }
        }
        let k = match find_key(&self.file_name_to_asset_pack, file_path) {
            Some(k) => k,
            None => {
                return Ok(None);
            },
        };
        let pi = self.file_name_to_asset_pack[k].1;
        proof {
            assert(keyed(self.file_name_to_asset_pack@)[k as int].1 == pi);
        }
        let reader = match pi {
            PackIndex::Enabled(i) => {
                proof {
                    assert(v.enabled[i as int] == (self.enabled_packs@[i as int].0@, enabled_view(self.enabled_packs@[i as int].1)));
                }
                match &self.enabled_packs[i].1.pack_reader {
                    Some(reader) => reader,
                    None => {
                        proof {
                            assert(false);
                        }
                        return Ok(None);
                    },
                }
            },
            PackIndex::OverridePack(i) => {
                proof {
                    assert(v.overrides[i as int] == (self.override_packs@[i as int].0@, self.override_packs@[i as int].1.pack()));
                }
                &self.override_packs[i].1
            },
        };
        proof {
            assert(serving_bytes(v, file_path@) == Some(reader.pack()));
            assert(reader.wf() && reader.front_cached());
            assert(spec_pack_front(reader.pack()) is Ok);
            assert(lookup(pack_toc(reader.pack()), file_path@) is Some);
        }
        let res = reader.cached_file_reader(file_path);
        match res {
            Ok(fr) => Ok(Some(fr)),
            Err(e) => Err(e),
        }
    }
}

/// A name for what `pathdiff::diff_utf8_paths(path, base)` returns: the relative
/// path that leads from `base` to `path`, if there is one.
pub uninterp spec fn utf8_path_diff(path: Seq<char>, base: Seq<char>) -> Option<Seq<char>>;

/// Computes the relative path from `base` to `path` with `pathdiff::diff_utf8_paths`.
///
/// Trusted: the result depends on the two paths alone; what it is, is named by
/// [`utf8_path_diff`] and not stated further.
#[verifier::external_body]
fn diff_utf8_paths_of(path: &str, base: &str) -> (r: Option<String>)
    ensures
        match r {
            Some(d) => utf8_path_diff(path@, base@) == Some(d@),
            None => utf8_path_diff(path@, base@) is None,
        },
{
    match pathdiff::diff_utf8_paths(path, base) {
        Some(d) => Some(d.into_string()),
        None => None,
    }
}

/// The position of the last byte `c` among the first `end` bytes of `b`.
pub open spec fn last_index(b: Seq<u8>, c: u8, end: int) -> Option<int>
    decreases end,
{
    if end <= 0 {
        None
    } else if b[end - 1] == c {
        Some(end - 1)
    } else {
        last_index(b, c, end - 1)
    }
}

/// The extension of the file that the path `b` (in UTF-8) names: what follows the
/// last dot of its file name, when that dot is not the first byte of the name;
/// none for the name `..`.
pub open spec fn path_extension(b: Seq<u8>) -> Option<Seq<u8>> {
    let start = match last_index(b, 0x2f, b.len() as int) {
        Some(i) => i + 1,
        None => 0,
    };
    if b.subrange(start, b.len() as int) == seq![0x2eu8, 0x2e] {
        None
    } else {
        match last_index(b, 0x2e, b.len() as int) {
            Some(d) => if d > start {
                Some(b.subrange(d + 1, b.len() as int))
            } else {
                None
            },
            None => None,
        }
    }
}

/// Finds the last byte `c` of `b`.
fn last_index_of(b: &[u8], c: u8) -> (r: Option<usize>)
    ensures
        match r {
            Some(i) => i < b@.len() && last_index(b@, c, b@.len() as int) == Some(i as int),
            None => last_index(b@, c, b@.len() as int) is None,
        },
{
    let mut end = b.len();
    while end > 0
        invariant
            end <= b@.len(),
            last_index(b@, c, b@.len() as int) == last_index(b@, c, end as int),
        decreases end,
    {
        if b[end - 1] == c {
            return Some(end - 1);
        }
        end = end - 1;
    }
    None
}

/// Whether the file that `path` names has the extension `ext`.
pub fn has_extension(path: &str, ext: &str) -> (r: bool)
    ensures
        r == (path_extension(encode_utf8(path@)) == Some(encode_utf8(ext@))),
{
    let b = path.as_bytes();
    let blen = b.len();
    let start = match last_index_of(b, 0x2f) {
        Some(i) => {
            assert(i < blen);
            i + 1
        },
        None => 0,
    };
    let name = slice_subrange(b, start, b.len());
    if name.len() == 2 && name[0] == 0x2e && name[1] == 0x2e {
        proof {
            assert(name@ =~= seq![0x2eu8, 0x2e]);
        }
        return false;
    }
    proof {
        if b@.subrange(start as int, b@.len() as int) == seq![0x2eu8, 0x2e] {
            assert(name@[0] == 0x2e && name@[1] == 0x2e);
        }
    }
    match last_index_of(b, 0x2e) {
        Some(d) => {
            if d > start {
                bytes_equal(slice_subrange(b, d + 1, b.len()), ext.as_bytes())
            } else {
                false
            }
        },
        None => false,
    }
}

/// Whether `path` is the path of a built-in pack: `/__built_in` or a path under it.
pub open spec fn is_built_in_path(path: Seq<char>) -> bool {
    path == "/__built_in"@ || "/__built_in/"@.is_prefix_of(path)
}

/// Whether `path` is the path of a built-in pack.
fn is_built_in(path: &str) -> (r: bool)
    ensures
        r == is_built_in_path(path@),
{
    proof {
        reveal_strlit("/__built_in");
        reveal_strlit("/__built_in/");
    }
    let n = path.unicode_len();
    if n < 11 {
        return false;
    }
    let head = path.substring_char(0, 11);
    if !str_equal(head, "/__built_in") {
        proof {
            if "/__built_in/"@.is_prefix_of(path@) {
                assert(path@.subrange(0, 11) =~= "/__built_in"@);
            }
            if path@ == "/__built_in"@ {
                assert(path@.subrange(0, 11) =~= "/__built_in"@);
            }
        }
        return false;
    }
    if n == 11 {
        proof {
            assert(path@ =~= "/__built_in"@);
        }
        return true;
    }
    let slash = path.get_char(11) == '/';
    proof {
        if slash {
            assert(path@.subrange(0, 12) =~= "/__built_in/"@);
        } else {
            assert(path@.len() != "/__built_in"@.len());
            assert(path@[11] != "/__built_in/"@[11]);
        }
    }
    slash
}

/// The entries of `av` whose paths are those of built-in packs, in order.
pub open spec fn keep_built_in(av: Seq<(Seq<char>, PackDescriptor)>) -> Seq<(Seq<char>, PackDescriptor)>
    decreases av.len(),
{
    if av.len() == 0 {
        seq![]
    } else if is_built_in_path(av.last().0) {
        keep_built_in(av.drop_last()).push(av.last())
    } else {
        keep_built_in(av.drop_last())
    }
}

/// An enabled pack at `path` stays enabled when it is available or built in.
pub open spec fn stays_enabled(path: Seq<char>, av: Seq<(Seq<char>, PackDescriptor)>) -> bool {
    key_position(av, path) is Some || is_built_in_path(path)
}

/// The enabled packs of `en` that stay enabled with the available packs `av`
/// (those available and the built-in ones), in order.
pub open spec fn keep_available(en: Seq<(Seq<char>, EnabledView)>, av: Seq<(Seq<char>, PackDescriptor)>) -> Seq<
    (Seq<char>, EnabledView),
>
    decreases en.len(),
{
    if en.len() == 0 {
        seq![]
    } else if stays_enabled(en.last().0, av) {
        keep_available(en.drop_last(), av).push(en.last())
    } else {
        keep_available(en.drop_last(), av)
    }
}

/// The joined path: `path` itself when it is absolute, else `path` under `root`.
pub open spec fn join_path(root: Seq<char>, path: Seq<char>) -> Seq<char> {
    if path.len() > 0 && path[0] == '/' {
        path
    } else if root.len() == 0 {
        path
    } else if root.last() == '/' {
        root + path
    } else {
        root + "/"@ + path
    }
}

/// The path joined to the directory `root`.
fn join_path_of(root: &str, path: &str) -> (r: String)
    ensures
        r@ == join_path(root@, path@),
{
    let pn = path.unicode_len();
    if pn > 0 && path.get_char(0) == '/' {
        return path.to_owned();
    }
    let rn = root.unicode_len();
    if rn == 0 {
        return path.to_owned();
    }
    let mut r = root.to_owned();
    if root.get_char(rn - 1) != '/' {
        r.append("/");
    }
    r.append(path);
    r
}

impl AssetPackGroupReader {
    /// The directory of the group.
    pub fn get_root_dir(&self) -> (r: &str)
        ensures
            r@ == self@.root_dir,
    {
        self.root_dir.as_str()
    }

    /// The extension of pack files.
    pub fn get_pack_extension(&self) -> (r: &str)
        ensures
            r@ == self@.pack_extension,
    {
        self.pack_extension.as_str()
    }

    /// The path of `path` relative to the group directory, as
    /// `pathdiff::diff_utf8_paths` gives it, or `path` itself when there is none.
    pub fn relative_pack_path(&self, path: &str) -> (r: String)
        ensures
            r@ == match utf8_path_diff(path@, self@.root_dir) {
                Some(d) => d,
                None => path@,
            },
    {
        match diff_utf8_paths_of(path, self.root_dir.as_str()) {
            Some(d) => d,
            None => path.to_owned(),
        }
    }

    /// First step of loading: forgets every available pack but the built-in ones,
    /// before the packs are discovered again.
    pub fn begin_load(&mut self)
        requires
            old(self).wf(),
        ensures
            final(self).wf(),
            final(self)@ == (GroupView { available: keep_built_in(old(self)@.available), ..old(self)@ }),
    {
        let ghost v = self@;
        let mut rest: Vec<(String, PackDescriptor)> = Vec::new();
        std::mem::swap(&mut rest, &mut self.available_packs);
        let mut kept: Vec<(String, PackDescriptor)> = Vec::new();
        let ghost all = keyed(rest@);
        let n = rest.len();
        let mut i: usize = 0;
        while i < n
            invariant
                i <= n,
                n == all.len(),
                all == v.available,
                rest@.len() == n - i,
                forall|j: int| 0 <= j < rest@.len() ==> (#[trigger] keyed(rest@)[j]) == all[i + j],
                keyed(kept@) == keep_built_in(all.take(i as int)),
            decreases n - i,
        {
            let ghost before = rest@;
            let (path, desc) = rest.remove(0);
            proof {
                assert(keyed(before)[0] == all[i as int]);
                assert(all.take(i + 1).drop_last() =~= all.take(i as int));
                assert forall|j: int| 0 <= j < rest@.len() implies (#[trigger] keyed(rest@)[j]) == all[i + 1 + j] by {
                    assert(keyed(rest@)[j] == keyed(before)[j + 1]);
                }
            }
            if is_built_in(path.as_str()) {
                let ghost kb = keyed(kept@);
                kept.push((path, desc));
                proof {
                    assert(keyed(kept@) =~= kb.push(all[i as int]));
                }
            }
            i = i + 1;
        }
        proof {
            assert(all.take(n as int) =~= all);
            lemma_keep_built_in_unique(all);
        }
        self.available_packs = kept;
        proof {
            assert(self@.enabled =~= v.enabled);
            assert(self@.overrides =~= v.overrides);
        }
    }
}

/// Every entry that is kept is an entry of the list.
proof fn lemma_keep_built_in_from(s: Seq<(Seq<char>, PackDescriptor)>)
    ensures
        forall|j: int| 0 <= j < keep_built_in(s).len() ==> exists|m: int| 0 <= m < s.len() && s[m] == #[trigger] keep_built_in(s)[j],
    decreases s.len(),
{
    if s.len() > 0 {
        lemma_keep_built_in_from(s.drop_last());
        let k = keep_built_in(s.drop_last());
        assert forall|j: int| 0 <= j < keep_built_in(s).len() implies exists|m: int| 0 <= m < s.len() && s[m] == #[trigger] keep_built_in(s)[j] by {
            if j < k.len() {
                let m = choose|m: int| 0 <= m < s.drop_last().len() && s.drop_last()[m] == #[trigger] k[j];
                assert(s[m] == keep_built_in(s)[j]);
            } else {
                assert(s[s.len() - 1] == keep_built_in(s)[j]);
            }
        }
    }
}

/// Keeping the built-in packs keeps the paths unique.
proof fn lemma_keep_built_in_unique(s: Seq<(Seq<char>, PackDescriptor)>)
    requires
        keys_unique(s),
    ensures
        keys_unique(keep_built_in(s)),
    decreases s.len(),
{
    if s.len() > 0 {
        let d = s.drop_last();
        assert(keys_unique(d)) by {
            assert forall|a: int, b: int| 0 <= a < b < d.len() implies d[a].0 != d[b].0 by {
                assert(d[a] == s[a] && d[b] == s[b]);
            }
        }
        lemma_keep_built_in_unique(d);
        lemma_keep_built_in_from(d);
        let k = keep_built_in(d);
        if is_built_in_path(s.last().0) {
            assert forall|a: int, b: int| 0 <= a < b < k.len() + 1 implies k.push(s.last())[a].0 != k.push(s.last())[b].0 by {
                if b == k.len() {
                    let m = choose|m: int| 0 <= m < d.len() && d[m] == #[trigger] k[a];
                    assert(s[m] == d[m]);
                } else {
                    assert(k.push(s.last())[a] == k[a] && k.push(s.last())[b] == k[b]);
                }
            }
        }
    }
}

/// Every entry that is kept is an entry of the list.
proof fn lemma_keep_available_from(en: Seq<(Seq<char>, EnabledView)>, av: Seq<(Seq<char>, PackDescriptor)>)
    ensures
        forall|j: int| 0 <= j < keep_available(en, av).len() ==> exists|m: int| 0 <= m < en.len() && en[m] == #[trigger] keep_available(en, av)[j],
    decreases en.len(),
{
    if en.len() > 0 {
        lemma_keep_available_from(en.drop_last(), av);
        let k = keep_available(en.drop_last(), av);
        assert forall|j: int| 0 <= j < keep_available(en, av).len() implies exists|m: int| 0 <= m < en.len() && en[m] == #[trigger] keep_available(en, av)[j] by {
            if j < k.len() {
                let m = choose|m: int| 0 <= m < en.drop_last().len() && en.drop_last()[m] == #[trigger] k[j];
                assert(en[m] == keep_available(en, av)[j]);
            } else {
                assert(en[en.len() - 1] == keep_available(en, av)[j]);
            }
        }
    }
}

/// Keeping the available packs keeps the paths unique.
proof fn lemma_keep_available_unique(en: Seq<(Seq<char>, EnabledView)>, av: Seq<(Seq<char>, PackDescriptor)>)
    requires
        keys_unique(en),
    ensures
        keys_unique(keep_available(en, av)),
    decreases en.len(),
{
    if en.len() > 0 {
        let d = en.drop_last();
        assert(keys_unique(d)) by {
            assert forall|a: int, b: int| 0 <= a < b < d.len() implies d[a].0 != d[b].0 by {
                assert(d[a] == en[a] && d[b] == en[b]);
            }
        }
        lemma_keep_available_unique(d, av);
        lemma_keep_available_from(d, av);
        let k = keep_available(d, av);
        if stays_enabled(en.last().0, av) {
            assert forall|a: int, b: int| 0 <= a < b < k.len() + 1 implies k.push(en.last())[a].0 != k.push(en.last())[b].0 by {
                if b == k.len() {
                    let m = choose|m: int| 0 <= m < d.len() && d[m] == #[trigger] k[a];
                    assert(en[m] == d[m]);
                } else {
                    assert(k.push(en.last())[a] == k[a] && k.push(en.last())[b] == k[b]);
                }
            }
        }
    }
}

/// The path of `path` relative to `root`, or `path` when there is none.
pub open spec fn relative_to(path: Seq<char>, root: Seq<char>) -> Seq<char> {
    match utf8_path_diff(path, root) {
        Some(d) => d,
        None => path,
    }
}

/// The enabled packs among the first `n` that have no reader yet, with their paths
/// joined to `root`.
pub open spec fn packs_without_reader(en: Seq<(Seq<char>, EnabledView)>, root: Seq<char>, n: int) -> Seq<(int, Seq<char>)>
    decreases n,
{
    if n <= 0 {
        seq![]
    } else if en[n - 1].1.pack is None {
        packs_without_reader(en, root, n - 1).push((n - 1, join_path(root, en[n - 1].0)))
    } else {
        packs_without_reader(en, root, n - 1)
    }
}

/// Keeping every entry keeps the list as it is.
proof fn lemma_keep_available_all(en: Seq<(Seq<char>, EnabledView)>, av: Seq<(Seq<char>, PackDescriptor)>)
    ensures
        keep_available(en, av).len() <= en.len(),
        keep_available(en, av).len() == en.len() ==> keep_available(en, av) == en,
    decreases en.len(),
{
    if en.len() > 0 {
        lemma_keep_available_all(en.drop_last(), av);
        if keep_available(en, av).len() == en.len() {
            assert(keep_available(en.drop_last(), av).len() == en.drop_last().len());
            assert(keep_available(en, av) =~= en);
        }
    }
}

impl AssetPackGroupReader {
    /// Inserts an available pack, under its path relative to the group directory.
    fn insert_available(&mut self, path: &str, is_external: bool)
        requires
            old(self).wf(),
        ensures
            final(self).wf(),
            final(self)@ == (GroupView {
                available: entries_insert(
                    old(self)@.available,
                    relative_to(path@, old(self)@.root_dir),
                    PackDescriptor { enabled: false, is_external, is_built_in: false },
                ),
                ..old(self)@
            }),
    {
        let rel = self.relative_pack_path(path);
        proof {
            lemma_insert_keeps_unique(old(self)@.available, rel@, PackDescriptor { enabled: false, is_external, is_built_in: false });
        }
        assoc_insert(&mut self.available_packs, rel, PackDescriptor { enabled: false, is_external, is_built_in: false });
        proof {
            assert(self@.enabled =~= old(self)@.enabled);
            assert(self@.overrides =~= old(self)@.overrides);
        }
    }

    /// Makes the file at `entry_path`, found in the group directory or in an
    /// external directory (`is_external`), available when its extension is the
    /// extension of pack files. Returns whether it did.
    pub fn discover_pack(&mut self, entry_path: &str, is_external: bool) -> (r: bool)
        requires
            old(self).wf(),
        ensures
            final(self).wf(),
            r == (path_extension(encode_utf8(entry_path@)) == Some(encode_utf8(old(self)@.pack_extension))),
            r ==> final(self)@ == (GroupView {
                available: entries_insert(
                    old(self)@.available,
                    relative_to(entry_path@, old(self)@.root_dir),
                    PackDescriptor { enabled: false, is_external, is_built_in: false },
                ),
                ..old(self)@
            }),
            !r ==> final(self)@ == old(self)@,
    {
        if has_extension(entry_path, self.pack_extension.as_str()) {
            self.insert_available(entry_path, is_external);
            true
        } else {
            false
        }
    }

    /// Makes the external pack file `path` available, whatever its extension.
    pub fn add_available_pack(&mut self, path: &str)
        requires
            old(self).wf(),
        ensures
            final(self).wf(),
            final(self)@ == (GroupView {
                available: entries_insert(
                    old(self)@.available,
                    relative_to(path@, old(self)@.root_dir),
                    PackDescriptor { enabled: false, is_external: true, is_built_in: false },
                ),
                ..old(self)@
            }),
    {
        self.insert_available(path, true);
    }

    /// Disables the enabled packs that are no longer available (built-in packs
    /// stay), and tells whether
    /// the index must be rebuilt: when changes are pending or a pack was disabled.
    pub fn retain_available(&mut self) -> (r: bool)
        requires
            old(self).wf(),
        ensures
            final(self).wf(),
            r == (old(self)@.packs_changed || keep_available(old(self)@.enabled, old(self)@.available).len()
                != old(self)@.enabled.len()),
            final(self)@ == (GroupView {
                enabled: keep_available(old(self)@.enabled, old(self)@.available),
                packs_changed: r,
                ..old(self)@
            }),
    {
        let ghost v = self@;
        let mut rest: Vec<(String, EnabledPack)> = Vec::new();
        std::mem::swap(&mut rest, &mut self.enabled_packs);
        let ghost orig = rest@;
        let n = rest.len();
        let mut kept: Vec<(String, EnabledPack)> = Vec::new();
        let mut i: usize = 0;
        proof {
            lemma_enabled_keys(orig, seq![]);
        }
        while i < n
            invariant
                i <= n,
                n == orig.len(),
                v == old(self)@,
                enabled_of(orig) == v.enabled,
                self.available_packs == old(self).available_packs,
                rest@.len() == n - i,
                forall|j: int| 0 <= j < rest@.len() ==> (#[trigger] rest@[j]) == orig[i + j],
                enabled_of(kept@) == keep_available(v.enabled.take(i as int), v.available),
                forall|j: int| 0 <= j < kept@.len() ==> exists|m: int| 0 <= m < n && orig[m] == #[trigger] kept@[j],
            decreases n - i,
        {
            let ghost before = rest@;
            let (path, pack) = rest.remove(0);
            proof {
                assert(before[0] == orig[i as int]);
                assert(v.enabled.take(i + 1).drop_last() =~= v.enabled.take(i as int));
                lemma_enabled_keys(orig, path@);
                assert(v.enabled[i as int] == (path@, enabled_view(pack)));
                assert forall|j: int| 0 <= j < rest@.len() implies (#[trigger] rest@[j]) == orig[i + 1 + j] by {
                    assert(rest@[j] == before[j + 1]);
                }
                lemma_map_key_position(keyed(self.available_packs@), path@, |e: (Seq<char>, PackDescriptor)| e);
            }
            let found = find_key(&self.available_packs, path.as_str());
            if found.is_some() || is_built_in(path.as_str()) {
                let ghost kb = kept@;
                kept.push((path, pack));
                proof {
                    lemma_enabled_keys(kb, seq![]);
                    lemma_enabled_keys(kept@, seq![]);
                    assert(enabled_of(kept@) =~= enabled_of(kb).push(v.enabled[i as int]));
                    assert forall|j: int| 0 <= j < kept@.len() implies exists|m: int| 0 <= m < n && orig[m] == #[trigger] kept@[j] by {
                        if j == kb.len() {
                            assert(orig[i as int] == kept@[j]);
                        } else {
                            assert(kept@[j] == kb[j]);
                        }
                    }
                }
            }
            i = i + 1;
        }
        proof {
            assert(v.enabled.take(n as int) =~= v.enabled);
            lemma_keep_available_unique(v.enabled, v.available);
            lemma_keep_available_all(v.enabled, v.available);
            lemma_enabled_keys(kept@, seq![]);
        }
        let changed = self.packs_changed || kept.len() != n;
        self.enabled_packs = kept;
        self.packs_changed = changed;
        proof {
            assert(self@.overrides =~= v.overrides);
            assert forall|j: int| 0 <= j < self.enabled_packs@.len() implies ((#[trigger] self.enabled_packs@[j]).1.pack_reader matches Some(rd) ==> rd.wf()) by {
                let m = choose|m: int| 0 <= m < n && orig[m] == #[trigger] self.enabled_packs@[j];
                assert(old(self).enabled_packs@[m] == orig[m]);
            }
            if !changed {
                assert(self.enabled_packs@ =~= orig) by {
                    assert forall|j: int| 0 <= j < n implies self.enabled_packs@[j] == orig[j] by {
                        assert(enabled_of(self.enabled_packs@)[j] == v.enabled[j]);
                        let m = choose|m: int| 0 <= m < n && orig[m] == #[trigger] self.enabled_packs@[j];
                        lemma_enabled_keys(orig, seq![]);
                        assert(enabled_of(orig)[m] == enabled_of(orig)[j]);
                        assert(keys_unique(v.enabled));
                    }
                }
            }
        }
        changed
    }

    /// The enabled packs that have no reader yet, by position, with the paths of
    /// their files (joined to the group directory unless absolute): the caller opens
    /// each one and hands its reader to [`Self::set_pack_reader`].
    pub fn packs_to_open(&self) -> (r: Vec<(usize, String)>)
        ensures
            r@.map_values(|e: (usize, String)| (e.0 as int, e.1@)) == packs_without_reader(
                self@.enabled,
                self@.root_dir,
                self@.enabled.len() as int,
            ),
    {
        let ghost v = self@;
        let n = self.enabled_packs.len();
        let mut out: Vec<(usize, String)> = Vec::new();
        let mut i: usize = 0;
        proof {
            lemma_enabled_keys(self.enabled_packs@, seq![]);
        }
        while i < n
            invariant
                i <= n,
                n == v.enabled.len(),
                v == self@,
                enabled_of(self.enabled_packs@) == v.enabled,
                n == self.enabled_packs@.len(),
                out@.map_values(|e: (usize, String)| (e.0 as int, e.1@)) == packs_without_reader(v.enabled, v.root_dir, i as int),
            decreases n - i,
        {
            proof {
                lemma_enabled_keys(self.enabled_packs@, seq![]);
                assert(v.enabled[i as int] == (self.enabled_packs@[i as int].0@, enabled_view(self.enabled_packs@[i as int].1)));
            }
            if self.enabled_packs[i].1.pack_reader.is_none() {
                let ghost ob = out@;
                let path = join_path_of(self.root_dir.as_str(), self.enabled_packs[i].0.as_str());
                out.push((i, path));
                proof {
                    assert(out@.map_values(|e: (usize, String)| (e.0 as int, e.1@)) =~= ob.map_values(|e: (usize, String)| (e.0 as int, e.1@)).push((i as int, join_path(v.root_dir, v.enabled[i as int].0))));
                }
            }
            i = i + 1;
        }
        out
    }

    /// Hands the enabled pack at position `i` the reader of its pack.
    pub fn set_pack_reader(&mut self, i: usize, reader: AssetPackReader)
        requires
            old(self).wf(),
            i < old(self)@.enabled.len(),
            reader.wf(),
        ensures
            final(self).wf(),
            final(self)@ == (GroupView {
                enabled: old(self)@.enabled.update(
                    i as int,
                    (old(self)@.enabled[i as int].0, EnabledView { external: old(self)@.enabled[i as int].1.external, pack: Some(reader.pack()) }),
                ),
                packs_changed: true,
                ..old(self)@
            }),
    {
        let ghost s = self.enabled_packs@;
        proof {
            lemma_enabled_keys(s, seq![]);
        }
        let (p, e) = self.enabled_packs.remove(i);
        self.enabled_packs.insert(i, (p, EnabledPack { external: e.external, pack_reader: Some(reader) }));
        self.packs_changed = true;
        proof {
            assert(enabled_of(self.enabled_packs@) =~= old(self)@.enabled.update(
                i as int,
                (old(self)@.enabled[i as int].0, EnabledView { external: old(self)@.enabled[i as int].1.external, pack: Some(reader.pack()) }),
            ));
            lemma_enabled_keys(self.enabled_packs@, seq![]);
            assert forall|a: int, b: int| 0 <= a < b < self@.enabled.len() implies self@.enabled[a].0 != self@.enabled[b].0 by {
                assert(self@.enabled[a].0 == old(self)@.enabled[a].0);
                assert(self@.enabled[b].0 == old(self)@.enabled[b].0);
            }
            assert forall|j: int| 0 <= j < self.enabled_packs@.len() implies ((#[trigger] self.enabled_packs@[j]).1.pack_reader matches Some(rd) ==> rd.wf()) by {
                if j != i {
                    assert(self.enabled_packs@[j] == s[j]);
                }
            }
            assert(self@.overrides =~= old(self)@.overrides);
        }
    }
}

/// The list with the entry at `i` replaced by the last one, and the last removed.
pub open spec fn swap_removed<T>(s: Seq<T>, i: int) -> Seq<T> {
    s.update(i, s.last()).drop_last()
}

/// Where setting the enabled packs stands: the packs listed so far, what is left
/// of the enabled packs, and the available packs.
pub struct EnableState {
    pub listed: Seq<(Seq<char>, EnabledView)>,
    pub rest: Seq<(Seq<char>, EnabledView)>,
    pub available: Seq<(Seq<char>, PackDescriptor)>,
}

/// Lists the pack `p`: an available or built-in pack that was enabled keeps its
/// reader; an available one that was not is enabled without one and marked
/// enabled; others are ignored.
pub open spec fn enable_step(st: EnableState, p: Seq<char>) -> EnableState {
    if key_position(st.available, p) is None && !is_built_in_path(p) {
        st
    } else {
        match key_position(st.rest, p) {
            Some(e) => EnableState {
                listed: entries_insert(st.listed, p, st.rest[e].1),
                rest: swap_removed(st.rest, e),
                available: st.available,
            },
            None => match key_position(st.available, p) {
                None => st,
                Some(a) => EnableState {
                    listed: entries_insert(st.listed, p, EnabledView { external: st.available[a].1.is_external, pack: None }),
                    rest: st.rest,
                    available: st.available.update(
                        a,
                        (p, PackDescriptor { enabled: true, is_external: st.available[a].1.is_external, is_built_in: st.available[a].1.is_built_in }),
                    ),
                },
            },
        }
    }
}

/// Lists the packs `packs` in order.
pub open spec fn enable_all(st: EnableState, packs: Seq<Seq<char>>) -> EnableState
    decreases packs.len(),
{
    if packs.len() == 0 {
        st
    } else {
        enable_step(enable_all(st, packs.drop_last()), packs.last())
    }
}

/// The entries of `s` whose paths are those of built-in packs, in order.
pub open spec fn enabled_built_in(s: Seq<(Seq<char>, EnabledView)>) -> Seq<(Seq<char>, EnabledView)>
    decreases s.len(),
{
    if s.len() == 0 {
        seq![]
    } else if is_built_in_path(s.last().0) {
        enabled_built_in(s.drop_last()).push(s.last())
    } else {
        enabled_built_in(s.drop_last())
    }
}

/// `a` with the entries of `b` inserted one after another.
pub open spec fn extend_entries<V>(a: Seq<(Seq<char>, V)>, b: Seq<(Seq<char>, V)>) -> Seq<(Seq<char>, V)>
    decreases b.len(),
{
    if b.len() == 0 {
        a
    } else {
        entries_insert(extend_entries(a, b.drop_last()), b.last().0, b.last().1)
    }
}

/// Each entry after an insertion is the inserted one or the entry that was there.
proof fn lemma_insert_values<V>(s: Seq<(Seq<char>, V)>, k: Seq<char>, v: V, j: int)
    requires
        0 <= j < entries_insert(s, k, v).len(),
    ensures
        entries_insert(s, k, v)[j].1 == v || (j < s.len() && entries_insert(s, k, v)[j] == s[j]),
{
    lemma_key_position(s, k);
}

/// Every reader of the list is well formed.
pub open spec fn readers_wf(s: Seq<(String, EnabledPack)>) -> bool {
    forall|j: int| 0 <= j < s.len() ==> ((#[trigger] s[j]).1.pack_reader matches Some(r) ==> r.wf())
}

/// Inserting into the enabled packs, viewed.
proof fn lemma_enabled_of_insert(s: Seq<(String, EnabledPack)>, k: Seq<char>, v: EnabledPack, t: Seq<(String, EnabledPack)>)
    requires
        keyed(t) == entries_insert(keyed(s), k, v),
        readers_wf(s),
        v.pack_reader matches Some(r) ==> r.wf(),
    ensures
        enabled_of(t) == entries_insert(enabled_of(s), k, enabled_view(v)),
        readers_wf(t),
        keys_unique(keyed(s)) ==> keys_unique(keyed(t)),
{
    assert(enabled_of(s) =~= enabled_views(keyed(s)));
    assert(enabled_of(t) =~= enabled_views(keyed(t)));
    lemma_enabled_views_insert(keyed(s), k, v);
    assert forall|j: int| 0 <= j < t.len() implies ((#[trigger] t[j]).1.pack_reader matches Some(r) ==> r.wf()) by {
        assert(keyed(t)[j].1 == t[j].1);
        lemma_insert_values(keyed(s), k, v, j);
        if j < s.len() {
            assert(keyed(s)[j].1 == s[j].1);
        }
    }
    if keys_unique(keyed(s)) {
        lemma_insert_keeps_unique(keyed(s), k, v);
    }
}

impl AssetPackGroupReader {
    /// Sets the enabled packs, in order of precedence: each listed pack that is
    /// available or a registered built-in pack is enabled (an enabled one keeps its
    /// reader, a new one is marked enabled among the available packs); others are
    /// ignored. Built-in packs that
    /// are not listed stay enabled, after the listed ones. Takes effect at the next
    /// load.
    pub fn set_enabled_packs_owned(&mut self, packs: Vec<String>)
        requires
            old(self).wf(),
        ensures
            final(self).wf(),
            ({
                let st = enable_all(
                    EnableState { listed: seq![], rest: old(self)@.enabled, available: old(self)@.available },
                    packs@.map_values(|p: String| p@),
                );
                final(self)@ == (GroupView {
                    enabled: extend_entries(st.listed, enabled_built_in(st.rest)),
                    available: st.available,
                    packs_changed: true,
                    ..old(self)@
                })
            }),
    {
        let ghost v = self@;
        let ghost ps = packs@.map_values(|p: String| p@);
        let mut listed: Vec<(String, EnabledPack)> = Vec::new();
        let n = packs.len();
        let mut i: usize = 0;
        self.packs_changed = true;
        proof {
            assert(ps.take(0) =~= Seq::<Seq<char>>::empty());
            assert(enabled_of(listed@) =~= Seq::<(Seq<char>, EnabledView)>::empty());
            lemma_enabled_keys(self.enabled_packs@, seq![]);
        }
        while i < n
            invariant
                i <= n,
                n == packs@.len(),
                ps == packs@.map_values(|p: String| p@),
                v == old(self)@,
                self.packs_changed,
                self.override_packs == old(self).override_packs,
                self.file_name_to_asset_pack == old(self).file_name_to_asset_pack,
                self.external_packs == old(self).external_packs,
                self.pack_extension == old(self).pack_extension,
                self.root_dir == old(self).root_dir,
                ({
                    let st = enable_all(EnableState { listed: seq![], rest: v.enabled, available: v.available }, ps.take(i as int));
                    &&& enabled_of(listed@) == st.listed
                    &&& enabled_of(self.enabled_packs@) == st.rest
                    &&& keyed(self.available_packs@) == st.available
                }),
                keys_unique(keyed(listed@)),
                keys_unique(keyed(self.enabled_packs@)),
                keys_unique(keyed(self.available_packs@)),
                readers_wf(listed@),
                readers_wf(self.enabled_packs@),
            decreases n - i,
        {
            let p = &packs[i];
            let ghost st0 = enable_all(EnableState { listed: seq![], rest: v.enabled, available: v.available }, ps.take(i as int));
            proof {
                assert(ps.take(i + 1).drop_last() =~= ps.take(i as int));
                assert(ps[i as int] == p@);
                lemma_map_key_position(keyed(self.available_packs@), p@, |e: (Seq<char>, PackDescriptor)| e);
                assert(keyed(self.available_packs@).map_values(|e: (Seq<char>, PackDescriptor)| e) =~= keyed(self.available_packs@));
                lemma_enabled_keys(self.enabled_packs@, p@);
            }
            let found = find_key(&self.available_packs, p.as_str());
            if found.is_some() || is_built_in(p.as_str()) {
                {
                    let ghost eb = self.enabled_packs@;
                    let ghost lb = listed@;
                    match assoc_swap_remove(&mut self.enabled_packs, p.as_str()) {
                        Some((_key, pack)) => {
                            proof {
                                let e = key_position(keyed(eb), p@)->0;
                                lemma_key_position(keyed(eb), p@);
                                assert(keyed(eb)[e].1 == eb[e].1);
                                assert(pack == eb[e].1);
                                assert(enabled_of(self.enabled_packs@) =~= swap_removed(enabled_of(eb), e));
                                lemma_keys_unique_remove(keyed(eb), e);
                                assert(keyed(self.enabled_packs@) =~= keyed(eb).update(e, keyed(eb).last()).drop_last());
                                assert forall|j: int| 0 <= j < self.enabled_packs@.len() implies ((#[trigger] self.enabled_packs@[j]).1.pack_reader matches Some(r) ==> r.wf()) by {
                                    if j == e {
                                        assert(self.enabled_packs@[j] == eb[eb.len() - 1]);
                                    } else {
                                        assert(self.enabled_packs@[j] == eb[j]);
                                    }
                                }
                            }
                            let ghost lv = listed@;
                            assoc_insert(&mut listed, p.clone(), pack);
                            proof {
                                lemma_enabled_of_insert(lv, p@, pack, listed@);
                            }
                        },
                        None => match found {
                          None => {},
                          Some(a) => {
                            let ext = self.available_packs[a].1.is_external;
                            let ghost lv = listed@;
                            let np = EnabledPack { external: ext, pack_reader: None };
                            assoc_insert(&mut listed, p.clone(), np);
                            proof {
                                lemma_enabled_of_insert(lv, p@, np, listed@);
                            }
                            let ghost ab = self.available_packs@;
                            let entry = &mut self.available_packs[a];
                            entry.1.enabled = true;
                            proof {
                                assert(keyed(ab)[a as int].1 == ab[a as int].1);
                                assert(keyed(self.available_packs@) =~= keyed(ab).update(
                                    a as int,
                                    (p@, PackDescriptor { enabled: true, is_external: ab[a as int].1.is_external, is_built_in: ab[a as int].1.is_built_in }),
                                ));
                                assert forall|x: int, y: int| 0 <= x < y < keyed(self.available_packs@).len() implies keyed(self.available_packs@)[x].0 != keyed(self.available_packs@)[y].0 by {
                                    assert(keyed(self.available_packs@)[x].0 == keyed(ab)[x].0);
                                    assert(keyed(self.available_packs@)[y].0 == keyed(ab)[y].0);
                                }
                            }
                          },
                        },
                    }
                }
            }
            i = i + 1;
        }
        proof {
            assert(ps.take(n as int) =~= ps);
        }
        let ghost st = enable_all(EnableState { listed: seq![], rest: v.enabled, available: v.available }, ps);
        // The built-in packs that were not listed stay enabled, after the listed ones.
        let mut rest: Vec<(String, EnabledPack)> = Vec::new();
        std::mem::swap(&mut rest, &mut self.enabled_packs);
        self.enabled_packs = listed;
        let ghost rest0 = rest@;
        let ghost base = enabled_of(self.enabled_packs@);
        let ghost av1 = self.available_packs@;
        let m = rest.len();
        let mut j: usize = 0;
        proof {
            lemma_enabled_keys(rest0, seq![]);
            assert(rest0.take(0) =~= Seq::<(String, EnabledPack)>::empty());
        }
        while j < m
            invariant
                j <= m,
                m == rest0.len(),
                enabled_of(rest0) == st.rest,
                readers_wf(rest0),
                rest@.len() == m - j,
                forall|x: int| 0 <= x < rest@.len() ==> (#[trigger] rest@[x]) == rest0[j + x],
                enabled_of(self.enabled_packs@) == extend_entries(base, enabled_built_in(st.rest.take(j as int))),
                keys_unique(keyed(self.enabled_packs@)),
                readers_wf(self.enabled_packs@),
                self.packs_changed,
                self.override_packs == old(self).override_packs,
                self.file_name_to_asset_pack == old(self).file_name_to_asset_pack,
                self.external_packs == old(self).external_packs,
                self.pack_extension == old(self).pack_extension,
                self.root_dir == old(self).root_dir,
                self.available_packs@ == av1,
                keys_unique(keyed(av1)),
            decreases m - j,
        {
            let ghost before = rest@;
            let (k, e) = rest.remove(0);
            proof {
                assert(before[0] == rest0[j as int]);
                assert forall|x: int| 0 <= x < rest@.len() implies (#[trigger] rest@[x]) == rest0[j + 1 + x] by {
                    assert(rest@[x] == before[x + 1]);
                }
                lemma_enabled_keys(rest0, seq![]);
                assert(st.rest[j as int] == (k@, enabled_view(e)));
                assert(st.rest.take(j + 1).drop_last() =~= st.rest.take(j as int));
                assert(e.pack_reader matches Some(r) ==> r.wf()) by {
                    assert(rest0[j as int] == (k, e));
                }
            }
            if is_built_in(k.as_str()) {
                let ghost eb = self.enabled_packs@;
                let ghost kk = k@;
                assoc_insert(&mut self.enabled_packs, k, e);
                proof {
                    lemma_enabled_of_insert(eb, kk, e, self.enabled_packs@);
                    assert(enabled_built_in(st.rest.take(j + 1)) == enabled_built_in(st.rest.take(j as int)).push(st.rest[j as int]));
                    assert(enabled_built_in(st.rest.take(j as int)).push(st.rest[j as int]).drop_last() =~= enabled_built_in(st.rest.take(j as int)));
                    assert(extend_entries(base, enabled_built_in(st.rest.take(j + 1))) == entries_insert(
                        extend_entries(base, enabled_built_in(st.rest.take(j as int))),
                        kk,
                        enabled_view(e),
                    ));
                }
            }
            j = j + 1;
        }
        proof {
            assert(st.rest.take(m as int) =~= st.rest);
            assert(self@.overrides =~= old(self)@.overrides);
        }
    }
}

/// Where rearranging the override packs stands: the packs placed so far, and the
/// packs left.
pub struct RearrangeState {
    pub placed: Seq<(Seq<char>, Seq<u8>)>,
    pub rest: Seq<(Seq<char>, Seq<u8>)>,
}

/// Places the override pack `id`, if it is among those left, above the placed ones.
pub open spec fn rearrange_step(st: RearrangeState, id: Seq<char>) -> RearrangeState {
    match key_position(st.rest, id) {
        Some(i) => RearrangeState { placed: entries_insert(st.placed, id, st.rest[i].1), rest: swap_removed(st.rest, i) },
        None => st,
    }
}

/// Places the override packs `ids`, from the last one to the first.
pub open spec fn rearrange_all(st: RearrangeState, ids: Seq<Seq<char>>) -> RearrangeState
    decreases ids.len(),
{
    if ids.len() == 0 {
        st
    } else {
        rearrange_all(rearrange_step(st, ids.last()), ids.drop_last())
    }
}

impl AssetPackGroupReader {
    /// Sets the enabled packs, in order of precedence, as
    /// [`Self::set_enabled_packs_owned`] does.
    pub fn set_enabled_packs(&mut self, packs: &[&str])
        requires
            old(self).wf(),
        ensures
            final(self).wf(),
            ({
                let st = enable_all(
                    EnableState { listed: seq![], rest: old(self)@.enabled, available: old(self)@.available },
                    packs@.map_values(|p: &str| p@),
                );
                final(self)@ == (GroupView {
                    enabled: extend_entries(st.listed, enabled_built_in(st.rest)),
                    available: st.available,
                    packs_changed: true,
                    ..old(self)@
                })
            }),
    {
        let mut owned: Vec<String> = Vec::new();
        let mut i: usize = 0;
        while i < packs.len()
            invariant
                i <= packs@.len(),
                owned@.len() == i,
                forall|j: int| 0 <= j < i ==> (#[trigger] owned@[j])@ == packs@[j]@,
            decreases packs@.len() - i,
        {
            let item: &str = packs[i];
            let s = item.to_owned();
            owned.push(s);
            i = i + 1;
        }
        proof {
            assert(owned@.map_values(|p: String| p@) =~= packs@.map_values(|p: &str| p@));
        }
        self.set_enabled_packs_owned(owned);
    }

    /// Rearranges the override packs: `ids` lists identifiers from the highest in
    /// precedence to the lowest. Packs not listed are removed and returned in the
    /// order they were left in; unknown identifiers are ignored. Takes effect at the
    /// next load.
    pub fn rearrange_override_packs(&mut self, ids: &[&str]) -> (r: Option<Vec<AssetPackReader>>)
        requires
            old(self).wf(),
        ensures
            final(self).wf(),
            ({
                let st = rearrange_all(
                    RearrangeState { placed: seq![], rest: old(self)@.overrides },
                    ids@.map_values(|p: &str| p@),
                );
                &&& final(self)@ == (GroupView { overrides: st.placed, packs_changed: true, ..old(self)@ })
                &&& match r {
                    None => st.rest.len() == 0,
                    Some(rs) => st.rest.len() > 0 && rs@.len() == st.rest.len() && forall|j: int|
                        0 <= j < rs@.len() ==> (#[trigger] rs@[j]).pack() == st.rest[j].1 && rs@[j].wf(),
                }
            }),
    {
        let ghost v = self@;
        let ghost is = ids@.map_values(|p: &str| p@);
        self.packs_changed = true;
        let mut temp: Vec<(String, AssetPackReader)> = Vec::new();
        std::mem::swap(&mut temp, &mut self.override_packs);
        let mut i = ids.len();
        proof {
            lemma_overrides_keys(temp@, seq![]);
            assert(is.take(is.len() as int) =~= is);
            assert(overrides_of(self.override_packs@) =~= Seq::<(Seq<char>, Seq<u8>)>::empty());
        }
        while i > 0
            invariant
                i <= ids@.len(),
                is == ids@.map_values(|p: &str| p@),
                v == old(self)@,
                self.packs_changed,
                self.enabled_packs == old(self).enabled_packs,
                self.available_packs == old(self).available_packs,
                self.file_name_to_asset_pack == old(self).file_name_to_asset_pack,
                self.external_packs == old(self).external_packs,
                self.pack_extension == old(self).pack_extension,
                self.root_dir == old(self).root_dir,
                rearrange_all(
                    RearrangeState { placed: overrides_of(self.override_packs@), rest: overrides_of(temp@) },
                    is.take(i as int),
                ) == rearrange_all(RearrangeState { placed: seq![], rest: v.overrides }, is),
                keys_unique(keyed(self.override_packs@)),
                keys_unique(keyed(temp@)),
                forall|j: int| 0 <= j < self.override_packs@.len() ==> (#[trigger] self.override_packs@[j]).1.wf(),
                forall|j: int| 0 <= j < temp@.len() ==> (#[trigger] temp@[j]).1.wf(),
            decreases i,
        {
            i = i - 1;
            let id = ids[i];
            let ghost tb = temp@;
            let ghost pb = self.override_packs@;
            proof {
                assert(is.take(i + 1).drop_last() =~= is.take(i as int));
                assert(is.take(i + 1).last() == id@);
                lemma_overrides_keys(tb, id@);
                lemma_overrides_keys(pb, id@);
            }
            match assoc_swap_remove(&mut temp, id) {
                Some((key, reader)) => {
                    proof {
                        let e = key_position(keyed(tb), id@)->0;
                        lemma_key_position(keyed(tb), id@);
                        assert(keyed(tb)[e].0 == tb[e].0@);
                        assert(overrides_of(temp@) =~= swap_removed(overrides_of(tb), e));
                        lemma_keys_unique_remove(keyed(tb), e);
                        assert(keyed(temp@) =~= keyed(tb).update(e, keyed(tb).last()).drop_last());
                        assert forall|j: int| 0 <= j < temp@.len() implies (#[trigger] temp@[j]).1.wf() by {
                            if j == e {
                                assert(temp@[j] == tb[tb.len() - 1]);
                            } else {
                                assert(temp@[j] == tb[j]);
                            }
                        }
                        assert(key@ == id@);
                        assert(reader == tb[e].1);
                    }
                    let ghost kk = key@;
                    assoc_insert(&mut self.override_packs, key, reader);
                    proof {
                        lemma_map_key_position(keyed(pb), kk, |e: (Seq<char>, AssetPackReader)| (e.0, e.1.pack()));
                        lemma_key_position(keyed(pb), kk);
                        assert(overrides_of(self.override_packs@) =~= entries_insert(overrides_of(pb), kk, reader.pack()));
                        lemma_insert_keeps_unique(keyed(pb), kk, reader);
                        assert forall|j: int| 0 <= j < self.override_packs@.len() implies (#[trigger] self.override_packs@[j]).1.wf() by {
                            assert(keyed(self.override_packs@)[j].1 == self.override_packs@[j].1);
                            lemma_insert_values(keyed(pb), kk, reader, j);
                            if j < pb.len() {
                                assert(keyed(pb)[j].1 == pb[j].1);
                            }
                        }
                    }
                },
                None => {},
            }
        }
        proof {
            assert(is.take(0) =~= Seq::<Seq<char>>::empty());
            assert(self@.enabled =~= v.enabled);
            lemma_overrides_keys(self.override_packs@, seq![]);
            lemma_overrides_keys(temp@, seq![]);
        }
        if temp.len() == 0 {
            None
        } else {
            let mut out: Vec<AssetPackReader> = Vec::new();
            let ghost t0 = temp@;
            let m = temp.len();
            while temp.len() > 0
                invariant
                    m == t0.len(),
                    out@.len() + temp@.len() == m,
                    forall|j: int| 0 <= j < temp@.len() ==> (#[trigger] temp@[j]) == t0[out@.len() + j],
                    forall|j: int| 0 <= j < out@.len() ==> (#[trigger] out@[j]) == t0[j].1,
                decreases temp@.len(),
            {
                let ghost before = temp@;
                let (_k, reader) = temp.remove(0);
                proof {
                    assert(before[0] == t0[out@.len() as int]);
                }
                out.push(reader);
                proof {
                    assert forall|j: int| 0 <= j < temp@.len() implies (#[trigger] temp@[j]) == t0[out@.len() + j] by {
                        assert(temp@[j] == before[j + 1]);
                    }
                }
            }
            proof {
                assert forall|j: int| 0 <= j < out@.len() implies (#[trigger] out@[j]).pack() == overrides_of(t0)[j].1 && out@[j].wf() by {
                    assert(overrides_of(t0)[j] == (t0[j].0@, t0[j].1.pack()));
                }
            }
            Some(out)
        }
    }
}

/// In a group, a file found in several packs is served by the one of higher
/// precedence: an override pack that has it wins over every enabled pack and over
/// the override packs added before it, and among enabled packs the first that has
/// it wins over those after it.
pub proof fn lemma_higher_precedence_wins(v: GroupView, path: Seq<char>)
    requires
        v.overrides.len() <= usize::MAX,
        v.enabled.len() <= usize::MAX,
    ensures
        forall|i: int| 0 <= i < v.overrides.len() && #[trigger] pack_has(Some(v.overrides[i].1), path) ==> (
        serving_pack(v, path) matches Some(PackIndex::OverridePack(j)) && i <= j && pack_has(Some(v.overrides[j as int].1), path)),
        forall|a: int|
            0 <= a < v.enabled.len() && #[trigger] pack_has(v.enabled[a].1.pack, path) && top_override(
                v.overrides,
                path,
                0,
                v.overrides.len() as int,
            ) is None ==> (serving_pack(v, path) matches Some(PackIndex::Enabled(b)) && b <= a && pack_has(v.enabled[b as int].1.pack, path)),
{
    let n = v.overrides.len() as int;
    assert forall|i: int| 0 <= i < v.overrides.len() && #[trigger] pack_has(Some(v.overrides[i].1), path) implies (
    serving_pack(v, path) matches Some(PackIndex::OverridePack(j)) && i <= j && pack_has(Some(v.overrides[j as int].1), path)) by {
        lemma_top_override_at_least(v.overrides, path, 0, n, i);
        lemma_top_override_found(v.overrides, path, 0, n);
        let x = top_override(v.overrides, path, 0, n)->0;
        assert(x as usize as int == x);
    }
    assert forall|a: int|
        0 <= a < v.enabled.len() && #[trigger] pack_has(v.enabled[a].1.pack, path) && top_override(
            v.overrides,
            path,
            0,
            v.overrides.len() as int,
        ) is None implies (serving_pack(v, path) matches Some(PackIndex::Enabled(b)) && b <= a && pack_has(v.enabled[b as int].1.pack, path)) by {
        lemma_first_enabled_at_most(v.enabled, path, v.enabled.len() as int, a);
        lemma_first_enabled_found(v.enabled, path, v.enabled.len() as int);
        let b = first_enabled(v.enabled, path, v.enabled.len() as int)->0;
        assert(b as usize as int == b);
    }
}

/// The override pack found is at or above any override pack that has the file.
proof fn lemma_top_override_at_least(ovr: Seq<(Seq<char>, Seq<u8>)>, p: Seq<char>, lo: int, hi: int, i: int)
    requires
        lo <= i < hi,
        pack_has(Some(ovr[i].1), p),
    ensures
        top_override(ovr, p, lo, hi) matches Some(x) && i <= x,
    decreases hi - lo,
{
    if hi - 1 > i && !pack_has(Some(ovr[hi - 1].1), p) {
        lemma_top_override_at_least(ovr, p, lo, hi - 1, i);
    }
}

/// The enabled pack found is at or before any enabled pack that has the file.
proof fn lemma_first_enabled_at_most(en: Seq<(Seq<char>, EnabledView)>, p: Seq<char>, n: int, a: int)
    requires
        0 <= a < n,
        pack_has(en[a].1.pack, p),
    ensures
        first_enabled(en, p, n) matches Some(b) && b <= a,
    decreases n,
{
    if n - 1 > a {
        lemma_first_enabled_at_most(en, p, n - 1, a);
    } else {
        lemma_first_enabled_found(en, p, n - 1);
    }
}


/// What setting the enabled packs keeps true from one listed pack to the next:
/// keys are unique in both lists and shared by none, every listed pack was
/// asked for, and every enabled pack that is not asked for is still left.
pub open spec fn enable_inv(st: EnableState, packs: Seq<Seq<char>>, before: Seq<(Seq<char>, EnabledView)>) -> bool {
    &&& keys_unique(st.rest)
    &&& keys_unique(st.listed)
    &&& forall|j: int| 0 <= j < st.listed.len() ==> packs.contains(#[trigger] st.listed[j].0)
    &&& forall|a: int, b: int| 0 <= a < st.rest.len() && 0 <= b < st.listed.len() ==> #[trigger] st.rest[a].0 != #[trigger] st.listed[b].0
    &&& forall|x: (Seq<char>, EnabledView)| #[trigger] before.contains(x) && !packs.contains(x.0) ==> st.rest.contains(x)
}

/// One listed pack keeps [`enable_inv`].
proof fn lemma_enable_step_inv(st: EnableState, packs: Seq<Seq<char>>, p: Seq<char>, before: Seq<(Seq<char>, EnabledView)>)
    requires
        enable_inv(st, packs, before),
    ensures
        enable_inv(enable_step(st, p), packs.push(p), before),
{
    let ps = packs.push(p);
    assert forall|q: Seq<char>| packs.contains(q) implies ps.contains(q) by {
        let j = choose|j: int| 0 <= j < packs.len() && packs[j] == q;
        assert(ps[j] == q);
    }
    assert(ps[packs.len() as int] == p);
    let nx = enable_step(st, p);
    lemma_key_position(st.rest, p);
    lemma_key_position(st.listed, p);
    if key_position(st.available, p) is None && !is_built_in_path(p) {
        assert forall|x: (Seq<char>, EnabledView)| #[trigger] before.contains(x) && !ps.contains(x.0) implies nx.rest.contains(x) by {
        }
    } else {
        match key_position(st.rest, p) {
            Some(e) => {
                assert(key_position(st.listed, p) is None) by {
                    if key_position(st.listed, p) is Some {
                        let b = key_position(st.listed, p)->0;
                        assert(st.rest[e].0 != st.listed[b].0);
                    }
                }
                assert(nx.listed == st.listed.push((p, st.rest[e].1)));
                lemma_keys_unique_remove(st.rest, e);
                let r2 = swap_removed(st.rest, e);
                assert forall|a: int| 0 <= a < r2.len() implies (#[trigger] r2[a]) == st.rest[a] || (a == e && r2[a] == st.rest.last()) by {}
                assert forall|a: int| 0 <= a < r2.len() implies (#[trigger] r2[a]).0 != p by {
                    if a == e {
                        assert(r2[a] == st.rest[st.rest.len() - 1]);
                        assert(st.rest.len() - 1 != e);
                    } else {
                        assert(r2[a] == st.rest[a]);
                    }
                }
                assert forall|a: int, b: int| 0 <= a < r2.len() && 0 <= b < nx.listed.len() implies #[trigger] r2[a].0 != #[trigger] nx.listed[b].0 by {
                    if b < st.listed.len() {
                        assert(nx.listed[b] == st.listed[b]);
                        if a == e {
                            assert(r2[a] == st.rest[st.rest.len() - 1]);
                        } else {
                            assert(r2[a] == st.rest[a]);
                        }
                    }
                }
                assert forall|j: int| 0 <= j < nx.listed.len() implies ps.contains(#[trigger] nx.listed[j].0) by {
                    if j < st.listed.len() {
                        assert(nx.listed[j] == st.listed[j]);
                    }
                }
                assert(keys_unique(nx.listed)) by {
                    assert forall|a: int, b: int| 0 <= a < b < nx.listed.len() implies nx.listed[a].0 != nx.listed[b].0 by {
                        if b < st.listed.len() {
                            assert(nx.listed[a] == st.listed[a] && nx.listed[b] == st.listed[b]);
                        } else {
                            assert(nx.listed[a] == st.listed[a]);
                        }
                    }
                }
                assert forall|x: (Seq<char>, EnabledView)| #[trigger] before.contains(x) && !ps.contains(x.0) implies nx.rest.contains(x) by {
                    assert(st.rest.contains(x));
                    let j = choose|j: int| 0 <= j < st.rest.len() && st.rest[j] == x;
                    assert(x.0 != p);
                    if j == st.rest.len() - 1 {
                        assert(j != e);
                        assert(r2[e] == x);
                    } else {
                        assert(j != e);
                        assert(r2[j] == x);
                    }
                }
            },
            None => match key_position(st.available, p) {
                None => {},
                Some(a) => {
                    let v = EnabledView { external: st.available[a].1.is_external, pack: None };
                    lemma_insert_keeps_unique(st.listed, p, v);
                    assert forall|j: int| 0 <= j < nx.listed.len() implies ps.contains(#[trigger] nx.listed[j].0) by {
                        if j < st.listed.len() && nx.listed[j] == st.listed[j] {
                        } else {
                            assert(nx.listed[j].0 == p);
                        }
                    }
                    assert forall|x: int, b: int| 0 <= x < nx.rest.len() && 0 <= b < nx.listed.len() implies #[trigger] nx.rest[x].0 != #[trigger] nx.listed[b].0 by {
                        if b < st.listed.len() && nx.listed[b] == st.listed[b] {
                        } else {
                            assert(nx.listed[b].0 == p);
                        }
                    }
                },
            },
        }
    }
}

/// Listing the packs one by one keeps [`enable_inv`].
proof fn lemma_enable_all_inv(st: EnableState, packs: Seq<Seq<char>>, before: Seq<(Seq<char>, EnabledView)>)
    requires
        enable_inv(st, Seq::<Seq<char>>::empty(), before),
    ensures
        enable_inv(enable_all(st, packs), packs, before),
    decreases packs.len(),
{
    if packs.len() > 0 {
        lemma_enable_all_inv(st, packs.drop_last(), before);
        lemma_enable_step_inv(enable_all(st, packs.drop_last()), packs.drop_last(), packs.last(), before);
        assert(packs.drop_last().push(packs.last()) =~= packs);
    }
}

/// The built-in entries of a list are entries of it, with unique keys when its
/// keys are unique, and every built-in entry of it is among them.
proof fn lemma_enabled_built_in(s: Seq<(Seq<char>, EnabledView)>)
    ensures
        forall|y: (Seq<char>, EnabledView)| #[trigger] enabled_built_in(s).contains(y) ==> s.contains(y),
        forall|y: (Seq<char>, EnabledView)| #[trigger] s.contains(y) && is_built_in_path(y.0) ==> enabled_built_in(s).contains(y),
        keys_unique(s) ==> keys_unique(enabled_built_in(s)),
    decreases s.len(),
{
    if s.len() > 0 {
        let d = s.drop_last();
        lemma_enabled_built_in(d);
        let b = enabled_built_in(d);
        assert forall|y: (Seq<char>, EnabledView)| d.contains(y) implies s.contains(y) by {
            let j = choose|j: int| 0 <= j < d.len() && d[j] == y;
            assert(s[j] == y);
        }
        assert forall|y: (Seq<char>, EnabledView)| s.contains(y) && is_built_in_path(y.0) implies enabled_built_in(s).contains(y) by {
            let j = choose|j: int| 0 <= j < s.len() && s[j] == y;
            if j < d.len() {
                assert(d[j] == y);
                assert(d.contains(y));
                assert(b.contains(y));
                if is_built_in_path(s.last().0) {
                    let k = choose|k: int| 0 <= k < b.len() && b[k] == y;
                    assert(b.push(s.last())[k] == y);
                }
            } else {
                assert(b.push(s.last())[b.len() as int] == y);
            }
        }
        if is_built_in_path(s.last().0) {
            assert forall|y: (Seq<char>, EnabledView)| enabled_built_in(s).contains(y) implies s.contains(y) by {
                let k = choose|k: int| 0 <= k < b.len() + 1 && b.push(s.last())[k] == y;
                if k < b.len() {
                    assert(b[k] == y);
                    assert(b.contains(y));
                }
            }
            if keys_unique(s) {
                assert(keys_unique(d)) by {
                    assert forall|x: int, z: int| 0 <= x < z < d.len() implies d[x].0 != d[z].0 by {
                        assert(d[x] == s[x] && d[z] == s[z]);
                    }
                }
                assert forall|x: int, z: int| 0 <= x < z < b.len() + 1 implies b.push(s.last())[x].0 != b.push(s.last())[z].0 by {
                    if z == b.len() {
                        assert(b.contains(b[x]));
                        assert(d.contains(b[x]));
                        let j = choose|j: int| 0 <= j < d.len() && d[j] == b[x];
                        assert(s[j] == d[j]);
                    } else {
                        assert(b.push(s.last())[x] == b[x]);
                    }
                }
            }
        } else if keys_unique(s) {
            assert forall|x: int, z: int| 0 <= x < z < d.len() implies d[x].0 != d[z].0 by {
                assert(d[x] == s[x] && d[z] == s[z]);
            }
        }
    }
}

/// Inserting entries whose keys are unique and none of `a`'s appends them.
proof fn lemma_extend_fresh<V>(a: Seq<(Seq<char>, V)>, b: Seq<(Seq<char>, V)>)
    requires
        keys_unique(b),
        forall|x: int, y: int| 0 <= x < a.len() && 0 <= y < b.len() ==> #[trigger] a[x].0 != #[trigger] b[y].0,
    ensures
        extend_entries(a, b) == a + b,
    decreases b.len(),
{
    if b.len() > 0 {
        let d = b.drop_last();
        assert forall|x: int, y: int| 0 <= x < d.len() && 0 <= y < d.len() && x < y implies d[x].0 != d[y].0 by {
            assert(d[x] == b[x] && d[y] == b[y]);
        }
        assert forall|x: int, y: int| 0 <= x < a.len() && 0 <= y < d.len() implies #[trigger] a[x].0 != #[trigger] d[y].0 by {
            assert(d[y] == b[y]);
        }
        lemma_extend_fresh(a, d);
        let ad = a + d;
        lemma_key_position(ad, b.last().0);
        assert forall|j: int| 0 <= j < ad.len() implies ad[j].0 != b.last().0 by {
            if j < a.len() {
                assert(ad[j] == a[j]);
                assert(a[j].0 != b[b.len() - 1].0);
            } else {
                assert(ad[j] == b[j - a.len()]);
            }
        }
        assert(ad.push(b.last()) =~= a + b);
    }
}

/// Setting the enabled packs to `packs`: the listed packs come first, then the
/// enabled built-in packs that are not listed, each with what it had (its reader
/// kept).
pub proof fn lemma_unlisted_built_in_packs_stay(v: GroupView, packs: Seq<Seq<char>>, x: (Seq<char>, EnabledView))
    requires
        keys_unique(v.enabled),
        v.enabled.contains(x),
        is_built_in_path(x.0),
        !packs.contains(x.0),
    ensures
        ({
            let st = enable_all(EnableState { listed: seq![], rest: v.enabled, available: v.available }, packs);
            let res = extend_entries(st.listed, enabled_built_in(st.rest));
            &&& res.take(st.listed.len() as int) == st.listed
            &&& res.skip(st.listed.len() as int).contains(x)
        }),
{
    let st0 = EnableState { listed: seq![], rest: v.enabled, available: v.available };
    assert(enable_inv(st0, Seq::<Seq<char>>::empty(), v.enabled));
    lemma_enable_all_inv(st0, packs, v.enabled);
    let st = enable_all(st0, packs);
    lemma_enabled_built_in(st.rest);
    let b = enabled_built_in(st.rest);
    assert forall|i: int, y: int| 0 <= i < st.listed.len() && 0 <= y < b.len() implies #[trigger] st.listed[i].0 != #[trigger] b[y].0 by {
        assert(b.contains(b[y]));
        assert(st.rest.contains(b[y]));
        let a = choose|a: int| 0 <= a < st.rest.len() && st.rest[a] == b[y];
        assert(st.rest[a].0 != st.listed[i].0);
    }
    lemma_extend_fresh(st.listed, b);
    let res = st.listed + b;
    assert(res.take(st.listed.len() as int) =~= st.listed);
    assert(res.skip(st.listed.len() as int) =~= b);
    assert(st.rest.contains(x));
}

/// What rearranging the override packs keeps true from one placed pack to the
/// next: keys are unique in both lists and shared by none, every placed pack was
/// asked for, and every pack that is not asked for is still left.
pub open spec fn rearrange_inv(st: RearrangeState, ids: Seq<Seq<char>>, before: Seq<(Seq<char>, Seq<u8>)>) -> bool {
    &&& keys_unique(st.rest)
    &&& keys_unique(st.placed)
    &&& forall|j: int| 0 <= j < st.placed.len() ==> ids.contains(#[trigger] st.placed[j].0)
    &&& forall|a: int, b: int| 0 <= a < st.rest.len() && 0 <= b < st.placed.len() ==> #[trigger] st.rest[a].0 != #[trigger] st.placed[b].0
    &&& forall|x: (Seq<char>, Seq<u8>)| #[trigger] before.contains(x) && !ids.contains(x.0) ==> st.rest.contains(x)
}

/// Placing one pack keeps [`rearrange_inv`].
proof fn lemma_rearrange_step_inv(st: RearrangeState, ids: Seq<Seq<char>>, id: Seq<char>, before: Seq<(Seq<char>, Seq<u8>)>)
    requires
        rearrange_inv(st, ids, before),
    ensures
        rearrange_inv(rearrange_step(st, id), ids.push(id), before),
        key_position(st.rest, id) is Some ==> rearrange_step(st, id).placed.last() == (id, st.rest[key_position(st.rest, id)->0].1),
{
    let ps = ids.push(id);
    assert forall|q: Seq<char>| ids.contains(q) implies ps.contains(q) by {
        let j = choose|j: int| 0 <= j < ids.len() && ids[j] == q;
        assert(ps[j] == q);
    }
    assert(ps[ids.len() as int] == id);
    let nx = rearrange_step(st, id);
    lemma_key_position(st.rest, id);
    lemma_key_position(st.placed, id);
    if let Some(e) = key_position(st.rest, id) {
        assert(key_position(st.placed, id) is None) by {
            if key_position(st.placed, id) is Some {
                let b = key_position(st.placed, id)->0;
                assert(st.rest[e].0 != st.placed[b].0);
            }
        }
        assert(nx.placed == st.placed.push((id, st.rest[e].1)));
        lemma_keys_unique_remove(st.rest, e);
        let r2 = swap_removed(st.rest, e);
        assert forall|a: int| 0 <= a < r2.len() implies (#[trigger] r2[a]).0 != id by {
            if a == e {
                assert(r2[a] == st.rest[st.rest.len() - 1]);
            } else {
                assert(r2[a] == st.rest[a]);
            }
        }
        assert forall|a: int, b: int| 0 <= a < r2.len() && 0 <= b < nx.placed.len() implies #[trigger] r2[a].0 != #[trigger] nx.placed[b].0 by {
            if b < st.placed.len() {
                assert(nx.placed[b] == st.placed[b]);
                if a == e {
                    assert(r2[a] == st.rest[st.rest.len() - 1]);
                } else {
                    assert(r2[a] == st.rest[a]);
                }
            }
        }
        assert forall|j: int| 0 <= j < nx.placed.len() implies ps.contains(#[trigger] nx.placed[j].0) by {
            if j < st.placed.len() {
                assert(nx.placed[j] == st.placed[j]);
            }
        }
        assert(keys_unique(nx.placed)) by {
            assert forall|a: int, b: int| 0 <= a < b < nx.placed.len() implies nx.placed[a].0 != nx.placed[b].0 by {
                assert(nx.placed[a] == st.placed[a]);
                if b < st.placed.len() {
                    assert(nx.placed[b] == st.placed[b]);
                }
            }
        }
        assert forall|x: (Seq<char>, Seq<u8>)| #[trigger] before.contains(x) && !ps.contains(x.0) implies nx.rest.contains(x) by {
            assert(st.rest.contains(x));
            let j = choose|j: int| 0 <= j < st.rest.len() && st.rest[j] == x;
            assert(x.0 != id);
            assert(j != e);
            if j == st.rest.len() - 1 {
                assert(r2[e] == x);
            } else {
                assert(r2[j] == x);
            }
        }
    }
}

/// Rearranging the packs `ids` is placing those after the first, then the first.
proof fn lemma_rearrange_all_first(st: RearrangeState, ids: Seq<Seq<char>>)
    requires
        ids.len() > 0,
    ensures
        rearrange_all(st, ids) == rearrange_step(rearrange_all(st, ids.drop_first()), ids[0]),
    decreases ids.len(),
{
    if ids.len() > 1 {
        let s1 = rearrange_step(st, ids.last());
        lemma_rearrange_all_first(s1, ids.drop_last());
        assert(ids.drop_last().drop_first() =~= ids.drop_first().drop_last());
        assert(ids.drop_first().last() == ids.last());
        assert(ids.drop_last()[0] == ids[0]);
        assert(rearrange_all(st, ids.drop_first()) == rearrange_all(s1, ids.drop_first().drop_last()));
        assert(rearrange_all(st, ids) == rearrange_all(s1, ids.drop_last()));
        assert(rearrange_all(s1, ids.drop_first().drop_last()) == rearrange_all(s1, ids.drop_last().drop_first()));
    } else {
        assert(ids.drop_first().len() == 0);
        assert(ids.drop_last().len() == 0);
        assert(ids.last() == ids[0]);
        assert(rearrange_all(st, ids.drop_first()) == st);
        let s1 = rearrange_step(st, ids.last());
        assert(rearrange_all(s1, ids.drop_last()) == s1);
        assert(rearrange_all(st, ids) == rearrange_all(s1, ids.drop_last()));
    }
}

/// Placing the packs `ids` keeps [`rearrange_inv`] over the ids placed.
proof fn lemma_rearrange_all_inv(st: RearrangeState, ids: Seq<Seq<char>>, before: Seq<(Seq<char>, Seq<u8>)>)
    requires
        rearrange_inv(st, Seq::<Seq<char>>::empty(), before),
    ensures
        rearrange_inv(rearrange_all(st, ids), ids, before),
    decreases ids.len(),
{
    if ids.len() > 0 {
        let rest_ids = ids.drop_first();
        lemma_rearrange_all_inv(st, rest_ids, before);
        lemma_rearrange_all_first(st, ids);
        lemma_rearrange_step_inv(rearrange_all(st, rest_ids), rest_ids, ids[0], before);
        let ps = rest_ids.push(ids[0]);
        assert forall|q: Seq<char>| ps.contains(q) <==> ids.contains(q) by {
            if ps.contains(q) {
                let j = choose|j: int| 0 <= j < ps.len() && ps[j] == q;
                if j < rest_ids.len() {
                    assert(ids[j + 1] == q);
                } else {
                    assert(ids[0] == q);
                }
            }
            if ids.contains(q) {
                let j = choose|j: int| 0 <= j < ids.len() && ids[j] == q;
                if j == 0 {
                    assert(ps[rest_ids.len() as int] == q);
                } else {
                    assert(ps[j - 1] == q);
                }
            }
        }
    }
}

/// Rearranging the override packs: the pack listed first, when it is an override
/// pack and not listed again, ends above all the others; every override pack that
/// is not listed is left over (and returned).
pub proof fn lemma_first_listed_override_on_top(v: GroupView, ids: Seq<Seq<char>>)
    requires
        keys_unique(v.overrides),
        ids.len() > 0,
        key_position(v.overrides, ids[0]) is Some,
        !ids.drop_first().contains(ids[0]),
    ensures
        ({
            let st = rearrange_all(RearrangeState { placed: seq![], rest: v.overrides }, ids);
            &&& st.placed.last() == v.overrides[key_position(v.overrides, ids[0])->0]
            &&& forall|x: (Seq<char>, Seq<u8>)| #[trigger] v.overrides.contains(x) && !ids.contains(x.0) ==> st.rest.contains(x)
        }),
{
    let st0 = RearrangeState { placed: seq![], rest: v.overrides };
    assert(rearrange_inv(st0, Seq::<Seq<char>>::empty(), v.overrides));
    lemma_rearrange_all_inv(st0, ids, v.overrides);
    lemma_rearrange_all_inv(st0, ids.drop_first(), v.overrides);
    lemma_rearrange_all_first(st0, ids);
    let mid = rearrange_all(st0, ids.drop_first());
    let k = key_position(v.overrides, ids[0])->0;
    lemma_key_position(v.overrides, ids[0]);
    let x = v.overrides[k];
    assert(v.overrides.contains(x));
    assert(mid.rest.contains(x));
    lemma_key_position(mid.rest, ids[0]);
    let j = choose|j: int| 0 <= j < mid.rest.len() && mid.rest[j] == x;
    assert(key_position(mid.rest, ids[0]) is Some);
    let m = key_position(mid.rest, ids[0])->0;
    assert(m == j) by {
        if m != j {
            assert(mid.rest[m].0 == mid.rest[j].0);
        }
    }
    lemma_rearrange_step_inv(mid, ids.drop_first(), ids[0], v.overrides);
}

/// The override pack found for a path is the last one that has it.
proof fn lemma_top_override_last(ovr: Seq<(Seq<char>, Seq<u8>)>, p: Seq<char>, lo: int, hi: int)
    ensures
        top_override(ovr, p, lo, hi) matches Some(x) ==> forall|k: int| x < k < hi ==> !pack_has(Some(#[trigger] ovr[k].1), p),
        top_override(ovr, p, lo, hi) is None ==> forall|k: int| lo <= k < hi ==> !pack_has(Some(#[trigger] ovr[k].1), p),
    decreases hi - lo,
{
    if hi > lo {
        lemma_top_override_last(ovr, p, lo, hi - 1);
    }
}

/// The enabled pack found for a path is the first one that has it.
proof fn lemma_first_enabled_first(en: Seq<(Seq<char>, EnabledView)>, p: Seq<char>, n: int)
    ensures
        first_enabled(en, p, n) matches Some(y) ==> forall|c: int| 0 <= c < y ==> !pack_has((#[trigger] en[c]).1.pack, p),
        first_enabled(en, p, n) is None ==> forall|c: int| 0 <= c < n ==> !pack_has((#[trigger] en[c]).1.pack, p),
    decreases n,
{
    if n > 0 {
        lemma_first_enabled_first(en, p, n - 1);
    }
}

/// The file `path` of a group is served by the last override pack that has it;
/// when no override pack has it, by the first enabled pack that has it; and when
/// no pack has it, by none.
pub proof fn lemma_served_by_precedence(v: GroupView, path: Seq<char>)
    ensures
        (exists|i: int| 0 <= i < v.overrides.len() && #[trigger] pack_has(Some(v.overrides[i].1), path)) ==> exists|j: int|
            0 <= j < v.overrides.len() && pack_has(Some(v.overrides[j].1), path) && served_by(v, path) == Some(
                #[trigger] v.overrides[j].1,
            ) && forall|k: int| j < k < v.overrides.len() ==> !pack_has(Some(#[trigger] v.overrides[k].1), path),
        (forall|i: int| 0 <= i < v.overrides.len() ==> !#[trigger] pack_has(Some(v.overrides[i].1), path)) ==> {
            &&& (exists|a: int| 0 <= a < v.enabled.len() && #[trigger] pack_has(v.enabled[a].1.pack, path)) ==> exists|b: int|
                0 <= b < v.enabled.len() && pack_has(v.enabled[b].1.pack, path) && served_by(v, path) == (
                #[trigger] v.enabled[b]).1.pack && forall|c: int| 0 <= c < b ==> !pack_has((#[trigger] v.enabled[c]).1.pack, path)
            &&& (forall|a: int| 0 <= a < v.enabled.len() ==> !#[trigger] pack_has(v.enabled[a].1.pack, path)) ==> served_by(v, path) is None
        },
{
    let n = v.overrides.len() as int;
    let m = v.enabled.len() as int;
    lemma_top_override_found(v.overrides, path, 0, n);
    lemma_top_override_last(v.overrides, path, 0, n);
    lemma_first_enabled_found(v.enabled, path, m);
    lemma_first_enabled_first(v.enabled, path, m);
    if let Some(x) = top_override(v.overrides, path, 0, n) {
        assert(pack_has(Some(v.overrides[x].1), path));
    } else if let Some(y) = first_enabled(v.enabled, path, m) {
        assert(pack_has(v.enabled[y].1.pack, path));
    }
}

/// Inserting an entry keeps every key, and has the inserted one.
proof fn lemma_insert_has_keys<V>(s: Seq<(Seq<char>, V)>, k: Seq<char>, v: V, q: Seq<char>)
    ensures
        key_position(s, q) is Some ==> key_position(entries_insert(s, k, v), q) is Some,
        key_position(entries_insert(s, k, v), k) is Some,
{
    lemma_key_position(s, k);
    lemma_key_position(s, q);
    let t = entries_insert(s, k, v);
    lemma_key_position(t, q);
    lemma_key_position(t, k);
    if let Some(a) = key_position(s, q) {
        if key_position(t, q) is None {
            if a == key_position(s, k)->0 && key_position(s, k) is Some {
                assert(t[a].0 == q);
            } else {
                assert(t[a] == s[a]);
            }
        }
    }
    if key_position(t, k) is None {
        match key_position(s, k) {
            Some(b) => { assert(t[b].0 == k); },
            None => { assert(t[s.len() as int].0 == k); },
        }
    }
}

/// Every built-in pack that was enabled and is listed is among the listed ones.
pub open spec fn listed_built_in_inv(st: EnableState, packs: Seq<Seq<char>>, before: Seq<(Seq<char>, EnabledView)>) -> bool {
    forall|x: (Seq<char>, EnabledView)|
        #[trigger] before.contains(x) && is_built_in_path(x.0) && packs.contains(x.0) ==> key_position(st.listed, x.0) is Some
}

/// Listing the packs one by one keeps [`listed_built_in_inv`].
proof fn lemma_listed_built_in_inv(st: EnableState, packs: Seq<Seq<char>>, before: Seq<(Seq<char>, EnabledView)>)
    requires
        enable_inv(st, Seq::<Seq<char>>::empty(), before),
        listed_built_in_inv(st, Seq::<Seq<char>>::empty(), before),
    ensures
        listed_built_in_inv(enable_all(st, packs), packs, before),
    decreases packs.len(),
{
    if packs.len() > 0 {
        let d = packs.drop_last();
        let p = packs.last();
        lemma_listed_built_in_inv(st, d, before);
        lemma_enable_all_inv(st, d, before);
        let cur = enable_all(st, d);
        let nx = enable_step(cur, p);
        assert(packs == d.push(p));
        assert forall|x: (Seq<char>, EnabledView)|
            #[trigger] before.contains(x) && is_built_in_path(x.0) && packs.contains(x.0) implies key_position(nx.listed, x.0) is Some by {
            let j = choose|j: int| 0 <= j < packs.len() && packs[j] == x.0;
            let in_d = d.contains(x.0);
            if j < d.len() {
                assert(d[j] == x.0);
            }
            lemma_key_position(cur.rest, p);
            if x.0 == p {
                if !in_d {
                    assert(cur.rest.contains(x));
                    let a = choose|a: int| 0 <= a < cur.rest.len() && cur.rest[a] == x;
                    assert(key_position(cur.rest, p) is Some);
                    let e = key_position(cur.rest, p)->0;
                    lemma_insert_has_keys(cur.listed, p, cur.rest[e].1, p);
                } else {
                    assert(key_position(cur.listed, p) is Some);
                    match key_position(cur.rest, p) {
                        Some(e) => { lemma_insert_has_keys(cur.listed, p, cur.rest[e].1, p); },
                        None => match key_position(cur.available, p) {
                            None => {},
                            Some(a) => {
                                lemma_insert_has_keys(cur.listed, p, EnabledView { external: cur.available[a].1.is_external, pack: None }, p);
                            },
                        },
                    }
                }
            } else {
                assert(in_d);
                assert(key_position(cur.listed, x.0) is Some);
                match key_position(cur.rest, p) {
                    Some(e) => { lemma_insert_has_keys(cur.listed, p, cur.rest[e].1, x.0); },
                    None => match key_position(cur.available, p) {
                        None => {},
                        Some(a) => {
                            lemma_insert_has_keys(cur.listed, p, EnabledView { external: cur.available[a].1.is_external, pack: None }, x.0);
                        },
                    },
                }
            }
        }
    }
}

/// Setting the enabled packs never disables a built-in pack: every enabled
/// built-in pack is still enabled afterwards, listed or not.
pub proof fn lemma_built_in_packs_stay_enabled(v: GroupView, packs: Seq<Seq<char>>, x: (Seq<char>, EnabledView))
    requires
        keys_unique(v.enabled),
        v.enabled.contains(x),
        is_built_in_path(x.0),
    ensures
        ({
            let st = enable_all(EnableState { listed: seq![], rest: v.enabled, available: v.available }, packs);
            key_position(extend_entries(st.listed, enabled_built_in(st.rest)), x.0) is Some
        }),
{
    let st0 = EnableState { listed: seq![], rest: v.enabled, available: v.available };
    let st = enable_all(st0, packs);
    let res = extend_entries(st.listed, enabled_built_in(st.rest));
    if packs.contains(x.0) {
        assert(enable_inv(st0, Seq::<Seq<char>>::empty(), v.enabled));
        lemma_listed_built_in_inv(st0, packs, v.enabled);
        lemma_unlisted_prefix(v, packs);
        lemma_key_position(st.listed, x.0);
        assert(v.enabled.contains(x) && is_built_in_path(x.0) && packs.contains(x.0));
        assert(key_position(st.listed, x.0) is Some);
        let i = key_position(st.listed, x.0)->0;
        assert(res[i] == st.listed[i]);
        lemma_key_position(res, x.0);
    } else {
        lemma_unlisted_built_in_packs_stay(v, packs, x);
        lemma_unlisted_prefix(v, packs);
        let tail = res.skip(st.listed.len() as int);
        let k = choose|k: int| 0 <= k < tail.len() && tail[k] == x;
        assert(tail[k] == res[st.listed.len() + k]);
        lemma_key_position(res, x.0);
    }
}

/// Setting the enabled packs puts the listed packs first.
proof fn lemma_unlisted_prefix(v: GroupView, packs: Seq<Seq<char>>)
    requires
        keys_unique(v.enabled),
    ensures
        ({
            let st = enable_all(EnableState { listed: seq![], rest: v.enabled, available: v.available }, packs);
            extend_entries(st.listed, enabled_built_in(st.rest)) == st.listed + enabled_built_in(st.rest)
        }),
{
    let st0 = EnableState { listed: seq![], rest: v.enabled, available: v.available };
    assert(enable_inv(st0, Seq::<Seq<char>>::empty(), v.enabled));
    lemma_enable_all_inv(st0, packs, v.enabled);
    let st = enable_all(st0, packs);
    lemma_enabled_built_in(st.rest);
    let b = enabled_built_in(st.rest);
    assert forall|i: int, y: int| 0 <= i < st.listed.len() && 0 <= y < b.len() implies #[trigger] st.listed[i].0 != #[trigger] b[y].0 by {
        assert(b.contains(b[y]));
        assert(st.rest.contains(b[y]));
        let a = choose|a: int| 0 <= a < st.rest.len() && st.rest[a] == b[y];
        assert(st.rest[a].0 != st.listed[i].0);
    }
    lemma_extend_fresh(st.listed, b);
}

} // verus!
