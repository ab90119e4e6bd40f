//! Configuration of how each asset is compiled, as the configuration files of
//! the asset directory give it.
use crate::pack_reader::str_equal;
use crate::toc_map::{entries_get, key_position, keys_unique, lemma_key_position};
use vstd::prelude::*;

verus! {

/// A value of an options table: a table, or any other value, kept as its TOML text.
pub enum OptionValue {
    /// A value that is not a table, as TOML text (such as `4` or `"text"`).
    Leaf(String),
    /// A nested table.
    Table(OptionTable),
}

/// A table of options, as read from a configuration file: keys with their values.
pub struct OptionTable {
    /// The entries of the table, in order; no key occurs twice.
    pub entries: Vec<(String, OptionValue)>,
}

/// The content of an option value: text, or a table of entries.
pub enum OptionValueView {
    Leaf(Seq<char>),
    Table(Seq<(Seq<char>, OptionValueView)>),
}

/// The content of a value.
pub open spec fn value_view(v: OptionValue) -> OptionValueView
    decreases v,
{
    match v {
        OptionValue::Leaf(s) => OptionValueView::Leaf(s@),
        OptionValue::Table(t) => OptionValueView::Table(entries_view(t.entries@)),
    }
}

/// The content of the entries of a table, in order.
pub open spec fn entries_view(s: Seq<(String, OptionValue)>) -> Seq<(Seq<char>, OptionValueView)>
    decreases s,
{
    if s.len() == 0 {
        seq![]
    } else {
        entries_view(s.drop_last()).push((s.last().0@, value_view(s.last().1)))
    }
}

impl View for OptionTable {
    type V = Seq<(Seq<char>, OptionValueView)>;

    open spec fn view(&self) -> Seq<(Seq<char>, OptionValueView)> {
        entries_view(self.entries@)
    }
}

impl OptionTable {
    /// The table is well formed: no key occurs twice among its entries.
    pub open spec fn wf(&self) -> bool {
        keys_unique(self@)
    }

    /// An empty table.
    pub fn new() -> (r: Self)
        ensures
            r.entries@.len() == 0,
    {
        OptionTable { entries: Vec::new() }
    }

    /// Whether the table holds no entries.
    pub fn is_empty(&self) -> (r: bool)
        ensures
            r == (self.entries@.len() == 0),
    {
        self.entries.len() == 0
    }
}

/// Compression settings of an asset.
#[derive(Clone, Copy, Debug)]
pub struct CompressionOptions {
    /// Whether the asset is compressed.
    pub enabled: Option<bool>,
    /// The LZ4 compression level.
    pub level: Option<u8>,
}

impl CompressionOptions {
    /// The defaults: no compression, at level 4.
    pub fn default() -> (r: Self)
        ensures
            r.enabled == Some(false),
            r.level == Some(4u8),
    {
        CompressionOptions { enabled: Some(false), level: Some(4) }
    }

    /// Fills each setting that is not set with that of `lower`.
    pub fn merge(&mut self, lower: CompressionOptions)
        ensures
            *final(self) == merge_compression(*old(self), lower),
    {
        if self.enabled.is_none() {
            self.enabled = lower.enabled;
        }
        if self.level.is_none() {
            self.level = lower.level;
        }
    }
}

/// Uncooking settings of an asset.
pub struct UncookerSettings {
    /// Whether the asset is uncooked.
    pub enabled: Option<bool>,
    /// The registered name of the uncooker to use; when absent, the uncooker is
    /// chosen by the extension of the asset.
    pub uncooker_path: Option<String>,
    /// The options handed to the uncooker.
    pub options: Option<OptionTable>,
}

/// The content of [`UncookerSettings`].
pub struct UncookerView {
    pub enabled: Option<bool>,
    pub uncooker_path: Option<Seq<char>>,
    pub options: Option<Seq<(Seq<char>, OptionValueView)>>,
}

impl View for UncookerSettings {
    type V = UncookerView;

    open spec fn view(&self) -> UncookerView {
        UncookerView {
            enabled: self.enabled,
            uncooker_path: match self.uncooker_path {
                Some(p) => Some(p@),
                None => None,
            },
            options: match self.options {
                Some(t) => Some(t@),
                None => None,
            },
        }
    }
}

impl UncookerSettings {
    /// The defaults: uncooking enabled, uncooker chosen by extension, no options.
    pub fn default() -> (r: Self)
        ensures
            r.enabled == Some(true),
            r.uncooker_path is None,
            r.options matches Some(t) && t.entries@.len() == 0,
    {
        UncookerSettings { enabled: Some(true), uncooker_path: None, options: Some(OptionTable::new()) }
    }

    /// Fills each setting that is not set with that of `lower`; two option tables
    /// are merged.
    pub fn merge(&mut self, lower: UncookerSettings)
        ensures
            final(self)@ == merge_uncooker(old(self)@, lower@),
    {
        let UncookerSettings { enabled, uncooker_path, options } = lower;
        if self.enabled.is_none() {
            self.enabled = enabled;
        }
        if self.uncooker_path.is_none() {
            self.uncooker_path = uncooker_path;
        }
        merge_option_table(&mut self.options, options);
    }
}

/// The configuration of an asset.
pub struct Configuration {
    /// Compression settings.
    pub compression: Option<CompressionOptions>,
    /// Uncooking settings.
    pub uncooker: Option<UncookerSettings>,
    /// Messages for whoever reads the configuration files closely.
    pub super_secret_option: Option<Vec<String>>,
}

/// The content of a [`Configuration`].
pub struct ConfigView {
    pub compression: Option<CompressionOptions>,
    pub uncooker: Option<UncookerView>,
    pub super_secret_option: Option<Seq<Seq<char>>>,
}

impl View for Configuration {
    type V = ConfigView;

    open spec fn view(&self) -> ConfigView {
        ConfigView {
            compression: self.compression,
            uncooker: match self.uncooker {
                Some(u) => Some(u@),
                None => None,
            },
            super_secret_option: match self.super_secret_option {
                Some(v) => Some(v@.map_values(|s: String| s@)),
                None => None,
            },
        }
    }
}

/// `a` when it is set, else `b`.
pub open spec fn overwrite_none<T>(a: Option<T>, b: Option<T>) -> Option<T> {
    if a is Some {
        a
    } else {
        b
    }
}

/// Compression settings with the unset ones of `h` taken from `l`.
pub open spec fn merge_compression(h: CompressionOptions, l: CompressionOptions) -> CompressionOptions {
    CompressionOptions { enabled: overwrite_none(h.enabled, l.enabled), level: overwrite_none(h.level, l.level) }
}

/// Merging compression settings keeps every setting the higher ones set, and
/// takes from the lower ones only what the higher ones leave unset.
pub proof fn lemma_merge_compression_keeps_higher(h: CompressionOptions, l: CompressionOptions)
    ensures
        h.enabled matches Some(b) ==> merge_compression(h, l).enabled == Some(b),
        h.enabled is None ==> merge_compression(h, l).enabled == l.enabled,
        h.level matches Some(v) ==> merge_compression(h, l).level == Some(v),
        h.level is None ==> merge_compression(h, l).level == l.level,
{
}

/// Two optional option tables merged: an absent one takes the other.
pub open spec fn merge_option_tables(
    h: Option<Seq<(Seq<char>, OptionValueView)>>,
    l: Option<Seq<(Seq<char>, OptionValueView)>>,
) -> Option<Seq<(Seq<char>, OptionValueView)>> {
    match (h, l) {
        (Some(a), Some(b)) => Some(merge_entries(a, b)),
        (Some(a), None) => Some(a),
        (None, b) => b,
    }
}

/// Uncooking settings with the unset ones of `h` taken from `l`.
pub open spec fn merge_uncooker(h: UncookerView, l: UncookerView) -> UncookerView {
    UncookerView {
        enabled: overwrite_none(h.enabled, l.enabled),
        uncooker_path: overwrite_none(h.uncooker_path, l.uncooker_path),
        options: merge_option_tables(h.options, l.options),
    }
}

/// Merging uncooking settings keeps whether the higher ones switch uncooking on
/// or off and the uncooker they name, and takes from the lower ones only what the
/// higher ones leave unset.
pub proof fn lemma_merge_uncooker_keeps_higher(h: UncookerView, l: UncookerView)
    ensures
        h.enabled matches Some(b) ==> merge_uncooker(h, l).enabled == Some(b),
        h.enabled is None ==> merge_uncooker(h, l).enabled == l.enabled,
        h.uncooker_path matches Some(p) ==> merge_uncooker(h, l).uncooker_path == Some(p),
        h.uncooker_path is None ==> merge_uncooker(h, l).uncooker_path == l.uncooker_path,
        h.options is None ==> merge_uncooker(h, l).options == l.options,
        h.options is Some ==> merge_uncooker(h, l).options is Some,
{
}

/// Merging a configuration over a lower one keeps each compression and uncooking
/// switch the higher one sets.
pub proof fn lemma_merge_config_keeps_higher_switches(h: ConfigView, l: ConfigView)
    ensures
        (h.compression is Some && h.compression->0.enabled is Some) ==> (merge_config(h, l).compression is Some
            && merge_config(h, l).compression->0.enabled == h.compression->0.enabled),
        (h.compression is Some && h.compression->0.level is Some) ==> (merge_config(h, l).compression is Some
            && merge_config(h, l).compression->0.level == h.compression->0.level),
        (h.uncooker is Some && h.uncooker->0.enabled is Some) ==> (merge_config(h, l).uncooker is Some
            && merge_config(h, l).uncooker->0.enabled == h.uncooker->0.enabled),
        h.compression is None ==> merge_config(h, l).compression == l.compression,
        h.uncooker is None ==> merge_config(h, l).uncooker == l.uncooker,
{
    if let Some(c) = h.compression {
        if let Some(lc) = l.compression {
            lemma_merge_compression_keeps_higher(c, lc);
        }
    }
    if let Some(u) = h.uncooker {
        if let Some(lu) = l.uncooker {
            lemma_merge_uncooker_keeps_higher(u, lu);
        }
    }
}

/// A configuration with the unset settings of `h` taken from `l`, settings groups
/// set in both merged in turn.
pub open spec fn merge_config(h: ConfigView, l: ConfigView) -> ConfigView {
    ConfigView {
        compression: match (h.compression, l.compression) {
            (Some(a), Some(b)) => Some(merge_compression(a, b)),
            (Some(a), None) => Some(a),
            (None, b) => b,
        },
        uncooker: match (h.uncooker, l.uncooker) {
            (Some(a), Some(b)) => Some(merge_uncooker(a, b)),
            (Some(a), None) => Some(a),
            (None, b) => b,
        },
        super_secret_option: overwrite_none(h.super_secret_option, l.super_secret_option),
    }
}

/// The default configuration.
pub open spec fn default_config_view() -> ConfigView {
    ConfigView {
        compression: Some(CompressionOptions { enabled: Some(false), level: Some(4u8) }),
        uncooker: Some(UncookerView { enabled: Some(true), uncooker_path: None, options: Some(seq![]) }),
        super_secret_option: Some(seq![
            "Reading between the lines I see..."@,
            "I'm not sure why I'm here but here I am."@,
            "May I ask why you are reading this?"@,
            "SMVE ASSET PACK YEAHHHHH"@,
            "To SunnyMonster in 10 years - Are you still working on SMve? Is the project dead or very successful?"@,
            "I'm struggling to write more of these messages haha"@,
            "LOOOOOOOOOOOOOOOOOOOOOOOOOOOOOOOOOOOOOOOOO"@,
            "Cool"@
        ]),
    }
}

impl Configuration {
    /// The defaults of every setting.
    pub fn default() -> (r: Self)
        ensures
            r.compression matches Some(c) && c.enabled == Some(false) && c.level == Some(4u8),
            r.uncooker matches Some(u) && u.enabled == Some(true) && u.uncooker_path is None && (
            u.options matches Some(t) && t.entries@.len() == 0),
            r.super_secret_option matches Some(v) && v@.len() == 8,
            r@ == default_config_view(),
    {
        let mut messages: Vec<String> = Vec::new();
        messages.push(String::from_str("Reading between the lines I see..."));
        messages.push(String::from_str("I'm not sure why I'm here but here I am."));
        messages.push(String::from_str("May I ask why you are reading this?"));
        messages.push(String::from_str("SMVE ASSET PACK YEAHHHHH"));
        messages.push(String::from_str("To SunnyMonster in 10 years - Are you still working on SMve? Is the project dead or very successful?"));
        messages.push(String::from_str("I'm struggling to write more of these messages haha"));
        messages.push(String::from_str("LOOOOOOOOOOOOOOOOOOOOOOOOOOOOOOOOOOOOOOOOO"));
        messages.push(String::from_str("Cool"));
        let r = Configuration {
            compression: Some(CompressionOptions::default()),
            uncooker: Some(UncookerSettings::default()),
            super_secret_option: Some(messages),
        };
        proof {
            let u = r.uncooker->0;
            assert(u.options->0@ =~= Seq::<(Seq<char>, OptionValueView)>::empty());
            assert(r@.super_secret_option->0 =~= default_config_view().super_secret_option->0);
        }
        r
    }

    /// A configuration that sets nothing.
    pub fn empty() -> (r: Self)
        ensures
            r.compression is None,
            r.uncooker is None,
            r.super_secret_option is None,
    {
        Configuration { compression: None, uncooker: None, super_secret_option: None }
    }

    /// Fills the settings this configuration does not set from `lower`; groups of
    /// settings that both set are merged in turn.
    pub fn merge(&mut self, lower: Configuration)
        ensures
            final(self)@ == merge_config(old(self)@, lower@),
    {
        let Configuration { compression, uncooker, super_secret_option } = lower;
        match (&mut self.compression, compression) {
            (Some(a), Some(b)) => a.merge(b),
            (Some(_), None) => {},
            (None, b) => {
                self.compression = b;
            },
        }
        match (&mut self.uncooker, uncooker) {
            (Some(a), Some(b)) => a.merge(b),
            (Some(_), None) => {},
            (None, b) => {
                self.uncooker = b;
            },
        }
        if self.super_secret_option.is_none() {
            self.super_secret_option = super_secret_option;
        }
    }
}

/// The entries of `higher` merged with those of `lower`: a key of `higher` keeps
/// its value, but two tables under one key are merged in turn; a key only `lower`
/// has is added, after the others.
pub open spec fn merge_entries(
    higher: Seq<(Seq<char>, OptionValueView)>,
    lower: Seq<(Seq<char>, OptionValueView)>,
) -> Seq<(Seq<char>, OptionValueView)>
    decreases lower,
{
    if lower.len() == 0 {
        higher
    } else {
        let prev = merge_entries(higher, lower.drop_last());
        let k = lower.last().0;
        let lv = lower.last().1;
        match key_position(prev, k) {
            None => prev.push((k, lv)),
            Some(i) => match (prev[i].1, lv) {
                (OptionValueView::Table(a), OptionValueView::Table(b)) => prev.update(
                    i,
                    (k, OptionValueView::Table(merge_entries(a, b))),
                ),
                _ => prev,
            },
        }
    }
}

/// The position of the entry with key `k` in the entries of a table.
fn find_option(entries: &Vec<(String, OptionValue)>, k: &str) -> (r: Option<usize>)
    ensures
        match r {
            Some(i) => i < entries@.len() && key_position(entries_view(entries@), k@) == Some(i as int),
            None => key_position(entries_view(entries@), k@) is None,
        },
{
    let ghost s = entries_view(entries@);
    proof {
        lemma_entries_view_index(entries@);
    }
    let mut i: usize = 0;
    while i < entries.len()
        invariant
            i <= entries@.len(),
            s == entries_view(entries@),
            s.len() == entries@.len(),
            forall|j: int| 0 <= j < s.len() ==> (#[trigger] s[j]) == (entries@[j].0@, value_view(entries@[j].1)),
            forall|j: int| 0 <= j < i ==> s[j].0 != k@,
        decreases entries@.len() - i,
    {
        if str_equal(entries[i].0.as_str(), k) {
            proof {
                assert(s[i as int].0 == k@);
                lemma_key_position(s, k@);
                if let Some(j) = key_position(s, k@) {
                    assert(!(j < i));
                    assert(!(j > i));
                }
            }
            return Some(i);
        }
        proof {
            assert(s[i as int].0 == entries@[i as int].0@);
        }
        i = i + 1;
    }
    proof {
        lemma_key_position(s, k@);
    }
    None
}

/// The entries, viewed one by one.
proof fn lemma_entries_view_index(s: Seq<(String, OptionValue)>)
    ensures
        entries_view(s).len() == s.len(),
        forall|j: int| 0 <= j < s.len() ==> (#[trigger] entries_view(s)[j]) == (s[j].0@, value_view(s[j].1)),
    decreases s.len(),
{
    if s.len() > 0 {
        lemma_entries_view_index(s.drop_last());
        assert forall|j: int| 0 <= j < s.len() implies (#[trigger] entries_view(s)[j]) == (s[j].0@, value_view(s[j].1)) by {
            if j < s.len() - 1 {
                assert(entries_view(s.drop_last())[j] == (s.drop_last()[j].0@, value_view(s.drop_last()[j].1)));
            }
        }
    }
}

/// Viewing entries after one is replaced, or one is added.
proof fn lemma_entries_view_change(s: Seq<(String, OptionValue)>, i: int, e: (String, OptionValue))
    requires
        0 <= i < s.len(),
    ensures
        entries_view(s.update(i, e)) == entries_view(s).update(i, (e.0@, value_view(e.1))),
        entries_view(s.push(e)) == entries_view(s).push((e.0@, value_view(e.1))),
{
    lemma_entries_view_index(s);
    lemma_entries_view_index(s.update(i, e));
    assert(entries_view(s.update(i, e)) =~= entries_view(s).update(i, (e.0@, value_view(e.1))));
    assert(s.push(e).drop_last() =~= s);
}

/// Merges the table `lower` into the table `higher`: keys of `higher` keep their
/// values, but two tables under one key are merged in turn; keys only `lower` has
/// are added.
pub fn merge_table(higher: &mut OptionTable, lower: OptionTable)
    ensures
        final(higher)@ == merge_entries(old(higher)@, lower@),
        old(higher).wf() ==> final(higher).wf(),
    decreases lower,
{
    let ghost lv = lower@;
    let ghost h0 = higher@;
    proof {
        if keys_unique(h0) {
            lemma_merge_keeps_unique(h0, lv);
        }
    }
    let ghost orig = lower.entries@;
    let mut rest = lower.entries;
    let n = rest.len();
    let mut i: usize = 0;
    proof {
        lemma_entries_view_index(rest@);
        assert(lv.take(0) =~= Seq::<(Seq<char>, OptionValueView)>::empty());
    }
    while i < n
        invariant
            i <= n,
            n == lv.len(),
            rest@.len() == n - i,
            forall|j: int| 0 <= j < rest@.len() ==> ((#[trigger] rest@[j]).0@, value_view(rest@[j].1)) == lv[i + j],
            forall|j: int| 0 <= j < rest@.len() ==> (#[trigger] rest@[j]) == orig[i + j],
            orig == lower.entries@,
            orig.len() == n,
            higher@ == merge_entries(h0, lv.take(i as int)),
        decreases n - i,
    {
        let ghost before = rest@;
        let (key, value) = rest.remove(0);
        proof {
            assert((before[0].0@, value_view(before[0].1)) == lv[i as int]);
            assert(lv.take(i + 1).drop_last() =~= lv.take(i as int));
            assert(lv.take(i + 1).last() == lv[i as int]);
            assert forall|j: int| 0 <= j < rest@.len() implies ((#[trigger] rest@[j]).0@, value_view(rest@[j].1)) == lv[i + 1 + j] by {
                assert(rest@[j] == before[j + 1]);
            }
            assert forall|j: int| 0 <= j < rest@.len() implies (#[trigger] rest@[j]) == orig[i + 1 + j] by {
                assert(rest@[j] == before[j + 1]);
            }
            assert(before[0] == orig[i as int]);
        }
        match find_option(&higher.entries, key.as_str()) {
            None => {
                let ghost hb = higher.entries@;
                proof {
                    lemma_entries_view_index(hb);
                }
                higher.entries.push((key, value));
                proof {
                    assert(hb.push((key, value)).drop_last() =~= hb);
                    assert(higher.entries@ =~= hb.push((key, value)));
                }
            },
            Some(p) => {
                let ghost hb = higher.entries@;
                proof {
                    lemma_entries_view_index(hb);
                }
                let (hk, hv) = higher.entries.remove(p);
                proof {
                    lemma_key_position(entries_view(hb), key@);
                    assert(entries_view(hb)[p as int] == (hk@, value_view(hv)));
                }
                match (hv, value) {
                    (OptionValue::Table(mut a), OptionValue::Table(b)) => {
                        proof {
                            assert(orig[i as int].1 == OptionValue::Table(b));
                            assert(0 <= i < lower.entries@.len());
                            assert(decreases_to!(lower => lower.entries));
                            assert(decreases_to!(lower.entries => lower.entries@));
                            assert(decreases_to!(lower.entries@ => lower.entries@[i as int]));
                            assert(decreases_to!(lower.entries@[i as int] => lower.entries@[i as int].1));
                            assert(decreases_to!(lower.entries@[i as int].1 => b));
                        }
                        let ghost a0 = a@;
                        merge_table(&mut a, b);
                        higher.entries.insert(p, (hk, OptionValue::Table(a)));
                        proof {
                            assert(higher.entries@ =~= hb.update(p as int, (hk, OptionValue::Table(a))));
                            lemma_entries_view_change(hb, p as int, (hk, OptionValue::Table(a)));
                            assert(value_view(OptionValue::Table(a)) == OptionValueView::Table(a@));
                        }
                    },
                    (hv, _) => {
                        higher.entries.insert(p, (hk, hv));
                        proof {
                            assert(higher.entries@ =~= hb);
                        }
                    },
                }
            },
        }
        i = i + 1;
    }
    proof {
        assert(lv.take(n as int) =~= lv);
    }
}

/// Merges the optional table `lower` into `higher`: an absent `higher` takes
/// `lower`; two tables are merged as [`merge_table`] does.
pub fn merge_option_table(higher: &mut Option<OptionTable>, lower: Option<OptionTable>)
    ensures
        match (*old(higher), lower) {
            (None, l) => *final(higher) == l,
            (Some(h), None) => *final(higher) == Some(h),
            (Some(h), Some(l)) => *final(higher) matches Some(t) && t@ == merge_entries(h@, l@),
        },
{
    match higher {
        None => {
            *higher = lower;
        },
        Some(h) => {
            match lower {
                Some(l) => merge_table(h, l),
                None => {},
            }
        },
    }
}

/// Replacing the value of an entry keeps every key where it is.
proof fn lemma_key_position_update<V>(s: Seq<(Seq<char>, V)>, i: int, v: V, k: Seq<char>)
    requires
        0 <= i < s.len(),
    ensures
        key_position(s.update(i, (s[i].0, v)), k) == key_position(s, k),
{
    let t = s.update(i, (s[i].0, v));
    lemma_key_position(s, k);
    lemma_key_position(t, k);
    assert forall|j: int| 0 <= j < s.len() implies t[j].0 == s[j].0 by {}
    match key_position(s, k) {
        Some(a) => {
            if let Some(b) = key_position(t, k) {
                assert(!(b < a));
                assert(!(a < b));
            }
        },
        None => {},
    }
}

/// Merging keeps every key of `higher` and every key of `lower`, and no other.
pub proof fn lemma_merge_keys(
    higher: Seq<(Seq<char>, OptionValueView)>,
    lower: Seq<(Seq<char>, OptionValueView)>,
    k: Seq<char>,
)
    ensures
        (key_position(merge_entries(higher, lower), k) is Some) == (key_position(higher, k) is Some
            || key_position(lower, k) is Some),
    decreases lower.len(),
{
    if lower.len() > 0 {
        let d = lower.drop_last();
        let prev = merge_entries(higher, d);
        let e = lower.last();
        lemma_merge_keys(higher, d, k);
        lemma_key_position(lower, k);
        lemma_key_position(d, k);
        lemma_key_position(prev, e.0);
        match key_position(prev, e.0) {
            None => {
                assert(prev.push(e).drop_last() =~= prev);
            },
            Some(i) => {
                if let (OptionValueView::Table(a), OptionValueView::Table(b)) = (prev[i].1, e.1) {
                    lemma_key_position_update(prev, i, OptionValueView::Table(merge_entries(a, b)), k);
                }
            },
        }
        if key_position(lower, k) is Some && key_position(d, k) is None {
            assert(lower.last().0 == k);
        }
        if key_position(d, k) is Some {
            let j = key_position(d, k)->0;
            assert(lower[j] == d[j]);
        }
    }
}

/// A key of `higher` whose value is not a table keeps that value when merged.
pub proof fn lemma_merge_higher_wins(
    higher: Seq<(Seq<char>, OptionValueView)>,
    lower: Seq<(Seq<char>, OptionValueView)>,
    k: Seq<char>,
)
    requires
        entries_get(higher, k) matches Some(OptionValueView::Leaf(_)),
    ensures
        entries_get(merge_entries(higher, lower), k) == entries_get(higher, k),
    decreases lower.len(),
{
    if lower.len() > 0 {
        let d = lower.drop_last();
        let prev = merge_entries(higher, d);
        let e = lower.last();
        lemma_merge_higher_wins(higher, d, k);
        lemma_key_position(prev, e.0);
        lemma_key_position(prev, k);
        match key_position(prev, e.0) {
            None => {
                assert(prev.push(e).drop_last() =~= prev);
                assert(prev.push(e)[key_position(prev, k)->0] == prev[key_position(prev, k)->0]);
            },
            Some(i) => {
                if let (OptionValueView::Table(a), OptionValueView::Table(b)) = (prev[i].1, e.1) {
                    lemma_key_position_update(prev, i, OptionValueView::Table(merge_entries(a, b)), k);
                    if e.0 == k {
                        assert(key_position(prev, k) == Some(i));
                    }
                }
            },
        }
    }
}

/// Merging a table over another keeps its keys unique: a key of the lower table
/// is added only when the higher table does not have it.
pub proof fn lemma_merge_keeps_unique(higher: Seq<(Seq<char>, OptionValueView)>, lower: Seq<(Seq<char>, OptionValueView)>)
    requires
        keys_unique(higher),
    ensures
        keys_unique(merge_entries(higher, lower)),
    decreases lower.len(),
{
    if lower.len() > 0 {
        let d = lower.drop_last();
        let e = lower.last();
        let prev = merge_entries(higher, d);
        lemma_merge_keeps_unique(higher, d);
        lemma_key_position(prev, e.0);
        match key_position(prev, e.0) {
            None => {
                let t = prev.push(e);
                assert forall|a: int, b: int| 0 <= a < b < t.len() implies t[a].0 != t[b].0 by {
                    if b < prev.len() {
                        assert(t[a] == prev[a] && t[b] == prev[b]);
                    } else {
                        assert(t[a] == prev[a]);
                    }
                }
            },
            Some(i) => {
                if let (OptionValueView::Table(a), OptionValueView::Table(b)) = (prev[i].1, e.1) {
                    let t = prev.update(i, (e.0, OptionValueView::Table(merge_entries(a, b))));
                    assert forall|x: int, y: int| 0 <= x < y < t.len() implies t[x].0 != t[y].0 by {
                        assert(t[x].0 == prev[x].0 && t[y].0 == prev[y].0);
                    }
                }
            },
        }
    }
}

/// Merging a table over another: a key only the lower table has keeps its value
/// from it, a key only the higher table has keeps its value from that one, and a
/// key under which both hold a table gets the two tables merged.
pub proof fn lemma_merge_lower_values(
    higher: Seq<(Seq<char>, OptionValueView)>,
    lower: Seq<(Seq<char>, OptionValueView)>,
    k: Seq<char>,
)
    requires
        keys_unique(lower),
    ensures
        key_position(lower, k) is None ==> entries_get(merge_entries(higher, lower), k) == entries_get(higher, k),
        key_position(higher, k) is None ==> entries_get(merge_entries(higher, lower), k) == entries_get(lower, k),
        (entries_get(higher, k) is Some && entries_get(higher, k)->0 is Table && entries_get(lower, k) is Some
            && entries_get(lower, k)->0 is Table) ==> entries_get(merge_entries(higher, lower), k) == Some(
            OptionValueView::Table(
                merge_entries(entries_get(higher, k)->0->Table_0, entries_get(lower, k)->0->Table_0),
            ),
        ),
    decreases lower.len(),
{
    if lower.len() > 0 {
        let d = lower.drop_last();
        let e = lower.last();
        let prev = merge_entries(higher, d);
        let next = merge_entries(higher, lower);
        assert(keys_unique(d)) by {
            assert forall|x: int, y: int| 0 <= x < y < d.len() implies d[x].0 != d[y].0 by {
                assert(d[x] == lower[x] && d[y] == lower[y]);
            }
        }
        lemma_merge_lower_values(higher, d, k);
        lemma_key_position(lower, k);
        lemma_key_position(d, k);
        lemma_key_position(prev, e.0);
        lemma_key_position(prev, k);
        lemma_merge_keys(higher, d, k);
        if e.0 == k {
            assert forall|j: int| 0 <= j < d.len() implies d[j].0 != k by {
                assert(d[j] == lower[j]);
            }
            assert(key_position(d, k) is None);
            assert(key_position(lower, k) == Some(lower.len() - 1));
            match key_position(prev, k) {
                None => {
                    assert(prev.push(e).drop_last() =~= prev);
                    assert(key_position(prev.push(e), k) == Some(prev.len() as int));
                },
                Some(i) => {
                    if let (OptionValueView::Table(a), OptionValueView::Table(b)) = (prev[i].1, e.1) {
                        lemma_key_position_update(prev, i, OptionValueView::Table(merge_entries(a, b)), k);
                    }
                },
            }
        } else {
            if key_position(d, k) is Some {
                let j = key_position(d, k)->0;
                assert(lower[j] == d[j]);
            }
            assert(key_position(lower, k) == key_position(d, k));
            assert(entries_get(lower, k) == entries_get(d, k)) by {
                if key_position(d, k) is Some {
                    let j = key_position(d, k)->0;
                    assert(lower[j] == d[j]);
                }
            }
            match key_position(prev, e.0) {
                None => {
                    assert(prev.push(e).drop_last() =~= prev);
                    assert(key_position(prev.push(e), k) == key_position(prev, k));
                    if key_position(prev, k) is Some {
                        let j = key_position(prev, k)->0;
                        assert(prev.push(e)[j] == prev[j]);
                    }
                },
                Some(i) => {
                    if let (OptionValueView::Table(a), OptionValueView::Table(b)) = (prev[i].1, e.1) {
                        lemma_key_position_update(prev, i, OptionValueView::Table(merge_entries(a, b)), k);
                        if key_position(prev, k) is Some {
                            let j = key_position(prev, k)->0;
                            assert(j != i);
                        }
                    }
                },
            }
        }
    }
}

impl OptionValue {
    /// A copy of the value.
    pub fn duplicate(&self) -> (r: Self)
        ensures
            value_view(r) == value_view(*self),
        decreases self,
    {
        match self {
            OptionValue::Leaf(text) => OptionValue::Leaf(text.clone()),
            OptionValue::Table(t) => OptionValue::Table(t.duplicate()),
        }
    }
}

impl OptionTable {
    /// A copy of the table.
    pub fn duplicate(&self) -> (r: Self)
        ensures
            r@ == self@,
        decreases self,
    {
        let mut entries: Vec<(String, OptionValue)> = Vec::new();
        let mut i: usize = 0;
        proof {
            lemma_entries_view_index(self.entries@);
        }
        while i < self.entries.len()
            invariant
                i <= self.entries@.len(),
                entries@.len() == i,
                forall|j: int| 0 <= j < i ==> (#[trigger] entries@[j]).0@ == self.entries@[j].0@ && value_view(
                    entries@[j].1,
                ) == value_view(self.entries@[j].1),
            decreases self.entries@.len() - i,
        {
            proof {
                assert(decreases_to!(self => self.entries));
                assert(decreases_to!(self.entries => self.entries@));
                assert(decreases_to!(self.entries@ => self.entries@[i as int]));
                assert(decreases_to!(self.entries@[i as int] => self.entries@[i as int].1));
            }
            let key = self.entries[i].0.clone();
            let value = self.entries[i].1.duplicate();
            entries.push((key, value));
            i = i + 1;
        }
        proof {
            lemma_entries_view_index(entries@);
            assert(entries_view(entries@) =~= entries_view(self.entries@));
        }
        OptionTable { entries }
    }
}

/// A copy of a list of strings.
fn duplicate_strings(v: &Vec<String>) -> (r: Vec<String>)
    ensures
        r@.map_values(|s: String| s@) == v@.map_values(|s: String| s@),
{
    let mut out: Vec<String> = Vec::new();
    let mut i: usize = 0;
    while i < v.len()
        invariant
            i <= v@.len(),
            out@.len() == i,
            forall|j: int| 0 <= j < i ==> (#[trigger] out@[j])@ == v@[j]@,
        decreases v@.len() - i,
    {
        out.push(v[i].clone());
        i = i + 1;
    }
    proof {
        assert(out@.map_values(|s: String| s@) =~= v@.map_values(|s: String| s@));
    }
    out
}

impl UncookerSettings {
    /// A copy of the settings.
    pub fn duplicate(&self) -> (r: Self)
        ensures
            r@ == self@,
    {
        UncookerSettings {
            enabled: self.enabled,
            uncooker_path: match &self.uncooker_path {
                Some(p) => Some(p.clone()),
                None => None,
            },
            options: match &self.options {
                Some(t) => Some(t.duplicate()),
                None => None,
            },
        }
    }
}

impl Configuration {
    /// A copy of the configuration.
    pub fn duplicate(&self) -> (r: Self)
        ensures
            r@ == self@,
    {
        Configuration {
            compression: self.compression,
            uncooker: match &self.uncooker {
                Some(u) => Some(u.duplicate()),
                None => None,
            },
            super_secret_option: match &self.super_secret_option {
                Some(v) => Some(duplicate_strings(v)),
                None => None,
            },
        }
    }
}

/// The configuration of a directory: the configuration of the directory itself,
/// and configurations for the paths that match glob patterns, in order.
pub struct DirectoryConfiguration {
    /// The configuration of the directory.
    pub dir_config: Option<Configuration>,
    /// Glob patterns, each with the configuration of the paths that match it.
    pub glob_configs: Vec<(String, Configuration)>,
}

/// The content of a [`DirectoryConfiguration`].
pub struct DirConfigView {
    pub dir_config: Option<ConfigView>,
    pub glob_configs: Seq<(Seq<char>, ConfigView)>,
}

impl View for DirectoryConfiguration {
    type V = DirConfigView;

    open spec fn view(&self) -> DirConfigView {
        DirConfigView {
            dir_config: match self.dir_config {
                Some(c) => Some(c@),
                None => None,
            },
            glob_configs: self.glob_configs@.map_values(|e: (String, Configuration)| (e.0@, e.1@)),
        }
    }
}

/// A directory configuration with the unset settings of `h` taken from `l`, and
/// the glob configurations of `l` after those of `h`.
pub open spec fn merge_dir_config(h: DirConfigView, l: DirConfigView) -> DirConfigView {
    DirConfigView {
        dir_config: match (h.dir_config, l.dir_config) {
            (Some(a), Some(b)) => Some(merge_config(a, b)),
            (Some(a), None) => Some(a),
            (None, b) => b,
        },
        glob_configs: h.glob_configs + l.glob_configs,
    }
}

/// A copy of glob configurations.
fn duplicate_globs(v: &Vec<(String, Configuration)>) -> (r: Vec<(String, Configuration)>)
    ensures
        r@.map_values(|e: (String, Configuration)| (e.0@, e.1@)) == v@.map_values(|e: (String, Configuration)| (e.0@, e.1@)),
{
    let mut out: Vec<(String, Configuration)> = Vec::new();
    let mut i: usize = 0;
    while i < v.len()
        invariant
            i <= v@.len(),
            out@.len() == i,
            forall|j: int| 0 <= j < i ==> (#[trigger] out@[j]).0@ == v@[j].0@ && out@[j].1@ == v@[j].1@,
        decreases v@.len() - i,
    {
        out.push((v[i].0.clone(), v[i].1.duplicate()));
        i = i + 1;
    }
    proof {
        assert(out@.map_values(|e: (String, Configuration)| (e.0@, e.1@)) =~= v@.map_values(|e: (String, Configuration)| (e.0@, e.1@)));
    }
    out
}

impl DirectoryConfiguration {
    /// The defaults: the default configuration, and no glob configurations.
    pub fn default() -> (r: Self)
        ensures
            r.dir_config matches Some(c) && c@ == default_config_view(),
            r.glob_configs@.len() == 0,
    {
        DirectoryConfiguration { dir_config: Some(Configuration::default()), glob_configs: Vec::new() }
    }

    /// A directory configuration that sets nothing.
    pub fn empty() -> (r: Self)
        ensures
            r.dir_config matches Some(c) && c.compression is None && c.uncooker is None && c.super_secret_option is None,
            r.glob_configs@.len() == 0,
    {
        DirectoryConfiguration { dir_config: Some(Configuration::empty()), glob_configs: Vec::new() }
    }

    /// Fills what this configuration does not set from `lower`, and appends the
    /// glob configurations of `lower` to its own.
    pub fn merge(&mut self, lower: DirectoryConfiguration)
        ensures
            final(self)@ == merge_dir_config(old(self)@, lower@),
    {
        let DirectoryConfiguration { dir_config, glob_configs } = lower;
        match (&mut self.dir_config, dir_config) {
            (Some(a), Some(b)) => a.merge(b),
            (Some(_), None) => {},
            (None, b) => {
                self.dir_config = b;
            },
        }
        let ghost g0 = self.glob_configs@;
        let mut rest = glob_configs;
        let ghost r0 = rest@;
        self.glob_configs.append(&mut rest);
        proof {
            assert(self.glob_configs@.map_values(|e: (String, Configuration)| (e.0@, e.1@)) =~= g0.map_values(|e: (String, Configuration)| (e.0@, e.1@)) + r0.map_values(|e: (String, Configuration)| (e.0@, e.1@)));
        }
    }

    /// A copy of the directory configuration.
    pub fn duplicate(&self) -> (r: Self)
        ensures
            r@ == self@,
    {
        DirectoryConfiguration {
            dir_config: match &self.dir_config {
                Some(c) => Some(c.duplicate()),
                None => None,
            },
            glob_configs: duplicate_globs(&self.glob_configs),
        }
    }
}

} // verus!
