//! Converting assets to their raw forms to store in the asset pack.
use crate::config::{OptionTable, OptionValueView};
use crate::obfuscation::{spec_toggle_obfuscation, toggle_obfuscation};
use vstd::prelude::*;
use vstd::string::StringExecFns;

verus! {

/// Implement this to define how asset files can be converted to their raw forms.
///
/// An implementation promises that its answers are those its spec functions
/// give: an uncooker is a function of the file's data, its extension and the
/// options it is handed. An implementation states them by defining the spec
/// functions; where it does not, they stand for values left unspecified.
pub trait AssetUncooker {
    /// What the uncooker makes of the data `buf` of a file with the extension
    /// `extension`, given the options `options`; `None` when it does not accept
    /// the options.
    closed spec fn spec_uncook(&self, buf: Seq<u8>, extension: Seq<char>, options: Seq<(Seq<char>, OptionValueView)>) -> Option<Seq<u8>> {
        arbitrary()
    }

    /// The extension the uncooker converts to.
    closed spec fn spec_target_extension(&self) -> Seq<char> {
        arbitrary()
    }

    /// The extensions the uncooker converts from.
    closed spec fn spec_source_extensions(&self) -> Seq<Seq<char>> {
        arbitrary()
    }

    /// Converts the file stored in `buf` into a vector of bytes as the output.
    ///
    /// # Parameters
    /// - `buf`: Contains the bytes of the file to be uncooked
    /// - `extension`: The extension of the file to be uncooked
    /// - `options`: The options table that the configuration files give for this
    ///   file (empty when they give none)
    ///
    /// Returns `None` when the options are not ones this uncooker accepts.
    fn uncook(&self, buf: &[u8], extension: &str, options: &OptionTable) -> (r: Option<Vec<u8>>)
        ensures
            match self.spec_uncook(buf@, extension@, options@) {
                Some(o) => r matches Some(v) && v@ == o,
                None => r is None,
            },
    ;

    /// The extension without the leading `.` of the raw file to convert to.
    fn target_extension(&self) -> (r: String)
        ensures
            r@ == self.spec_target_extension(),
    ;

    /// The extensions without the leading `.` of the "cooked" (not-raw) files that
    /// this uncooker converts into raw files.
    fn source_extensions(&self) -> (r: Vec<String>)
        ensures
            r@.map_values(|s: String| s@) == self.spec_source_extensions(),
    ;
}

/// A marker for the types that uncookers take their options in.
pub trait UncookerOptions {}

/// Asset Uncooker for .txt files, which obfuscates them.
pub struct TextAssetUncooker;

impl TextAssetUncooker {
    /// What the text uncooker makes of `buf` with the options `options`: the
    /// obfuscated bytes, when no options are given (it takes none).
    pub open spec fn text_uncooked(buf: Seq<u8>, options: OptionTable) -> Option<Seq<u8>> {
        if options.entries@.len() == 0 {
            Some(spec_toggle_obfuscation(buf))
        } else {
            None
        }
    }

    /// Obfuscates `buf` when no options are given.
    pub fn uncook_text(&self, buf: &[u8], options: &OptionTable) -> (r: Option<Vec<u8>>)
        ensures
            r matches Some(v) ==> Self::text_uncooked(buf@, *options) == Some(v@),
            r is None <==> Self::text_uncooked(buf@, *options) is None,
    {
        if options.is_empty() {
            Some(toggle_obfuscation(buf))
        } else {
            None
        }
    }
}

impl AssetUncooker for TextAssetUncooker {
    open spec fn spec_uncook(&self, buf: Seq<u8>, extension: Seq<char>, options: Seq<(Seq<char>, OptionValueView)>) -> Option<Seq<u8>> {
        if options.len() == 0 {
            Some(spec_toggle_obfuscation(buf))
        } else {
            None
        }
    }

    open spec fn spec_target_extension(&self) -> Seq<char> {
        "smap_text"@
    }

    open spec fn spec_source_extensions(&self) -> Seq<Seq<char>> {
        seq!["txt"@]
    }

    fn uncook(&self, buf: &[u8], _extension: &str, options: &OptionTable) -> (r: Option<Vec<u8>>) {
        self.uncook_text(buf, options)
    }

    fn target_extension(&self) -> (r: String) {
        String::from_str("smap_text")
    }

    fn source_extensions(&self) -> (r: Vec<String>) {
        let mut v: Vec<String> = Vec::new();
        v.push(String::from_str("txt"));
        assert(v@.map_values(|s: String| s@) =~= seq!["txt"@]);
        v
    }
}

/// Implement this to define how asset files are processed into what the pack
/// stores.
///
/// An implementation states its answers by defining the spec functions; where
/// it does not, they stand for values left unspecified.
pub trait AssetProcessor {
    /// What the processor makes of the data `buf` of a file with the extension
    /// `extension`, given the options `options`; `None` when processing fails.
    closed spec fn spec_process(&self, buf: Seq<u8>, extension: Seq<char>, options: Seq<(Seq<char>, OptionValueView)>) -> Option<Seq<u8>> {
        arbitrary()
    }

    /// The extension the processor converts to.
    closed spec fn spec_target_extension(&self) -> Seq<char> {
        arbitrary()
    }

    /// The extensions the processor converts from.
    closed spec fn spec_source_extensions(&self) -> Seq<Seq<char>> {
        arbitrary()
    }

    /// Processes the file stored in `buf`, with the extension `extension` and the
    /// options table that the configuration files give for it (empty when they
    /// give none). Returns `None` when processing fails.
    fn process(&self, buf: &[u8], extension: &str, options: &OptionTable) -> (r: Option<Vec<u8>>)
        ensures
            match self.spec_process(buf@, extension@, options@) {
                Some(o) => r matches Some(v) && v@ == o,
                None => r is None,
            },
    ;

    /// The extension without the leading `.` of the processed file.
    fn target_extension(&self) -> (r: String)
        ensures
            r@ == self.spec_target_extension(),
    ;

    /// The extensions without the leading `.` of the files this processor
    /// processes.
    fn source_extensions(&self) -> (r: Vec<String>)
        ensures
            r@.map_values(|s: String| s@) == self.spec_source_extensions(),
    ;
}

/// Asset Processor for .txt files, which obfuscates them.
pub struct TextAssetProcessor;

impl AssetProcessor for TextAssetProcessor {
    open spec fn spec_process(&self, buf: Seq<u8>, extension: Seq<char>, options: Seq<(Seq<char>, OptionValueView)>) -> Option<Seq<u8>> {
        Some(spec_toggle_obfuscation(buf))
    }

    open spec fn spec_target_extension(&self) -> Seq<char> {
        "smap_text"@
    }

    open spec fn spec_source_extensions(&self) -> Seq<Seq<char>> {
        seq!["txt"@]
    }

    fn process(&self, buf: &[u8], _extension: &str, _options: &OptionTable) -> (r: Option<Vec<u8>>) {
        Some(toggle_obfuscation(buf))
    }

    fn target_extension(&self) -> (r: String) {
        String::from_str("smap_text")
    }

    fn source_extensions(&self) -> (r: Vec<String>) {
        let mut v: Vec<String> = Vec::new();
        v.push(String::from_str("txt"));
        assert(v@.map_values(|s: String| s@) =~= seq!["txt"@]);
        v
    }
}

/// A registered processor, held behind a pointer.
struct RegisteredProcessor {
    processor: Box<dyn AssetProcessor>,
}

/// Stores all the asset processors along with ways to look one up, by type name
/// or by extension.
pub struct AssetProcessors {
    processors: Vec<RegisteredProcessor>,
    infos: Vec<UncookerInfo>,
}

impl AssetProcessors {
    /// Each registered processor has its info, at the same position.
    #[verifier::type_invariant]
    closed spec fn registry_inv(self) -> bool {
        self.processors@.len() == self.infos@.len()
    }

    /// What is known of the registered processors, in the order they were registered.
    pub closed spec fn infos(&self) -> Seq<UncookerInfoView> {
        infos_view(self.infos@)
    }

    /// What the processor at `index` answers for the data `buf` of a file with the
    /// extension `extension` and the options `options`.
    pub closed spec fn answer(
        &self,
        index: int,
        buf: Seq<u8>,
        extension: Seq<char>,
        options: Seq<(Seq<char>, OptionValueView)>,
    ) -> Option<Seq<u8>> {
        self.processors@[index].processor.spec_process(buf, extension, options)
    }

    /// An empty registry.
    pub fn new() -> (r: Self)
        ensures
            r.infos() == Seq::<UncookerInfoView>::empty(),
    {
        let r = AssetProcessors { processors: Vec::new(), infos: Vec::new() };
        assert(r.infos() =~= Seq::<UncookerInfoView>::empty());
        r
    }

    /// Adds the provided processor into the registry under `registered_name` (the
    /// name that configuration files select it by: the processor's type name),
    /// with the extensions it reports.
    pub fn register<P: AssetProcessor + 'static>(&mut self, registered_name: String, processor: P)
        ensures
            final(self).infos() == old(self).infos().push(
                UncookerInfoView {
                    registered_name: registered_name@,
                    source_extensions: processor.spec_source_extensions(),
                    target_extension: processor.spec_target_extension(),
                },
            ),
            forall|i: int, b: Seq<u8>, e: Seq<char>, o: Seq<(Seq<char>, OptionValueView)>|
                0 <= i < old(self).infos().len() ==> #[trigger] final(self).answer(i, b, e, o) == old(self).answer(i, b, e, o),
    {
        let info = UncookerInfo {
            registered_name,
            source_extensions: processor.source_extensions(),
            target_extension: processor.target_extension(),
        };
        let entry = RegisteredProcessor { processor: Box::new(processor) };
        let mut tmp = AssetProcessors::new();
        std::mem::swap(self, &mut tmp);
        proof {
            use_type_invariant(&tmp);
        }
        let AssetProcessors { processors: mut ps, infos: mut is } = tmp;
        let ghost old_infos = is@;
        push_entry(&mut ps, entry);
        is.push(info);
        proof {
            assert(is@.drop_last() =~= old_infos);
            assert(infos_view(is@) =~= infos_view(old_infos).push(info@));
        }
        *self = AssetProcessors { processors: ps, infos: is };
    }

    /// Returns the index of the processor registered under a type name, [`None`]
    /// if not found.
    pub fn get_processor_from_type_name(&self, registered_name: &str) -> (r: Option<usize>)
        ensures
            r matches Some(i) ==> Some(i as int) == uncooker_by_name(self.infos(), registered_name@)
                && i < self.infos().len(),
            r is None ==> uncooker_by_name(self.infos(), registered_name@) is None,
    {
        find_by_name(&self.infos, registered_name)
    }

    /// Returns the index of the first processor registered for an extension.
    pub fn get_processor_from_ext(&self, ext: &str) -> (r: Option<usize>)
        ensures
            r matches Some(i) ==> Some(i as int) == uncooker_by_ext(self.infos(), ext@) && i
                < self.infos().len(),
            r is None ==> uncooker_by_ext(self.infos(), ext@) is None,
    {
        find_by_ext(&self.infos, ext)
    }

    /// Returns the type names of the registered processors, each once, in the
    /// order they were first registered.
    pub fn get_processor_typenames(&self) -> (r: Vec<String>)
        ensures
            r@.map_values(|s: String| s@) == distinct_names(names_of(self.infos())),
    {
        registered_names(&self.infos)
    }

    /// Runs the processor at `index` on `buf`, its extension and options, and
    /// returns its answer; `None` if there is no processor at `index` or it fails.
    pub fn process_with(&self, index: usize, buf: &[u8], extension: &str, options: &OptionTable) -> (r: Option<Vec<u8>>)
        ensures
            index >= self.infos().len() ==> r is None,
            index < self.infos().len() ==> match self.answer(index as int, buf@, extension@, options@) {
                Some(o) => r matches Some(v) && v@ == o,
                None => r is None,
            },
    {
        proof {
            use_type_invariant(self);
        }
        if index < self.infos.len() {
            self.processors[index].processor.process(buf, extension, options)
        } else {
            None
        }
    }
}

/// What the registry knows of a registered uncooker.
pub struct UncookerInfo {
    /// The type name it was registered under.
    pub registered_name: String,
    /// The extensions of the files it uncooks.
    pub source_extensions: Vec<String>,
    /// The extension of the files it produces.
    pub target_extension: String,
}

/// The mathematical content of an [`UncookerInfo`].
pub struct UncookerInfoView {
    pub registered_name: Seq<char>,
    pub source_extensions: Seq<Seq<char>>,
    pub target_extension: Seq<char>,
}

impl View for UncookerInfo {
    type V = UncookerInfoView;

    open spec fn view(&self) -> UncookerInfoView {
        UncookerInfoView {
            registered_name: self.registered_name@,
            source_extensions: self.source_extensions@.map_values(|s: String| s@),
            target_extension: self.target_extension@,
        }
    }
}

/// What is known of the registered uncookers or processors, in order.
pub open spec fn infos_view(infos: Seq<UncookerInfo>) -> Seq<UncookerInfoView> {
    infos.map_values(|i: UncookerInfo| i@)
}

/// The names the uncookers or processors were registered under, in order.
pub open spec fn names_of(infos: Seq<UncookerInfoView>) -> Seq<Seq<char>> {
    infos.map_values(|i: UncookerInfoView| i.registered_name)
}

/// The names of `names`, each once, in the order they first occur.
pub open spec fn distinct_names(names: Seq<Seq<char>>) -> Seq<Seq<char>>
    decreases names.len(),
{
    if names.len() == 0 {
        seq![]
    } else {
        let prev = distinct_names(names.drop_last());
        if prev.contains(names.last()) {
            prev
        } else {
            prev.push(names.last())
        }
    }
}

/// The distinct names of `names` hold each name of `names`, and no other, once.
pub proof fn lemma_distinct_names(names: Seq<Seq<char>>)
    ensures
        distinct_names(names).no_duplicates(),
        forall|n: Seq<char>| #[trigger] distinct_names(names).contains(n) <==> names.contains(n),
    decreases names.len(),
{
    if names.len() > 0 {
        let rest = names.drop_last();
        lemma_distinct_names(rest);
        assert forall|n: Seq<char>| #[trigger] distinct_names(names).contains(n) <==> names.contains(n) by {
            if names.contains(n) && n != names.last() {
                let k = choose|k: int| 0 <= k < names.len() && names[k] == n;
                assert(rest[k] == n);
            }
            if rest.contains(n) {
                let k = choose|k: int| 0 <= k < rest.len() && rest[k] == n;
                assert(names[k] == n);
            }
            assert(names[names.len() - 1] == names.last());
            if !distinct_names(rest).contains(names.last()) {
                let d = distinct_names(rest);
                if d.push(names.last()).contains(n) && n != names.last() {
                    let k = choose|k: int| 0 <= k < d.push(names.last()).len() && d.push(names.last())[k] == n;
                    assert(d[k] == n);
                }
                if d.contains(n) {
                    let k = choose|k: int| 0 <= k < d.len() && d[k] == n;
                    assert(d.push(names.last())[k] == n);
                }
                assert(d.push(names.last())[d.len() as int] == names.last());
            }
        }
    }
}

/// The last uncooker registered under `name`.
pub open spec fn uncooker_by_name(infos: Seq<UncookerInfoView>, name: Seq<char>) -> Option<int>
    decreases infos.len(),
{
    if infos.len() == 0 {
        None
    } else if infos.last().registered_name == name {
        Some(infos.len() - 1)
    } else {
        uncooker_by_name(infos.drop_last(), name)
    }
}

/// The first uncooker registered for the extension `ext`.
pub open spec fn uncooker_by_ext(infos: Seq<UncookerInfoView>, ext: Seq<char>) -> Option<int>
    decreases infos.len(),
{
    if infos.len() == 0 {
        None
    } else {
        match uncooker_by_ext(infos.drop_last(), ext) {
            Some(i) => Some(i),
            None => if infos.last().source_extensions.contains(ext) {
                Some(infos.len() - 1)
            } else {
                None
            },
        }
    }
}

/// The uncookers that are found are registered ones.
pub proof fn lemma_found_in_range(infos: Seq<UncookerInfoView>, name: Seq<char>, ext: Seq<char>)
    ensures
        uncooker_by_name(infos, name) matches Some(i) ==> 0 <= i < infos.len(),
        uncooker_by_ext(infos, ext) matches Some(i) ==> 0 <= i < infos.len(),
    decreases infos.len(),
{
    if infos.len() > 0 {
        lemma_found_in_range(infos.drop_last(), name, ext);
    }
}

/// An uncooker found for an extension among the first `k` registered ones is
/// the one found among all of them.
pub proof fn lemma_by_ext_prefix(infos: Seq<UncookerInfoView>, ext: Seq<char>, k: int)
    requires
        0 <= k <= infos.len(),
        uncooker_by_ext(infos.take(k), ext) is Some,
    ensures
        uncooker_by_ext(infos, ext) == uncooker_by_ext(infos.take(k), ext),
    decreases infos.len() - k,
{
    if k < infos.len() {
        assert(infos.take(k + 1).drop_last() =~= infos.take(k));
        lemma_by_ext_prefix(infos, ext, k + 1);
    } else {
        assert(infos.take(k) =~= infos);
    }
}

/// What an uncooker is asked to do: the position of the uncooker, the data of
/// the file, its extension and the options table it is handed.
pub struct UncookRequest<'a> {
    /// The position of the uncooker in the registry.
    pub index: usize,
    /// The data of the file.
    pub data: &'a [u8],
    /// The extension of the file (empty when it has none).
    pub extension: &'a str,
    /// The options table the configuration gives (empty when it gives none).
    pub options: &'a OptionTable,
}

/// A registered uncooker, held behind a pointer.
struct RegisteredUncooker {
    uncooker: Box<dyn AssetUncooker>,
}

/// Appends `entry` to `entries`, leaving the earlier entries as they were.
fn push_entry<T>(entries: &mut Vec<T>, entry: T)
    ensures
        final(entries)@.len() == old(entries)@.len() + 1,
        final(entries)@.last() == entry,
        forall|i: int| 0 <= i < old(entries)@.len() ==> #[trigger] final(entries)@[i] == old(entries)@[i],
{
    entries.push(entry);
}

/// Stores all the asset uncookers along with ways to look one up, e.g. extensions and type names.
pub struct AssetUncookers {
    uncookers: Vec<RegisteredUncooker>,
    infos: Vec<UncookerInfo>,
}

impl AssetUncookers {
    /// Each registered uncooker has its info, at the same position.
    #[verifier::type_invariant]
    closed spec fn registry_inv(self) -> bool {
        self.uncookers@.len() == self.infos@.len()
    }

    /// What is known of the registered uncookers, in the order they were registered.
    pub closed spec fn infos(&self) -> Seq<UncookerInfoView> {
        infos_view(self.infos@)
    }

    /// What the uncooker at `index` answers for the data `buf` of a file with the
    /// extension `extension` and the options `options`.
    pub closed spec fn answer(
        &self,
        index: int,
        buf: Seq<u8>,
        extension: Seq<char>,
        options: Seq<(Seq<char>, OptionValueView)>,
    ) -> Option<Seq<u8>> {
        self.uncookers@[index].uncooker.spec_uncook(buf, extension, options)
    }

    /// An empty registry.
    pub fn new() -> (r: Self)
        ensures
            r.infos() == Seq::<UncookerInfoView>::empty(),
    {
        let r = AssetUncookers { uncookers: Vec::new(), infos: Vec::new() };
        assert(r.infos() =~= Seq::<UncookerInfoView>::empty());
        r
    }

    /// Adds the provided uncooker into the registry under `registered_name` (the
    /// name that configuration files select it by: the uncooker's type name),
    /// with the extensions it reports.
    pub fn register<U: AssetUncooker + 'static>(&mut self, registered_name: String, uncooker: U)
        ensures
            final(self).infos() == old(self).infos().push(
                UncookerInfoView {
                    registered_name: registered_name@,
                    source_extensions: uncooker.spec_source_extensions(),
                    target_extension: uncooker.spec_target_extension(),
                },
            ),
            forall|i: int, b: Seq<u8>, e: Seq<char>, o: Seq<(Seq<char>, OptionValueView)>|
                0 <= i < old(self).infos().len() ==> #[trigger] final(self).answer(i, b, e, o) == old(self).answer(i, b, e, o),
    {
        let info = UncookerInfo {
            registered_name,
            source_extensions: uncooker.source_extensions(),
            target_extension: uncooker.target_extension(),
        };
        let entry = RegisteredUncooker { uncooker: Box::new(uncooker) };
        let mut tmp = AssetUncookers::new();
        std::mem::swap(self, &mut tmp);
        proof {
            use_type_invariant(&tmp);
        }
        let AssetUncookers { uncookers: mut us, infos: mut is } = tmp;
        let ghost old_infos = is@;
        push_entry(&mut us, entry);
        is.push(info);
        proof {
            assert(is@.drop_last() =~= old_infos);
            assert(infos_view(is@) =~= infos_view(old_infos).push(info@));
        }
        *self = AssetUncookers { uncookers: us, infos: is };
    }

    /// Adds the text uncooker into the registry under `registered_name`: it
    /// uncooks `txt` files into `smap_text` files.
    pub fn register_text_uncooker(&mut self, registered_name: String)
        ensures
            final(self).infos().len() == old(self).infos().len() + 1,
            final(self).infos().drop_last() == old(self).infos(),
            final(self).infos().last() == (UncookerInfoView {
                registered_name: registered_name@,
                source_extensions: seq!["txt"@],
                target_extension: "smap_text"@,
            }),
    {
        self.register(registered_name, TextAssetUncooker);
        assert(final(self).infos().drop_last() =~= old(self).infos());
    }

    /// Returns the index of the uncooker registered under a type name, [`None`] if not found.
    pub fn get_uncooker_from_type_name(&self, registered_name: &str) -> (r: Option<usize>)
        ensures
            r matches Some(i) ==> Some(i as int) == uncooker_by_name(self.infos(), registered_name@)
                && i < self.infos().len(),
            r is None ==> uncooker_by_name(self.infos(), registered_name@) is None,
    {
        find_by_name(&self.infos, registered_name)
    }

    /// Returns the index of the first uncooker registered for an extension.
    pub fn get_uncooker_from_ext(&self, ext: &str) -> (r: Option<usize>)
        ensures
            r matches Some(i) ==> Some(i as int) == uncooker_by_ext(self.infos(), ext@) && i
                < self.infos().len(),
            r is None ==> uncooker_by_ext(self.infos(), ext@) is None,
    {
        find_by_ext(&self.infos, ext)
    }

    /// Returns the type names of the registered uncookers, each once, in the
    /// order they were first registered.
    pub fn get_uncooker_typenames(&self) -> (r: Vec<String>)
        ensures
            r@.map_values(|s: String| s@) == distinct_names(names_of(self.infos())),
    {
        registered_names(&self.infos)
    }

    /// Whether the uncooker at `index` uncooks files with the extension `ext`.
    pub fn supports_extension(&self, index: usize, ext: &str) -> (r: bool)
        requires
            index < self.infos().len(),
        ensures
            r == self.infos()[index as int].source_extensions.contains(ext@),
    {
        has_source_extension(&self.infos, index, ext)
    }

    /// The target extension of the uncooker at `index`.
    pub fn target_extension_of(&self, index: usize) -> (r: &String)
        requires
            index < self.infos().len(),
        ensures
            r@ == self.infos()[index as int].target_extension,
    {
        target_extension_at(&self.infos, index)
    }


    /// Runs the uncooker that `request` names on its data, extension and options,
    /// exactly as the request holds them, and returns its answer; `None` if there
    /// is no uncooker at that index or it does not accept the options.
    pub fn uncook_with(&self, request: &UncookRequest) -> (r: Option<Vec<u8>>)
        ensures
            request.index >= self.infos().len() ==> r is None,
            request.index < self.infos().len() ==> match self.answer(
                request.index as int,
                request.data@,
                request.extension@,
                request.options@,
            ) {
                Some(o) => r matches Some(v) && v@ == o,
                None => r is None,
            },
    {
        proof {
            use_type_invariant(self);
        }
        let index = request.index;
        if index < self.infos.len() {
            self.uncookers[index].uncooker.uncook(request.data, request.extension, request.options)
        } else {
            None
        }
    }
}

/// Returns the index of the uncooker registered under a type name, [`None`] if not found.
fn find_by_name(infos: &Vec<UncookerInfo>, registered_name: &str) -> (r: Option<usize>)
    ensures
        r matches Some(i) ==> Some(i as int) == uncooker_by_name(infos_view(infos@), registered_name@)
            && i < infos_view(infos@).len(),
        r is None ==> uncooker_by_name(infos_view(infos@), registered_name@) is None,
{
    let mut i = infos.len();
    proof {
        lemma_found_in_range(infos_view(infos@), registered_name@, registered_name@);
    }
    assert(infos_view(infos@).take(i as int) =~= infos_view(infos@));
    while i > 0
        invariant
            i <= infos@.len(),
            uncooker_by_name(infos_view(infos@), registered_name@) == uncooker_by_name(infos_view(infos@).take(i as int), registered_name@),
        decreases i,
    {
        let ghost pre = infos_view(infos@).take(i as int);
        assert(pre.drop_last() =~= infos_view(infos@).take(i - 1));
        assert(pre.last() == infos@[i - 1]@);
        if crate::pack_reader::str_equal(infos[i - 1].registered_name.as_str(), registered_name) {
            return Some(i - 1);
        }
        i = i - 1;
    }
    None
}

/// Returns the index of the first uncooker registered for an extension.
fn find_by_ext(infos: &Vec<UncookerInfo>, ext: &str) -> (r: Option<usize>)
    ensures
        r matches Some(i) ==> Some(i as int) == uncooker_by_ext(infos_view(infos@), ext@) && i
            < infos_view(infos@).len(),
        r is None ==> uncooker_by_ext(infos_view(infos@), ext@) is None,
{
    let mut i: usize = 0;
    proof {
        lemma_found_in_range(infos_view(infos@), ext@, ext@);
    }
    while i < infos.len()
        invariant
            i <= infos@.len(),
            uncooker_by_ext(infos_view(infos@).take(i as int), ext@) is None,
        decreases infos.len() - i,
    {
        let exts = &infos[i].source_extensions;
        let mut j: usize = 0;
        let mut found = false;
        while j < exts.len()
            invariant
                j <= exts@.len(),
                found == exists|k: int| 0 <= k < j && exts@[k]@ == ext@,
            decreases exts.len() - j,
        {
            if crate::pack_reader::str_equal(exts[j].as_str(), ext) {
                found = true;
            }
            j = j + 1;
        }
        let ghost pre = infos_view(infos@).take(i + 1);
        assert(pre.drop_last() =~= infos_view(infos@).take(i as int));
        assert(pre.last() == infos@[i as int]@);
        proof {
            let se = infos@[i as int]@.source_extensions;
            if found {
                let k = choose|k: int| 0 <= k < j && exts@[k]@ == ext@;
                assert(se[k] == ext@);
            } else {
                assert forall|k: int| 0 <= k < se.len() implies se[k] != ext@ by {
                    assert(se[k] == exts@[k]@);
                }
            }
        }
        if found {
            proof {
                lemma_by_ext_prefix(infos_view(infos@), ext@, i + 1);
            }
            return Some(i);
        }
        i = i + 1;
    }
    assert(infos_view(infos@).take(i as int) =~= infos_view(infos@));
    None
}

/// Returns the names the entries were registered under, each once, in the order they first occur.
fn registered_names(infos: &Vec<UncookerInfo>) -> (r: Vec<String>)
    ensures
        r@.map_values(|s: String| s@) == distinct_names(names_of(infos_view(infos@))),
{
    let ghost names = names_of(infos_view(infos@));
    let mut out: Vec<String> = Vec::new();
    let mut i: usize = 0;
    assert(names.take(0) =~= Seq::<Seq<char>>::empty());
    assert(out@.map_values(|s: String| s@) =~= Seq::<Seq<char>>::empty());
    while i < infos.len()
        invariant
            i <= infos@.len(),
            names == names_of(infos_view(infos@)),
            out@.map_values(|s: String| s@) == distinct_names(names.take(i as int)),
        decreases infos.len() - i,
    {
        let ghost prev = out@;
        let name = &infos[i].registered_name;
        assert(names[i as int] == name@);
        assert(names.take(i + 1).drop_last() =~= names.take(i as int));
        if !contains_name(&out, name.as_str()) {
            out.push(name.clone());
            assert(out@.map_values(|s: String| s@) =~= prev.map_values(|s: String| s@).push(name@));
        }
        i = i + 1;
    }
    assert(names.take(i as int) =~= names);
    out
}

/// Whether `name` is one of `names`.
fn contains_name(names: &Vec<String>, name: &str) -> (r: bool)
    ensures
        r == names@.map_values(|s: String| s@).contains(name@),
{
    let ghost view = names@.map_values(|s: String| s@);
    let mut j: usize = 0;
    while j < names.len()
        invariant
            j <= names@.len(),
            view == names@.map_values(|s: String| s@),
            forall|k: int| 0 <= k < j ==> view[k] != name@,
        decreases names.len() - j,
    {
        if crate::pack_reader::str_equal(names[j].as_str(), name) {
            assert(view[j as int] == name@);
            return true;
        }
        j = j + 1;
    }
    false
}

/// Whether the uncooker at `index` uncooks files with the extension `ext`.
fn has_source_extension(infos: &Vec<UncookerInfo>, index: usize, ext: &str) -> (r: bool)
    requires
        index < infos_view(infos@).len(),
    ensures
        r == infos_view(infos@)[index as int].source_extensions.contains(ext@),
{
    let exts = &infos[index].source_extensions;
    let ghost se = infos_view(infos@)[index as int].source_extensions;
    assert(se == exts@.map_values(|s: String| s@));
    let mut j: usize = 0;
    while j < exts.len()
        invariant
            j <= exts@.len(),
            se == exts@.map_values(|s: String| s@),
            se == infos_view(infos@)[index as int].source_extensions,
            forall|k: int| 0 <= k < j ==> se[k] != ext@,
        decreases exts.len() - j,
    {
        if crate::pack_reader::str_equal(exts[j].as_str(), ext) {
            assert(se.len() == exts@.len());
            assert(se[j as int] == ext@);
            assert(se.contains(ext@));
            return true;
        }
        j = j + 1;
    }
    false
}

/// The target extension of the uncooker at `index`.
fn target_extension_at(infos: &Vec<UncookerInfo>, index: usize) -> (r: &String)
    requires
        index < infos_view(infos@).len(),
    ensures
        r@ == infos_view(infos@)[index as int].target_extension,
{
    &infos[index].target_extension
}

} // verus!
