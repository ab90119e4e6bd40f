//! The walk over an asset directory that yields each entry to compile with its
//! configuration.
//!
//! The walk goes depth first. Entries that are symbolic links, configuration files
//! (`*__config__.toml`) and ignore files (`__ignore__`) are skipped, and so are the
//! entries that the ignore files of their directory or of a directory above it
//! ignore, the deepest ignore file that has a say deciding. Each directory may have
//! a configuration (`__config__.toml`), merged over the configuration of the
//! directory above it; each file gets the configuration of its directory, with the
//! glob configurations that match its path merged over it (the first one winning)
//! and the configuration of its own configuration file over all of them.
//!
//! Reading directories and files is left to the caller, which drives the walk:
//! [`Walk::next_read`] says which directory to read next, [`Walk::finish_dir`],
//! [`Walk::skip_entry`], [`Walk::enter_dir`] and [`Walk::entry_config`] take what
//! was read.
use crate::config::{
    default_config_view, merge_config, merge_dir_config, ConfigView, Configuration, DirConfigView,
    DirectoryConfiguration,
};
use crate::pack_reader::str_equal;
use ignore::gitignore::{Gitignore, GitignoreBuilder};
use vstd::prelude::*;

verus! {

/// Declares `ignore::gitignore::Gitignore`.
#[verifier::external_type_specification]
#[verifier::external_body]
pub struct ExGitignore(Gitignore);

/// Declares `ignore::gitignore::GitignoreBuilder`.
#[verifier::external_type_specification]
#[verifier::external_body]
pub struct ExGitignoreBuilder(GitignoreBuilder);

/// What an ignore file says of a path.
#[derive(Clone, Copy, Debug, PartialEq, Eq, Structural)]
pub enum IgnoreMatch {
    /// No pattern matched.
    Nothing,
    /// The path is ignored.
    Ignore,
    /// The path is explicitly kept.
    Whitelist,
}

/// A pattern of an ignore matcher: its text as written (`Glob::original`), and
/// whether it was added to match case-insensitively and to allow an unclosed
/// character class (the builder's options when it was added).
pub type IgnoreGlob = (Seq<char>, bool, bool);

/// The patterns an ignore matcher holds, in the order they were added.
pub uninterp spec fn gitignore_globs(ignore: Gitignore) -> Seq<IgnoreGlob>;

/// The bytes of the root path of an ignore matcher, which the paths it is asked
/// about are matched relative to.
pub uninterp spec fn gitignore_root(ignore: Gitignore) -> Seq<u8>;

/// The patterns an ignore matcher builder holds, in the order they were added.
pub uninterp spec fn builder_globs(builder: GitignoreBuilder) -> Seq<IgnoreGlob>;

/// The bytes of a builder's root path, and its options: whether it adds patterns
/// that match case-insensitively, and whether it allows an unclosed character
/// class.
pub uninterp spec fn builder_settings(builder: GitignoreBuilder) -> (Seq<u8>, bool, bool);

/// The pattern text that adding `line` to a builder with the given options adds
/// (the line with its trailing blanks trimmed), or `None` when it adds none: a
/// blank line, a comment, or a line that does not parse as a glob.
pub uninterp spec fn ignore_line_glob(line: Seq<char>, case_insensitive: bool, allow_unclosed: bool) -> Option<Seq<char>>;

/// Whether the glob set of the patterns `globs` can be built.
pub uninterp spec fn gitignore_builds(globs: Seq<IgnoreGlob>) -> bool;

/// What a matcher with root `root` and patterns `globs` says of `path` (a
/// directory when `is_dir`): the last pattern that matches the path, relative to
/// the root, decides.
pub uninterp spec fn ignore_answer(root: Seq<u8>, globs: Seq<IgnoreGlob>, path: Seq<char>, is_dir: bool) -> IgnoreMatch;

/// The content of an ignore matcher: its root and its patterns.
pub open spec fn ignore_view(ignore: Gitignore) -> (Seq<u8>, Seq<IgnoreGlob>) {
    (gitignore_root(ignore), gitignore_globs(ignore))
}

/// The patterns that adding `lines` one after another to a builder with the given
/// options adds.
pub open spec fn added_globs(lines: Seq<Seq<char>>, case_insensitive: bool, allow_unclosed: bool) -> Seq<IgnoreGlob>
    decreases lines.len(),
{
    if lines.len() == 0 {
        seq![]
    } else {
        let prev = added_globs(lines.drop_last(), case_insensitive, allow_unclosed);
        match ignore_line_glob(lines.last(), case_insensitive, allow_unclosed) {
            Some(t) => prev.push((t, case_insensitive, allow_unclosed)),
            None => prev,
        }
    }
}

/// Makes an ignore matcher that matches nothing, with `Gitignore::empty`.
///
/// Trusted: the matcher holds no pattern and its root is the empty path.
#[verifier::external_body]
fn empty_gitignore() -> (r: Gitignore)
    ensures
        gitignore_globs(r) == Seq::<IgnoreGlob>::empty(),
        gitignore_root(r) == Seq::<u8>::empty(),
{
    Gitignore::empty()
}

/// Asks an ignore matcher about a path with `Gitignore::matched`.
///
/// Trusted: the answer is `ignore_answer` of the matcher's root and patterns,
/// the path and `is_dir`; a matcher that holds no pattern matches nothing.
#[verifier::external_body]
fn gitignore_matched(ignore: &Gitignore, path: &str, is_dir: bool) -> (r: IgnoreMatch)
    ensures
        r == ignore_answer(gitignore_root(*ignore), gitignore_globs(*ignore), path@, is_dir),
        gitignore_globs(*ignore).len() == 0 ==> r == IgnoreMatch::Nothing,
{
    match ignore.matched(path, is_dir) {
        ignore::Match::None => IgnoreMatch::Nothing,
        ignore::Match::Ignore(_) => IgnoreMatch::Ignore,
        ignore::Match::Whitelist(_) => IgnoreMatch::Whitelist,
    }
}

/// Adds one pattern line with `GitignoreBuilder::add_line`, and tells whether it
/// parsed.
///
/// Trusted: the builder's root and options stay; the pattern that the line gives
/// (`ignore_line_glob`), if any, is added after the others, with the builder's
/// options.
#[verifier::external_body]
fn gitignore_add_line(builder: &mut GitignoreBuilder, line: &str) -> (r: bool)
    ensures
        builder_settings(*final(builder)) == builder_settings(*old(builder)),
        builder_globs(*final(builder)) == match ignore_line_glob(
            line@,
            builder_settings(*old(builder)).1,
            builder_settings(*old(builder)).2,
        ) {
            Some(t) => builder_globs(*old(builder)).push(
                (t, builder_settings(*old(builder)).1, builder_settings(*old(builder)).2),
            ),
            None => builder_globs(*old(builder)),
        },
        !r ==> ignore_line_glob(line@, builder_settings(*old(builder)).1, builder_settings(*old(builder)).2) is None,
{
    builder.add_line(None, line).is_ok()
}

/// Builds the ignore matcher with `GitignoreBuilder::build`.
///
/// Trusted: it builds exactly when the glob set of the builder's patterns can be
/// built (a builder without patterns always builds, into a matcher with an empty
/// root); the matcher holds the builder's patterns and, when it has any, the
/// builder's root.
#[verifier::external_body]
fn gitignore_build(builder: &GitignoreBuilder) -> (r: Option<Gitignore>)
    ensures
        r is Some <==> gitignore_builds(builder_globs(*builder)),
        builder_globs(*builder).len() == 0 ==> r is Some,
        r matches Some(g) ==> gitignore_globs(g) == builder_globs(*builder),
        r matches Some(g) ==> gitignore_root(g) == if builder_globs(*builder).len() == 0 {
            Seq::<u8>::empty()
        } else {
            builder_settings(*builder).0
        },
{
    match builder.build() {
        Ok(ignore) => Some(ignore),
        Err(_) => None,
    }
}

/// The matcher that building the patterns `globs` on the root `root` gives, as
/// [`gitignore_build`] states it: none when the glob set cannot be built.
pub open spec fn built_ignore(root: Seq<u8>, globs: Seq<IgnoreGlob>) -> Option<(Seq<u8>, Seq<IgnoreGlob>)> {
    if gitignore_builds(globs) || globs.len() == 0 {
        Some((if globs.len() == 0 { Seq::<u8>::empty() } else { root }, globs))
    } else {
        None
    }
}

/// The view of an optional ignore matcher.
pub open spec fn opt_ignore_view(ignore: Option<Gitignore>) -> Option<(Seq<u8>, Seq<IgnoreGlob>)> {
    match ignore {
        Some(g) => Some(ignore_view(g)),
        None => None,
    }
}

/// Finishes the ignore matcher of a directory whose ignore file has been read into
/// `builder` (absent when the directory has no ignore file), adding the extra
/// patterns `extra_ignores` after those of the file: each line that parses adds
/// its pattern, a line that does not is left out; a matcher that cannot be built
/// gives none.
pub fn get_ignore_with_extra(builder: Option<GitignoreBuilder>, extra_ignores: &[&str]) -> (r: Option<Gitignore>)
    ensures
        match builder {
            None => r is None,
            Some(b) => opt_ignore_view(r) == built_ignore(
                builder_settings(b).0,
                builder_globs(b) + added_globs(
                    extra_ignores@.map_values(|l: &str| l@),
                    builder_settings(b).1,
                    builder_settings(b).2,
                ),
            ),
        },
{
    match builder {
        None => None,
        Some(mut builder) => {
            let ghost b0 = builder_globs(builder);
            let ghost st = builder_settings(builder);
            let ghost lines = extra_ignores@.map_values(|l: &str| l@);
            let mut i: usize = 0;
            proof {
                assert(lines.take(0) =~= Seq::<Seq<char>>::empty());
                assert(b0 + added_globs(lines.take(0), st.1, st.2) =~= b0);
            }
            while i < extra_ignores.len()
                invariant
                    i <= extra_ignores@.len(),
                    lines == extra_ignores@.map_values(|l: &str| l@),
                    builder_settings(builder) == st,
                    builder_globs(builder) == b0 + added_globs(lines.take(i as int), st.1, st.2),
                decreases extra_ignores@.len() - i,
            {
                let _accepted = gitignore_add_line(&mut builder, extra_ignores[i]);
                proof {
                    assert(lines.take(i + 1).drop_last() =~= lines.take(i as int));
                    assert(lines.take(i + 1).last() == extra_ignores@[i as int]@);
                    let prev = added_globs(lines.take(i as int), st.1, st.2);
                    match ignore_line_glob(extra_ignores@[i as int]@, st.1, st.2) {
                        Some(t) => {
                            assert(b0 + prev.push((t, st.1, st.2)) =~= (b0 + prev).push((t, st.1, st.2)));
                        },
                        None => {},
                    }
                }
                i = i + 1;
            }
            proof {
                assert(lines.take(i as int) =~= lines);
            }
            gitignore_build(&builder)
        },
    }
}

/// Finishes the ignore matcher of a directory, without extra patterns.
pub fn get_ignore(builder: Option<GitignoreBuilder>) -> (r: Option<Gitignore>)
    ensures
        match builder {
            None => r is None,
            Some(b) => opt_ignore_view(r) == built_ignore(builder_settings(b).0, builder_globs(b)),
        },
{
    let ghost bg = builder;
    let r = get_ignore_with_extra(builder, &[]);
    proof {
        let e: &[&str] = &[];
        assert(e@.map_values(|l: &str| l@) =~= Seq::<Seq<char>>::empty());
        if bg is Some {
            assert(builder_globs(bg->0) + added_globs(Seq::<Seq<char>>::empty(), builder_settings(bg->0).1, builder_settings(bg->0).2) =~= builder_globs(bg->0));
        }
    }
    r
}

/// Whether a path is ignored, given what each ignore file in effect says of it,
/// the deepest first: the first one that says something decides.
pub open spec fn ignore_verdict(matches: Seq<IgnoreMatch>) -> bool
    decreases matches.len(),
{
    if matches.len() == 0 {
        false
    } else if matches[0] == IgnoreMatch::Nothing {
        ignore_verdict(matches.drop_first())
    } else {
        matches[0] == IgnoreMatch::Ignore
    }
}

/// Decides whether a path is ignored from what the ignore files say of it, the
/// deepest first.
pub fn decide_ignored(matches: &Vec<IgnoreMatch>) -> (r: bool)
    ensures
        r == ignore_verdict(matches@),
{
    let mut i: usize = 0;
    proof {
        assert(matches@.skip(0) =~= matches@);
    }
    while i < matches.len()
        invariant
            i <= matches@.len(),
            ignore_verdict(matches@) == ignore_verdict(matches@.skip(i as int)),
        decreases matches@.len() - i,
    {
        proof {
            assert(matches@.skip(i as int)[0] == matches@[i as int]);
            assert(matches@.skip(i as int).drop_first() =~= matches@.skip(i + 1));
        }
        if matches[i] != IgnoreMatch::Nothing {
            return matches[i] == IgnoreMatch::Ignore;
        }
        i = i + 1;
    }
    proof {
        assert(matches@.skip(i as int).len() == 0);
    }
    false
}

/// Whether a file name is that of a configuration file or an ignore file.
pub open spec fn special_name(name: Seq<char>) -> bool {
    "__config__.toml"@.is_suffix_of(name) || name == "__ignore__"@
}

/// Whether a file name is that of a configuration file or an ignore file.
fn is_special_name(name: &str) -> (r: bool)
    ensures
        r == special_name(name@),
{
    proof {
        reveal_strlit("__config__.toml");
        reveal_strlit("__ignore__");
    }
    let n = name.unicode_len();
    if str_equal(name, "__ignore__") {
        return true;
    }
    if n < 15 {
        return false;
    }
    let tail = name.substring_char(n - 15, n);
    let r = str_equal(tail, "__config__.toml");
    proof {
        if "__config__.toml"@.is_suffix_of(name@) {
            assert(name@.subrange(n - 15, n as int) =~= "__config__.toml"@);
        }
        if r {
            assert(name@.subrange(name@.len() - 15, name@.len() as int) == "__config__.toml"@);
        }
    }
    r
}

/// A node of the walk's stack: a directory being read (by the handle the caller
/// keeps it under), or a change of the ignore files or configuration in effect to
/// make once the nodes above it are done.
pub enum ProcessNode {
    /// A directory being read.
    ReadDir(u64),
    /// The ignore files in effect from now on, by position.
    IgnoreChange { new_indices: Vec<usize> },
    /// The configuration in effect from now on, by position.
    ConfigChange { new_index: usize },
}

/// The content of a [`ProcessNode`].
pub enum NodeView {
    ReadDir(u64),
    IgnoreChange(Seq<usize>),
    ConfigChange(usize),
}

/// The content of a node.
pub open spec fn node_view(n: ProcessNode) -> NodeView {
    match n {
        ProcessNode::ReadDir(h) => NodeView::ReadDir(h),
        ProcessNode::IgnoreChange { new_indices } => NodeView::IgnoreChange(new_indices@),
        ProcessNode::ConfigChange { new_index } => NodeView::ConfigChange(new_index),
    }
}

/// The content of a [`Walk`].
pub struct WalkView {
    /// The stack of nodes, the top last.
    pub stack: Seq<NodeView>,
    /// The root and patterns of each ignore matcher the walk holds.
    pub ignores: Seq<(Seq<u8>, Seq<IgnoreGlob>)>,
    /// The directory configurations the walk holds.
    pub configs: Seq<DirConfigView>,
    /// The ignore matchers in effect, by position, the deepest last.
    pub ignore_indices: Seq<usize>,
    /// The directory configuration in effect, by position.
    pub config_index: nat,
}

/// What the ignore matchers in effect say of `path` (a directory when
/// `is_dir`), the deepest first.
pub open spec fn answers_in_effect(v: WalkView, path: Seq<char>, is_dir: bool) -> Seq<IgnoreMatch> {
    Seq::new(
        v.ignore_indices.len(),
        |k: int| {
            let m = v.ignores[v.ignore_indices[v.ignore_indices.len() - 1 - k] as int];
            ignore_answer(m.0, m.1, path, is_dir)
        },
    )
}

/// A depth-first walk over an asset directory.
pub struct Walk {
    process_stack: Vec<ProcessNode>,
    ignores: Vec<Gitignore>,
    configs: Vec<DirectoryConfiguration>,
    current_ignores_indices: Vec<usize>,
    current_config_index: usize,
}

impl View for Walk {
    type V = WalkView;

    closed spec fn view(&self) -> WalkView {
        WalkView {
            stack: self.process_stack@.map_values(|n: ProcessNode| node_view(n)),
            ignores: self.ignores@.map_values(|g: Gitignore| ignore_view(g)),
            configs: self.configs@.map_values(|c: DirectoryConfiguration| c@),
            ignore_indices: self.current_ignores_indices@,
            config_index: self.current_config_index as nat,
        }
    }
}

/// Every position the walk refers to exists, and every directory configuration
/// has a configuration of the directory itself.
pub open spec fn walk_wf(v: WalkView) -> bool {
    &&& v.config_index < v.configs.len()
    &&& forall|i: int| 0 <= i < v.ignore_indices.len() ==> (#[trigger] v.ignore_indices[i]) < v.ignores.len()
    &&& forall|i: int| 0 <= i < v.configs.len() ==> (#[trigger] v.configs[i]).dir_config is Some
    &&& forall|i: int| 0 <= i < v.stack.len() ==> match #[trigger] v.stack[i] {
        NodeView::IgnoreChange(ix) => forall|j: int| 0 <= j < ix.len() ==> (#[trigger] ix[j]) < v.ignores.len(),
        NodeView::ConfigChange(c) => c < v.configs.len(),
        NodeView::ReadDir(_) => true,
    }
}

/// The walk once the changes on top of its stack are made: the top is then a
/// directory being read, or the stack is empty.
pub open spec fn settle(v: WalkView) -> WalkView
    decreases v.stack.len(),
{
    if v.stack.len() == 0 {
        v
    } else {
        match v.stack.last() {
            NodeView::ReadDir(_) => v,
            NodeView::IgnoreChange(ix) => settle(WalkView { stack: v.stack.drop_last(), ignore_indices: ix, ..v }),
            NodeView::ConfigChange(c) => settle(WalkView { stack: v.stack.drop_last(), config_index: c as nat, ..v }),
        }
    }
}

/// The walk after entering a directory read under `handle`, with the patterns of
/// its own ignore matcher and its configuration, if any.
pub open spec fn entered(v: WalkView, handle: u64, ignore: Option<(Seq<u8>, Seq<IgnoreGlob>)>, config: Option<DirConfigView>) -> WalkView {
    let has_ignore = ignore is Some;
    let s1 = if has_ignore { v.stack.push(NodeView::IgnoreChange(v.ignore_indices)) } else { v.stack };
    let s2 = if config is Some { s1.push(NodeView::ConfigChange(v.config_index as usize)) } else { s1 };
    let s3 = s2.push(NodeView::ReadDir(handle));
    let s4 = if config is Some { s3.push(NodeView::ConfigChange(v.configs.len() as usize)) } else { s3 };
    let s5 = if has_ignore { s4.push(NodeView::IgnoreChange(v.ignore_indices.push(v.ignores.len() as usize))) } else { s4 };
    WalkView {
        stack: s5,
        ignores: match ignore {
            Some(g) => v.ignores.push(g),
            None => v.ignores,
        },
        configs: match config {
            Some(c) => v.configs.push(merge_dir_config(c, v.configs[v.config_index as int])),
            None => v.configs,
        },
        ..v
    }
}

/// A name for what matching `path` against the glob pattern `pattern` with the
/// `glob` crate gives: `None` when the pattern does not parse, else whether it
/// matches.
pub uninterp spec fn glob_match(pattern: Seq<char>, path: Seq<char>) -> Option<bool>;

/// Parses `pattern` with `glob::Pattern::new` and matches `path` against it with
/// `Pattern::matches`.
///
/// Trusted: the result depends on the pattern and the path alone; what it is, is
/// named by [`glob_match`] and not stated further.
#[verifier::external_body]
fn glob_pattern_match(pattern: &str, path: &str) -> (r: Option<bool>)
    ensures
        r == glob_match(pattern@, path@),
{
    match glob::Pattern::new(pattern) {
        Ok(p) => Some(p.matches(path)),
        Err(_) => None,
    }
}

/// Whether `path` matches the glob pattern `glob_str`; an invalid pattern matches
/// nothing.
pub fn glob_matches(glob_str: &str, path: &str) -> (r: bool)
    ensures
        r == (glob_match(glob_str@, path@) == Some(true)),
{
    match glob_pattern_match(glob_str, path) {
        Some(m) => m,
        None => false,
    }
}

/// The directory configuration read from the configuration file of the directory
/// `dir` (absent when its path is not valid UTF-8), with every glob pattern made
/// to start from that directory; without a path, the glob configurations are
/// dropped.
pub open spec fn dir_config_in(c: DirConfigView, dir: Option<Seq<char>>) -> DirConfigView {
    match dir {
        None => DirConfigView { glob_configs: seq![], ..c },
        Some(d) => DirConfigView {
            glob_configs: c.glob_configs.map_values(|g: (Seq<char>, ConfigView)| (d + "/"@ + g.0, g.1)),
            ..c
        },
    }
}

/// Places the directory configuration read from the configuration file of the
/// directory `dir` (absent when its path is not valid UTF-8) in that directory:
/// every glob pattern is made to start from it.
pub fn get_dir_config(config: Option<DirectoryConfiguration>, dir: Option<&str>) -> (r: Option<DirectoryConfiguration>)
    ensures
        match config {
            None => r is None,
            Some(c) => r matches Some(rc) && rc@ == dir_config_in(c@, match dir {
                Some(d) => Some(d@),
                None => None,
            }),
        },
{
    let mut config = match config {
        None => {
            return None;
        },
        Some(c) => c,
    };
    match dir {
        None => {
            config.glob_configs = Vec::new();
            proof {
                assert(config@.glob_configs =~= Seq::<(Seq<char>, ConfigView)>::empty());
            }
            Some(config)
        },
        Some(d) => {
            let ghost c0 = config@;
            let mut globs: Vec<(String, Configuration)> = Vec::new();
            std::mem::swap(&mut globs, &mut config.glob_configs);
            let ghost g0 = globs@;
            let n = globs.len();
            let mut out: Vec<(String, Configuration)> = Vec::new();
            let mut i: usize = 0;
            while i < n
                invariant
                    i <= n,
                    n == g0.len(),
                    globs@.len() == n - i,
                    forall|j: int| 0 <= j < globs@.len() ==> (#[trigger] globs@[j]) == g0[i + j],
                    out@.len() == i,
                    forall|j: int| 0 <= j < i ==> (#[trigger] out@[j]).0@ == d@ + "/"@ + g0[j].0@ && out@[j].1@ == g0[j].1@,
                decreases n - i,
            {
                let ghost before = globs@;
                let (pattern, cfg) = globs.remove(0);
                proof {
                    assert(before[0] == g0[i as int]);
                    assert forall|j: int| 0 <= j < globs@.len() implies (#[trigger] globs@[j]) == g0[i + 1 + j] by {
                        assert(globs@[j] == before[j + 1]);
                    }
                }
                let mut full = d.to_owned();
                full.append("/");
                full.append(pattern.as_str());
                out.push((full, cfg));
                i = i + 1;
            }
            config.glob_configs = out;
            proof {
                assert(config@.glob_configs =~= c0.glob_configs.map_values(|g: (Seq<char>, ConfigView)| (d@ + "/"@ + g.0, g.1)));
            }
            Some(config)
        },
    }
}

/// The configuration of a file: its own configuration (or none) over the glob
/// configurations that match its path, the first over the others, over the
/// configuration of its directory.
pub open spec fn entry_config_spec(dir: DirConfigView, path: Seq<char>, file_config: Option<ConfigView>) -> ConfigView {
    merge_config(
        match file_config {
            Some(c) => c,
            None => empty_config_view(),
        },
        fold_globs(matching_globs(dir.glob_configs, path), dir.dir_config->0),
    )
}

/// The configuration that sets nothing.
pub open spec fn empty_config_view() -> ConfigView {
    ConfigView { compression: None, uncooker: None, super_secret_option: None }
}

/// The configurations of the glob patterns that `path` matches, in order.
pub open spec fn matching_globs(globs: Seq<(Seq<char>, ConfigView)>, path: Seq<char>) -> Seq<ConfigView>
    decreases globs.len(),
{
    if globs.len() == 0 {
        seq![]
    } else if glob_match(globs.last().0, path) == Some(true) {
        matching_globs(globs.drop_last(), path).push(globs.last().1)
    } else {
        matching_globs(globs.drop_last(), path)
    }
}

/// The configurations `ms` merged over `base`, the first over all others.
pub open spec fn fold_globs(ms: Seq<ConfigView>, base: ConfigView) -> ConfigView
    decreases ms.len(),
{
    if ms.len() == 0 {
        base
    } else {
        merge_config(ms[0], fold_globs(ms.drop_first(), base))
    }
}

/// The content of an optional directory configuration.
pub open spec fn opt_dir_view(c: Option<DirectoryConfiguration>) -> Option<DirConfigView> {
    match c {
        Some(d) => Some(d@),
        None => None,
    }
}

/// The default directory configuration.
pub open spec fn default_dir_config_view() -> DirConfigView {
    DirConfigView { dir_config: Some(default_config_view()), glob_configs: seq![] }
}

impl Walk {
    /// Starts a walk over an asset directory read under `root_handle`, with the
    /// ignore matcher of its ignore file (none when it has none) and its directory
    /// configuration (the default one when it has none).
    pub fn new(root_handle: u64, root_ignore: Option<Gitignore>, root_config: Option<DirectoryConfiguration>) -> (r: Self)
        requires
            root_config matches Some(c) ==> c.dir_config is Some,
        ensures
            walk_wf(r@),
            r@ == (WalkView {
                stack: seq![NodeView::ReadDir(root_handle)],
                ignores: seq![match root_ignore {
                    Some(g) => ignore_view(g),
                    None => (Seq::<u8>::empty(), Seq::<IgnoreGlob>::empty()),
                }],
                configs: seq![match opt_dir_view(root_config) {
                    Some(c) => c,
                    None => default_dir_config_view(),
                }],
                ignore_indices: seq![0usize],
                config_index: 0,
            }),
    {
        let mut process_stack: Vec<ProcessNode> = Vec::new();
        process_stack.push(ProcessNode::ReadDir(root_handle));
        let mut ignores: Vec<Gitignore> = Vec::new();
        let ghost rg = if root_ignore is Some {
            ignore_view(root_ignore->0)
        } else {
            (Seq::<u8>::empty(), Seq::<IgnoreGlob>::empty())
        };
        let ignore = match root_ignore {
            Some(i) => i,
            None => empty_gitignore(),
        };
        assert(ignore_view(ignore) == rg);
        ignores.push(ignore);
        assert(ignores@.map_values(|g: Gitignore| ignore_view(g)) =~= seq![rg]);
        let mut configs: Vec<DirectoryConfiguration> = Vec::new();
        let ghost rc = opt_dir_view(root_config);
        let config = match root_config {
            Some(c) => c,
            None => {
                let d = DirectoryConfiguration::default();
                proof {
                    assert(d@.glob_configs =~= Seq::<(Seq<char>, ConfigView)>::empty());
                    assert(d@ == default_dir_config_view());
                }
                d
            },
        };
        proof {
            assert(config@ == match rc {
                Some(c) => c,
                None => default_dir_config_view(),
            });
        }
        configs.push(config);
        let mut indices: Vec<usize> = Vec::new();
        indices.push(0);
        let r = Walk { process_stack, ignores, configs, current_ignores_indices: indices, current_config_index: 0 };
        proof {
            assert(r@.stack =~= seq![NodeView::ReadDir(root_handle)]);
            assert(r@.configs =~= seq![match rc {
                Some(c) => c,
                None => default_dir_config_view(),
            }]);
            assert(r@.ignore_indices =~= seq![0usize]);
        }
        r
    }

    /// Makes the changes on top of the stack, and returns the handle of the
    /// directory to read next; none when the walk is over.
    pub fn next_read(&mut self) -> (r: Option<u64>)
        requires
            walk_wf(old(self)@),
        ensures
            walk_wf(final(self)@),
            final(self)@ == settle(old(self)@),
            final(self)@.stack.len() == 0 ==> r is None,
            final(self)@.stack.len() > 0 ==> (final(self)@.stack.last() matches NodeView::ReadDir(h) && r == Some(h)),
    {
        loop
            invariant
                walk_wf(self@),
                settle(self@) == settle(old(self)@),
            decreases self@.stack.len(),
        {
            let n = self.process_stack.len();
            if n == 0 {
                return None;
            }
            let ghost v = self@;
            proof {
                assert(v.stack.last() == node_view(self.process_stack@[n - 1]));
            }
            match &self.process_stack[n - 1] {
                ProcessNode::ReadDir(h) => {
                    return Some(*h);
                },
                _ => {},
            }
            let top = self.process_stack.pop();
            match top {
                Some(ProcessNode::IgnoreChange { new_indices }) => {
                    self.current_ignores_indices = new_indices;
                },
                Some(ProcessNode::ConfigChange { new_index }) => {
                    self.current_config_index = new_index;
                },
                _ => {},
            }
            proof {
                assert(self@.stack =~= v.stack.drop_last());
                assert forall|i: int| 0 <= i < self@.stack.len() implies match #[trigger] self@.stack[i] {
                    NodeView::IgnoreChange(ix) => forall|j: int| 0 <= j < ix.len() ==> (#[trigger] ix[j]) < self@.ignores.len(),
                    NodeView::ConfigChange(c) => c < self@.configs.len(),
                    NodeView::ReadDir(_) => true,
                } by {
                    assert(self@.stack[i] == v.stack[i]);
                }
                assert(v.stack[v.stack.len() - 1] == v.stack.last());
            }
        }
    }

    /// Done reading the directory on top of the stack.
    pub fn finish_dir(&mut self)
        requires
            walk_wf(old(self)@),
            old(self)@.stack.len() > 0,
            old(self)@.stack.last() is ReadDir,
        ensures
            walk_wf(final(self)@),
            final(self)@ == (WalkView { stack: old(self)@.stack.drop_last(), ..old(self)@ }),
    {
        let ghost v = self@;
        self.process_stack.pop();
        proof {
            assert(self@.stack =~= v.stack.drop_last());
            assert forall|i: int| 0 <= i < self@.stack.len() implies match #[trigger] self@.stack[i] {
                NodeView::IgnoreChange(ix) => forall|j: int| 0 <= j < ix.len() ==> (#[trigger] ix[j]) < self@.ignores.len(),
                NodeView::ConfigChange(c) => c < self@.configs.len(),
                NodeView::ReadDir(_) => true,
            } by {
                assert(self@.stack[i] == v.stack[i]);
            }
        }
    }

    /// Whether to skip an entry of the directory being read, named `file_name`
    /// (absent when not valid UTF-8) at `path`: symbolic links, configuration and
    /// ignore files are skipped, and so are the entries that the ignore matchers
    /// in effect ignore, the deepest one that has a say deciding.
    pub fn skip_entry(&self, file_name: Option<&str>, path: &str, is_symlink: bool, is_dir: bool) -> (r: bool)
        requires
            walk_wf(self@),
        ensures
            is_symlink ==> r,
            (file_name matches Some(n) && special_name(n@)) ==> r,
            !is_symlink && !(file_name matches Some(n) && special_name(n@)) ==> r == ignore_verdict(
                answers_in_effect(self@, path@, is_dir),
            ),
    {
        if is_symlink {
            return true;
        }
        match file_name {
            Some(name) => {
                if is_special_name(name) {
                    return true;
                }
            },
            None => {},
        }
        let ghost ans = answers_in_effect(self@, path@, is_dir);
        let mut matches: Vec<IgnoreMatch> = Vec::new();
        let n = self.current_ignores_indices.len();
        let mut k = n;
        while k > 0
            invariant
                k <= n,
                n == self.current_ignores_indices@.len(),
                walk_wf(self@),
                ans == answers_in_effect(self@, path@, is_dir),
                matches@.len() == n - k,
                forall|j: int| 0 <= j < matches@.len() ==> matches@[j] == #[trigger] ans[j],
            decreases k,
        {
            k = k - 1;
            let index = self.current_ignores_indices[k];
            proof {
                assert(self@.ignore_indices[k as int] == index);
                assert(self@.ignores[index as int] == ignore_view(self.ignores@[index as int]));
            }
            let m = gitignore_matched(&self.ignores[index], path, is_dir);
            matches.push(m);
        }
        let r = decide_ignored(&matches);
        proof {
            assert(matches@ =~= ans);
        }
        r
    }

    /// Enters a directory that is read under `handle`, with its ignore matcher and
    /// its directory configuration, if it has them; the configuration is merged
    /// over that of the directory above it. Once the directory is read, the ignore
    /// matchers and configuration in effect before are restored.
    pub fn enter_dir(&mut self, handle: u64, ignore: Option<Gitignore>, config: Option<DirectoryConfiguration>)
        requires
            walk_wf(old(self)@),
        ensures
            walk_wf(final(self)@),
            final(self)@ == entered(old(self)@, handle, match ignore {
                Some(g) => Some(ignore_view(g)),
                None => None,
            }, opt_dir_view(config)),
    {
        let ghost v = self@;
        let ghost cv = opt_dir_view(config);
        let ghost ig = if ignore is Some {
            Some(ignore_view(ignore->0))
        } else {
            None
        };
        let has_ignore = ignore.is_some();
        let has_config = config.is_some();
        if has_ignore {
            let saved = clone_indices(&self.current_ignores_indices);
            self.process_stack.push(ProcessNode::IgnoreChange { new_indices: saved });
        }
        if has_config {
            self.process_stack.push(ProcessNode::ConfigChange { new_index: self.current_config_index });
        }
        self.process_stack.push(ProcessNode::ReadDir(handle));
        match config {
            Some(mut c) => {
                let parent = self.configs[self.current_config_index].duplicate();
                c.merge(parent);
                let new_index = self.configs.len();
                self.configs.push(c);
                self.process_stack.push(ProcessNode::ConfigChange { new_index });
            },
            None => {},
        }
        match ignore {
            Some(i) => {
                let mut new_indices = clone_indices(&self.current_ignores_indices);
                new_indices.push(self.ignores.len());
                self.ignores.push(i);
                self.process_stack.push(ProcessNode::IgnoreChange { new_indices });
            },
            None => {},
        }
        proof {
            let e = entered(v, handle, ig, cv);
            assert(self@.ignores =~= e.ignores);
            assert(self@.stack =~= e.stack);
            assert(self@.configs =~= e.configs);
            assert forall|i: int| 0 <= i < self@.stack.len() implies match #[trigger] self@.stack[i] {
                NodeView::IgnoreChange(ix) => forall|j: int| 0 <= j < ix.len() ==> (#[trigger] ix[j]) < self@.ignores.len(),
                NodeView::ConfigChange(c) => c < self@.configs.len(),
                NodeView::ReadDir(_) => true,
            } by {
                if i < v.stack.len() {
                    assert(self@.stack[i] == v.stack[i]);
                }
            }
            assert forall|i: int| 0 <= i < self@.configs.len() implies (#[trigger] self@.configs[i]).dir_config is Some by {
                if i < v.configs.len() {
                    assert(self@.configs[i] == v.configs[i]);
                }
            }
        }
    }

    /// The configuration of an entry at `path` of the directory being read, given
    /// the configuration of its own configuration file, if any.
    pub fn entry_config(&self, path: &str, file_config: Option<Configuration>) -> (r: Configuration)
        requires
            walk_wf(self@),
        ensures
            r@ == entry_config_spec(self@.configs[self@.config_index as int], path@, match file_config {
                Some(c) => Some(c@),
                None => None,
            }),
    {
        let dir = &self.configs[self.current_config_index];
        let ghost dv = dir@;
        proof {
            assert(dv == self@.configs[self@.config_index as int]);
        }
        let mut matching: Vec<Configuration> = Vec::new();
        let mut i: usize = 0;
        let n = dir.glob_configs.len();
        while i < n
            invariant
                i <= n,
                n == dir.glob_configs@.len(),
                dv == dir@,
                matching@.map_values(|c: Configuration| c@) == matching_globs(dv.glob_configs.take(i as int), path@),
            decreases n - i,
        {
            proof {
                assert(dv.glob_configs.take(i + 1).drop_last() =~= dv.glob_configs.take(i as int));
                assert(dv.glob_configs[i as int] == (dir.glob_configs@[i as int].0@, dir.glob_configs@[i as int].1@));
            }
            if glob_matches(dir.glob_configs[i].0.as_str(), path) {
                let ghost mb = matching@;
                let c = dir.glob_configs[i].1.duplicate();
                matching.push(c);
                proof {
                    assert(matching@.map_values(|c: Configuration| c@) =~= mb.map_values(|c: Configuration| c@).push(c@));
                }
            }
            i = i + 1;
        }
        proof {
            assert(dv.glob_configs.take(n as int) =~= dv.glob_configs);
        }
        let ghost ms = matching@.map_values(|c: Configuration| c@);
        let mut previous = match &dir.dir_config {
            Some(c) => c.duplicate(),
            None => Configuration::empty(),
        };
        proof {
            assert(dv.dir_config is Some);
            assert(ms.skip(ms.len() as int) =~= Seq::<ConfigView>::empty());
        }
        let mut k = matching.len();
        while k > 0
            invariant
                k <= ms.len(),
                matching@.len() == k,
                forall|j: int| 0 <= j < k ==> (#[trigger] matching@[j])@ == ms[j],
                previous@ == fold_globs(ms.skip(k as int), dv.dir_config->0),
            decreases k,
        {
            let mut g = match matching.pop() {
                Some(g) => g,
                None => {
                    return Configuration::empty();
                },
            };
            k = k - 1;
            proof {
                assert(g@ == ms[k as int]);
                assert(ms.skip(k as int).drop_first() =~= ms.skip(k + 1));
                assert(ms.skip(k as int)[0] == ms[k as int]);
            }
            g.merge(previous);
            previous = g;
        }
        proof {
            assert(ms.skip(0) =~= ms);
        }
        let mut result = match file_config {
            Some(c) => c,
            None => Configuration::empty(),
        };
        result.merge(previous);
        result
    }
}

/// A copy of a list of positions.
fn clone_indices(v: &Vec<usize>) -> (r: Vec<usize>)
    ensures
        r@ == v@,
{
    let mut out: Vec<usize> = Vec::new();
    let mut i: usize = 0;
    while i < v.len()
        invariant
            i <= v@.len(),
            out@ == v@.take(i as int),
        decreases v@.len() - i,
    {
        out.push(v[i]);
        i = i + 1;
        proof {
            assert(out@ =~= v@.take(i as int));
        }
    }
    proof {
        assert(v@.take(v@.len() as int) =~= v@);
    }
    out
}

} // verus!
