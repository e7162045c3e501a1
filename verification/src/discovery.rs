//! Discovery of configuration files: the source abstraction handing a unit's
//! path and contents over, the hidden-file and extension filters, and the
//! ignore-glob filter.

use vstd::prelude::*;

use crate::strings::{ends_with, str_ends_with};

verus! {

/// One configuration unit, wherever it lives: it has a path identifier and
/// its text can be fetched, which may fail. Implementations decide both; the
/// library states nothing about what they hand back.
pub trait File {
    /// The unit's path identifier.
    fn path(&self) -> String;

    /// The unit's text, or a message describing why it could not be read.
    fn get_contents(&self) -> Result<String, String>;
}

/// How discovery treats one configuration unit by its name; a name beginning
/// with a dot is hidden.
pub enum EntryAction {
    /// Leave the entry out.
    Skip,
    /// Recurse into the directory.
    Descend,
    /// Keep the file as a discovered unit.
    Keep,
}

/// A name is hidden when it begins with a dot.
pub open spec fn is_hidden_name(name: Seq<char>) -> bool {
    name.len() > 0 && name[0] == '.'
}

/// Discovery's decision for a directory entry: hidden entries are skipped,
/// directories are descended into, and of the rest only `.tf` files are kept.
pub open spec fn entry_action_spec(name: Seq<char>, is_dir: bool) -> EntryAction {
    if is_hidden_name(name) {
        EntryAction::Skip
    } else if is_dir {
        EntryAction::Descend
    } else if !ends_with(name, ".tf"@) {
        EntryAction::Skip
    } else {
        EntryAction::Keep
    }
}

/// Options a discovery run is configured with.
pub struct DiscoveryOptions {
    /// Paths matching this glob pattern are left out.
    pub ignore: Option<String>,
}

impl DiscoveryOptions {
    /// Wraps the optional ignore pattern.
    pub fn new(ignore: Option<String>) -> (r: Self)
        ensures
            r.ignore == ignore,
    {
        DiscoveryOptions { ignore }
    }
}

/// A failure while walking the local filesystem.
pub enum LocalDiscoveryError {
    /// The root path does not exist or has the wrong kind.
    PathError(String),
    /// A directory could not be read; the message says why.
    ReadDirError(String),
    /// The ignore pattern does not compile; the message says why.
    GlobError(String),
}

/// A failure of a discovery run, by where it arose.
pub enum DiscoveryError {
    /// Walking the local filesystem failed.
    LocalDiscoveryError(LocalDiscoveryError),
    /// Listing a remote repository failed; the message says why.
    GithubDiscoveryError(String),
}

/// Walks a local directory tree for configuration files. The walk itself
/// does I/O and lives with the caller; the decisions it takes per entry are
/// here, in `classify_entry`.
pub struct LocalDiscoverer {
    /// The root path the walk starts from.
    pub source: String,
}

impl LocalDiscoverer {
    /// A discoverer rooted at the given path.
    pub fn new(source: &str) -> (r: Self)
        ensures
            r.source@ == source@,
    {
        LocalDiscoverer { source: source.to_owned() }
    }

    /// The decision for one directory entry: skip hidden names, descend into
    /// directories, keep `.tf` files, and skip everything else.
    pub fn classify_entry(file_name: &str, is_dir: bool) -> (r: EntryAction)
        ensures
            r == entry_action_spec(file_name@, is_dir),
    {
        let hidden = file_name.unicode_len() > 0 && file_name.get_char(0) == '.';
        if hidden {
            EntryAction::Skip
        } else if is_dir {
            EntryAction::Descend
        } else if !str_ends_with(file_name, ".tf") {
            EntryAction::Skip
        } else {
            EntryAction::Keep
        }
    }
}

#[verifier::external_type_specification]
#[verifier::external_body]
pub struct ExPattern(glob::Pattern);

/// Whether the glob pattern text compiles; determined by the text alone.
pub uninterp spec fn glob_pattern_valid(p: Seq<char>) -> bool;

/// Whether the glob pattern matches the path text; determined by the two
/// texts alone.
pub uninterp spec fn glob_matches(p: Seq<char>, path: Seq<char>) -> bool;

/// Relies on glob::Pattern::new: the pattern compiles exactly when its text
/// is a well-formed glob, named by `glob_pattern_valid`.
#[verifier::external_body]
fn compile_pattern(s: &str) -> (r: Option<glob::Pattern>)
    ensures
        (r is Some) == glob_pattern_valid(s@),
{
    glob::Pattern::new(s).ok()
}

/// A compiled ignore pattern, kept beside the text it was compiled from.
/// Only `IgnorePattern::new` builds one, so the two always agree.
pub struct IgnorePattern {
    raw: String,
    compiled: glob::Pattern,
}

/// Relies on glob::Pattern::matches: whether the compiled pattern matches
/// the path text. Since the pattern was compiled from its own `text`, the
/// outcome is a function of the two texts alone, named by `glob_matches`.
#[verifier::external_body]
fn pattern_matches(p: &IgnorePattern, path: &str) -> (r: bool)
    ensures
        r == glob_matches(p.text(), path@),
{
    p.compiled.matches(path)
}

impl IgnorePattern {
    /// The pattern text this was compiled from.
    pub closed spec fn text(&self) -> Seq<char> {
        self.raw@
    }

    /// Compiles a pattern, or nothing when the text is not a well-formed
    /// glob (a configuration error, fatal to the whole discovery run).
    pub fn new(s: &str) -> (r: Option<Self>)
        ensures
            (r is Some) == glob_pattern_valid(s@),
            r matches Some(p) ==> p.text() == s@,
    {
        match compile_pattern(s) {
            Some(compiled) => Some(IgnorePattern { raw: s.to_owned(), compiled }),
            None => None,
        }
    }

    /// Whether this pattern matches the path.
    pub fn matches_path(&self, path: &str) -> (r: bool)
        ensures
            r == glob_matches(self.text(), path@),
    {
        pattern_matches(self, path)
    }
}

/// The pattern text an optional ignore pattern carries.
pub open spec fn pattern_text_of(p: Option<&IgnorePattern>) -> Option<Seq<char>> {
    match p {
        Some(q) => Some(q.text()),
        None => None,
    }
}

/// The paths that survive the ignore filter, in order: all of them without a
/// pattern, and those the pattern does not match with one.
pub open spec fn kept_paths(paths: Seq<Seq<char>>, pat: Option<Seq<char>>) -> Seq<Seq<char>>
    decreases paths.len(),
{
    if paths.len() == 0 {
        Seq::empty()
    } else {
        let rest = kept_paths(paths.drop_last(), pat);
        let keep = match pat {
            Some(t) => !glob_matches(t, paths.last()),
            None => true,
        };
        if keep {
            rest.push(paths.last())
        } else {
            rest
        }
    }
}

/// Keeps the paths that the optional ignore pattern does not match, in
/// order.
pub fn filter_ignored(paths: Vec<String>, pattern: Option<&IgnorePattern>) -> (r: Vec<String>)
    ensures
        r.deep_view() == kept_paths(paths.deep_view(), pattern_text_of(pattern)),
{
    let mut r: Vec<String> = Vec::new();
    let n = paths.len();
    let mut i: usize = 0;
    while i < n
        invariant
            i <= n,
            n == paths@.len(),
            r.deep_view() == kept_paths(paths.deep_view().take(i as int), pattern_text_of(pattern)),
        decreases n - i,
    {
        let ghost pre = paths.deep_view().take(i as int);
        let ghost post = paths.deep_view().take(i + 1);
        proof {
            assert(post.drop_last() =~= pre);
            assert(post.last() == paths.deep_view()[i as int]);
        }
        let keep = match pattern {
            Some(p) => !p.matches_path(paths[i].as_str()),
            None => true,
        };
        if keep {
            let ghost old_deep = r.deep_view();
            r.push(paths[i].clone());
            proof {
                assert(r.deep_view() =~= old_deep.push(paths.deep_view()[i as int]));
            }
        }
        i = i + 1;
    }
    proof {
        assert(paths.deep_view().take(n as int) =~= paths.deep_view());
    }
    r
}

} // verus!
