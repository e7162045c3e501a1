//! Module references: classification of a module block's `source` string into
//! a typed variant, and the derived display name of each variant.

use vstd::prelude::*;

use crate::strings::{
    contains_seq, final_segment, last_path_segment, starts_with, str_contains, str_starts_with,
    trim, trim_spec,
};

verus! {

/// Mathematical model of a module reference: the variant together with the
/// trimmed source string it retains.
pub enum ModuleRefV {
    Local(Seq<char>),
    Git(Seq<char>),
    S3(Seq<char>),
    Bitbucket(Seq<char>),
    Mercurial(Seq<char>),
    Http(Seq<char>),
    GCS(Seq<char>),
    Registry(Seq<char>),
    Unknown,
}

/// A reference to a module on the local filesystem.
pub struct LocalModuleRef {
    pub source: String,
}

/// A reference to a module in a git repository.
pub struct GitModuleRef {
    pub source: String,
}

/// A classified module reference. Every variant but `Unknown` retains its
/// (trimmed) source string verbatim.
pub enum ModuleRef {
    Local(LocalModuleRef),
    Git(GitModuleRef),
    S3(String),
    Bitbucket(String),
    Mercurial(String),
    Http(String),
    GCS(String),
    Registry(String),
    Unknown,
}

impl View for ModuleRef {
    type V = ModuleRefV;

    open spec fn view(&self) -> ModuleRefV {
        match self {
            ModuleRef::Local(m) => ModuleRefV::Local(m.source@),
            ModuleRef::Git(m) => ModuleRefV::Git(m.source@),
            ModuleRef::S3(s) => ModuleRefV::S3(s@),
            ModuleRef::Bitbucket(s) => ModuleRefV::Bitbucket(s@),
            ModuleRef::Mercurial(s) => ModuleRefV::Mercurial(s@),
            ModuleRef::Http(s) => ModuleRefV::Http(s@),
            ModuleRef::GCS(s) => ModuleRefV::GCS(s@),
            ModuleRef::Registry(s) => ModuleRefV::Registry(s@),
            ModuleRef::Unknown => ModuleRefV::Unknown,
        }
    }
}

impl DeepView for ModuleRef {
    type V = ModuleRefV;

    open spec fn deep_view(&self) -> ModuleRefV {
        self.view()
    }
}

/// A trimmed source is local when it starts with `./` or `../`.
pub open spec fn is_local_source(t: Seq<char>) -> bool {
    starts_with(t, "./"@) || starts_with(t, "../"@)
}

/// A trimmed source is git when it starts with `git::` or mentions
/// `github.com` anywhere.
pub open spec fn is_git_source(t: Seq<char>) -> bool {
    starts_with(t, "git::"@) || contains_seq(t, "github.com"@)
}

/// How a module source string classifies: whitespace is trimmed, then the
/// first matching rule wins, in this order: Local, Git, Bitbucket, Mercurial,
/// S3, GCS, Http, and Registry as the fallback.
pub open spec fn classify_source(s: Seq<char>) -> ModuleRefV {
    let t = trim_spec(s);
    if is_local_source(t) {
        ModuleRefV::Local(t)
    } else if is_git_source(t) {
        ModuleRefV::Git(t)
    } else if starts_with(t, "bitbucket.org"@) {
        ModuleRefV::Bitbucket(t)
    } else if starts_with(t, "hg::"@) {
        ModuleRefV::Mercurial(t)
    } else if starts_with(t, "s3::"@) {
        ModuleRefV::S3(t)
    } else if starts_with(t, "gcs::"@) {
        ModuleRefV::GCS(t)
    } else if starts_with(t, "http::"@) || starts_with(t, "https::"@) {
        ModuleRefV::Http(t)
    } else {
        ModuleRefV::Registry(t)
    }
}

/// `s` without a leading `git::` scheme prefix, when it has one.
pub open spec fn strip_git_prefix(s: Seq<char>) -> Seq<char> {
    if starts_with(s, "git::"@) {
        s.subrange("git::"@.len() as int, s.len() as int)
    } else {
        s
    }
}

/// The final path segment of the URL that `s` parses to, or nothing when `s`
/// is not a URL with path segments. The value is determined by `s` alone.
pub uninterp spec fn url_last_segment(s: Seq<char>) -> Option<Seq<char>>;

/// The display name of a git module reference: the last URL path segment of
/// its source after stripping a leading `git::`, or empty when the source
/// does not parse as a URL.
pub open spec fn git_name_spec(s: Seq<char>) -> Seq<char> {
    match url_last_segment(strip_git_prefix(s)) {
        Some(seg) => seg,
        None => Seq::empty(),
    }
}

/// The display name of a module reference: for Local the final path segment
/// (empty when the path ends in `.` or `..` pieces only),
/// for Git the last URL path segment, for Unknown empty, and the raw source
/// string itself for every other variant.
pub open spec fn module_name_spec(v: ModuleRefV) -> Seq<char> {
    match v {
        ModuleRefV::Local(s) => final_segment(s),
        ModuleRefV::Git(s) => git_name_spec(s),
        ModuleRefV::S3(s) => s,
        ModuleRefV::Bitbucket(s) => s,
        ModuleRefV::Mercurial(s) => s,
        ModuleRefV::Http(s) => s,
        ModuleRefV::GCS(s) => s,
        ModuleRefV::Registry(s) => s,
        ModuleRefV::Unknown => Seq::empty(),
    }
}

/// The module reference a block's `source` attribute value stands for: its
/// classification when the value is a string literal, and Unknown when the
/// attribute is absent or holds some other kind of expression.
pub open spec fn module_of_block_source(v: Option<Seq<char>>) -> ModuleRefV {
    match v {
        Some(s) => classify_source(s),
        None => ModuleRefV::Unknown,
    }
}

/// The source string a module reference retains; empty for `Unknown`.
pub open spec fn module_source_of(v: ModuleRefV) -> Seq<char> {
    match v {
        ModuleRefV::Local(s) => s,
        ModuleRefV::Git(s) => s,
        ModuleRefV::S3(s) => s,
        ModuleRefV::Bitbucket(s) => s,
        ModuleRefV::Mercurial(s) => s,
        ModuleRefV::Http(s) => s,
        ModuleRefV::GCS(s) => s,
        ModuleRefV::Registry(s) => s,
        ModuleRefV::Unknown => Seq::empty(),
    }
}

/// Relies on url::Url::parse and url::Url::path_segments: parses `s` as an
/// absolute URL and hands back its final path segment. The outcome depends
/// on the text of `s` alone, named by `url_last_segment`.
#[verifier::external_body]
fn url_final_path_segment(s: &str) -> (r: Option<String>)
    ensures
        (r is Some) == (url_last_segment(s@) is Some),
        r matches Some(seg) ==> url_last_segment(s@) == Some(seg@),
{
    url::Url::parse(s)
        .ok()
        .as_ref()
        .and_then(|u| u.path_segments())
        .and_then(|mut segments| segments.next_back())
        .map(|segment| segment.to_string())
}

impl LocalModuleRef {
    /// Wraps a local source string.
    pub fn new(source: String) -> (r: Self)
        ensures
            r.source == source,
    {
        LocalModuleRef { source }
    }

    /// The retained source string.
    pub fn source(&self) -> (r: &str)
        ensures
            r@ == self.source@,
    {
        self.source.as_str()
    }

    /// The display name: the final path segment of the source; empty when
    /// the path names no segment (it ends in `.` or `..` pieces only).
    pub fn name(&self) -> (r: String)
        ensures
            r@ == final_segment(self.source@),
    {
        last_path_segment(self.source.as_str())
    }
}

impl GitModuleRef {
    /// Wraps a git source string.
    pub fn new(source: String) -> (r: Self)
        ensures
            r.source == source,
    {
        GitModuleRef { source }
    }

    /// The retained source string.
    pub fn source(&self) -> (r: &str)
        ensures
            r@ == self.source@,
    {
        self.source.as_str()
    }

    /// The display name: the last URL path segment after stripping a leading
    /// `git::`, or empty when the source does not parse as a URL.
    pub fn name(&self) -> (r: String)
        ensures
            r@ == git_name_spec(self.source@),
    {
        let s = self.source.as_str();
        let stripped: String = if str_starts_with(s, "git::") {
            proof {
                reveal_strlit("git::");
            }
            s.substring_char(5, s.unicode_len()).to_owned()
        } else {
            self.source.clone()
        };
        match url_final_path_segment(stripped.as_str()) {
            Some(name) => name,
            None => String::new(),
        }
    }
}

impl ModuleRef {
    /// Classifies a module source string: whitespace is trimmed, then the
    /// first matching rule wins, in this order: Local (`./` or `../`), Git
    /// (`git::` or a `github.com` mention), Bitbucket (`bitbucket.org`),
    /// Mercurial (`hg::`), S3 (`s3::`), GCS (`gcs::`), Http (`http::` or
    /// `https::`), and Registry for everything else.
    pub fn parse(source: &str) -> (r: Self)
        ensures
            r@ == classify_source(source@),
    {
        let t = trim(source);
        if str_starts_with(t.as_str(), "./") || str_starts_with(t.as_str(), "../") {
            return ModuleRef::Local(LocalModuleRef { source: t });
        }
        if str_starts_with(t.as_str(), "git::") || str_contains(t.as_str(), "github.com") {
            return ModuleRef::Git(GitModuleRef { source: t });
        }
        if str_starts_with(t.as_str(), "bitbucket.org") {
            return ModuleRef::Bitbucket(t);
        }
        if str_starts_with(t.as_str(), "hg::") {
            return ModuleRef::Mercurial(t);
        }
        if str_starts_with(t.as_str(), "s3::") {
            return ModuleRef::S3(t);
        }
        if str_starts_with(t.as_str(), "gcs::") {
            return ModuleRef::GCS(t);
        }
        if str_starts_with(t.as_str(), "http::") || str_starts_with(t.as_str(), "https::") {
            return ModuleRef::Http(t);
        }
        ModuleRef::Registry(t)
    }

    /// The retained source string of a classified reference.
    pub fn source(&self) -> (r: &str)
        requires
            !(self@ is Unknown),
        ensures
            r@ == module_source_of(self@),
    {
        match self {
            ModuleRef::Local(m) => m.source(),
            ModuleRef::Git(m) => m.source(),
            ModuleRef::S3(s) => s.as_str(),
            ModuleRef::Bitbucket(s) => s.as_str(),
            ModuleRef::Mercurial(s) => s.as_str(),
            ModuleRef::Http(s) => s.as_str(),
            ModuleRef::GCS(s) => s.as_str(),
            ModuleRef::Registry(s) => s.as_str(),
            ModuleRef::Unknown => vstd::pervasive::unreached(),
        }
    }

    /// The display name used for graph aggregation: the final path segment
    /// for Local, the last URL path segment for Git, empty for Unknown, and
    /// the raw source string for every other variant.
    pub fn name(&self) -> (r: String)
        ensures
            r@ == module_name_spec(self@),
    {
        match self {
            ModuleRef::Local(m) => m.name(),
            ModuleRef::Git(m) => m.name(),
            ModuleRef::S3(s) => s.clone(),
            ModuleRef::Bitbucket(s) => s.clone(),
            ModuleRef::Mercurial(s) => s.clone(),
            ModuleRef::Http(s) => s.clone(),
            ModuleRef::GCS(s) => s.clone(),
            ModuleRef::Registry(s) => s.clone(),
            ModuleRef::Unknown => String::new(),
        }
    }
}

/// Classification is order-sensitive: a source whose trimmed form is local
/// (`./` or `../`) classifies Local whatever else it contains, and one that
/// is not local but starts with `git::` or mentions `github.com` classifies
/// Git even when a later rule would also match it.
pub proof fn lemma_classify_precedence(s: Seq<char>)
    ensures
        is_local_source(trim_spec(s)) ==> classify_source(s) is Local,
        (!is_local_source(trim_spec(s)) && is_git_source(trim_spec(s))) ==> classify_source(s)
            is Git,
        classify_source(s) is Local ==> is_local_source(trim_spec(s)),
        classify_source(s) is Git ==> is_git_source(trim_spec(s)) && !is_local_source(
            trim_spec(s),
        ),
{
}

} // verus!
