//! The manifest builder: groups discovered files by their directory lineage
//! and folds each file's classified declarations into an ordered tree of
//! manifest nodes, tolerating per-file failures.

use vstd::prelude::*;

use crate::blocks::{
    blocks_modules, blocks_resources, hcl_blocks_of, parse_hcl_blocks, RawBlockV, ResourceV,
    TerraformFile,
};
use crate::discovery::{glob_matches, glob_pattern_valid, File, IgnorePattern};
use crate::manifest::{
    empty_node, lemma_forest_height, lemma_forest_push, lemma_forest_update, lemma_seq_model,
    merge_into, nat_max, seq_model, spec_height, ManifestV, TerraformManifest,
};
use crate::modref::ModuleRefV;
use crate::strings::str_eq;

verus! {

broadcast use vstd::std_specs::vec::group_vec_axioms;

/// A failure while reading or parsing configuration.
#[derive(Debug)]
pub enum ParseError {
    /// A unit could not be read; the message says why.
    IOError(String),
    /// A unit's text is not well-formed HCL; the message says why.
    HCLError(String),
    /// The root path does not exist or has the wrong kind.
    PathError,
    /// The ignore pattern does not compile; the message says why.
    GlobError(String),
    /// The unit matches the ignore pattern and is left out.
    Skip,
}

/// Options a parse run is configured with.
pub struct ParserOptions {
    /// Paths matching this glob pattern are left out.
    pub ignore: Option<String>,
}

impl ParserOptions {
    /// Wraps the optional ignore pattern.
    pub fn new(ignore: Option<String>) -> (r: Self)
        ensures
            r.ignore == ignore,
    {
        ParserOptions { ignore }
    }
}

/// `s` cut at every `/`, built from the right; a string with no `/` is one
/// piece, and every `/` opens a new (possibly empty) piece.
pub open spec fn split_slash(s: Seq<char>) -> Seq<Seq<char>>
    decreases s.len(),
{
    if s.len() == 0 {
        Seq::empty().push(Seq::empty())
    } else {
        let rest = split_slash(s.drop_last());
        if s.last() == '/' {
            rest.push(Seq::empty())
        } else {
            rest.update(rest.len() - 1, rest.last().push(s.last()))
        }
    }
}

/// Splitting always yields at least one piece.
pub proof fn lemma_split_slash_len(s: Seq<char>)
    ensures
        split_slash(s).len() >= 1,
    decreases s.len(),
{
    if s.len() > 0 {
        lemma_split_slash_len(s.drop_last());
    }
}

/// `s` cut at every `/`, as owned strings.
pub fn split_path(s: &str) -> (r: Vec<String>)
    ensures
        r.deep_view() == split_slash(s@),
{
    let n = s.unicode_len();
    let mut r: Vec<String> = Vec::new();
    let mut start: usize = 0;
    let mut j: usize = 0;
    proof {
        assert(s@.take(0) =~= Seq::<char>::empty());
        assert(s@.subrange(0, 0) =~= Seq::<char>::empty());
        assert(r.deep_view() =~= Seq::<Seq<char>>::empty());
    }
    while j < n
        invariant
            start <= j <= n,
            n == s@.len(),
            split_slash(s@.take(j as int)) == r.deep_view().push(
                s@.subrange(start as int, j as int),
            ),
        decreases n - j,
    {
        let ghost pre = s@.take(j as int);
        let ghost post = s@.take(j + 1);
        proof {
            lemma_split_slash_len(pre);
            assert(post.drop_last() =~= pre);
            assert(post.last() == s@[j as int]);
        }
        if s.get_char(j) == '/' {
            let piece = s.substring_char(start, j).to_owned();
            let ghost old_deep = r.deep_view();
            r.push(piece);
            proof {
                assert(r.deep_view() =~= old_deep.push(s@.subrange(start as int, j as int)));
                assert(split_slash(post) == split_slash(pre).push(Seq::<char>::empty()));
                assert(s@.subrange(j + 1, j + 1) =~= Seq::<char>::empty());
            }
            start = j + 1;
        } else {
            proof {
                let sp = split_slash(pre);
                assert(sp.last() == s@.subrange(start as int, j as int));
                assert(s@.subrange(start as int, j + 1) =~= s@.subrange(start as int, j as int)
                    .push(s@[j as int]));
                assert(split_slash(post) == sp.update(sp.len() - 1, sp.last().push(s@[j as int])));
                assert(sp.update(sp.len() - 1, s@.subrange(start as int, j + 1)) =~= r.deep_view()
                    .push(s@.subrange(start as int, j + 1)));
            }
        }
        j = j + 1;
    }
    let piece = s.substring_char(start, n).to_owned();
    let ghost old_deep = r.deep_view();
    r.push(piece);
    proof {
        assert(s@.take(n as int) =~= s@);
        assert(r.deep_view() =~= old_deep.push(s@.subrange(start as int, n as int)));
    }
    r
}

/// A path piece counts as a segment unless it is empty or a bare `.`.
pub open spec fn keep_segment(p: Seq<char>) -> bool {
    p.len() > 0 && p != seq!['.']
}

/// The pieces that count as segments, in order.
pub open spec fn filter_segments(ps: Seq<Seq<char>>) -> Seq<Seq<char>>
    decreases ps.len(),
{
    if ps.len() == 0 {
        Seq::empty()
    } else {
        let rest = filter_segments(ps.drop_last());
        if keep_segment(ps.last()) {
            rest.push(ps.last())
        } else {
            rest
        }
    }
}

/// The path segments of `s`: cut at `/`, with empty pieces and bare `.`
/// pieces dropped.
pub open spec fn segments_of(s: Seq<char>) -> Seq<Seq<char>> {
    filter_segments(split_slash(s))
}

/// The directory lineage of a file path: every segment up to but excluding
/// the file itself.
pub open spec fn lineage_of(p: Seq<char>) -> Seq<Seq<char>> {
    let segs = segments_of(p);
    if segs.len() == 0 {
        segs
    } else {
        segs.drop_last()
    }
}

/// The path segments of `s`, as owned strings.
pub fn path_segments(s: &str) -> (r: Vec<String>)
    ensures
        r.deep_view() == segments_of(s@),
{
    let pieces = split_path(s);
    let mut r: Vec<String> = Vec::new();
    let n = pieces.len();
    let mut i: usize = 0;
    proof {
        assert(r.deep_view() =~= Seq::<Seq<char>>::empty());
        assert(pieces.deep_view().take(0) =~= Seq::<Seq<char>>::empty());
    }
    while i < n
        invariant
            i <= n,
            n == pieces@.len(),
            pieces.deep_view() == split_slash(s@),
            r.deep_view() == filter_segments(pieces.deep_view().take(i as int)),
        decreases n - i,
    {
        let ghost pre = pieces.deep_view().take(i as int);
        let ghost post = pieces.deep_view().take(i + 1);
        proof {
            assert(post.drop_last() =~= pre);
            assert(post.last() == pieces.deep_view()[i as int]);
        }
        let p = &pieces[i];
        let keep = if p.as_str().unicode_len() == 0 {
            false
        } else if p.as_str().unicode_len() == 1 && p.as_str().get_char(0) == '.' {
            proof {
                assert(p@ =~= seq!['.']);
            }
            false
        } else {
            proof {
                if p@ == seq!['.'] {
                    assert(p@.len() == 1 && p@[0] == '.');
                }
            }
            true
        };
        if keep {
            let ghost old_deep = r.deep_view();
            r.push(p.clone());
            proof {
                assert(r.deep_view() =~= old_deep.push(pieces.deep_view()[i as int]));
            }
        }
        i = i + 1;
    }
    proof {
        assert(pieces.deep_view().take(n as int) =~= pieces.deep_view());
    }
    r
}

/// The directory lineage of a file path, as owned strings: every segment up
/// to but excluding the file itself.
pub fn lineage_segments(s: &str) -> (r: Vec<String>)
    ensures
        r.deep_view() == lineage_of(s@),
{
    let mut segs = path_segments(s);
    if segs.len() > 0 {
        let ghost old_deep = segs.deep_view();
        let _last = segs.pop();
        proof {
            assert(segs.deep_view() =~= old_deep.drop_last());
        }
    }
    segs
}

/// Mathematical model of one discovered file: its path, and its text when it
/// could be read.
pub struct EntryV {
    pub path: Seq<char>,
    pub content: Option<Seq<char>>,
}

/// One discovered file, its contents already fetched: the path it was found
/// under, and its text when reading succeeded.
pub struct FileEntry {
    pub path: String,
    pub content: Option<String>,
}

impl View for FileEntry {
    type V = EntryV;

    open spec fn view(&self) -> EntryV {
        EntryV { path: self.path@, content: self.content.deep_view() }
    }
}

impl DeepView for FileEntry {
    type V = EntryV;

    open spec fn deep_view(&self) -> EntryV {
        self.view()
    }
}

/// The blocks the text parses to, or none at all when it is not well-formed
/// HCL: a file that does not parse contributes nothing.
pub open spec fn hcl_blocks_or_empty(text: Seq<char>) -> Seq<RawBlockV> {
    match hcl_blocks_of(text) {
        Some(bs) => bs,
        None => Seq::empty(),
    }
}

/// The resources one entry contributes: none when it could not be read or
/// does not parse.
pub open spec fn entry_resources(e: EntryV) -> Seq<ResourceV> {
    match e.content {
        Some(text) => blocks_resources(hcl_blocks_or_empty(text)),
        None => Seq::empty(),
    }
}

/// The module references one entry contributes: none when it could not be
/// read or does not parse.
pub open spec fn entry_modules(e: EntryV) -> Seq<ModuleRefV> {
    match e.content {
        Some(text) => blocks_modules(hcl_blocks_or_empty(text)),
        None => Seq::empty(),
    }
}

/// The path of a child node: the parent's path extended by `/` and the
/// child's name, or the bare name under the synthetic root.
pub open spec fn child_path(parent: Seq<char>, name: Seq<char>) -> Seq<char> {
    if parent.len() == 0 {
        name
    } else {
        parent + seq!['/'] + name
    }
}

/// The position of the first child with the given name, when one exists;
/// siblings are looked up by name, not by full path.
pub open spec fn find_child(ms: Seq<ManifestV>, name: Seq<char>) -> Option<int>
    decreases ms.len(),
{
    if ms.len() == 0 {
        None
    } else if ms[0].name == name {
        Some(0int)
    } else {
        match find_child(ms.drop_first(), name) {
            Some(i) => Some(i + 1),
            None => None,
        }
    }
}

/// A found child index is in range and carries the name.
pub proof fn lemma_find_child_range(ms: Seq<ManifestV>, name: Seq<char>)
    ensures
        find_child(ms, name) matches Some(i) ==> 0 <= i < ms.len() && ms[i].name == name,
    decreases ms.len(),
{
    if ms.len() > 0 && ms[0].name != name {
        lemma_find_child_range(ms.drop_first(), name);
    }
}

/// A child with the name at position `i`, with none before it, is the one
/// found.
proof fn lemma_find_child_found(ms: Seq<ManifestV>, name: Seq<char>, i: int)
    requires
        0 <= i < ms.len(),
        forall|k: int| 0 <= k < i ==> ms[k].name != name,
        ms[i].name == name,
    ensures
        find_child(ms, name) == Some(i),
    decreases i,
{
    if i > 0 {
        lemma_find_child_found(ms.drop_first(), name, i - 1);
    }
}

/// With no child of that name, none is found.
proof fn lemma_find_child_none(ms: Seq<ManifestV>, name: Seq<char>)
    requires
        forall|k: int| 0 <= k < ms.len() ==> ms[k].name != name,
    ensures
        find_child(ms, name) is None,
    decreases ms.len(),
{
    if ms.len() > 0 {
        lemma_find_child_none(ms.drop_first(), name);
    }
}

/// One entry folded into a tree: the nodes along its lineage are walked,
/// reusing a same-named child where one exists and appending a fresh one
/// where none does, and the entry's declarations are merged into the node
/// the lineage ends at.
pub open spec fn insert_entry(
    m: ManifestV,
    lineage: Seq<Seq<char>>,
    rs: Seq<ResourceV>,
    ms: Seq<ModuleRefV>,
) -> ManifestV
    decreases lineage.len(),
{
    if lineage.len() == 0 {
        merge_into(m, rs, ms)
    } else {
        let name = lineage[0];
        match find_child(m.submodules, name) {
            Some(i) => ManifestV {
                submodules: m.submodules.update(
                    i,
                    insert_entry(m.submodules[i], lineage.drop_first(), rs, ms),
                ),
                ..m
            },
            None => ManifestV {
                submodules: m.submodules.push(
                    insert_entry(
                        empty_node(name, child_path(m.path, name)),
                        lineage.drop_first(),
                        rs,
                        ms,
                    ),
                ),
                ..m
            },
        }
    }
}

/// The synthetic root every build starts from.
pub open spec fn root_node() -> ManifestV {
    empty_node("root"@, Seq::empty())
}

/// The manifest tree a sequence of entries builds, folded in order into the
/// synthetic root.
pub open spec fn build_spec(entries: Seq<EntryV>) -> ManifestV
    decreases entries.len(),
{
    if entries.len() == 0 {
        root_node()
    } else {
        insert_entry(
            build_spec(entries.drop_last()),
            lineage_of(entries.last().path),
            entry_resources(entries.last()),
            entry_modules(entries.last()),
        )
    }
}

/// The parent's path extended by `/` and the child's name, or the bare name
/// under the synthetic root.
fn join_path(parent: &String, name: &String) -> (r: String)
    ensures
        r@ == child_path(parent@, name@),
{
    if parent.as_str().unicode_len() == 0 {
        name.clone()
    } else {
        let mut r = parent.clone();
        r.append("/");
        r.append(name.as_str());
        proof {
            reveal_strlit("/");
            assert("/"@ =~= seq!['/']);
        }
        r
    }
}

/// The position of the first child named `name`, when one exists.
fn find_child_index(subs: &Vec<TerraformManifest>, name: &str) -> (r: Option<usize>)
    ensures
        match r {
            Some(i) => i < subs@.len() && find_child(seq_model(subs@), name@) == Some(i as int),
            None => find_child(seq_model(subs@), name@) is None,
        },
{
    proof {
        lemma_seq_model(subs@);
    }
    let n = subs.len();
    let mut i: usize = 0;
    while i < n
        invariant
            i <= n,
            n == subs@.len(),
            seq_model(subs@).len() == n,
            forall|k: int| 0 <= k < n ==> #[trigger] seq_model(subs@)[k] == subs@[k].model(),
            forall|k: int| 0 <= k < i ==> seq_model(subs@)[k].name != name@,
        decreases n - i,
    {
        if str_eq(subs[i].name.as_str(), name) {
            proof {
                lemma_find_child_found(seq_model(subs@), name@, i as int);
            }
            return Some(i);
        }
        i = i + 1;
    }
    proof {
        lemma_find_child_none(seq_model(subs@), name@);
    }
    None
}

/// Folds one entry's classified declarations into the tree, walking the
/// remaining lineage `lineage[k..]`.
fn insert_at(
    node: TerraformManifest,
    lineage: &Vec<String>,
    k: usize,
    file: TerraformFile,
) -> (r: TerraformManifest)
    requires
        k <= lineage@.len(),
    ensures
        r.model() == insert_entry(
            node.model(),
            lineage.deep_view().skip(k as int),
            file.resources.deep_view(),
            file.modules.deep_view(),
        ),
    decreases lineage@.len() - k,
{
    let ghost rs = file.resources.deep_view();
    let ghost ms = file.modules.deep_view();
    let mut node = node;
    if k == lineage.len() {
        proof {
            assert(lineage.deep_view().skip(k as int) =~= Seq::<Seq<char>>::empty());
        }
        node.merge_file(file);
        return node;
    }
    let ghost rest = lineage.deep_view().skip(k as int);
    proof {
        assert(rest[0] == lineage.deep_view()[k as int]);
        assert(rest.drop_first() =~= lineage.deep_view().skip(k + 1));
    }
    let name = &lineage[k];
    match find_child_index(&node.submodules, name.as_str()) {
        Some(i) => {
            let ghost subs0 = node.submodules@;
            let child = node.submodules.remove(i);
            let child2 = insert_at(child, lineage, k + 1, file);
            node.submodules.insert(i, child2);
            proof {
                lemma_seq_model(subs0);
                lemma_seq_model(node.submodules@);
                lemma_find_child_range(seq_model(subs0), name@);
                assert(node.submodules@ =~= subs0.update(i as int, child2));
                assert(seq_model(node.submodules@) =~= seq_model(subs0).update(
                    i as int,
                    child2.model(),
                ));
            }
            node
        },
        None => {
            let path2 = join_path(&node.path, name);
            let child = TerraformManifest::new(name.clone(), path2);
            let child2 = insert_at(child, lineage, k + 1, file);
            let ghost subs0 = node.submodules@;
            node.submodules.push(child2);
            proof {
                assert(node.submodules@.drop_last() =~= subs0);
                assert(seq_model(node.submodules@) == seq_model(subs0).push(child2.model()));
            }
            node
        },
    }
}

/// Classifies one entry's text: a file that could not be read or does not
/// parse contributes nothing, and never fails the build.
fn classify_entry_content(e: &FileEntry) -> (r: TerraformFile)
    ensures
        r.resources.deep_view() == entry_resources(e.deep_view()),
        r.modules.deep_view() == entry_modules(e.deep_view()),
{
    match &e.content {
        None => {
            let r = TerraformFile { resources: Vec::new(), modules: Vec::new() };
            proof {
                assert(r.resources.deep_view() =~= Seq::<ResourceV>::empty());
                assert(r.modules.deep_view() =~= Seq::<ModuleRefV>::empty());
            }
            r
        },
        Some(text) => match parse_hcl_blocks(text.as_str()) {
            Ok(blocks) => TerraformFile::from_blocks(&blocks),
            Err(_) => {
                let r = TerraformFile { resources: Vec::new(), modules: Vec::new() };
                proof {
                    assert(r.resources.deep_view() =~= Seq::<ResourceV>::empty());
                    assert(r.modules.deep_view() =~= Seq::<ModuleRefV>::empty());
                    assert(blocks_resources(hcl_blocks_or_empty(text@)) =~= Seq::<
                        ResourceV,
                    >::empty());
                    assert(blocks_modules(hcl_blocks_or_empty(text@)) =~= Seq::<
                        ModuleRefV,
                    >::empty());
                }
                r
            },
        },
    }
}

/// Builds manifest trees from discovered files.
pub struct Parser {}

impl Parser {
    /// Classifies one file's text into its declared resources and module
    /// references. Fails exactly when the text is not well-formed HCL.
    pub fn parse_file(contents: &str) -> (r: Result<TerraformFile, ParseError>)
        ensures
            (r is Ok) == (hcl_blocks_of(contents@) is Some),
            r matches Ok(f) ==> f.resources.deep_view() == blocks_resources(
                hcl_blocks_or_empty(contents@),
            ) && f.modules.deep_view() == blocks_modules(hcl_blocks_or_empty(contents@)),
            r matches Err(e) ==> e is HCLError,
    {
        match parse_hcl_blocks(contents) {
            Ok(blocks) => Ok(TerraformFile::from_blocks(&blocks)),
            Err(msg) => Err(ParseError::HCLError(msg)),
        }
    }

    /// Folds fetched entries, in order, into a manifest tree under a
    /// synthetic root: each entry's lineage names the node its declarations
    /// are merged into, and entries that could not be read or parsed shape
    /// the tree but contribute no declarations.
    pub fn build_manifest(entries: Vec<FileEntry>) -> (r: TerraformManifest)
        ensures
            r.model() == build_spec(entries.deep_view()),
    {
        let mut root = TerraformManifest::new(String::from_str("root"), String::new());
        proof {
            assert(root.model() =~= root_node());
            assert(entries.deep_view().take(0) =~= Seq::<EntryV>::empty());
        }
        let n = entries.len();
        let mut idx: usize = 0;
        while idx < n
            invariant
                idx <= n,
                n == entries@.len(),
                root.model() == build_spec(entries.deep_view().take(idx as int)),
            decreases n - idx,
        {
            let ghost pre = entries.deep_view().take(idx as int);
            let ghost post = entries.deep_view().take(idx + 1);
            proof {
                assert(post.drop_last() =~= pre);
                assert(post.last() == entries.deep_view()[idx as int]);
            }
            let e = &entries[idx];
            let file = classify_entry_content(e);
            let lineage = lineage_segments(e.path.as_str());
            let root2 = insert_at(root, &lineage, 0, file);
            proof {
                assert(lineage.deep_view().skip(0) =~= lineage.deep_view());
            }
            root = root2;
            idx = idx + 1;
        }
        proof {
            assert(entries.deep_view().take(n as int) =~= entries.deep_view());
        }
        root
    }

    /// Fetches each file's contents and builds the manifest tree from them.
    /// What each handle answers is up to its implementation; the tree is the
    /// fold of one entry per handle, in order, per `build_manifest`.
    pub fn parse<F: File>(files: Vec<F>) -> (r: TerraformManifest)
        ensures
            r.model().name == "root"@,
            r.model().path.len() == 0,
            exists|es: Seq<EntryV>| es.len() == files@.len() && r.model() == build_spec(es),
    {
        let mut entries: Vec<FileEntry> = Vec::new();
        let n = files.len();
        let mut i: usize = 0;
        while i < n
            invariant
                i <= n,
                n == files@.len(),
                entries@.len() == i,
            decreases n - i,
        {
            let f = &files[i];
            let path = f.path();
            let content = match f.get_contents() {
                Ok(text) => Some(text),
                Err(_) => None,
            };
            entries.push(FileEntry { path, content });
            i = i + 1;
        }
        let root = Self::build_manifest(entries);
        proof {
            lemma_build_spec_root(entries.deep_view());
            assert(entries.deep_view().len() == files@.len() && root.model() == build_spec(
                entries.deep_view(),
            ));
        }
        root
    }
}

/// The deepest directory lineage among a sequence of entries; zero for none.
pub open spec fn max_lineage_depth(entries: Seq<EntryV>) -> nat
    decreases entries.len(),
{
    if entries.len() == 0 {
        0
    } else {
        nat_max(max_lineage_depth(entries.drop_last()), lineage_of(entries.last().path).len())
    }
}

/// Folding one entry grows the tree along its lineage and nowhere else: the
/// height afterwards is the old height or the lineage's depth plus the
/// root's own level, whichever is larger.
pub proof fn lemma_insert_height(
    m: ManifestV,
    lineage: Seq<Seq<char>>,
    rs: Seq<ResourceV>,
    ms: Seq<ModuleRefV>,
)
    ensures
        spec_height(insert_entry(m, lineage, rs, ms)) == nat_max(
            spec_height(m),
            (lineage.len() + 1) as nat,
        ),
    decreases lineage.len(),
{
    if lineage.len() == 0 {
    } else {
        let name = lineage[0];
        lemma_forest_height(m.submodules);
        match find_child(m.submodules, name) {
            Some(i) => {
                lemma_find_child_range(m.submodules, name);
                lemma_insert_height(m.submodules[i], lineage.drop_first(), rs, ms);
                let c2 = insert_entry(m.submodules[i], lineage.drop_first(), rs, ms);
                lemma_forest_update(m.submodules, i, c2);
            },
            None => {
                lemma_insert_height(
                    empty_node(name, child_path(m.path, name)),
                    lineage.drop_first(),
                    rs,
                    ms,
                );
                let c2 = insert_entry(
                    empty_node(name, child_path(m.path, name)),
                    lineage.drop_first(),
                    rs,
                    ms,
                );
                lemma_forest_push(m.submodules, c2);
            },
        }
    }
}

/// The number of tree levels equals the deepest directory lineage among the
/// entries, plus one for the synthetic root; an entry adds nodes only along
/// its own lineage, so no other level can arise.
pub proof fn lemma_build_height(entries: Seq<EntryV>)
    ensures
        spec_height(build_spec(entries)) == 1 + max_lineage_depth(entries),
    decreases entries.len(),
{
    if entries.len() == 0 {
    } else {
        lemma_build_height(entries.drop_last());
        lemma_insert_height(
            build_spec(entries.drop_last()),
            lineage_of(entries.last().path),
            entry_resources(entries.last()),
            entry_modules(entries.last()),
        );
    }
}

/// An entry that could not be read shapes the tree through its lineage but
/// merges no declarations into it, and never fails the build.
pub proof fn lemma_unreadable_entry(entries: Seq<EntryV>, e: EntryV)
    requires
        e.content is None,
    ensures
        build_spec(entries.push(e)) == insert_entry(
            build_spec(entries),
            lineage_of(e.path),
            Seq::empty(),
            Seq::empty(),
        ),
{
    assert(entries.push(e).drop_last() =~= entries);
    assert(entry_resources(e) =~= Seq::<ResourceV>::empty());
    assert(entry_modules(e) =~= Seq::<ModuleRefV>::empty());
}

/// Whatever the entries, the built tree keeps the synthetic root: folding an
/// entry changes a node's lists and children, never its name or path.
pub proof fn lemma_build_spec_root(entries: Seq<EntryV>)
    ensures
        build_spec(entries).name == "root"@,
        build_spec(entries).path.len() == 0,
    decreases entries.len(),
{
    if entries.len() > 0 {
        lemma_build_spec_root(entries.drop_last());
    }
}

/// Walks a local directory tree and folds its files into a manifest. The
/// walk itself does I/O and lives with the caller; the per-unit decisions it
/// takes are here.
pub struct DirectoryParser {
    /// The run's configuration.
    pub options: ParserOptions,
}

impl DirectoryParser {
    /// A parser for a local directory tree, with an optional ignore pattern.
    pub fn new(ignore: Option<String>) -> (r: Self)
        ensures
            r.options.ignore == ignore,
    {
        DirectoryParser { options: ParserOptions::new(ignore) }
    }

    /// Whether a unit at `path` is to be left out: a malformed ignore
    /// pattern is a configuration error, fatal to the whole run.
    pub fn skip_decision(&self, path: &str) -> (r: Result<bool, ParseError>)
        ensures
            match r {
                Ok(b) => match self.options.ignore {
                    Some(p) => glob_pattern_valid(p@) && b == glob_matches(p@, path@),
                    None => b == false,
                },
                Err(e) => e is GlobError && match self.options.ignore {
                    Some(p) => !glob_pattern_valid(p@),
                    None => false,
                },
            },
    {
        match &self.options.ignore {
            None => Ok(false),
            Some(p) => match IgnorePattern::new(p.as_str()) {
                Some(pat) => Ok(pat.matches_path(path)),
                None => Err(ParseError::GlobError(p.clone())),
            },
        }
    }
}

} // verus!
