//! Parsed configuration blocks and their classification into typed records:
//! resources and module references.

use vstd::prelude::*;

use crate::modref::{module_of_block_source, ModuleRef, ModuleRefV};
use crate::strings::str_eq;

verus! {

broadcast use vstd::string::group_string_axioms;

/// Mathematical model of one block attribute: its key, and its value when
/// that value is a plain string literal.
pub struct AttrV {
    pub key: Seq<char>,
    pub value: Option<Seq<char>>,
}

/// One attribute of a block's body. `value` holds the text of the value when
/// it is a plain string literal, and nothing otherwise.
pub struct Attr {
    pub key: String,
    pub value: Option<String>,
}

impl View for Attr {
    type V = AttrV;

    open spec fn view(&self) -> AttrV {
        AttrV { key: self.key@, value: self.value.deep_view() }
    }
}

impl DeepView for Attr {
    type V = AttrV;

    open spec fn deep_view(&self) -> AttrV {
        self.view()
    }
}

/// Mathematical model of one labeled block.
pub struct RawBlockV {
    pub identifier: Seq<char>,
    pub labels: Seq<Seq<char>>,
    pub attrs: Seq<AttrV>,
}

/// One labeled block of a parsed configuration body: its identifier, its
/// positional labels, and its body's attributes.
pub struct RawBlock {
    pub identifier: String,
    pub labels: Vec<String>,
    pub attrs: Vec<Attr>,
}

impl View for RawBlock {
    type V = RawBlockV;

    open spec fn view(&self) -> RawBlockV {
        RawBlockV {
            identifier: self.identifier@,
            labels: self.labels.deep_view(),
            attrs: self.attrs.deep_view(),
        }
    }
}

impl DeepView for RawBlock {
    type V = RawBlockV;

    open spec fn deep_view(&self) -> RawBlockV {
        self.view()
    }
}

/// Mathematical model of a declared resource.
pub struct ResourceV {
    pub name: Seq<char>,
    pub kind: Seq<char>,
}

/// A declared resource: its kind (the first block label) and its name (the
/// second block label).
pub struct Resource {
    pub name: String,
    pub kind: String,
}

impl View for Resource {
    type V = ResourceV;

    open spec fn view(&self) -> ResourceV {
        ResourceV { name: self.name@, kind: self.kind@ }
    }
}

impl DeepView for Resource {
    type V = ResourceV;

    open spec fn deep_view(&self) -> ResourceV {
        self.view()
    }
}

/// The blocks of the HCL body that the text parses to, or nothing when the
/// text is not well-formed HCL. The value is determined by the text alone.
pub uninterp spec fn hcl_blocks_of(s: Seq<char>) -> Option<Seq<RawBlockV>>;

/// Relies on hcl::from_str::<hcl::Body>: parses HCL text and hands each block
/// over as its identifier, labels, and attributes, an attribute's value kept
/// only when it is a plain string literal. The outcome depends on the text
/// alone, named by `hcl_blocks_of`.
#[verifier::external_body]
pub(crate) fn parse_hcl_blocks(text: &str) -> (r: Result<Vec<RawBlock>, String>)
    ensures
        (r is Ok) == (hcl_blocks_of(text@) is Some),
        r matches Ok(v) ==> hcl_blocks_of(text@) == Some(v.deep_view()),
{
    let body: hcl::Body = hcl::from_str(text).map_err(|e| format!("{e}"))?;
    Ok(body.blocks().map(|b| RawBlock {
        identifier: b.identifier().to_string(),
        labels: b.labels().iter().map(|l| l.as_str().to_string()).collect(),
        attrs: b.body().attributes().map(|a| Attr {
            key: a.key().to_string(),
            value: match a.expr() {
                hcl::expr::Expression::String(s) => Some(s.clone()),
                _ => None,
            },
        }).collect(),
    }).collect())
}

/// A block declares a resource when its identifier is `resource` and it
/// carries at least the two positional labels: kind and name.
pub open spec fn block_is_resource(b: RawBlockV) -> bool {
    b.identifier == "resource"@ && b.labels.len() >= 2
}

/// The resource a well-formed resource block declares.
pub open spec fn resource_of_block(b: RawBlockV) -> ResourceV {
    ResourceV { name: b.labels[1], kind: b.labels[0] }
}

/// The resources declared by a sequence of blocks, in order: one per
/// `resource` block with at least two labels; malformed resource blocks are
/// dropped without affecting the rest.
pub open spec fn blocks_resources(bs: Seq<RawBlockV>) -> Seq<ResourceV>
    decreases bs.len(),
{
    if bs.len() == 0 {
        Seq::empty()
    } else {
        let rest = blocks_resources(bs.drop_last());
        if block_is_resource(bs.last()) {
            rest.push(resource_of_block(bs.last()))
        } else {
            rest
        }
    }
}

/// The first attribute named `source`, when the block's body has one.
pub open spec fn first_source_attr(attrs: Seq<AttrV>) -> Option<AttrV>
    decreases attrs.len(),
{
    if attrs.len() == 0 {
        None
    } else if attrs[0].key == "source"@ {
        Some(attrs[0])
    } else {
        first_source_attr(attrs.drop_first())
    }
}

/// The module reference a module block declares: its `source` attribute's
/// string value classified, or Unknown when the attribute is absent or not a
/// string literal.
pub open spec fn module_of_block(b: RawBlockV) -> ModuleRefV {
    match first_source_attr(b.attrs) {
        Some(a) => module_of_block_source(a.value),
        None => ModuleRefV::Unknown,
    }
}

/// The module references declared by a sequence of blocks, in order: one per
/// `module` block.
pub open spec fn blocks_modules(bs: Seq<RawBlockV>) -> Seq<ModuleRefV>
    decreases bs.len(),
{
    if bs.len() == 0 {
        Seq::empty()
    } else {
        let rest = blocks_modules(bs.drop_last());
        if bs.last().identifier == "module"@ {
            rest.push(module_of_block(bs.last()))
        } else {
            rest
        }
    }
}

/// A resource block with at least two labels yields exactly the resource
/// whose kind is its first label and whose name its second; a resource
/// block with fewer labels is dropped, leaving the rest of the file's
/// resources unchanged.
pub proof fn lemma_resource_labels(bs: Seq<RawBlockV>, b: RawBlockV)
    ensures
        (b.identifier == "resource"@ && b.labels.len() >= 2) ==> blocks_resources(bs.push(b))
            == blocks_resources(bs).push(ResourceV { name: b.labels[1], kind: b.labels[0] }),
        (b.identifier == "resource"@ && b.labels.len() < 2) ==> blocks_resources(bs.push(b))
            == blocks_resources(bs),
{
    assert(bs.push(b).drop_last() =~= bs);
}

/// A `source` attribute found at position `i`, with none before it, is the
/// first one.
proof fn lemma_first_source_found(attrs: Seq<AttrV>, i: int)
    requires
        0 <= i < attrs.len(),
        forall|k: int| 0 <= k < i ==> attrs[k].key != "source"@,
        attrs[i].key == "source"@,
    ensures
        first_source_attr(attrs) == Some(attrs[i]),
    decreases i,
{
    if i > 0 {
        lemma_first_source_found(attrs.drop_first(), i - 1);
    }
}

/// With no `source` attribute at all, none is found.
proof fn lemma_first_source_none(attrs: Seq<AttrV>)
    requires
        forall|k: int| 0 <= k < attrs.len() ==> attrs[k].key != "source"@,
    ensures
        first_source_attr(attrs) is None,
    decreases attrs.len(),
{
    if attrs.len() > 0 {
        lemma_first_source_none(attrs.drop_first());
    }
}

/// Classifies one block as a module reference: the first `source` attribute
/// decides, per `module_of_block`.
fn classify_module_block(b: &RawBlock) -> (r: ModuleRef)
    ensures
        r@ == module_of_block(b.deep_view()),
{
    let n = b.attrs.len();
    let mut i: usize = 0;
    while i < n
        invariant
            i <= n,
            n == b.attrs@.len(),
            forall|k: int| 0 <= k < i ==> b.attrs.deep_view()[k].key != "source"@,
        decreases n - i,
    {
        if str_eq(b.attrs[i].key.as_str(), "source") {
            proof {
                lemma_first_source_found(b.attrs.deep_view(), i as int);
            }
            return match &b.attrs[i].value {
                Some(src) => ModuleRef::parse(src.as_str()),
                None => ModuleRef::Unknown,
            };
        }
        i = i + 1;
    }
    proof {
        lemma_first_source_none(b.attrs.deep_view());
    }
    ModuleRef::Unknown
}

/// The typed records one parsed file contributes: its declared resources and
/// module references.
pub struct TerraformFile {
    pub resources: Vec<Resource>,
    pub modules: Vec<ModuleRef>,
}

impl TerraformFile {
    /// Classifies a parsed body's blocks into resources and module
    /// references, in block order. A `resource` block with fewer than two
    /// labels is dropped; every `module` block yields a reference.
    pub fn from_blocks(blocks: &Vec<RawBlock>) -> (r: TerraformFile)
        ensures
            r.resources.deep_view() == blocks_resources(blocks.deep_view()),
            r.modules.deep_view() == blocks_modules(blocks.deep_view()),
    {
        proof {
            reveal_strlit("resource");
            reveal_strlit("module");
        }
        let mut resources: Vec<Resource> = Vec::new();
        let mut modules: Vec<ModuleRef> = Vec::new();
        let n = blocks.len();
        let mut i: usize = 0;
        while i < n
            invariant
                i <= n,
                n == blocks@.len(),
                resources.deep_view() == blocks_resources(blocks.deep_view().take(i as int)),
                modules.deep_view() == blocks_modules(blocks.deep_view().take(i as int)),
            decreases n - i,
        {
            let ghost pre = blocks.deep_view().take(i as int);
            let ghost post = blocks.deep_view().take(i + 1);
            proof {
                reveal_strlit("resource");
                reveal_strlit("module");
                // the two identifiers differ already in length
                assert("resource"@.len() == 8);
                assert("module"@.len() == 6);
                assert(post.drop_last() =~= pre);
                assert(post.last() == blocks.deep_view()[i as int]);
            }
            let b = &blocks[i];
            if str_eq(b.identifier.as_str(), "resource") {
                if b.labels.len() >= 2 {
                    let ghost old_deep = resources.deep_view();
                    resources.push(
                        Resource { name: b.labels[1].clone(), kind: b.labels[0].clone() },
                    );
                    proof {
                        assert(resources.deep_view() =~= old_deep.push(
                            resource_of_block(blocks.deep_view()[i as int]),
                        ));
                        assert(modules.deep_view() =~= blocks_modules(post));
                    }
                } else {
                    proof {
                        assert(resources.deep_view() =~= blocks_resources(post));
                        assert(modules.deep_view() =~= blocks_modules(post));
                    }
                }
            } else if str_eq(b.identifier.as_str(), "module") {
                let m = classify_module_block(b);
                let ghost old_deep = modules.deep_view();
                modules.push(m);
                proof {
                    assert(modules.deep_view() =~= old_deep.push(
                        module_of_block(blocks.deep_view()[i as int]),
                    ));
                    assert(resources.deep_view() =~= blocks_resources(post));
                }
            } else {
                proof {
                    assert(resources.deep_view() =~= blocks_resources(post));
                    assert(modules.deep_view() =~= blocks_modules(post));
                }
            }
            i = i + 1;
        }
        proof {
            assert(blocks.deep_view().take(n as int) =~= blocks.deep_view());
        }
        TerraformFile { resources, modules }
    }

    /// A file's contribution is empty when it declares neither resources nor
    /// module references.
    pub fn is_empty(&self) -> (r: bool)
        ensures
            r == (self.resources@.len() == 0 && self.modules@.len() == 0),
    {
        self.resources.len() == 0 && self.modules.len() == 0
    }
}

/// The aggregated declarations of one scope: a name together with the
/// resources and module references merged into it.
pub struct Terraform {
    pub name: String,
    pub resources: Vec<Resource>,
    pub modules: Vec<ModuleRef>,
}

impl Terraform {
    /// An empty aggregate under the given name.
    pub fn new(name: String) -> (r: Terraform)
        ensures
            r.name == name,
            r.resources@.len() == 0,
            r.modules@.len() == 0,
    {
        Terraform { name, resources: Vec::new(), modules: Vec::new() }
    }

    /// A scope is empty when it holds neither resources nor module
    /// references; an empty scope contributes nothing to the graph.
    pub fn is_empty(&self) -> (r: bool)
        ensures
            r == (self.resources@.len() == 0 && self.modules@.len() == 0),
    {
        self.resources.len() == 0 && self.modules.len() == 0
    }

    /// Appends another aggregate's declarations to this one, keeping order:
    /// this scope's lists first, then the other's.
    pub fn combine(&mut self, other: Terraform)
        ensures
            final(self).name == old(self).name,
            final(self).resources@ == old(self).resources@ + other.resources@,
            final(self).modules@ == old(self).modules@ + other.modules@,
    {
        let mut other = other;
        self.resources.append(&mut other.resources);
        self.modules.append(&mut other.modules);
    }

    /// Classifies a parsed body's blocks into a nameless aggregate.
    pub fn from_blocks(blocks: &Vec<RawBlock>) -> (r: Terraform)
        ensures
            r.name@.len() == 0,
            r.resources.deep_view() == blocks_resources(blocks.deep_view()),
            r.modules.deep_view() == blocks_modules(blocks.deep_view()),
    {
        let file = TerraformFile::from_blocks(blocks);
        Terraform { name: String::new(), resources: file.resources, modules: file.modules }
    }
}

} // verus!
