//! The manifest tree: one node per directory level, holding the resources
//! and module references merged from that directory's configuration files,
//! and the ordered children discovered below it.

use vstd::prelude::*;

use crate::blocks::{Resource, ResourceV, TerraformFile};
use crate::modref::{ModuleRef, ModuleRefV};

verus! {

broadcast use vstd::std_specs::vec::group_vec_axioms;

/// Mathematical model of a manifest node: its name, its path identifier, the
/// declarations merged into it, and the models of its children in order.
#[verifier::ext_equal]
pub struct ManifestV {
    pub name: Seq<char>,
    pub path: Seq<char>,
    pub resources: Seq<ResourceV>,
    pub modules: Seq<ModuleRefV>,
    pub submodules: Seq<ManifestV>,
}

/// An empty node under the given name and path.
pub open spec fn empty_node(name: Seq<char>, path: Seq<char>) -> ManifestV {
    ManifestV {
        name,
        path,
        resources: Seq::empty(),
        modules: Seq::empty(),
        submodules: Seq::empty(),
    }
}

/// A node with one file's declarations appended to its own.
pub open spec fn merge_into(m: ManifestV, rs: Seq<ResourceV>, ms: Seq<ModuleRefV>) -> ManifestV {
    ManifestV { resources: m.resources + rs, modules: m.modules + ms, ..m }
}

/// One node of the manifest tree.
pub struct TerraformManifest {
    pub name: String,
    pub path: String,
    pub resources: Vec<Resource>,
    pub modules: Vec<ModuleRef>,
    pub submodules: Vec<TerraformManifest>,
}

impl TerraformManifest {
    /// The mathematical model of this node and everything below it.
    pub open spec fn model(&self) -> ManifestV
        decreases self,
    {
        ManifestV {
            name: self.name@,
            path: self.path@,
            resources: self.resources.deep_view(),
            modules: self.modules.deep_view(),
            submodules: seq_model(self.submodules@),
        }
    }

    /// An empty manifest node under the given name and path.
    pub fn new(name: String, path: String) -> (r: Self)
        ensures
            r.model() == empty_node(name@, path@),
    {
        let r = TerraformManifest {
            name,
            path,
            resources: Vec::new(),
            modules: Vec::new(),
            submodules: Vec::new(),
        };
        proof {
            assert(r.model() =~= empty_node(r.name@, r.path@));
        }
        r
    }

    /// A node is empty when it holds neither resources nor module
    /// references; an empty node contributes nothing to the graph (its
    /// children still do).
    pub fn is_empty(&self) -> (r: bool)
        ensures
            r == (self.model().resources.len() == 0 && self.model().modules.len() == 0),
    {
        self.resources.len() == 0 && self.modules.len() == 0
    }

    /// Appends one parsed file's declarations to this node, keeping order:
    /// what was merged earlier stays in front.
    pub fn merge_file(&mut self, file: TerraformFile)
        ensures
            final(self).model() == merge_into(
                old(self).model(),
                file.resources.deep_view(),
                file.modules.deep_view(),
            ),
    {
        let ghost frs = file.resources.deep_view();
        let ghost fms = file.modules.deep_view();
        let mut file = file;
        self.resources.append(&mut file.resources);
        self.modules.append(&mut file.modules);
        proof {
            assert(self.resources.deep_view() =~= old(self).resources.deep_view() + frs);
            assert(self.modules.deep_view() =~= old(self).modules.deep_view() + fms);
            assert(final(self).model() =~= merge_into(old(self).model(), frs, fms));
        }
    }

    /// Appends a fully built child below this node.
    pub fn add_submodule(&mut self, submodule: TerraformManifest)
        ensures
            final(self).model() == (ManifestV {
                submodules: old(self).model().submodules.push(submodule.model()),
                ..old(self).model()
            }),
    {
        let ghost sub_model = submodule.model();
        self.submodules.push(submodule);
        proof {
            assert(self.submodules@.drop_last() =~= old(self).submodules@);
            assert(seq_model(self.submodules@) == seq_model(old(self).submodules@).push(
                sub_model,
            ));
            assert(final(self).model() =~= (ManifestV {
                submodules: old(self).model().submodules.push(sub_model),
                ..old(self).model()
            }));
        }
    }
}

/// The models of a forest of subtrees, in order.
pub open spec fn seq_model(s: Seq<TerraformManifest>) -> Seq<ManifestV>
    decreases s,
{
    if s.len() == 0 {
        Seq::empty()
    } else {
        seq_model(s.drop_last()).push(s.last().model())
    }
}

/// Each subtree of a forest is modelled in place.
pub proof fn lemma_seq_model(s: Seq<TerraformManifest>)
    ensures
        seq_model(s).len() == s.len(),
        forall|i: int| 0 <= i < s.len() ==> #[trigger] seq_model(s)[i] == s[i].model(),
    decreases s,
{
    if s.len() > 0 {
        lemma_seq_model(s.drop_last());
    }
}

/// The larger of two natural numbers.
pub open spec fn nat_max(a: nat, b: nat) -> nat {
    if a >= b {
        a
    } else {
        b
    }
}

/// The number of levels of a manifest tree: one for the node itself, plus
/// the deepest chain below it.
pub open spec fn spec_height(m: ManifestV) -> nat
    decreases m,
{
    1 + forest_height(m.submodules)
}

/// The deepest chain among a forest of subtrees; zero for none.
pub open spec fn forest_height(s: Seq<ManifestV>) -> nat
    decreases s,
{
    if s.len() == 0 {
        0
    } else {
        nat_max(forest_height(s.drop_last()), spec_height(s.last()))
    }
}

/// Appending a tree to a forest raises its height to the larger of the two.
pub proof fn lemma_forest_push(s: Seq<ManifestV>, c: ManifestV)
    ensures
        forest_height(s.push(c)) == nat_max(forest_height(s), spec_height(c)),
{
    assert(s.push(c).drop_last() =~= s);
}

/// Replacing a tree of a forest by one at least as tall raises the forest's
/// height to the larger of the old height and the replacement's.
pub proof fn lemma_forest_update(s: Seq<ManifestV>, i: int, c: ManifestV)
    requires
        0 <= i < s.len(),
        spec_height(c) >= spec_height(s[i]),
    ensures
        forest_height(s.update(i, c)) == nat_max(forest_height(s), spec_height(c)),
{
    let su = s.update(i, c);
    lemma_forest_height(s);
    lemma_forest_height(su);
    let ju = choose|j: int| 0 <= j < su.len() && #[trigger] spec_height(su[j]) == forest_height(su);
    if ju != i {
        assert(su[ju] == s[ju]);
        assert(forest_height(su) <= forest_height(s));
    }
    let js = choose|j: int| 0 <= j < s.len() && #[trigger] spec_height(s[j]) == forest_height(s);
    if js != i {
        assert(su[js] == s[js]);
        assert(forest_height(su) >= forest_height(s));
    } else {
        assert(forest_height(s) == spec_height(s[i]));
    }
    assert(spec_height(su[i]) == spec_height(c));
}

/// The height of a forest is the largest height among its trees.
pub proof fn lemma_forest_height(s: Seq<ManifestV>)
    ensures
        forall|i: int| 0 <= i < s.len() ==> #[trigger] spec_height(s[i]) <= forest_height(s),
        s.len() == 0 ==> forest_height(s) == 0,
        s.len() > 0 ==> exists|i: int|
            0 <= i < s.len() && #[trigger] spec_height(s[i]) == forest_height(s),
    decreases s,
{
    if s.len() > 0 {
        lemma_forest_height(s.drop_last());
        assert forall|i: int| 0 <= i < s.len() implies #[trigger] spec_height(s[i])
            <= forest_height(s) by {
            if i < s.len() - 1 {
                assert(s.drop_last()[i] == s[i]);
                assert(spec_height(s.drop_last()[i]) <= forest_height(s.drop_last()));
            } else {
                assert(s[i] == s.last());
            }
        }
        if forest_height(s.drop_last()) >= spec_height(s.last()) {
            if s.drop_last().len() > 0 {
                let i = choose|i: int|
                    0 <= i < s.drop_last().len() && #[trigger] spec_height(s.drop_last()[i])
                        == forest_height(s.drop_last());
                assert(s.drop_last()[i] == s[i]);
                assert(spec_height(s[i]) == forest_height(s));
            } else {
                assert(forest_height(s.drop_last()) == 0);
                assert(spec_height(s.last()) >= 1);
            }
        } else {
            assert(spec_height(s[s.len() - 1]) == forest_height(s));
        }
    }
}

} // verus!
