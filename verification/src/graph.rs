//! The graph reducer: folds a manifest tree into a flat, deduplicated graph
//! of module and resource nodes with occurrence weights, and weighted
//! containment edges.

use vstd::prelude::*;

use crate::blocks::ResourceV;
use crate::manifest::{lemma_seq_model, seq_model, ManifestV, TerraformManifest};
use crate::modref::{module_name_spec, ModuleRefV};

verus! {

broadcast use vstd::std_specs::vec::group_vec_axioms;

/// The side of the graph a node belongs to.
#[derive(PartialEq, Eq, Structural, Clone, Copy, Debug)]
pub enum Category {
    /// A directory scope or a referenced module.
    Module,
    /// A resource kind.
    Resource,
}

/// Mathematical model of one graph node.
#[verifier::ext_equal]
pub struct GraphNodeV {
    pub id: u64,
    pub name: Seq<char>,
    pub category: Category,
    pub value: u64,
    pub symbol_size: u64,
}

/// One graph node: a unique id, the dedup key `(category, name)`, the
/// occurrence weight `value`, and the rendered size derived from it.
pub struct GraphNode {
    pub id: u64,
    pub name: String,
    pub category: Category,
    pub value: u64,
    pub symbol_size: u64,
}

impl View for GraphNode {
    type V = GraphNodeV;

    open spec fn view(&self) -> GraphNodeV {
        GraphNodeV {
            id: self.id,
            name: self.name@,
            category: self.category,
            value: self.value,
            symbol_size: self.symbol_size,
        }
    }
}

impl DeepView for GraphNode {
    type V = GraphNodeV;

    open spec fn deep_view(&self) -> GraphNodeV {
        self.view()
    }
}

/// One weighted edge, from a module node to a node it contains or
/// references, by node id. The pair `(source, target)` is the dedup key.
#[derive(PartialEq, Eq, Structural, Clone, Copy)]
pub struct GraphLink {
    pub source: u64,
    pub target: u64,
    pub value: u64,
}

/// One node category, by name, for the rendering consumer.
pub struct GraphCategory {
    pub name: String,
}

/// The reduced graph handed to the rendering consumer.
pub struct GraphData {
    pub nodes: Vec<GraphNode>,
    pub links: Vec<GraphLink>,
    pub categories: Vec<GraphCategory>,
}

/// Mathematical model of the graph being built.
#[verifier::ext_equal]
pub struct GraphV {
    pub nodes: Seq<GraphNodeV>,
    pub links: Seq<GraphLink>,
}

/// The graph with nothing in it.
pub open spec fn empty_graph() -> GraphV {
    GraphV { nodes: Seq::empty(), links: Seq::empty() }
}

/// A weight bumped by one, stopping at the largest representable value.
pub open spec fn sat_inc(v: u64) -> u64 {
    if v < u64::MAX {
        (v + 1) as u64
    } else {
        v
    }
}

/// The rendered size of a node of weight `v`: a base of 10 plus 2 per
/// occurrence, stopping at the largest representable value.
pub open spec fn size_of_weight(v: u64) -> u64 {
    if 2 * v + 10 <= u64::MAX {
        (2 * v + 10) as u64
    } else {
        u64::MAX
    }
}

/// The position of the first node with this category and name, when one
/// exists.
pub open spec fn find_node(ns: Seq<GraphNodeV>, cat: Category, name: Seq<char>) -> Option<int>
    decreases ns.len(),
{
    if ns.len() == 0 {
        None
    } else if ns[0].category == cat && ns[0].name == name {
        Some(0int)
    } else {
        match find_node(ns.drop_first(), cat, name) {
            Some(i) => Some(i + 1),
            None => None,
        }
    }
}

/// A found node index is in range and carries the key.
pub proof fn lemma_find_node_range(ns: Seq<GraphNodeV>, cat: Category, name: Seq<char>)
    ensures
        find_node(ns, cat, name) matches Some(i) ==> 0 <= i < ns.len() && ns[i].category == cat
            && ns[i].name == name,
    decreases ns.len(),
{
    if ns.len() > 0 && !(ns[0].category == cat && ns[0].name == name) {
        lemma_find_node_range(ns.drop_first(), cat, name);
    }
}

/// A node with the key at position `i`, with none before it, is the one
/// found.
proof fn lemma_find_node_found(ns: Seq<GraphNodeV>, cat: Category, name: Seq<char>, i: int)
    requires
        0 <= i < ns.len(),
        forall|k: int| 0 <= k < i ==> !(ns[k].category == cat && ns[k].name == name),
        ns[i].category == cat && ns[i].name == name,
    ensures
        find_node(ns, cat, name) == Some(i),
    decreases i,
{
    if i > 0 {
        lemma_find_node_found(ns.drop_first(), cat, name, i - 1);
    }
}

/// With no node of that key, none is found.
proof fn lemma_find_node_none(ns: Seq<GraphNodeV>, cat: Category, name: Seq<char>)
    requires
        forall|k: int| 0 <= k < ns.len() ==> !(ns[k].category == cat && ns[k].name == name),
    ensures
        find_node(ns, cat, name) is None,
    decreases ns.len(),
{
    if ns.len() > 0 {
        lemma_find_node_none(ns.drop_first(), cat, name);
    }
}

/// The position of the first link with this source and target, when one
/// exists.
pub open spec fn find_link(ls: Seq<GraphLink>, source: u64, target: u64) -> Option<int>
    decreases ls.len(),
{
    if ls.len() == 0 {
        None
    } else if ls[0].source == source && ls[0].target == target {
        Some(0int)
    } else {
        match find_link(ls.drop_first(), source, target) {
            Some(i) => Some(i + 1),
            None => None,
        }
    }
}

/// A found link index is in range and carries the key.
pub proof fn lemma_find_link_range(ls: Seq<GraphLink>, source: u64, target: u64)
    ensures
        find_link(ls, source, target) matches Some(i) ==> 0 <= i < ls.len() && ls[i].source
            == source && ls[i].target == target,
    decreases ls.len(),
{
    if ls.len() > 0 && !(ls[0].source == source && ls[0].target == target) {
        lemma_find_link_range(ls.drop_first(), source, target);
    }
}

/// A link with the key at position `i`, with none before it, is the one
/// found.
proof fn lemma_find_link_found(ls: Seq<GraphLink>, source: u64, target: u64, i: int)
    requires
        0 <= i < ls.len(),
        forall|k: int| 0 <= k < i ==> !(ls[k].source == source && ls[k].target == target),
        ls[i].source == source && ls[i].target == target,
    ensures
        find_link(ls, source, target) == Some(i),
    decreases i,
{
    if i > 0 {
        lemma_find_link_found(ls.drop_first(), source, target, i - 1);
    }
}

/// With no link of that key, none is found.
proof fn lemma_find_link_none(ls: Seq<GraphLink>, source: u64, target: u64)
    requires
        forall|k: int| 0 <= k < ls.len() ==> !(ls[k].source == source && ls[k].target == target),
    ensures
        find_link(ls, source, target) is None,
    decreases ls.len(),
{
    if ls.len() > 0 {
        lemma_find_link_none(ls.drop_first(), source, target);
    }
}

/// A node looked up or created by its `(category, name)` key: a missing node
/// is appended with weight 1 and the next id; an existing one has its weight
/// bumped when the visit contributes an occurrence, and is left alone when
/// the visit only needs its id. Hands back the graph and the node's
/// position.
pub open spec fn upsert_node(
    g: GraphV,
    cat: Category,
    name: Seq<char>,
    contributes: bool,
) -> (GraphV, int) {
    match find_node(g.nodes, cat, name) {
        Some(i) => if contributes {
            let n0 = g.nodes[i];
            let v2 = sat_inc(n0.value);
            (
                GraphV {
                    nodes: g.nodes.update(
                        i,
                        GraphNodeV { value: v2, symbol_size: size_of_weight(v2), ..n0 },
                    ),
                    ..g
                },
                i,
            )
        } else {
            (g, i)
        },
        None => (
            GraphV {
                nodes: g.nodes.push(
                    GraphNodeV {
                        id: g.nodes.len() as u64,
                        name,
                        category: cat,
                        value: 1,
                        symbol_size: size_of_weight(1),
                    },
                ),
                ..g
            },
            g.nodes.len() as int,
        ),
    }
}

/// A link looked up or created by its `(source, target)` key: a missing link
/// is appended with weight 1, an existing one has its weight bumped; no
/// parallel edges arise.
pub open spec fn upsert_link(g: GraphV, source: u64, target: u64) -> GraphV {
    match find_link(g.links, source, target) {
        Some(i) => GraphV {
            links: g.links.update(
                i,
                GraphLink { value: sat_inc(g.links[i].value), ..g.links[i] },
            ),
            ..g
        },
        None => GraphV { links: g.links.push(GraphLink { source, target, value: 1 }), ..g },
    }
}

/// One occurrence contributed under a module node: the child node is
/// upserted by its key, then the edge from the module to it.
pub open spec fn add_child_node(g: GraphV, module_id: u64, cat: Category, name: Seq<char>) -> GraphV {
    let (g1, i) = upsert_node(g, cat, name, true);
    upsert_link(g1, module_id, g1.nodes[i].id)
}

/// A node's resources folded in, in order, each keyed by its kind.
pub open spec fn fold_resources(g: GraphV, module_id: u64, rs: Seq<ResourceV>) -> GraphV
    decreases rs.len(),
{
    if rs.len() == 0 {
        g
    } else {
        add_child_node(
            fold_resources(g, module_id, rs.drop_last()),
            module_id,
            Category::Resource,
            rs.last().kind,
        )
    }
}

/// A node's module references folded in, in order, each keyed by its derived
/// name; an empty name is a key like any other.
pub open spec fn fold_modules(g: GraphV, module_id: u64, ms: Seq<ModuleRefV>) -> GraphV
    decreases ms.len(),
{
    if ms.len() == 0 {
        g
    } else {
        add_child_node(
            fold_modules(g, module_id, ms.drop_last()),
            module_id,
            Category::Module,
            module_name_spec(ms.last()),
        )
    }
}

/// One manifest node's own contribution: nothing when it is empty; otherwise
/// its scope's module node is looked up or created by name, and every
/// resource and module reference is contributed under it.
pub open spec fn reduce_node(g: GraphV, m: ManifestV) -> GraphV {
    if m.resources.len() == 0 && m.modules.len() == 0 {
        g
    } else {
        let (g1, i) = upsert_node(g, Category::Module, m.name, false);
        let mid = g1.nodes[i].id;
        fold_modules(fold_resources(g1, mid, m.resources), mid, m.modules)
    }
}

/// A manifest subtree folded into the graph: the node's own contribution
/// first, then its children in order, depth first.
pub open spec fn reduce_tree(g: GraphV, m: ManifestV) -> GraphV
    decreases m,
{
    reduce_forest(reduce_node(g, m), m.submodules)
}

/// A forest of subtrees folded into the graph, left to right.
pub open spec fn reduce_forest(g: GraphV, ms: Seq<ManifestV>) -> GraphV
    decreases ms,
{
    if ms.len() == 0 {
        g
    } else {
        reduce_tree(reduce_forest(g, ms.drop_last()), ms.last())
    }
}

/// The graph a manifest tree reduces to.
pub open spec fn graph_of(m: ManifestV) -> GraphV {
    reduce_tree(empty_graph(), m)
}

/// A weight bumped by one, stopping at the largest representable value.
fn sat_inc_exec(v: u64) -> (r: u64)
    ensures
        r == sat_inc(v),
{
    if v < u64::MAX {
        v + 1
    } else {
        v
    }
}

/// The rendered size of a node of weight `v`.
fn size_of_weight_exec(v: u64) -> (r: u64)
    ensures
        r == size_of_weight(v),
{
    if v <= (u64::MAX - 10) / 2 {
        2 * v + 10
    } else {
        u64::MAX
    }
}

/// The working state of one reduction: the nodes and links gathered so far.
pub struct GraphBuilder {
    pub nodes: Vec<GraphNode>,
    pub links: Vec<GraphLink>,
}

impl GraphBuilder {
    /// The mathematical model of the state.
    pub open spec fn model(&self) -> GraphV {
        GraphV { nodes: self.nodes.deep_view(), links: self.links@ }
    }

    /// An empty state.
    fn new() -> (r: Self)
        ensures
            r.model() == empty_graph(),
    {
        let r = GraphBuilder { nodes: Vec::new(), links: Vec::new() };
        proof {
            assert(r.model() =~= empty_graph());
        }
        r
    }

    /// The position of the first node with this category and name, when one
    /// exists.
    fn find_node_index(&self, cat: Category, name: &str) -> (r: Option<usize>)
        ensures
            match r {
                Some(i) => i < self.nodes@.len() && find_node(self.model().nodes, cat, name@)
                    == Some(i as int),
                None => find_node(self.model().nodes, cat, name@) is None,
            },
    {
        let n = self.nodes.len();
        let mut i: usize = 0;
        while i < n
            invariant
                i <= n,
                n == self.nodes@.len(),
                forall|k: int|
                    0 <= k < i ==> !(self.nodes.deep_view()[k].category == cat
                        && self.nodes.deep_view()[k].name == name@),
            decreases n - i,
        {
            let node = &self.nodes[i];
            if node.category == cat && crate::strings::str_eq(node.name.as_str(), name) {
                proof {
                    lemma_find_node_found(self.nodes.deep_view(), cat, name@, i as int);
                }
                return Some(i);
            }
            i = i + 1;
        }
        proof {
            lemma_find_node_none(self.nodes.deep_view(), cat, name@);
        }
        None
    }

    /// Looks the node up or creates it, per `upsert_node`, and hands its id
    /// back.
    fn upsert_node_exec(&mut self, cat: Category, name: &String, contributes: bool) -> (id: u64)
        ensures
            ({
                let (g2, i) = upsert_node(old(self).model(), cat, name@, contributes);
                final(self).model() == g2 && 0 <= i < g2.nodes.len() && id == g2.nodes[i].id
            }),
    {
        match self.find_node_index(cat, name.as_str()) {
            Some(i) => {
                proof {
                    lemma_find_node_range(self.model().nodes, cat, name@);
                }
                if contributes {
                    let v2 = sat_inc_exec(self.nodes[i].value);
                    let node2 = GraphNode {
                        id: self.nodes[i].id,
                        name: self.nodes[i].name.clone(),
                        category: self.nodes[i].category,
                        value: v2,
                        symbol_size: size_of_weight_exec(v2),
                    };
                    let id = node2.id;
                    let ghost nodes0 = self.nodes.deep_view();
                    self.nodes.set(i, node2);
                    proof {
                        let n0 = nodes0[i as int];
                        assert(self.nodes.deep_view() =~= nodes0.update(
                            i as int,
                            GraphNodeV {
                                value: sat_inc(n0.value),
                                symbol_size: size_of_weight(sat_inc(n0.value)),
                                ..n0
                            },
                        ));
                        assert(final(self).model() =~= upsert_node(
                            old(self).model(),
                            cat,
                            name@,
                            contributes,
                        ).0);
                    }
                    id
                } else {
                    self.nodes[i].id
                }
            },
            None => {
                let id = self.nodes.len() as u64;
                let node = GraphNode {
                    id,
                    name: name.clone(),
                    category: cat,
                    value: 1,
                    symbol_size: size_of_weight_exec(1),
                };
                let ghost nodes0 = self.nodes.deep_view();
                self.nodes.push(node);
                proof {
                    assert(self.nodes.deep_view() =~= nodes0.push(
                        GraphNodeV {
                            id: nodes0.len() as u64,
                            name: name@,
                            category: cat,
                            value: 1,
                            symbol_size: size_of_weight(1),
                        },
                    ));
                    assert(final(self).model() =~= upsert_node(
                        old(self).model(),
                        cat,
                        name@,
                        contributes,
                    ).0);
                }
                id
            },
        }
    }

    /// Looks the link up or creates it, per `upsert_link`.
    fn upsert_link_exec(&mut self, source: u64, target: u64)
        ensures
            final(self).model() == upsert_link(old(self).model(), source, target),
    {
        let n = self.links.len();
        let mut i: usize = 0;
        while i < n
            invariant
                i <= n,
                n == self.links@.len(),
                self.links == old(self).links,
                self.nodes == old(self).nodes,
                forall|k: int|
                    0 <= k < i ==> !(self.links@[k].source == source && self.links@[k].target
                        == target),
            decreases n - i,
        {
            if self.links[i].source == source && self.links[i].target == target {
                proof {
                    lemma_find_link_found(self.links@, source, target, i as int);
                }
                let link2 = GraphLink {
                    source,
                    target,
                    value: sat_inc_exec(self.links[i].value),
                };
                self.links.set(i, link2);
                proof {
                    assert(final(self).model() =~= upsert_link(old(self).model(), source, target));
                }
                return ;
            }
            i = i + 1;
        }
        proof {
            lemma_find_link_none(self.links@, source, target);
        }
        self.links.push(GraphLink { source, target, value: 1 });
        proof {
            assert(final(self).model() =~= upsert_link(old(self).model(), source, target));
        }
    }
}

impl TerraformManifest {
    /// This node's own contribution folded into the state, per `reduce_node`.
    fn contribute(&self, b: &mut GraphBuilder)
        ensures
            final(b).model() == reduce_node(old(b).model(), self.model()),
    {
        if self.is_empty() {
            return ;
        }
        let mid = b.upsert_node_exec(Category::Module, &self.name, false);
        let ghost g1 = b.model();
        let rn = self.resources.len();
        let mut i: usize = 0;
        while i < rn
            invariant
                i <= rn,
                rn == self.resources@.len(),
                b.model() == fold_resources(g1, mid, self.resources.deep_view().take(i as int)),
            decreases rn - i,
        {
            let ghost pre = self.resources.deep_view().take(i as int);
            let ghost post = self.resources.deep_view().take(i + 1);
            proof {
                assert(post.drop_last() =~= pre);
                assert(post.last() == self.resources.deep_view()[i as int]);
            }
            let cid = b.upsert_node_exec(Category::Resource, &self.resources[i].kind, true);
            b.upsert_link_exec(mid, cid);
            i = i + 1;
        }
        proof {
            assert(self.resources.deep_view().take(rn as int) =~= self.resources.deep_view());
        }
        let ghost g2 = b.model();
        let mn = self.modules.len();
        let mut j: usize = 0;
        while j < mn
            invariant
                j <= mn,
                mn == self.modules@.len(),
                b.model() == fold_modules(g2, mid, self.modules.deep_view().take(j as int)),
            decreases mn - j,
        {
            let ghost pre = self.modules.deep_view().take(j as int);
            let ghost post = self.modules.deep_view().take(j + 1);
            proof {
                assert(post.drop_last() =~= pre);
                assert(post.last() == self.modules.deep_view()[j as int]);
            }
            let mname = self.modules[j].name();
            let cid = b.upsert_node_exec(Category::Module, &mname, true);
            b.upsert_link_exec(mid, cid);
            j = j + 1;
        }
        proof {
            assert(self.modules.deep_view().take(mn as int) =~= self.modules.deep_view());
        }
    }

    /// This subtree folded into the state, per `reduce_tree`: the node's own
    /// contribution first, then its children in order.
    fn reduce_into(&self, b: &mut GraphBuilder)
        ensures
            final(b).model() == reduce_tree(old(b).model(), self.model()),
        decreases self,
    {
        self.contribute(b);
        let ghost g1 = b.model();
        let n = self.submodules.len();
        let mut i: usize = 0;
        proof {
            lemma_seq_model(self.submodules@);
        }
        while i < n
            invariant
                i <= n,
                n == self.submodules@.len(),
                seq_model(self.submodules@).len() == n,
                forall|k: int|
                    0 <= k < n ==> #[trigger] seq_model(self.submodules@)[k]
                        == self.submodules@[k].model(),
                b.model() == reduce_forest(g1, seq_model(self.submodules@).take(i as int)),
            decreases n - i,
        {
            let ghost pre = seq_model(self.submodules@).take(i as int);
            let ghost post = seq_model(self.submodules@).take(i + 1);
            proof {
                assert(post.drop_last() =~= pre);
                assert(post.last() == seq_model(self.submodules@)[i as int]);
            }
            self.submodules[i].reduce_into(b);
            i = i + 1;
        }
        proof {
            assert(seq_model(self.submodules@).take(n as int) =~= seq_model(self.submodules@));
            assert(self.model().submodules == seq_model(self.submodules@));
        }
    }

    /// Reduces this manifest tree to its graph: deduplicated nodes keyed by
    /// `(category, name)` with occurrence weights, weighted edges keyed by
    /// `(source, target)`, and the two fixed categories, module and
    /// resource.
    pub fn to_graph(&self) -> (r: GraphData)
        ensures
            r.nodes.deep_view() == graph_of(self.model()).nodes,
            r.links@ == graph_of(self.model()).links,
            r.categories@.len() == 2,
            r.categories@[0].name@ == "module"@,
            r.categories@[1].name@ == "resource"@,
    {
        let mut b = GraphBuilder::new();
        self.reduce_into(&mut b);
        let mut categories: Vec<GraphCategory> = Vec::new();
        categories.push(GraphCategory { name: String::from_str("module") });
        categories.push(GraphCategory { name: String::from_str("resource") });
        GraphData { nodes: b.nodes, links: b.links, categories }
    }
}

/// No two nodes share a `(category, name)` key.
pub open spec fn nodes_unique(ns: Seq<GraphNodeV>) -> bool {
    forall|i: int, j: int|
        #![trigger ns[i], ns[j]]
        0 <= i < j < ns.len() ==> !(ns[i].category == ns[j].category && ns[i].name == ns[j].name)
}

/// No two links share a `(source, target)` key.
pub open spec fn links_unique(ls: Seq<GraphLink>) -> bool {
    forall|i: int, j: int|
        #![trigger ls[i], ls[j]]
        0 <= i < j < ls.len() ==> !(ls[i].source == ls[j].source && ls[i].target == ls[j].target)
}

/// When no node is found, no position holds the key.
proof fn lemma_find_node_none_complete(ns: Seq<GraphNodeV>, cat: Category, name: Seq<char>)
    requires
        find_node(ns, cat, name) is None,
    ensures
        forall|k: int|
            0 <= k < ns.len() ==> !(#[trigger] ns[k].category == cat && ns[k].name == name),
    decreases ns.len(),
{
    if ns.len() > 0 {
        lemma_find_node_none_complete(ns.drop_first(), cat, name);
        assert forall|k: int|
            0 <= k < ns.len() implies !(#[trigger] ns[k].category == cat && ns[k].name
            == name) by {
            if k > 0 {
                assert(ns[k] == ns.drop_first()[k - 1]);
            }
        }
    }
}

/// When no link is found, no position holds the key.
proof fn lemma_find_link_none_complete(ls: Seq<GraphLink>, source: u64, target: u64)
    requires
        find_link(ls, source, target) is None,
    ensures
        forall|k: int|
            0 <= k < ls.len() ==> !(#[trigger] ls[k].source == source && ls[k].target == target),
    decreases ls.len(),
{
    if ls.len() > 0 {
        lemma_find_link_none_complete(ls.drop_first(), source, target);
        assert forall|k: int|
            0 <= k < ls.len() implies !(#[trigger] ls[k].source == source && ls[k].target
            == target) by {
            if k > 0 {
                assert(ls[k] == ls.drop_first()[k - 1]);
            }
        }
    }
}

/// Upserting a node keeps the node keys unique and the links untouched: a
/// found node only changes its weight, a missing one enters with a key no
/// other node holds.
proof fn lemma_upsert_node_unique(g: GraphV, cat: Category, name: Seq<char>, contributes: bool)
    requires
        nodes_unique(g.nodes),
        links_unique(g.links),
    ensures
        nodes_unique(upsert_node(g, cat, name, contributes).0.nodes),
        links_unique(upsert_node(g, cat, name, contributes).0.links),
{
    let g2 = upsert_node(g, cat, name, contributes).0;
    lemma_find_node_range(g.nodes, cat, name);
    match find_node(g.nodes, cat, name) {
        Some(i) => {
            assert forall|a: int, b: int|
                0 <= a < b < g2.nodes.len() implies !(#[trigger] g2.nodes[a].category
                == #[trigger] g2.nodes[b].category && g2.nodes[a].name == g2.nodes[b].name) by {
                assert(g2.nodes[a].category == g.nodes[a].category && g2.nodes[a].name
                    == g.nodes[a].name);
                assert(g2.nodes[b].category == g.nodes[b].category && g2.nodes[b].name
                    == g.nodes[b].name);
            }
        },
        None => {
            lemma_find_node_none_complete(g.nodes, cat, name);
            assert forall|a: int, b: int|
                0 <= a < b < g2.nodes.len() implies !(#[trigger] g2.nodes[a].category
                == #[trigger] g2.nodes[b].category && g2.nodes[a].name == g2.nodes[b].name) by {
                if b < g.nodes.len() {
                    assert(g2.nodes[a] == g.nodes[a] && g2.nodes[b] == g.nodes[b]);
                } else {
                    assert(g2.nodes[a] == g.nodes[a]);
                    assert(g2.nodes[b].category == cat && g2.nodes[b].name == name);
                }
            }
        },
    }
}

/// Upserting a link keeps the link keys unique and the nodes untouched.
proof fn lemma_upsert_link_unique(g: GraphV, source: u64, target: u64)
    requires
        nodes_unique(g.nodes),
        links_unique(g.links),
    ensures
        nodes_unique(upsert_link(g, source, target).nodes),
        links_unique(upsert_link(g, source, target).links),
{
    let g2 = upsert_link(g, source, target);
    lemma_find_link_range(g.links, source, target);
    match find_link(g.links, source, target) {
        Some(i) => {
            assert forall|a: int, b: int|
                0 <= a < b < g2.links.len() implies !(#[trigger] g2.links[a].source
                == #[trigger] g2.links[b].source && g2.links[a].target == g2.links[b].target) by {
                assert(g2.links[a].source == g.links[a].source && g2.links[a].target
                    == g.links[a].target);
                assert(g2.links[b].source == g.links[b].source && g2.links[b].target
                    == g.links[b].target);
            }
        },
        None => {
            lemma_find_link_none_complete(g.links, source, target);
            assert forall|a: int, b: int|
                0 <= a < b < g2.links.len() implies !(#[trigger] g2.links[a].source
                == #[trigger] g2.links[b].source && g2.links[a].target == g2.links[b].target) by {
                if b < g.links.len() {
                    assert(g2.links[a] == g.links[a] && g2.links[b] == g.links[b]);
                } else {
                    assert(g2.links[a] == g.links[a]);
                    assert(g2.links[b].source == source && g2.links[b].target == target);
                }
            }
        },
    }
}

/// One contribution keeps both key sets unique.
proof fn lemma_add_child_unique(g: GraphV, module_id: u64, cat: Category, name: Seq<char>)
    requires
        nodes_unique(g.nodes),
        links_unique(g.links),
    ensures
        nodes_unique(add_child_node(g, module_id, cat, name).nodes),
        links_unique(add_child_node(g, module_id, cat, name).links),
{
    lemma_upsert_node_unique(g, cat, name, true);
    let g1 = upsert_node(g, cat, name, true).0;
    let i = upsert_node(g, cat, name, true).1;
    lemma_upsert_link_unique(g1, module_id, g1.nodes[i].id);
}

/// Folding a node's resources keeps both key sets unique.
proof fn lemma_fold_resources_unique(g: GraphV, module_id: u64, rs: Seq<ResourceV>)
    requires
        nodes_unique(g.nodes),
        links_unique(g.links),
    ensures
        nodes_unique(fold_resources(g, module_id, rs).nodes),
        links_unique(fold_resources(g, module_id, rs).links),
    decreases rs.len(),
{
    if rs.len() > 0 {
        lemma_fold_resources_unique(g, module_id, rs.drop_last());
        lemma_add_child_unique(
            fold_resources(g, module_id, rs.drop_last()),
            module_id,
            Category::Resource,
            rs.last().kind,
        );
    }
}

/// Folding a node's module references keeps both key sets unique.
proof fn lemma_fold_modules_unique(g: GraphV, module_id: u64, ms: Seq<ModuleRefV>)
    requires
        nodes_unique(g.nodes),
        links_unique(g.links),
    ensures
        nodes_unique(fold_modules(g, module_id, ms).nodes),
        links_unique(fold_modules(g, module_id, ms).links),
    decreases ms.len(),
{
    if ms.len() > 0 {
        lemma_fold_modules_unique(g, module_id, ms.drop_last());
        lemma_add_child_unique(
            fold_modules(g, module_id, ms.drop_last()),
            module_id,
            Category::Module,
            module_name_spec(ms.last()),
        );
    }
}

/// One manifest node's contribution keeps both key sets unique.
proof fn lemma_reduce_node_unique(g: GraphV, m: ManifestV)
    requires
        nodes_unique(g.nodes),
        links_unique(g.links),
    ensures
        nodes_unique(reduce_node(g, m).nodes),
        links_unique(reduce_node(g, m).links),
{
    if !(m.resources.len() == 0 && m.modules.len() == 0) {
        lemma_upsert_node_unique(g, Category::Module, m.name, false);
        let g1 = upsert_node(g, Category::Module, m.name, false).0;
        let mid = g1.nodes[upsert_node(g, Category::Module, m.name, false).1].id;
        lemma_fold_resources_unique(g1, mid, m.resources);
        lemma_fold_modules_unique(fold_resources(g1, mid, m.resources), mid, m.modules);
    }
}

/// Reducing a subtree keeps both key sets unique.
proof fn lemma_reduce_tree_unique(g: GraphV, m: ManifestV)
    requires
        nodes_unique(g.nodes),
        links_unique(g.links),
    ensures
        nodes_unique(reduce_tree(g, m).nodes),
        links_unique(reduce_tree(g, m).links),
    decreases m,
{
    lemma_reduce_node_unique(g, m);
    lemma_reduce_forest_unique(reduce_node(g, m), m.submodules);
}

/// Reducing a forest keeps both key sets unique.
proof fn lemma_reduce_forest_unique(g: GraphV, ms: Seq<ManifestV>)
    requires
        nodes_unique(g.nodes),
        links_unique(g.links),
    ensures
        nodes_unique(reduce_forest(g, ms).nodes),
        links_unique(reduce_forest(g, ms).links),
    decreases ms,
{
    if ms.len() > 0 {
        lemma_reduce_forest_unique(g, ms.drop_last());
        lemma_reduce_tree_unique(reduce_forest(g, ms.drop_last()), ms.last());
    }
}

/// Graph dedup holds globally: whatever the manifest tree, its reduced
/// graph never holds two nodes with one `(category, name)` key, nor two
/// links with one `(source, target)` key — repeated occurrences only raise
/// weights.
pub proof fn lemma_graph_of_unique(m: ManifestV)
    ensures
        nodes_unique(graph_of(m).nodes),
        links_unique(graph_of(m).links),
{
    lemma_reduce_tree_unique(empty_graph(), m);
}

/// Appending a node of another key leaves a key's lookup unchanged.
proof fn lemma_find_node_push_other(
    ns: Seq<GraphNodeV>,
    n: GraphNodeV,
    cat: Category,
    name: Seq<char>,
)
    requires
        !(n.category == cat && n.name == name),
    ensures
        find_node(ns.push(n), cat, name) == find_node(ns, cat, name),
    decreases ns.len(),
{
    if ns.len() == 0 {
        assert(ns.push(n)[0] == n);
        assert(ns.push(n).drop_first() =~= ns);
    } else {
        lemma_find_node_push_other(ns.drop_first(), n, cat, name);
        assert(ns.push(n).drop_first() =~= ns.drop_first().push(n));
        assert(ns.push(n)[0] == ns[0]);
    }
}

/// Appending a node of a key that is absent makes it the one found, at the
/// end.
proof fn lemma_find_node_push_new(ns: Seq<GraphNodeV>, n: GraphNodeV)
    requires
        find_node(ns, n.category, n.name) is None,
    ensures
        find_node(ns.push(n), n.category, n.name) == Some(ns.len() as int),
{
    lemma_find_node_none_complete(ns, n.category, n.name);
    lemma_find_node_found(ns.push(n), n.category, n.name, ns.len() as int);
}

/// Replacing a node by one of the same key leaves every lookup unchanged.
proof fn lemma_find_node_update_samekey(
    ns: Seq<GraphNodeV>,
    i: int,
    n2: GraphNodeV,
    cat: Category,
    name: Seq<char>,
)
    requires
        0 <= i < ns.len(),
        n2.category == ns[i].category,
        n2.name == ns[i].name,
    ensures
        find_node(ns.update(i, n2), cat, name) == find_node(ns, cat, name),
    decreases ns.len(),
{
    let nu = ns.update(i, n2);
    if i == 0 {
        assert(nu[0].category == ns[0].category && nu[0].name == ns[0].name);
        if !(ns[0].category == cat && ns[0].name == name) {
            assert(nu.drop_first() =~= ns.drop_first());
        }
    } else {
        assert(nu[0] == ns[0]);
        if !(ns[0].category == cat && ns[0].name == name) {
            assert(nu.drop_first() =~= ns.drop_first().update(i - 1, n2));
            lemma_find_node_update_samekey(ns.drop_first(), i - 1, n2, cat, name);
        }
    }
}

/// A count capped at the largest representable weight.
pub open spec fn sat_of(n: int) -> u64
    recommends
        n >= 0,
{
    if n <= u64::MAX {
        n as u64
    } else {
        u64::MAX
    }
}

/// Occurrences of a resource kind in one declaration list.
pub open spec fn count_in_resources(rs: Seq<ResourceV>, k: Seq<char>) -> nat
    decreases rs.len(),
{
    if rs.len() == 0 {
        0
    } else {
        count_in_resources(rs.drop_last(), k) + (if rs.last().kind == k {
            1nat
        } else {
            0nat
        })
    }
}

/// Occurrences of a resource kind in a whole manifest tree.
pub open spec fn count_kind_tree(m: ManifestV, k: Seq<char>) -> nat
    decreases m,
{
    count_in_resources(m.resources, k) + count_kind_forest(m.submodules, k)
}

/// Occurrences of a resource kind in a forest of subtrees.
pub open spec fn count_kind_forest(ms: Seq<ManifestV>, k: Seq<char>) -> nat
    decreases ms,
{
    if ms.len() == 0 {
        0
    } else {
        count_kind_forest(ms.drop_last(), k) + count_kind_tree(ms.last(), k)
    }
}

/// Whether the graph holds a resource node for the kind.
pub open spec fn res_node_exists(g: GraphV, k: Seq<char>) -> bool {
    find_node(g.nodes, Category::Resource, k) is Some
}

/// The weight the graph holds for a resource kind; zero when absent.
pub open spec fn res_node_value(g: GraphV, k: Seq<char>) -> int {
    match find_node(g.nodes, Category::Resource, k) {
        Some(i) => g.nodes[i].value as int,
        None => 0,
    }
}

/// Capping composes: capping, adding and capping again is capping the sum.
proof fn lemma_sat_compose(a: int, b: int)
    requires
        a >= 0,
        b >= 0,
    ensures
        sat_of(sat_of(a) + b) == sat_of(a + b),
{
}

/// Contributing one occurrence touches exactly its own key: that resource
/// kind's weight is bumped (capped), entering at weight one when absent;
/// every other kind's weight and presence stay; module-keyed contributions
/// leave all resource kinds alone.
proof fn lemma_add_child_res_value(
    g: GraphV,
    module_id: u64,
    cat: Category,
    name: Seq<char>,
    k: Seq<char>,
)
    ensures
        (cat == Category::Resource && name == k) ==> res_node_exists(
            add_child_node(g, module_id, cat, name),
            k,
        ) && res_node_value(add_child_node(g, module_id, cat, name), k) == sat_of(
            res_node_value(g, k) + 1,
        ),
        !(cat == Category::Resource && name == k) ==> res_node_exists(
            add_child_node(g, module_id, cat, name),
            k,
        ) == res_node_exists(g, k) && res_node_value(add_child_node(g, module_id, cat, name), k)
            == res_node_value(g, k),
{
    lemma_find_node_range(g.nodes, cat, name);
    lemma_find_node_range(g.nodes, Category::Resource, k);
    let g1 = upsert_node(g, cat, name, true).0;
    match find_node(g.nodes, cat, name) {
        Some(i) => {
            let n0 = g.nodes[i];
            let n2 = GraphNodeV {
                value: sat_inc(n0.value),
                symbol_size: size_of_weight(sat_inc(n0.value)),
                ..n0
            };
            lemma_find_node_update_samekey(g.nodes, i, n2, Category::Resource, k);
            lemma_find_node_range(g1.nodes, Category::Resource, k);
        },
        None => {
            if cat == Category::Resource && name == k {
                lemma_find_node_push_new(
                    g.nodes,
                    GraphNodeV {
                        id: g.nodes.len() as u64,
                        name,
                        category: cat,
                        value: 1,
                        symbol_size: size_of_weight(1),
                    },
                );
            } else {
                lemma_find_node_push_other(
                    g.nodes,
                    GraphNodeV {
                        id: g.nodes.len() as u64,
                        name,
                        category: cat,
                        value: 1,
                        symbol_size: size_of_weight(1),
                    },
                    Category::Resource,
                    k,
                );
                lemma_find_node_range(g1.nodes, Category::Resource, k);
            }
        },
    }
}

/// Looking a module node up, or creating one, leaves every resource kind's
/// weight and presence alone.
proof fn lemma_upsert_module_frame(g: GraphV, name: Seq<char>, k: Seq<char>)
    ensures
        res_node_exists(upsert_node(g, Category::Module, name, false).0, k) == res_node_exists(
            g,
            k,
        ),
        res_node_value(upsert_node(g, Category::Module, name, false).0, k) == res_node_value(
            g,
            k,
        ),
{
    match find_node(g.nodes, Category::Module, name) {
        Some(i) => {},
        None => {
            lemma_find_node_push_other(
                g.nodes,
                GraphNodeV {
                    id: g.nodes.len() as u64,
                    name,
                    category: Category::Module,
                    value: 1,
                    symbol_size: size_of_weight(1),
                },
                Category::Resource,
                k,
            );
            lemma_find_node_range(g.nodes, Category::Resource, k);
        },
    }
}

/// Folding a node's resources raises the kind's weight by its number of
/// occurrences there, capped.
proof fn lemma_fold_resources_value(g: GraphV, module_id: u64, rs: Seq<ResourceV>, k: Seq<char>)
    ensures
        res_node_exists(fold_resources(g, module_id, rs), k) == (res_node_exists(g, k)
            || count_in_resources(rs, k) > 0),
        res_node_value(fold_resources(g, module_id, rs), k) == sat_of(
            res_node_value(g, k) + count_in_resources(rs, k),
        ),
    decreases rs.len(),
{
    lemma_find_node_range(g.nodes, Category::Resource, k);
    if rs.len() == 0 {
    } else {
        lemma_fold_resources_value(g, module_id, rs.drop_last(), k);
        let gd = fold_resources(g, module_id, rs.drop_last());
        lemma_add_child_res_value(gd, module_id, Category::Resource, rs.last().kind, k);
        if rs.last().kind == k {
            lemma_sat_compose(
                res_node_value(g, k) + count_in_resources(rs.drop_last(), k),
                1,
            );
        }
    }
}

/// Folding a node's module references leaves every resource kind alone.
proof fn lemma_fold_modules_frame(g: GraphV, module_id: u64, ms: Seq<ModuleRefV>, k: Seq<char>)
    ensures
        res_node_exists(fold_modules(g, module_id, ms), k) == res_node_exists(g, k),
        res_node_value(fold_modules(g, module_id, ms), k) == res_node_value(g, k),
    decreases ms.len(),
{
    if ms.len() > 0 {
        lemma_fold_modules_frame(g, module_id, ms.drop_last(), k);
        lemma_add_child_res_value(
            fold_modules(g, module_id, ms.drop_last()),
            module_id,
            Category::Module,
            module_name_spec(ms.last()),
            k,
        );
    }
}

/// One manifest node raises the kind's weight by its own occurrences,
/// capped.
proof fn lemma_reduce_node_value(g: GraphV, m: ManifestV, k: Seq<char>)
    ensures
        res_node_exists(reduce_node(g, m), k) == (res_node_exists(g, k) || count_in_resources(
            m.resources,
            k,
        ) > 0),
        res_node_value(reduce_node(g, m), k) == sat_of(
            res_node_value(g, k) + count_in_resources(m.resources, k),
        ),
{
    lemma_find_node_range(g.nodes, Category::Resource, k);
    if m.resources.len() == 0 && m.modules.len() == 0 {
    } else {
        lemma_upsert_module_frame(g, m.name, k);
        let g1 = upsert_node(g, Category::Module, m.name, false).0;
        let mid = g1.nodes[upsert_node(g, Category::Module, m.name, false).1].id;
        lemma_fold_resources_value(g1, mid, m.resources, k);
        lemma_fold_modules_frame(fold_resources(g1, mid, m.resources), mid, m.modules, k);
    }
}

/// A subtree raises the kind's weight by all its occurrences, capped.
proof fn lemma_reduce_tree_value(g: GraphV, m: ManifestV, k: Seq<char>)
    ensures
        res_node_exists(reduce_tree(g, m), k) == (res_node_exists(g, k) || count_kind_tree(m, k)
            > 0),
        res_node_value(reduce_tree(g, m), k) == sat_of(res_node_value(g, k) + count_kind_tree(m, k)),
    decreases m,
{
    lemma_reduce_node_value(g, m, k);
    lemma_reduce_forest_value(reduce_node(g, m), m.submodules, k);
    lemma_sat_compose(
        res_node_value(g, k) + count_in_resources(m.resources, k),
        count_kind_forest(m.submodules, k) as int,
    );
}

/// A forest raises the kind's weight by all its occurrences, capped.
proof fn lemma_reduce_forest_value(g: GraphV, ms: Seq<ManifestV>, k: Seq<char>)
    ensures
        res_node_exists(reduce_forest(g, ms), k) == (res_node_exists(g, k) || count_kind_forest(
            ms,
            k,
        ) > 0),
        res_node_value(reduce_forest(g, ms), k) == sat_of(
            res_node_value(g, k) + count_kind_forest(ms, k),
        ),
    decreases ms,
{
    lemma_find_node_range(g.nodes, Category::Resource, k);
    if ms.len() > 0 {
        lemma_reduce_forest_value(g, ms.drop_last(), k);
        lemma_reduce_tree_value(reduce_forest(g, ms.drop_last()), ms.last(), k);
        lemma_sat_compose(
            res_node_value(g, k) + count_kind_forest(ms.drop_last(), k),
            count_kind_tree(ms.last(), k) as int,
        );
    }
}

/// Aggregation: for every manifest tree and resource kind, the reduced
/// graph holds a resource node for the kind exactly when the tree declares
/// it somewhere, and that node's weight is the number of declarations,
/// capped at the largest representable weight.
pub proof fn lemma_resource_weight_counts(m: ManifestV, k: Seq<char>)
    ensures
        res_node_exists(graph_of(m), k) == (count_kind_tree(m, k) > 0),
        res_node_value(graph_of(m), k) == sat_of(count_kind_tree(m, k) as int),
{
    assert(find_node(empty_graph().nodes, Category::Resource, k) is None);
    lemma_reduce_tree_value(empty_graph(), m, k);
}

/// How many graph nodes one manifest node can add at most: its scope's
/// module node, one node per resource, one per module reference.
pub open spec fn node_budget(m: ManifestV) -> nat {
    1 + m.resources.len() + m.modules.len()
}

/// How many graph nodes a subtree can add at most.
pub open spec fn tree_budget(m: ManifestV) -> nat
    decreases m,
{
    node_budget(m) + forest_budget(m.submodules)
}

/// How many graph nodes a forest can add at most.
pub open spec fn forest_budget(ms: Seq<ManifestV>) -> nat
    decreases ms,
{
    if ms.len() == 0 {
        0
    } else {
        forest_budget(ms.drop_last()) + tree_budget(ms.last())
    }
}

/// Node ids are positions: each node carries the index it sits at, so ids
/// are unique and never change once assigned.
pub open spec fn ids_are_indices(g: GraphV) -> bool {
    forall|i: int| 0 <= i < g.nodes.len() ==> #[trigger] g.nodes[i].id == i as u64
}

/// Every link joins ids of nodes the graph holds.
pub open spec fn links_bounded(g: GraphV) -> bool {
    forall|i: int|
        0 <= i < g.links.len() ==> (#[trigger] g.links[i].source < g.nodes.len()
            && g.links[i].target < g.nodes.len())
}

/// Upserting a node keeps ids positional and links bounded, never removes a
/// node, hands back an in-range position, and leaves the links alone.
proof fn lemma_upsert_node_wf(g: GraphV, cat: Category, name: Seq<char>, contributes: bool)
    requires
        ids_are_indices(g),
        links_bounded(g),
    ensures
        ({
            let (g2, i) = upsert_node(g, cat, name, contributes);
            &&& ids_are_indices(g2)
            &&& links_bounded(g2)
            &&& g.nodes.len() <= g2.nodes.len()
            &&& g2.nodes.len() <= g.nodes.len() + 1
            &&& 0 <= i < g2.nodes.len()
            &&& g2.links == g.links
            &&& g2.nodes[i].id == i as u64
        }),
{
    lemma_find_node_range(g.nodes, cat, name);
}

/// Upserting a link between ids of held nodes keeps ids positional and
/// links bounded, and leaves the nodes alone.
proof fn lemma_upsert_link_wf(g: GraphV, source: u64, target: u64)
    requires
        ids_are_indices(g),
        links_bounded(g),
        source < g.nodes.len(),
        target < g.nodes.len(),
    ensures
        ids_are_indices(upsert_link(g, source, target)),
        links_bounded(upsert_link(g, source, target)),
        upsert_link(g, source, target).nodes == g.nodes,
{
    lemma_find_link_range(g.links, source, target);
    let g2 = upsert_link(g, source, target);
    assert forall|i: int|
        0 <= i < g2.links.len() implies (#[trigger] g2.links[i].source < g2.nodes.len()
        && g2.links[i].target < g2.nodes.len()) by {
        if i < g.links.len() {
            assert(g2.links[i].source == g.links[i].source || g2.links[i] == g.links[i]
                || g2.links[i].source == source);
            assert(g.links[i].source < g.nodes.len() && g.links[i].target < g.nodes.len());
        }
    }
}

/// One contribution keeps the graph well-formed and never removes a node.
proof fn lemma_add_child_wf(g: GraphV, module_id: u64, cat: Category, name: Seq<char>)
    requires
        ids_are_indices(g),
        links_bounded(g),
        module_id < g.nodes.len(),
    ensures
        ids_are_indices(add_child_node(g, module_id, cat, name)),
        links_bounded(add_child_node(g, module_id, cat, name)),
        g.nodes.len() <= add_child_node(g, module_id, cat, name).nodes.len(),
        add_child_node(g, module_id, cat, name).nodes.len() <= g.nodes.len() + 1,
{
    lemma_upsert_node_wf(g, cat, name, true);
    let g1 = upsert_node(g, cat, name, true).0;
    let i = upsert_node(g, cat, name, true).1;
    lemma_upsert_link_wf(g1, module_id, g1.nodes[i].id);
}

/// Folding resources keeps the graph well-formed and never removes a node.
proof fn lemma_fold_resources_wf(g: GraphV, module_id: u64, rs: Seq<ResourceV>)
    requires
        ids_are_indices(g),
        links_bounded(g),
        module_id < g.nodes.len(),
    ensures
        ids_are_indices(fold_resources(g, module_id, rs)),
        links_bounded(fold_resources(g, module_id, rs)),
        g.nodes.len() <= fold_resources(g, module_id, rs).nodes.len(),
        fold_resources(g, module_id, rs).nodes.len() <= g.nodes.len() + rs.len(),
    decreases rs.len(),
{
    if rs.len() > 0 {
        lemma_fold_resources_wf(g, module_id, rs.drop_last());
        lemma_add_child_wf(
            fold_resources(g, module_id, rs.drop_last()),
            module_id,
            Category::Resource,
            rs.last().kind,
        );
    }
}

/// Folding module references keeps the graph well-formed and never removes
/// a node.
proof fn lemma_fold_modules_wf(g: GraphV, module_id: u64, ms: Seq<ModuleRefV>)
    requires
        ids_are_indices(g),
        links_bounded(g),
        module_id < g.nodes.len(),
    ensures
        ids_are_indices(fold_modules(g, module_id, ms)),
        links_bounded(fold_modules(g, module_id, ms)),
        g.nodes.len() <= fold_modules(g, module_id, ms).nodes.len(),
        fold_modules(g, module_id, ms).nodes.len() <= g.nodes.len() + ms.len(),
    decreases ms.len(),
{
    if ms.len() > 0 {
        lemma_fold_modules_wf(g, module_id, ms.drop_last());
        lemma_add_child_wf(
            fold_modules(g, module_id, ms.drop_last()),
            module_id,
            Category::Module,
            module_name_spec(ms.last()),
        );
    }
}

/// One manifest node keeps the graph well-formed and never removes a node.
proof fn lemma_reduce_node_wf(g: GraphV, m: ManifestV)
    requires
        ids_are_indices(g),
        links_bounded(g),
    ensures
        ids_are_indices(reduce_node(g, m)),
        links_bounded(reduce_node(g, m)),
        g.nodes.len() <= reduce_node(g, m).nodes.len(),
        reduce_node(g, m).nodes.len() <= g.nodes.len() + node_budget(m),
{
    if !(m.resources.len() == 0 && m.modules.len() == 0) {
        lemma_upsert_node_wf(g, Category::Module, m.name, false);
        let g1 = upsert_node(g, Category::Module, m.name, false).0;
        let i = upsert_node(g, Category::Module, m.name, false).1;
        let mid = g1.nodes[i].id;
        lemma_fold_resources_wf(g1, mid, m.resources);
        lemma_fold_modules_wf(fold_resources(g1, mid, m.resources), mid, m.modules);
    }
}

/// Reducing a subtree keeps the graph well-formed and never removes a node.
proof fn lemma_reduce_tree_wf(g: GraphV, m: ManifestV)
    requires
        ids_are_indices(g),
        links_bounded(g),
    ensures
        ids_are_indices(reduce_tree(g, m)),
        links_bounded(reduce_tree(g, m)),
        g.nodes.len() <= reduce_tree(g, m).nodes.len(),
        reduce_tree(g, m).nodes.len() <= g.nodes.len() + tree_budget(m),
    decreases m,
{
    lemma_reduce_node_wf(g, m);
    lemma_reduce_forest_wf(reduce_node(g, m), m.submodules);
}

/// Reducing a forest keeps the graph well-formed and never removes a node.
proof fn lemma_reduce_forest_wf(g: GraphV, ms: Seq<ManifestV>)
    requires
        ids_are_indices(g),
        links_bounded(g),
    ensures
        ids_are_indices(reduce_forest(g, ms)),
        links_bounded(reduce_forest(g, ms)),
        g.nodes.len() <= reduce_forest(g, ms).nodes.len(),
        reduce_forest(g, ms).nodes.len() <= g.nodes.len() + forest_budget(ms),
    decreases ms,
{
    if ms.len() > 0 {
        lemma_reduce_forest_wf(g, ms.drop_last());
        lemma_reduce_tree_wf(reduce_forest(g, ms.drop_last()), ms.last());
    }
}

/// Appending a link of another key leaves a key's lookup unchanged.
proof fn lemma_find_link_push_other(ls: Seq<GraphLink>, l: GraphLink, source: u64, target: u64)
    requires
        !(l.source == source && l.target == target),
    ensures
        find_link(ls.push(l), source, target) == find_link(ls, source, target),
    decreases ls.len(),
{
    if ls.len() == 0 {
        assert(ls.push(l)[0] == l);
        assert(ls.push(l).drop_first() =~= ls);
    } else {
        lemma_find_link_push_other(ls.drop_first(), l, source, target);
        assert(ls.push(l).drop_first() =~= ls.drop_first().push(l));
        assert(ls.push(l)[0] == ls[0]);
    }
}

/// Appending a link of a key that is absent makes it the one found, at the
/// end.
proof fn lemma_find_link_push_new(ls: Seq<GraphLink>, l: GraphLink)
    requires
        find_link(ls, l.source, l.target) is None,
    ensures
        find_link(ls.push(l), l.source, l.target) == Some(ls.len() as int),
{
    lemma_find_link_none_complete(ls, l.source, l.target);
    lemma_find_link_found(ls.push(l), l.source, l.target, ls.len() as int);
}

/// Replacing a link by one of the same key leaves every lookup unchanged.
proof fn lemma_find_link_update_samekey(
    ls: Seq<GraphLink>,
    i: int,
    l2: GraphLink,
    source: u64,
    target: u64,
)
    requires
        0 <= i < ls.len(),
        l2.source == ls[i].source,
        l2.target == ls[i].target,
    ensures
        find_link(ls.update(i, l2), source, target) == find_link(ls, source, target),
    decreases ls.len(),
{
    let lu = ls.update(i, l2);
    if i == 0 {
        assert(lu[0].source == ls[0].source && lu[0].target == ls[0].target);
        if !(ls[0].source == source && ls[0].target == target) {
            assert(lu.drop_first() =~= ls.drop_first());
        }
    } else {
        assert(lu[0] == ls[0]);
        if !(ls[0].source == source && ls[0].target == target) {
            assert(lu.drop_first() =~= ls.drop_first().update(i - 1, l2));
            lemma_find_link_update_samekey(ls.drop_first(), i - 1, l2, source, target);
        }
    }
}

/// A link whose source or target lies outside the held links' bound is not
/// found.
proof fn lemma_no_link_outside_bound(ls: Seq<GraphLink>, bound: int, s: u64, t: u64)
    requires
        forall|i: int|
            0 <= i < ls.len() ==> (#[trigger] ls[i].source < bound && ls[i].target < bound),
        s >= bound || t >= bound,
    ensures
        find_link(ls, s, t) is None,
{
    lemma_find_link_none(ls, s, t);
}

/// The weight the graph holds on the edge from the module node named `n` to
/// the resource node of kind `k`; zero when either node or the edge is
/// absent.
pub open spec fn edge_value(g: GraphV, n: Seq<char>, k: Seq<char>) -> int {
    match (find_node(g.nodes, Category::Module, n), find_node(g.nodes, Category::Resource, k)) {
        (Some(i), Some(j)) => match find_link(g.links, g.nodes[i].id, g.nodes[j].id) {
            Some(t) => g.links[t].value as int,
            None => 0,
        },
        _ => 0,
    }
}

/// Occurrences of a resource kind inside tree nodes that carry the given
/// scope name: those are the occurrences whose edge leaves that scope's
/// module node.
pub open spec fn count_kind_under(m: ManifestV, n: Seq<char>, k: Seq<char>) -> nat
    decreases m,
{
    (if m.name == n {
        count_in_resources(m.resources, k)
    } else {
        0nat
    }) + count_kind_under_forest(m.submodules, n, k)
}

/// Occurrences of a resource kind under the given scope name in a forest.
pub open spec fn count_kind_under_forest(ms: Seq<ManifestV>, n: Seq<char>, k: Seq<char>) -> nat
    decreases ms,
{
    if ms.len() == 0 {
        0
    } else {
        count_kind_under_forest(ms.drop_last(), n, k) + count_kind_under(ms.last(), n, k)
    }
}

/// One contribution touches the watched edge exactly when it is an
/// occurrence of kind `k` contributed under the module node named `n`: then
/// the edge's weight is bumped (capped), entering at weight one; every
/// other contribution leaves the edge alone.
proof fn lemma_add_child_edge(
    g: GraphV,
    mid: u64,
    cat: Category,
    name: Seq<char>,
    n: Seq<char>,
    k: Seq<char>,
)
    requires
        ids_are_indices(g),
        links_bounded(g),
        mid < g.nodes.len(),
        g.nodes.len() + 1 <= u64::MAX,
    ensures
        ({
            let own = cat == Category::Resource && name == k && find_node(
                g.nodes,
                Category::Module,
                n,
            ) == Some(mid as int);
            let g2 = add_child_node(g, mid, cat, name);
            &&& own ==> edge_value(g2, n, k) == sat_of(edge_value(g, n, k) + 1)
            &&& !own ==> edge_value(g2, n, k) == edge_value(g, n, k)
        }),
{
    lemma_find_node_range(g.nodes, cat, name);
    lemma_find_node_range(g.nodes, Category::Module, n);
    lemma_find_node_range(g.nodes, Category::Resource, k);
    lemma_upsert_node_wf(g, cat, name, true);
    let g1 = upsert_node(g, cat, name, true).0;
    let i = upsert_node(g, cat, name, true).1;
    let tid = g1.nodes[i].id;
    // how the two node lookups moved from g to g1
    match find_node(g.nodes, cat, name) {
        Some(j) => {
            let n0 = g.nodes[j];
            let n2 = GraphNodeV {
                value: sat_inc(n0.value),
                symbol_size: size_of_weight(sat_inc(n0.value)),
                ..n0
            };
            lemma_find_node_update_samekey(g.nodes, j, n2, Category::Module, n);
            lemma_find_node_update_samekey(g.nodes, j, n2, Category::Resource, k);
        },
        None => {
            let nn = GraphNodeV {
                id: g.nodes.len() as u64,
                name,
                category: cat,
                value: 1,
                symbol_size: size_of_weight(1),
            };
            if cat == Category::Module && name == n {
                lemma_find_node_push_new(g.nodes, nn);
            } else {
                lemma_find_node_push_other(g.nodes, nn, Category::Module, n);
            }
            if cat == Category::Resource && name == k {
                lemma_find_node_push_new(g.nodes, nn);
            } else {
                lemma_find_node_push_other(g.nodes, nn, Category::Resource, k);
            }
        },
    }
    lemma_find_node_range(g1.nodes, Category::Module, n);
    lemma_find_node_range(g1.nodes, Category::Resource, k);
    lemma_find_link_range(g1.links, mid, tid);
    // how the link lookup moves from g1 to g2, for the watched edge's key
    match (find_node(g1.nodes, Category::Module, n), find_node(g1.nodes, Category::Resource, k)) {
        (Some(ni), Some(kj)) => {
            let idn = g1.nodes[ni].id;
            let idk = g1.nodes[kj].id;
            assert(idn == ni as u64 && idk == kj as u64 && tid == i as u64);
            assert(ni < g1.nodes.len() && kj < g1.nodes.len() && i < g1.nodes.len());
            assert(g1.nodes.len() <= g.nodes.len() + 1);
            assert(g1.nodes[i].category == cat && g1.nodes[i].name == name);
            assert(g1.nodes[ni].category == Category::Module && g1.nodes[ni].name == n);
            assert(g1.nodes[kj].category == Category::Resource && g1.nodes[kj].name == k);
            lemma_find_link_range(g1.links, idn, idk);
            match find_link(g1.links, mid, tid) {
                Some(t) => {
                    let l2 = GraphLink { value: sat_inc(g1.links[t].value), ..g1.links[t] };
                    lemma_find_link_update_samekey(g1.links, t, l2, idn, idk);
                },
                None => {
                    let nl = GraphLink { source: mid, target: tid, value: 1 };
                    if mid == idn && tid == idk {
                        lemma_find_link_push_new(g1.links, nl);
                    } else {
                        lemma_find_link_push_other(g1.links, nl, idn, idk);
                    }
                },
            }
            // a lookup in the old graph, when both nodes already existed
            if ni < g.nodes.len() && kj < g.nodes.len() {
                assert(g.nodes[ni].id == idn && g.nodes[kj].id == idk);
            } else {
                // one of the nodes is fresh: its id lies beyond every link
                assert(idn >= g.nodes.len() || idk >= g.nodes.len());
                lemma_no_link_outside_bound(g1.links, g.nodes.len() as int, idn, idk);
            }
            let own = cat == Category::Resource && name == k && find_node(
                g.nodes,
                Category::Module,
                n,
            ) == Some(mid as int);
            let g2 = add_child_node(g, mid, cat, name);
            assert(g2.nodes == g1.nodes);
            if own {
                assert(i == kj && tid == idk);
                assert(ni == mid as int && idn == mid);
                assert(edge_value(g2, n, k) == sat_of(edge_value(g, n, k) + 1));
            } else {
                if cat == Category::Resource && name == k {
                    assert(ni != mid as int);
                    assert(idn != mid);
                } else {
                    assert(i != kj);
                    assert(tid != idk);
                }
                assert(!(mid == idn && tid == idk));
                assert(edge_value(g2, n, k) == edge_value(g, n, k));
            }
        },
        _ => {},
    }
}

/// Contributing resources never moves the module-node lookup: only resource
/// nodes are created or reweighted.
proof fn lemma_add_child_find_module(g: GraphV, mid: u64, name: Seq<char>, n: Seq<char>)
    requires
        ids_are_indices(g),
        links_bounded(g),
        mid < g.nodes.len(),
    ensures
        find_node(add_child_node(g, mid, Category::Resource, name).nodes, Category::Module, n)
            == find_node(g.nodes, Category::Module, n),
{
    lemma_find_node_range(g.nodes, Category::Resource, name);
    let g1 = upsert_node(g, Category::Resource, name, true).0;
    match find_node(g.nodes, Category::Resource, name) {
        Some(j) => {
            let n0 = g.nodes[j];
            let n2 = GraphNodeV {
                value: sat_inc(n0.value),
                symbol_size: size_of_weight(sat_inc(n0.value)),
                ..n0
            };
            lemma_find_node_update_samekey(g.nodes, j, n2, Category::Module, n);
        },
        None => {
            lemma_find_node_push_other(
                g.nodes,
                GraphNodeV {
                    id: g.nodes.len() as u64,
                    name,
                    category: Category::Resource,
                    value: 1,
                    symbol_size: size_of_weight(1),
                },
                Category::Module,
                n,
            );
        },
    }
}

/// Through a resource fold, the module-node lookup stays put.
proof fn lemma_fold_resources_find_module(
    g: GraphV,
    mid: u64,
    rs: Seq<ResourceV>,
    n: Seq<char>,
)
    requires
        ids_are_indices(g),
        links_bounded(g),
        mid < g.nodes.len(),
    ensures
        find_node(fold_resources(g, mid, rs).nodes, Category::Module, n) == find_node(
            g.nodes,
            Category::Module,
            n,
        ),
    decreases rs.len(),
{
    if rs.len() > 0 {
        lemma_fold_resources_find_module(g, mid, rs.drop_last(), n);
        lemma_fold_resources_wf(g, mid, rs.drop_last());
        lemma_add_child_find_module(
            fold_resources(g, mid, rs.drop_last()),
            mid,
            rs.last().kind,
            n,
        );
    }
}

/// Folding a scope's resources raises the watched edge by the number of
/// occurrences of the kind there — when the scope's module node is the
/// watched one — and touches it not at all otherwise.
proof fn lemma_fold_resources_edge(
    g: GraphV,
    mid: u64,
    rs: Seq<ResourceV>,
    n: Seq<char>,
    k: Seq<char>,
)
    requires
        ids_are_indices(g),
        links_bounded(g),
        mid < g.nodes.len(),
        g.nodes.len() + rs.len() <= u64::MAX,
    ensures
        ({
            let own_scope = find_node(g.nodes, Category::Module, n) == Some(mid as int);
            let g2 = fold_resources(g, mid, rs);
            &&& own_scope ==> edge_value(g2, n, k) == sat_of(
                edge_value(g, n, k) + count_in_resources(rs, k),
            )
            &&& !own_scope ==> edge_value(g2, n, k) == edge_value(g, n, k)
        }),
    decreases rs.len(),
{
    if rs.len() == 0 {
    } else {
        lemma_fold_resources_edge(g, mid, rs.drop_last(), n, k);
        let gd = fold_resources(g, mid, rs.drop_last());
        lemma_fold_resources_wf(g, mid, rs.drop_last());
        lemma_fold_resources_find_module(g, mid, rs.drop_last(), n);
        lemma_add_child_edge(gd, mid, Category::Resource, rs.last().kind, n, k);
        if find_node(g.nodes, Category::Module, n) == Some(mid as int) && rs.last().kind == k {
            lemma_sat_compose(
                edge_value(g, n, k) + count_in_resources(rs.drop_last(), k),
                1,
            );
        }
    }
}

/// Folding a scope's module references leaves the watched edge alone: every
/// contribution there is keyed under the module category.
proof fn lemma_fold_modules_edge(
    g: GraphV,
    mid: u64,
    ms: Seq<ModuleRefV>,
    n: Seq<char>,
    k: Seq<char>,
)
    requires
        ids_are_indices(g),
        links_bounded(g),
        mid < g.nodes.len(),
        g.nodes.len() + ms.len() <= u64::MAX,
    ensures
        edge_value(fold_modules(g, mid, ms), n, k) == edge_value(g, n, k),
    decreases ms.len(),
{
    if ms.len() > 0 {
        lemma_fold_modules_edge(g, mid, ms.drop_last(), n, k);
        lemma_fold_modules_wf(g, mid, ms.drop_last());
        lemma_add_child_edge(
            fold_modules(g, mid, ms.drop_last()),
            mid,
            Category::Module,
            module_name_spec(ms.last()),
            n,
            k,
        );
    }
}

/// One manifest node raises the watched edge by the occurrences of the kind
/// it holds when its name is the watched scope's, and not at all otherwise.
proof fn lemma_reduce_node_edge(g: GraphV, m: ManifestV, n: Seq<char>, k: Seq<char>)
    requires
        ids_are_indices(g),
        links_bounded(g),
        g.nodes.len() + node_budget(m) <= u64::MAX,
    ensures
        edge_value(reduce_node(g, m), n, k) == sat_of(
            edge_value(g, n, k) + (if m.name == n {
                count_in_resources(m.resources, k)
            } else {
                0nat
            }),
        ),
{
    lemma_find_node_range(g.nodes, Category::Module, n);
    lemma_find_node_range(g.nodes, Category::Resource, k);
    if m.resources.len() == 0 && m.modules.len() == 0 {
    } else {
        lemma_find_node_range(g.nodes, Category::Module, m.name);
        lemma_upsert_node_wf(g, Category::Module, m.name, false);
        let g1 = upsert_node(g, Category::Module, m.name, false).0;
        let i1 = upsert_node(g, Category::Module, m.name, false).1;
        let mid = g1.nodes[i1].id;
        assert(mid == i1 as u64);
        // the scope upsert leaves the watched edge alone, and the watched
        // module lookup points at the scope's node exactly when the names
        // agree
        match find_node(g.nodes, Category::Module, m.name) {
            Some(j) => {
                assert(g1 == g);
                if m.name != n {
                    match find_node(g.nodes, Category::Module, n) {
                        Some(ni) => {
                            assert(g.nodes[ni].name == n && g.nodes[j].name == m.name);
                            assert(ni != j);
                        },
                        None => {},
                    }
                }
            },
            None => {
                let nn = GraphNodeV {
                    id: g.nodes.len() as u64,
                    name: m.name,
                    category: Category::Module,
                    value: 1,
                    symbol_size: size_of_weight(1),
                };
                if m.name == n {
                    lemma_find_node_push_new(g.nodes, nn);
                } else {
                    lemma_find_node_push_other(g.nodes, nn, Category::Module, n);
                }
                lemma_find_node_push_other(g.nodes, nn, Category::Resource, k);
                lemma_find_node_range(g1.nodes, Category::Module, n);
                lemma_find_node_range(g1.nodes, Category::Resource, k);
                match (
                    find_node(g1.nodes, Category::Module, n),
                    find_node(g1.nodes, Category::Resource, k),
                ) {
                    (Some(ni), Some(kj)) => {
                        if m.name == n {
                            assert(ni == g.nodes.len());
                            assert(g1.nodes[ni].id >= g.nodes.len());
                            lemma_no_link_outside_bound(
                                g1.links,
                                g.nodes.len() as int,
                                g1.nodes[ni].id,
                                g1.nodes[kj].id,
                            );
                        } else {
                            assert(ni < g.nodes.len() && kj < g.nodes.len());
                            assert(g.nodes[ni].id == g1.nodes[ni].id);
                            assert(g.nodes[kj].id == g1.nodes[kj].id);
                        }
                    },
                    _ => {},
                }
            },
        }
        assert(edge_value(g1, n, k) == edge_value(g, n, k));
        assert((m.name == n) ==> find_node(g1.nodes, Category::Module, n) == Some(mid as int));
        assert((m.name != n) ==> find_node(g1.nodes, Category::Module, n) != Some(mid as int));
        lemma_fold_resources_edge(g1, mid, m.resources, n, k);
        let g2 = fold_resources(g1, mid, m.resources);
        lemma_fold_resources_wf(g1, mid, m.resources);
        lemma_fold_modules_edge(g2, mid, m.modules, n, k);
    }
}

/// A subtree raises the watched edge by all occurrences of the kind under
/// the watched scope name, capped.
proof fn lemma_reduce_tree_edge(g: GraphV, m: ManifestV, n: Seq<char>, k: Seq<char>)
    requires
        ids_are_indices(g),
        links_bounded(g),
        g.nodes.len() + tree_budget(m) <= u64::MAX,
    ensures
        edge_value(reduce_tree(g, m), n, k) == sat_of(
            edge_value(g, n, k) + count_kind_under(m, n, k),
        ),
    decreases m,
{
    lemma_reduce_node_edge(g, m, n, k);
    lemma_reduce_node_wf(g, m);
    lemma_reduce_forest_edge(reduce_node(g, m), m.submodules, n, k);
    lemma_sat_compose(
        edge_value(g, n, k) + (if m.name == n {
            count_in_resources(m.resources, k)
        } else {
            0nat
        }),
        count_kind_under_forest(m.submodules, n, k) as int,
    );
}

/// A forest raises the watched edge by all its occurrences of the kind
/// under the watched scope name, capped.
proof fn lemma_reduce_forest_edge(g: GraphV, ms: Seq<ManifestV>, n: Seq<char>, k: Seq<char>)
    requires
        ids_are_indices(g),
        links_bounded(g),
        g.nodes.len() + forest_budget(ms) <= u64::MAX,
    ensures
        edge_value(reduce_forest(g, ms), n, k) == sat_of(
            edge_value(g, n, k) + count_kind_under_forest(ms, n, k),
        ),
    decreases ms,
{
    if ms.len() == 0 {
    } else {
        lemma_reduce_forest_edge(g, ms.drop_last(), n, k);
        lemma_reduce_forest_wf(g, ms.drop_last());
        lemma_reduce_tree_edge(reduce_forest(g, ms.drop_last()), ms.last(), n, k);
        lemma_sat_compose(
            edge_value(g, n, k) + count_kind_under_forest(ms.drop_last(), n, k),
            count_kind_under(ms.last(), n, k) as int,
        );
    }
}

/// Edge aggregation: for every manifest tree whose declarations fit the
/// weight type, and every scope name and resource kind, the reduced graph's
/// edge from the module node of that name to the resource node of that kind
/// weighs exactly the number of such declarations under scopes of that
/// name, capped; in particular there is no edge where there is no such
/// declaration.
pub proof fn lemma_edge_weight_counts(m: ManifestV, n: Seq<char>, k: Seq<char>)
    requires
        tree_budget(m) <= u64::MAX,
    ensures
        edge_value(graph_of(m), n, k) == sat_of(count_kind_under(m, n, k) as int),
{
    assert(find_node(empty_graph().nodes, Category::Module, n) is None);
    lemma_reduce_tree_edge(empty_graph(), m, n, k);
}

/// Some reference in the list derives the given display name.
pub open spec fn has_ref_named(ms: Seq<ModuleRefV>, n: Seq<char>) -> bool {
    exists|i: int| 0 <= i < ms.len() && module_name_spec(ms[i]) == n
}

/// Where module nodes come from: a non-empty tree node carrying the name as
/// its scope, or a module reference anywhere whose derived name it is.
pub open spec fn module_node_in_tree(m: ManifestV, n: Seq<char>) -> bool
    decreases m,
{
    ((m.resources.len() > 0 || m.modules.len() > 0) && m.name == n) || has_ref_named(
        m.modules,
        n,
    ) || module_node_in_forest(m.submodules, n)
}

/// Whether any subtree of a forest gives rise to the module node.
pub open spec fn module_node_in_forest(ms: Seq<ManifestV>, n: Seq<char>) -> bool
    decreases ms,
{
    if ms.len() == 0 {
        false
    } else {
        module_node_in_forest(ms.drop_last(), n) || module_node_in_tree(ms.last(), n)
    }
}

/// A reference list derives a name exactly when its front part does or its
/// last entry does.
proof fn lemma_has_ref_named_split(ms: Seq<ModuleRefV>, n: Seq<char>)
    requires
        ms.len() > 0,
    ensures
        has_ref_named(ms, n) == (has_ref_named(ms.drop_last(), n) || module_name_spec(ms.last())
            == n),
{
    if has_ref_named(ms, n) {
        let i = choose|i: int| 0 <= i < ms.len() && module_name_spec(ms[i]) == n;
        if i < ms.len() - 1 {
            assert(ms.drop_last()[i] == ms[i]);
            assert(has_ref_named(ms.drop_last(), n));
        }
    }
    if has_ref_named(ms.drop_last(), n) {
        let i = choose|i: int|
            0 <= i < ms.drop_last().len() && module_name_spec(ms.drop_last()[i]) == n;
        assert(ms.drop_last()[i] == ms[i]);
        assert(has_ref_named(ms, n));
    }
    if module_name_spec(ms.last()) == n {
        assert(module_name_spec(ms[ms.len() - 1]) == n);
    }
}

/// One contribution brings the watched module node in exactly when it is
/// keyed under the module category with the watched name.
proof fn lemma_add_child_module_exists(
    g: GraphV,
    mid: u64,
    cat: Category,
    name: Seq<char>,
    n: Seq<char>,
)
    requires
        ids_are_indices(g),
        links_bounded(g),
        mid < g.nodes.len(),
    ensures
        ({
            let g2 = add_child_node(g, mid, cat, name);
            (find_node(g2.nodes, Category::Module, n) is Some) == ((find_node(
                g.nodes,
                Category::Module,
                n,
            ) is Some) || (cat == Category::Module && name == n))
        }),
{
    lemma_find_node_range(g.nodes, cat, name);
    match find_node(g.nodes, cat, name) {
        Some(j) => {
            let n0 = g.nodes[j];
            let n2 = GraphNodeV {
                value: sat_inc(n0.value),
                symbol_size: size_of_weight(sat_inc(n0.value)),
                ..n0
            };
            lemma_find_node_update_samekey(g.nodes, j, n2, Category::Module, n);
        },
        None => {
            let nn = GraphNodeV {
                id: g.nodes.len() as u64,
                name,
                category: cat,
                value: 1,
                symbol_size: size_of_weight(1),
            };
            if cat == Category::Module && name == n {
                lemma_find_node_push_new(g.nodes, nn);
            } else {
                lemma_find_node_push_other(g.nodes, nn, Category::Module, n);
            }
        },
    }
}

/// Folding a scope's module references brings the watched module node in
/// exactly when one of them derives the watched name.
proof fn lemma_fold_modules_exists(
    g: GraphV,
    mid: u64,
    ms: Seq<ModuleRefV>,
    n: Seq<char>,
)
    requires
        ids_are_indices(g),
        links_bounded(g),
        mid < g.nodes.len(),
    ensures
        (find_node(fold_modules(g, mid, ms).nodes, Category::Module, n) is Some) == ((find_node(
            g.nodes,
            Category::Module,
            n,
        ) is Some) || has_ref_named(ms, n)),
    decreases ms.len(),
{
    if ms.len() == 0 {
        assert(!has_ref_named(ms, n));
    } else {
        lemma_fold_modules_exists(g, mid, ms.drop_last(), n);
        lemma_fold_modules_wf(g, mid, ms.drop_last());
        lemma_add_child_module_exists(
            fold_modules(g, mid, ms.drop_last()),
            mid,
            Category::Module,
            module_name_spec(ms.last()),
            n,
        );
        lemma_has_ref_named_split(ms, n);
    }
}

/// One manifest node brings the watched module node in exactly when it is a
/// non-empty scope of that name or one of its references derives it.
proof fn lemma_reduce_node_module_exists(g: GraphV, m: ManifestV, n: Seq<char>)
    requires
        ids_are_indices(g),
        links_bounded(g),
    ensures
        (find_node(reduce_node(g, m).nodes, Category::Module, n) is Some) == ((find_node(
            g.nodes,
            Category::Module,
            n,
        ) is Some) || ((m.resources.len() > 0 || m.modules.len() > 0) && m.name == n)
            || has_ref_named(m.modules, n)),
{
    if m.resources.len() == 0 && m.modules.len() == 0 {
        assert(!has_ref_named(m.modules, n));
    } else {
        lemma_find_node_range(g.nodes, Category::Module, m.name);
        lemma_upsert_node_wf(g, Category::Module, m.name, false);
        let g1 = upsert_node(g, Category::Module, m.name, false).0;
        let i1 = upsert_node(g, Category::Module, m.name, false).1;
        let mid = g1.nodes[i1].id;
        match find_node(g.nodes, Category::Module, m.name) {
            Some(j) => {
                assert(g1 == g);
            },
            None => {
                let nn = GraphNodeV {
                    id: g.nodes.len() as u64,
                    name: m.name,
                    category: Category::Module,
                    value: 1,
                    symbol_size: size_of_weight(1),
                };
                if m.name == n {
                    lemma_find_node_push_new(g.nodes, nn);
                } else {
                    lemma_find_node_push_other(g.nodes, nn, Category::Module, n);
                }
            },
        }
        lemma_fold_resources_find_module(g1, mid, m.resources, n);
        let g2 = fold_resources(g1, mid, m.resources);
        lemma_fold_resources_wf(g1, mid, m.resources);
        lemma_fold_modules_exists(g2, mid, m.modules, n);
    }
}

/// A subtree brings the watched module node in exactly when some node below
/// gives rise to it.
proof fn lemma_reduce_tree_module_exists(g: GraphV, m: ManifestV, n: Seq<char>)
    requires
        ids_are_indices(g),
        links_bounded(g),
    ensures
        (find_node(reduce_tree(g, m).nodes, Category::Module, n) is Some) == ((find_node(
            g.nodes,
            Category::Module,
            n,
        ) is Some) || module_node_in_tree(m, n)),
    decreases m,
{
    lemma_reduce_node_module_exists(g, m, n);
    lemma_reduce_node_wf(g, m);
    lemma_reduce_forest_module_exists(reduce_node(g, m), m.submodules, n);
}

/// A forest brings the watched module node in exactly when one of its
/// subtrees does.
proof fn lemma_reduce_forest_module_exists(g: GraphV, ms: Seq<ManifestV>, n: Seq<char>)
    requires
        ids_are_indices(g),
        links_bounded(g),
    ensures
        (find_node(reduce_forest(g, ms).nodes, Category::Module, n) is Some) == ((find_node(
            g.nodes,
            Category::Module,
            n,
        ) is Some) || module_node_in_forest(ms, n)),
    decreases ms,
{
    if ms.len() > 0 {
        lemma_reduce_forest_module_exists(g, ms.drop_last(), n);
        lemma_reduce_forest_wf(g, ms.drop_last());
        lemma_reduce_tree_module_exists(reduce_forest(g, ms.drop_last()), ms.last(), n);
    }
}

/// Module-node presence: the reduced graph holds a module node of a name
/// exactly when the tree has a non-empty scope of that name or a module
/// reference whose derived name it is.
pub proof fn lemma_module_node_presence(m: ManifestV, n: Seq<char>)
    ensures
        (find_node(graph_of(m).nodes, Category::Module, n) is Some) == module_node_in_tree(m, n),
{
    lemma_reduce_tree_module_exists(empty_graph(), m, n);
}

/// Occurrences in one reference list that derive the given display name.
pub open spec fn count_refs_in(ms: Seq<ModuleRefV>, t: Seq<char>) -> nat
    decreases ms.len(),
{
    if ms.len() == 0 {
        0
    } else {
        count_refs_in(ms.drop_last(), t) + (if module_name_spec(ms.last()) == t {
            1nat
        } else {
            0nat
        })
    }
}

/// Module references deriving the name `t` inside tree nodes named `n`:
/// those are the references whose edge leaves that scope's module node and
/// enters the module node named `t`.
pub open spec fn count_refs_under(m: ManifestV, n: Seq<char>, t: Seq<char>) -> nat
    decreases m,
{
    (if m.name == n {
        count_refs_in(m.modules, t)
    } else {
        0nat
    }) + count_refs_under_forest(m.submodules, n, t)
}

/// Module references deriving `t` under scopes named `n` in a forest.
pub open spec fn count_refs_under_forest(ms: Seq<ManifestV>, n: Seq<char>, t: Seq<char>) -> nat
    decreases ms,
{
    if ms.len() == 0 {
        0
    } else {
        count_refs_under_forest(ms.drop_last(), n, t) + count_refs_under(ms.last(), n, t)
    }
}

/// The weight the graph holds on the edge from the module node named `n` to
/// the module node named `t`; zero when either node or the edge is absent.
pub open spec fn mod_edge_value(g: GraphV, n: Seq<char>, t: Seq<char>) -> int {
    match (find_node(g.nodes, Category::Module, n), find_node(g.nodes, Category::Module, t)) {
        (Some(i), Some(j)) => match find_link(g.links, g.nodes[i].id, g.nodes[j].id) {
            Some(x) => g.links[x].value as int,
            None => 0,
        },
        _ => 0,
    }
}

/// One contribution touches the watched module edge exactly when it is a
/// reference deriving `t`, contributed under the module node named `n`:
/// then that edge's weight is bumped (capped), entering at weight one;
/// every other contribution leaves it alone.
proof fn lemma_add_child_mod_edge(
    g: GraphV,
    mid: u64,
    cat: Category,
    name: Seq<char>,
    n: Seq<char>,
    t: Seq<char>,
)
    requires
        ids_are_indices(g),
        links_bounded(g),
        mid < g.nodes.len(),
        g.nodes.len() + 1 <= u64::MAX,
    ensures
        ({
            let own = cat == Category::Module && name == t && find_node(
                g.nodes,
                Category::Module,
                n,
            ) == Some(mid as int);
            let g2 = add_child_node(g, mid, cat, name);
            &&& own ==> mod_edge_value(g2, n, t) == sat_of(mod_edge_value(g, n, t) + 1)
            &&& !own ==> mod_edge_value(g2, n, t) == mod_edge_value(g, n, t)
        }),
{
    lemma_find_node_range(g.nodes, cat, name);
    lemma_find_node_range(g.nodes, Category::Module, n);
    lemma_find_node_range(g.nodes, Category::Module, t);
    lemma_upsert_node_wf(g, cat, name, true);
    let g1 = upsert_node(g, cat, name, true).0;
    let i = upsert_node(g, cat, name, true).1;
    let tid = g1.nodes[i].id;
    // how the two node lookups moved from g to g1
    match find_node(g.nodes, cat, name) {
        Some(j) => {
            let n0 = g.nodes[j];
            let n2 = GraphNodeV {
                value: sat_inc(n0.value),
                symbol_size: size_of_weight(sat_inc(n0.value)),
                ..n0
            };
            lemma_find_node_update_samekey(g.nodes, j, n2, Category::Module, n);
            lemma_find_node_update_samekey(g.nodes, j, n2, Category::Module, t);
        },
        None => {
            let nn = GraphNodeV {
                id: g.nodes.len() as u64,
                name,
                category: cat,
                value: 1,
                symbol_size: size_of_weight(1),
            };
            if cat == Category::Module && name == n {
                lemma_find_node_push_new(g.nodes, nn);
            } else {
                lemma_find_node_push_other(g.nodes, nn, Category::Module, n);
            }
            if cat == Category::Module && name == t {
                lemma_find_node_push_new(g.nodes, nn);
            } else {
                lemma_find_node_push_other(g.nodes, nn, Category::Module, t);
            }
        },
    }
    lemma_find_node_range(g1.nodes, Category::Module, n);
    lemma_find_node_range(g1.nodes, Category::Module, t);
    lemma_find_link_range(g1.links, mid, tid);
    // how the link lookup moves from g1 to g2, for the watched edge's key
    match (find_node(g1.nodes, Category::Module, n), find_node(g1.nodes, Category::Module, t)) {
        (Some(ni), Some(tj)) => {
            let idn = g1.nodes[ni].id;
            let idt = g1.nodes[tj].id;
            assert(idn == ni as u64 && idt == tj as u64 && tid == i as u64);
            assert(ni < g1.nodes.len() && tj < g1.nodes.len() && i < g1.nodes.len());
            assert(g1.nodes.len() <= g.nodes.len() + 1);
            assert(g1.nodes[i].category == cat && g1.nodes[i].name == name);
            assert(g1.nodes[ni].category == Category::Module && g1.nodes[ni].name == n);
            assert(g1.nodes[tj].category == Category::Module && g1.nodes[tj].name == t);
            lemma_find_link_range(g1.links, idn, idt);
            match find_link(g1.links, mid, tid) {
                Some(x) => {
                    let l2 = GraphLink { value: sat_inc(g1.links[x].value), ..g1.links[x] };
                    lemma_find_link_update_samekey(g1.links, x, l2, idn, idt);
                },
                None => {
                    let nl = GraphLink { source: mid, target: tid, value: 1 };
                    if mid == idn && tid == idt {
                        lemma_find_link_push_new(g1.links, nl);
                    } else {
                        lemma_find_link_push_other(g1.links, nl, idn, idt);
                    }
                },
            }
            // a lookup in the old graph, when both nodes already existed
            if ni < g.nodes.len() && tj < g.nodes.len() {
                assert(g.nodes[ni].id == idn && g.nodes[tj].id == idt);
            } else {
                // one of the nodes is fresh: its id lies beyond every link
                assert(idn >= g.nodes.len() || idt >= g.nodes.len());
                lemma_no_link_outside_bound(g1.links, g.nodes.len() as int, idn, idt);
            }
            let own = cat == Category::Module && name == t && find_node(
                g.nodes,
                Category::Module,
                n,
            ) == Some(mid as int);
            let g2 = add_child_node(g, mid, cat, name);
            assert(g2.nodes == g1.nodes);
            if own {
                assert(i == tj && tid == idt);
                assert(ni == mid as int && idn == mid);
                assert(mod_edge_value(g2, n, t) == sat_of(mod_edge_value(g, n, t) + 1));
            } else {
                if cat == Category::Module && name == t {
                    assert(ni != mid as int);
                    assert(idn != mid);
                } else {
                    assert(i != tj);
                    assert(tid != idt);
                }
                assert(!(mid == idn && tid == idt));
                assert(mod_edge_value(g2, n, t) == mod_edge_value(g, n, t));
            }
        },
        _ => {},
    }
}

/// Whether the module lookup lands on the given position is not moved by a
/// contribution: an existing node keeps its place, a fresh one enters
/// beyond it.
proof fn lemma_add_child_find_module_target(
    g: GraphV,
    mid: u64,
    cat: Category,
    name: Seq<char>,
    n: Seq<char>,
)
    requires
        ids_are_indices(g),
        links_bounded(g),
        mid < g.nodes.len(),
    ensures
        (find_node(add_child_node(g, mid, cat, name).nodes, Category::Module, n) == Some(
            mid as int,
        )) == (find_node(g.nodes, Category::Module, n) == Some(mid as int)),
{
    lemma_find_node_range(g.nodes, cat, name);
    match find_node(g.nodes, cat, name) {
        Some(j) => {
            let n0 = g.nodes[j];
            let n2 = GraphNodeV {
                value: sat_inc(n0.value),
                symbol_size: size_of_weight(sat_inc(n0.value)),
                ..n0
            };
            lemma_find_node_update_samekey(g.nodes, j, n2, Category::Module, n);
        },
        None => {
            let nn = GraphNodeV {
                id: g.nodes.len() as u64,
                name,
                category: cat,
                value: 1,
                symbol_size: size_of_weight(1),
            };
            if cat == Category::Module && name == n {
                lemma_find_node_push_new(g.nodes, nn);
            } else {
                lemma_find_node_push_other(g.nodes, nn, Category::Module, n);
            }
        },
    }
}

/// Folding a scope's resources leaves every module edge alone: each
/// contribution there is keyed under the resource category.
proof fn lemma_fold_resources_mod_edge(
    g: GraphV,
    mid: u64,
    rs: Seq<ResourceV>,
    n: Seq<char>,
    t: Seq<char>,
)
    requires
        ids_are_indices(g),
        links_bounded(g),
        mid < g.nodes.len(),
        g.nodes.len() + rs.len() <= u64::MAX,
    ensures
        mod_edge_value(fold_resources(g, mid, rs), n, t) == mod_edge_value(g, n, t),
    decreases rs.len(),
{
    if rs.len() > 0 {
        lemma_fold_resources_mod_edge(g, mid, rs.drop_last(), n, t);
        lemma_fold_resources_wf(g, mid, rs.drop_last());
        lemma_add_child_mod_edge(
            fold_resources(g, mid, rs.drop_last()),
            mid,
            Category::Resource,
            rs.last().kind,
            n,
            t,
        );
    }
}

/// Folding a scope's module references raises the watched module edge by
/// the number of its references deriving `t` — when the scope's module node
/// is the watched one — and touches it not at all otherwise; either way the
/// watched module lookup keeps pointing wherever it pointed.
proof fn lemma_fold_modules_mod_edge(
    g: GraphV,
    mid: u64,
    ms: Seq<ModuleRefV>,
    n: Seq<char>,
    t: Seq<char>,
)
    requires
        ids_are_indices(g),
        links_bounded(g),
        mid < g.nodes.len(),
        g.nodes.len() + ms.len() <= u64::MAX,
    ensures
        ({
            let own_scope = find_node(g.nodes, Category::Module, n) == Some(mid as int);
            let g2 = fold_modules(g, mid, ms);
            &&& (find_node(g2.nodes, Category::Module, n) == Some(mid as int)) == own_scope
            &&& own_scope ==> mod_edge_value(g2, n, t) == sat_of(
                mod_edge_value(g, n, t) + count_refs_in(ms, t),
            )
            &&& !own_scope ==> mod_edge_value(g2, n, t) == mod_edge_value(g, n, t)
        }),
    decreases ms.len(),
{
    if ms.len() == 0 {
    } else {
        lemma_fold_modules_mod_edge(g, mid, ms.drop_last(), n, t);
        let gd = fold_modules(g, mid, ms.drop_last());
        lemma_fold_modules_wf(g, mid, ms.drop_last());
        lemma_add_child_mod_edge(gd, mid, Category::Module, module_name_spec(ms.last()), n, t);
        lemma_add_child_find_module_target(
            gd,
            mid,
            Category::Module,
            module_name_spec(ms.last()),
            n,
        );
        if find_node(g.nodes, Category::Module, n) == Some(mid as int) && module_name_spec(
            ms.last(),
        ) == t {
            lemma_sat_compose(
                mod_edge_value(g, n, t) + count_refs_in(ms.drop_last(), t),
                1,
            );
        }
    }
}

/// One manifest node raises the watched module edge by the references
/// deriving `t` that it holds when its name is the watched scope's, and not
/// at all otherwise.
proof fn lemma_reduce_node_mod_edge(g: GraphV, m: ManifestV, n: Seq<char>, t: Seq<char>)
    requires
        ids_are_indices(g),
        links_bounded(g),
        g.nodes.len() + node_budget(m) <= u64::MAX,
    ensures
        mod_edge_value(reduce_node(g, m), n, t) == sat_of(
            mod_edge_value(g, n, t) + (if m.name == n {
                count_refs_in(m.modules, t)
            } else {
                0nat
            }),
        ),
{
    lemma_find_node_range(g.nodes, Category::Module, n);
    lemma_find_node_range(g.nodes, Category::Module, t);
    if m.resources.len() == 0 && m.modules.len() == 0 {
    } else {
        lemma_find_node_range(g.nodes, Category::Module, m.name);
        lemma_upsert_node_wf(g, Category::Module, m.name, false);
        let g1 = upsert_node(g, Category::Module, m.name, false).0;
        let i1 = upsert_node(g, Category::Module, m.name, false).1;
        let mid = g1.nodes[i1].id;
        assert(mid == i1 as u64);
        // the scope upsert leaves the watched edge alone, and the watched
        // module lookup points at the scope's node exactly when the names
        // agree
        match find_node(g.nodes, Category::Module, m.name) {
            Some(j) => {
                assert(g1 == g);
                if m.name != n {
                    match find_node(g.nodes, Category::Module, n) {
                        Some(ni) => {
                            assert(g.nodes[ni].name == n && g.nodes[j].name == m.name);
                            assert(ni != j);
                        },
                        None => {},
                    }
                }
            },
            None => {
                let nn = GraphNodeV {
                    id: g.nodes.len() as u64,
                    name: m.name,
                    category: Category::Module,
                    value: 1,
                    symbol_size: size_of_weight(1),
                };
                if m.name == n {
                    lemma_find_node_push_new(g.nodes, nn);
                } else {
                    lemma_find_node_push_other(g.nodes, nn, Category::Module, n);
                }
                if m.name == t {
                    lemma_find_node_push_new(g.nodes, nn);
                } else {
                    lemma_find_node_push_other(g.nodes, nn, Category::Module, t);
                }
                lemma_find_node_range(g1.nodes, Category::Module, n);
                lemma_find_node_range(g1.nodes, Category::Module, t);
                match (
                    find_node(g1.nodes, Category::Module, n),
                    find_node(g1.nodes, Category::Module, t),
                ) {
                    (Some(ni), Some(tj)) => {
                        if m.name == n || m.name == t {
                            assert(g1.nodes[ni].id >= g.nodes.len() || g1.nodes[tj].id
                                >= g.nodes.len());
                            lemma_no_link_outside_bound(
                                g1.links,
                                g.nodes.len() as int,
                                g1.nodes[ni].id,
                                g1.nodes[tj].id,
                            );
                        } else {
                            assert(ni < g.nodes.len() && tj < g.nodes.len());
                            assert(g.nodes[ni].id == g1.nodes[ni].id);
                            assert(g.nodes[tj].id == g1.nodes[tj].id);
                        }
                    },
                    _ => {},
                }
            },
        }
        assert(mod_edge_value(g1, n, t) == mod_edge_value(g, n, t));
        assert((m.name == n) ==> find_node(g1.nodes, Category::Module, n) == Some(mid as int));
        assert((m.name != n) ==> find_node(g1.nodes, Category::Module, n) != Some(mid as int));
        lemma_fold_resources_mod_edge(g1, mid, m.resources, n, t);
        lemma_fold_resources_find_module(g1, mid, m.resources, n);
        let g2 = fold_resources(g1, mid, m.resources);
        lemma_fold_resources_wf(g1, mid, m.resources);
        lemma_fold_modules_mod_edge(g2, mid, m.modules, n, t);
    }
}

/// A subtree raises the watched module edge by all references deriving `t`
/// under scopes named `n`, capped.
proof fn lemma_reduce_tree_mod_edge(g: GraphV, m: ManifestV, n: Seq<char>, t: Seq<char>)
    requires
        ids_are_indices(g),
        links_bounded(g),
        g.nodes.len() + tree_budget(m) <= u64::MAX,
    ensures
        mod_edge_value(reduce_tree(g, m), n, t) == sat_of(
            mod_edge_value(g, n, t) + count_refs_under(m, n, t),
        ),
    decreases m,
{
    lemma_reduce_node_mod_edge(g, m, n, t);
    lemma_reduce_node_wf(g, m);
    lemma_reduce_forest_mod_edge(reduce_node(g, m), m.submodules, n, t);
    lemma_sat_compose(
        mod_edge_value(g, n, t) + (if m.name == n {
            count_refs_in(m.modules, t)
        } else {
            0nat
        }),
        count_refs_under_forest(m.submodules, n, t) as int,
    );
}

/// A forest raises the watched module edge by all its references deriving
/// `t` under scopes named `n`, capped.
proof fn lemma_reduce_forest_mod_edge(g: GraphV, ms: Seq<ManifestV>, n: Seq<char>, t: Seq<char>)
    requires
        ids_are_indices(g),
        links_bounded(g),
        g.nodes.len() + forest_budget(ms) <= u64::MAX,
    ensures
        mod_edge_value(reduce_forest(g, ms), n, t) == sat_of(
            mod_edge_value(g, n, t) + count_refs_under_forest(ms, n, t),
        ),
    decreases ms,
{
    if ms.len() == 0 {
    } else {
        lemma_reduce_forest_mod_edge(g, ms.drop_last(), n, t);
        lemma_reduce_forest_wf(g, ms.drop_last());
        lemma_reduce_tree_mod_edge(reduce_forest(g, ms.drop_last()), ms.last(), n, t);
        lemma_sat_compose(
            mod_edge_value(g, n, t) + count_refs_under_forest(ms.drop_last(), n, t),
            count_refs_under(ms.last(), n, t) as int,
        );
    }
}

/// Module-edge aggregation: for every manifest tree whose declarations fit
/// the weight type, and every pair of a scope name and a derived module
/// name, the reduced graph's edge from the module node named `n` to the
/// module node named `t` weighs exactly the number of references deriving
/// `t` under scopes named `n`, capped; in particular there is no such edge
/// where there is no such reference. A reference whose derived name equals
/// its own scope's name yields the self-loop this law also covers.
pub proof fn lemma_module_edge_weight_counts(m: ManifestV, n: Seq<char>, t: Seq<char>)
    requires
        tree_budget(m) <= u64::MAX,
    ensures
        mod_edge_value(graph_of(m), n, t) == sat_of(count_refs_under(m, n, t) as int),
{
    assert(find_node(empty_graph().nodes, Category::Module, n) is None);
    lemma_reduce_tree_mod_edge(empty_graph(), m, n, t);
}

/// References deriving the name `t` anywhere in the tree.
pub open spec fn count_refs_tree(m: ManifestV, t: Seq<char>) -> nat
    decreases m,
{
    count_refs_in(m.modules, t) + count_refs_forest(m.submodules, t)
}

/// References deriving the name `t` anywhere in a forest.
pub open spec fn count_refs_forest(ms: Seq<ManifestV>, t: Seq<char>) -> nat
    decreases ms,
{
    if ms.len() == 0 {
        0
    } else {
        count_refs_forest(ms.drop_last(), t) + count_refs_tree(ms.last(), t)
    }
}

/// Whether the graph holds a module node of the name.
pub open spec fn mod_node_exists(g: GraphV, n: Seq<char>) -> bool {
    find_node(g.nodes, Category::Module, n) is Some
}

/// The weight the graph holds for a module node of the name; zero when
/// absent.
pub open spec fn mod_node_value(g: GraphV, n: Seq<char>) -> int {
    match find_node(g.nodes, Category::Module, n) {
        Some(i) => g.nodes[i].value as int,
        None => 0,
    }
}

/// Contributing one occurrence touches exactly its own key: a module-keyed
/// occurrence of the watched name bumps that node's weight (capped),
/// entering at weight one when absent; every other contribution leaves the
/// watched module node alone.
proof fn lemma_add_child_mod_value(
    g: GraphV,
    module_id: u64,
    cat: Category,
    name: Seq<char>,
    n: Seq<char>,
)
    ensures
        (cat == Category::Module && name == n) ==> mod_node_exists(
            add_child_node(g, module_id, cat, name),
            n,
        ) && mod_node_value(add_child_node(g, module_id, cat, name), n) == sat_of(
            mod_node_value(g, n) + 1,
        ),
        !(cat == Category::Module && name == n) ==> mod_node_exists(
            add_child_node(g, module_id, cat, name),
            n,
        ) == mod_node_exists(g, n) && mod_node_value(add_child_node(g, module_id, cat, name), n)
            == mod_node_value(g, n),
{
    lemma_find_node_range(g.nodes, cat, name);
    lemma_find_node_range(g.nodes, Category::Module, n);
    let g1 = upsert_node(g, cat, name, true).0;
    match find_node(g.nodes, cat, name) {
        Some(i) => {
            let n0 = g.nodes[i];
            let n2 = GraphNodeV {
                value: sat_inc(n0.value),
                symbol_size: size_of_weight(sat_inc(n0.value)),
                ..n0
            };
            lemma_find_node_update_samekey(g.nodes, i, n2, Category::Module, n);
            lemma_find_node_range(g1.nodes, Category::Module, n);
        },
        None => {
            if cat == Category::Module && name == n {
                lemma_find_node_push_new(
                    g.nodes,
                    GraphNodeV {
                        id: g.nodes.len() as u64,
                        name,
                        category: cat,
                        value: 1,
                        symbol_size: size_of_weight(1),
                    },
                );
            } else {
                lemma_find_node_push_other(
                    g.nodes,
                    GraphNodeV {
                        id: g.nodes.len() as u64,
                        name,
                        category: cat,
                        value: 1,
                        symbol_size: size_of_weight(1),
                    },
                    Category::Module,
                    n,
                );
                lemma_find_node_range(g1.nodes, Category::Module, n);
            }
        },
    }
}

/// Looking a scope's module node up leaves its weight alone when it exists,
/// and enters it at weight one when it does not; other names are untouched.
proof fn lemma_upsert_scope_mod_value(g: GraphV, name: Seq<char>, n: Seq<char>)
    ensures
        ({
            let g1 = upsert_node(g, Category::Module, name, false).0;
            &&& name == n ==> mod_node_exists(g1, n) && (mod_node_exists(g, n)
                ==> mod_node_value(g1, n) == mod_node_value(g, n)) && (!mod_node_exists(g, n)
                ==> mod_node_value(g1, n) == 1)
            &&& name != n ==> mod_node_exists(g1, n) == mod_node_exists(g, n) && mod_node_value(
                g1,
                n,
            ) == mod_node_value(g, n)
        }),
{
    lemma_find_node_range(g.nodes, Category::Module, name);
    lemma_find_node_range(g.nodes, Category::Module, n);
    let g1 = upsert_node(g, Category::Module, name, false).0;
    match find_node(g.nodes, Category::Module, name) {
        Some(i) => {},
        None => {
            let nn = GraphNodeV {
                id: g.nodes.len() as u64,
                name,
                category: Category::Module,
                value: 1,
                symbol_size: size_of_weight(1),
            };
            if name == n {
                lemma_find_node_push_new(g.nodes, nn);
            } else {
                lemma_find_node_push_other(g.nodes, nn, Category::Module, n);
                lemma_find_node_range(g1.nodes, Category::Module, n);
            }
        },
    }
}

/// Folding a scope's resources leaves every module node's weight alone.
proof fn lemma_fold_resources_mod_value(g: GraphV, module_id: u64, rs: Seq<ResourceV>, n: Seq<char>)
    ensures
        mod_node_exists(fold_resources(g, module_id, rs), n) == mod_node_exists(g, n),
        mod_node_value(fold_resources(g, module_id, rs), n) == mod_node_value(g, n),
    decreases rs.len(),
{
    if rs.len() > 0 {
        lemma_fold_resources_mod_value(g, module_id, rs.drop_last(), n);
        lemma_add_child_mod_value(
            fold_resources(g, module_id, rs.drop_last()),
            module_id,
            Category::Resource,
            rs.last().kind,
            n,
        );
    }
}

/// Folding a scope's module references raises the watched module node's
/// weight by the number of its references deriving the name, capped.
proof fn lemma_fold_modules_mod_value(g: GraphV, module_id: u64, ms: Seq<ModuleRefV>, n: Seq<char>)
    ensures
        mod_node_exists(fold_modules(g, module_id, ms), n) == (mod_node_exists(g, n)
            || count_refs_in(ms, n) > 0),
        mod_node_value(fold_modules(g, module_id, ms), n) == sat_of(
            mod_node_value(g, n) + count_refs_in(ms, n),
        ),
    decreases ms.len(),
{
    lemma_find_node_range(g.nodes, Category::Module, n);
    if ms.len() == 0 {
    } else {
        lemma_fold_modules_mod_value(g, module_id, ms.drop_last(), n);
        let gd = fold_modules(g, module_id, ms.drop_last());
        lemma_add_child_mod_value(gd, module_id, Category::Module, module_name_spec(ms.last()), n);
        if module_name_spec(ms.last()) == n {
            lemma_sat_compose(
                mod_node_value(g, n) + count_refs_in(ms.drop_last(), n),
                1,
            );
        }
    }
}

/// A reference list holds a positive count of a name exactly when it
/// derives that name somewhere.
proof fn lemma_count_refs_has(ms: Seq<ModuleRefV>, n: Seq<char>)
    ensures
        (count_refs_in(ms, n) > 0) == has_ref_named(ms, n),
    decreases ms.len(),
{
    if ms.len() > 0 {
        lemma_count_refs_has(ms.drop_last(), n);
        lemma_has_ref_named_split(ms, n);
    } else {
        assert(!has_ref_named(ms, n));
    }
}

/// One manifest node's effect on the watched module node's weight: its own
/// references deriving the name are counted exactly, and a non-empty scope
/// of that name enters the node at weight one when no occurrence came
/// before.
proof fn lemma_reduce_node_mod_value(g: GraphV, m: ManifestV, n: Seq<char>)
    requires
        mod_node_exists(g, n) ==> mod_node_value(g, n) >= 1,
    ensures
        mod_node_exists(reduce_node(g, m), n) ==> mod_node_value(reduce_node(g, m), n) >= 1,
        mod_node_exists(reduce_node(g, m), n) == (mod_node_exists(g, n) || ((m.resources.len() > 0
            || m.modules.len() > 0) && m.name == n) || count_refs_in(m.modules, n) > 0),
        mod_node_exists(g, n) ==> mod_node_value(reduce_node(g, m), n) == sat_of(
            mod_node_value(g, n) + count_refs_in(m.modules, n),
        ),
        (!mod_node_exists(g, n) && (m.resources.len() > 0 || m.modules.len() > 0) && m.name == n)
            ==> mod_node_value(reduce_node(g, m), n) == sat_of(
            1 + count_refs_in(m.modules, n) as int,
        ),
        (!mod_node_exists(g, n) && !((m.resources.len() > 0 || m.modules.len() > 0) && m.name
            == n)) ==> mod_node_value(reduce_node(g, m), n) == sat_of(
            count_refs_in(m.modules, n) as int,
        ),
{
    lemma_find_node_range(g.nodes, Category::Module, n);
    if m.resources.len() == 0 && m.modules.len() == 0 {
    } else {
        lemma_upsert_scope_mod_value(g, m.name, n);
        let g1 = upsert_node(g, Category::Module, m.name, false).0;
        let mid = g1.nodes[upsert_node(g, Category::Module, m.name, false).1].id;
        lemma_fold_resources_mod_value(g1, mid, m.resources, n);
        let g2 = fold_resources(g1, mid, m.resources);
        lemma_fold_modules_mod_value(g2, mid, m.modules, n);
        if mod_node_exists(g, n) {
            lemma_find_node_range(g.nodes, Category::Module, n);
            assert(mod_node_value(g, n) <= u64::MAX);
        }
    }
}

/// A subtree's effect on the watched module node's weight: the references
/// deriving the name are counted exactly, and at most one scope entry adds
/// one on top — the first non-empty scope of that name, when nothing else
/// made the node first.
proof fn lemma_reduce_tree_mod_value(g: GraphV, m: ManifestV, n: Seq<char>)
    requires
        mod_node_exists(g, n) ==> mod_node_value(g, n) >= 1,
    ensures
        mod_node_exists(reduce_tree(g, m), n) ==> mod_node_value(reduce_tree(g, m), n) >= 1,
        mod_node_exists(reduce_tree(g, m), n) == (mod_node_exists(g, n) || module_node_in_tree(
            m,
            n,
        )),
        mod_node_exists(g, n) ==> mod_node_value(reduce_tree(g, m), n) == sat_of(
            mod_node_value(g, n) + count_refs_tree(m, n),
        ),
        !mod_node_exists(g, n) ==> (mod_node_value(reduce_tree(g, m), n) == sat_of(
            count_refs_tree(m, n) as int,
        ) || mod_node_value(reduce_tree(g, m), n) == sat_of(count_refs_tree(m, n) as int + 1)),
    decreases m,
{
    lemma_count_refs_has(m.modules, n);
    lemma_reduce_node_mod_value(g, m, n);
    let g1 = reduce_node(g, m);
    lemma_reduce_forest_mod_value(g1, m.submodules, n);
    if mod_node_exists(g, n) {
        lemma_find_node_range(g.nodes, Category::Module, n);
        lemma_sat_compose(
            mod_node_value(g, n) + count_refs_in(m.modules, n),
            count_refs_forest(m.submodules, n) as int,
        );
    } else {
        if (m.resources.len() > 0 || m.modules.len() > 0) && m.name == n {
            lemma_sat_compose(
                1 + count_refs_in(m.modules, n) as int,
                count_refs_forest(m.submodules, n) as int,
            );
        } else {
            lemma_sat_compose(
                count_refs_in(m.modules, n) as int,
                count_refs_forest(m.submodules, n) as int,
            );
        }
        if mod_node_exists(g1, n) {
            lemma_sat_compose(
                count_refs_in(m.modules, n) as int + 1,
                count_refs_forest(m.submodules, n) as int,
            );
        }
    }
}

/// A forest's effect on the watched module node's weight, combining its
/// subtrees left to right.
proof fn lemma_reduce_forest_mod_value(g: GraphV, ms: Seq<ManifestV>, n: Seq<char>)
    requires
        mod_node_exists(g, n) ==> mod_node_value(g, n) >= 1,
    ensures
        mod_node_exists(reduce_forest(g, ms), n) ==> mod_node_value(reduce_forest(g, ms), n) >= 1,
        mod_node_exists(reduce_forest(g, ms), n) == (mod_node_exists(g, n)
            || module_node_in_forest(ms, n)),
        mod_node_exists(g, n) ==> mod_node_value(reduce_forest(g, ms), n) == sat_of(
            mod_node_value(g, n) + count_refs_forest(ms, n),
        ),
        !mod_node_exists(g, n) ==> (mod_node_value(reduce_forest(g, ms), n) == sat_of(
            count_refs_forest(ms, n) as int,
        ) || mod_node_value(reduce_forest(g, ms), n) == sat_of(count_refs_forest(ms, n) as int + 1)),
    decreases ms,
{
    lemma_find_node_range(g.nodes, Category::Module, n);
    if ms.len() == 0 {
    } else {
        lemma_reduce_forest_mod_value(g, ms.drop_last(), n);
        let gd = reduce_forest(g, ms.drop_last());
        lemma_reduce_tree_mod_value(gd, ms.last(), n);
        if mod_node_exists(g, n) {
            lemma_sat_compose(
                mod_node_value(g, n) + count_refs_forest(ms.drop_last(), n),
                count_refs_tree(ms.last(), n) as int,
            );
        } else {
            lemma_sat_compose(
                count_refs_forest(ms.drop_last(), n) as int,
                count_refs_tree(ms.last(), n) as int,
            );
            lemma_sat_compose(
                count_refs_forest(ms.drop_last(), n) as int + 1,
                count_refs_tree(ms.last(), n) as int,
            );
            lemma_sat_compose(
                count_refs_forest(ms.drop_last(), n) as int,
                count_refs_tree(ms.last(), n) as int + 1,
            );
        }
    }
}

/// Module-node weight: a module node's weight counts the references that
/// derive its name, capped, plus at most one more — the one the first
/// non-empty scope of that name contributes when it enters the node before
/// any reference does. Which of the two values holds depends on traversal
/// order; both bounds are tight.
pub proof fn lemma_module_node_weight(m: ManifestV, n: Seq<char>)
    ensures
        module_node_in_tree(m, n) ==> (mod_node_value(graph_of(m), n) == sat_of(
            count_refs_tree(m, n) as int,
        ) || mod_node_value(graph_of(m), n) == sat_of(count_refs_tree(m, n) as int + 1)),
        (module_node_in_tree(m, n) && count_refs_tree(m, n) == 0) ==> mod_node_value(
            graph_of(m),
            n,
        ) == 1,
        !module_node_in_tree(m, n) ==> mod_node_value(graph_of(m), n) == 0,
{
    assert(find_node(empty_graph().nodes, Category::Module, n) is None);
    lemma_reduce_tree_mod_value(empty_graph(), m, n);
}

/// Graph dedup: a manifest node holding two resources of one kind, and
/// nothing else, reduces to exactly one module node of weight 1, one
/// resource node of weight 2, and one edge of weight 2 between them —
/// however the two declarations reached the node, they share both.
pub proof fn lemma_graph_dedup(m: ManifestV, k: Seq<char>)
    requires
        m.resources.len() == 2,
        m.resources[0].kind == k,
        m.resources[1].kind == k,
        m.modules.len() == 0,
        m.submodules.len() == 0,
    ensures
        graph_of(m).nodes.len() == 2,
        graph_of(m).nodes[0].category is Module,
        graph_of(m).nodes[0].name == m.name,
        graph_of(m).nodes[0].value == 1,
        graph_of(m).nodes[1].category is Resource,
        graph_of(m).nodes[1].name == k,
        graph_of(m).nodes[1].value == 2,
        graph_of(m).links.len() == 1,
        graph_of(m).links[0].source == graph_of(m).nodes[0].id,
        graph_of(m).links[0].target == graph_of(m).nodes[1].id,
        graph_of(m).links[0].value == 2,
{
    let g0 = empty_graph();
    let rs = m.resources;
    let r0 = rs[0];
    let r1 = rs[1];

    // The scope's module node enters an empty graph with id 0 and weight 1.
    lemma_find_node_none(g0.nodes, Category::Module, m.name);
    let n0 = GraphNodeV {
        id: 0,
        name: m.name,
        category: Category::Module,
        value: 1,
        symbol_size: size_of_weight(1),
    };
    let g1 = GraphV { nodes: g0.nodes.push(n0), links: g0.links };
    assert(upsert_node(g0, Category::Module, m.name, false).0 =~= g1);
    assert(upsert_node(g0, Category::Module, m.name, false).1 == 0int);
    assert(g1.nodes[0].id == 0u64);

    // The first occurrence of the kind creates the resource node, id 1,
    // weight 1, and the edge from the module node, weight 1.
    assert(g1.nodes[0] == n0);
    lemma_find_node_none(g1.nodes, Category::Resource, k);
    let n1 = GraphNodeV {
        id: 1,
        name: k,
        category: Category::Resource,
        value: 1,
        symbol_size: size_of_weight(1),
    };
    let g2 = GraphV { nodes: g1.nodes.push(n1), links: g1.links };
    assert(upsert_node(g1, Category::Resource, k, true).0 =~= g2);
    assert(upsert_node(g1, Category::Resource, k, true).1 == 1int);
    lemma_find_link_none(g2.links, 0u64, 1u64);
    let l0 = GraphLink { source: 0, target: 1, value: 1 };
    let g3 = GraphV { nodes: g2.nodes, links: g2.links.push(l0) };
    assert(g2.nodes[1int].id == 1u64);
    assert(add_child_node(g1, 0u64, Category::Resource, r0.kind) =~= g3);

    // The second occurrence finds both and bumps both weights to 2.
    lemma_find_node_found(g3.nodes, Category::Resource, k, 1);
    let n1b = GraphNodeV { value: 2, symbol_size: size_of_weight(2), ..n1 };
    assert(sat_inc(1) == 2);
    let g4 = GraphV { nodes: g3.nodes.update(1, n1b), links: g3.links };
    assert(upsert_node(g3, Category::Resource, k, true).0 =~= g4);
    assert(upsert_node(g3, Category::Resource, k, true).1 == 1int);
    lemma_find_link_found(g4.links, 0u64, 1u64, 0);
    let l0b = GraphLink { source: 0, target: 1, value: 2 };
    let g5 = GraphV { nodes: g4.nodes, links: g4.links.update(0, l0b) };
    assert(g4.nodes[1int].id == 1u64);
    assert(add_child_node(g3, 0u64, Category::Resource, r1.kind) =~= g5);

    // Folding the two resources walks exactly those two steps.
    assert(rs.drop_last().len() == 1);
    assert(rs.drop_last().last() == r0);
    assert(rs.drop_last().drop_last().len() == 0);
    assert(fold_resources(g1, 0u64, rs.drop_last().drop_last()) == g1);
    assert(fold_resources(g1, 0u64, rs.drop_last()) == g3);
    assert(rs.last() == r1);
    assert(fold_resources(g1, 0u64, rs) == g5);
    assert(fold_modules(g5, 0u64, m.modules) == g5);
    assert(reduce_node(g0, m) == g5);
    assert(reduce_forest(g5, m.submodules) == g5);
    assert(graph_of(m) == g5);
    assert(g5.nodes[0] == n0);
    assert(g5.nodes[1] == n1b);
    assert(g5.links[0] == l0b);
}

/// Reduction is a function of the manifest tree alone: two trees with the
/// same model reduce to the same graph. With `to_graph`'s contract this pins
/// two runs over one tree to identical node and edge sets.
pub proof fn lemma_reduce_deterministic(m1: ManifestV, m2: ManifestV)
    requires
        m1 == m2,
    ensures
        graph_of(m1) == graph_of(m2),
{
}

} // verus!
