use deepterra::{Category, FileEntry, GraphData, Parser};

fn entry(path: &str, text: &str) -> FileEntry {
    FileEntry { path: String::from(path), content: Some(String::from(text)) }
}

fn node_triples(g: &GraphData) -> Vec<(String, Category, u64)> {
    g.nodes.iter().map(|n| (n.name.clone(), n.category, n.value)).collect()
}

fn link_triples(g: &GraphData) -> Vec<(u64, u64, u64)> {
    g.links.iter().map(|l| (l.source, l.target, l.value)).collect()
}

#[test]
fn dedup_same_kind_across_files_weights_two() {
    // Two resources of one kind, declared in two files under the same
    // directory: one resource node of weight 2, one edge of weight 2.
    let tree = Parser::build_manifest(vec![
        entry("infra/a.tf", "resource \"aws_instance\" \"one\" {}\n"),
        entry("infra/b.tf", "resource \"aws_instance\" \"two\" {}\n"),
    ]);
    let g = tree.to_graph();
    assert_eq!(g.nodes.len(), 2);
    let module = &g.nodes[0];
    let resource = &g.nodes[1];
    assert_eq!(module.name, "infra");
    assert!(matches!(module.category, Category::Module));
    assert_eq!(module.value, 1);
    assert_eq!(resource.name, "aws_instance");
    assert!(matches!(resource.category, Category::Resource));
    assert_eq!(resource.value, 2);
    assert_eq!(g.links.len(), 1);
    assert_eq!(g.links[0].source, module.id);
    assert_eq!(g.links[0].target, resource.id);
    assert_eq!(g.links[0].value, 2);
}

#[test]
fn reducer_is_idempotent_on_a_tree() {
    let tree = Parser::build_manifest(vec![
        entry("infra/a.tf", "resource \"aws_instance\" \"one\" {}\n"),
        entry(
            "infra/net/b.tf",
            "module \"vpc\" {\n  source = \"./modules/vpc\"\n}\n",
        ),
        entry("other/c.tf", "resource \"aws_instance\" \"three\" {}\n"),
    ]);
    let g1 = tree.to_graph();
    let g2 = tree.to_graph();
    assert_eq!(node_triples(&g1), node_triples(&g2));
    assert_eq!(link_triples(&g1), link_triples(&g2));
}

#[test]
fn empty_nodes_contribute_nothing() {
    // the lineage nodes "a" and "a/b" exist but hold nothing; only "a/b/c"
    // contributes
    let tree = Parser::build_manifest(vec![entry(
        "a/b/c/main.tf",
        "resource \"kind_a\" \"one\" {}\n",
    )]);
    let g = tree.to_graph();
    assert_eq!(g.nodes.len(), 2);
    assert_eq!(g.nodes[0].name, "c");
    assert_eq!(g.nodes[1].name, "kind_a");
}

#[test]
fn weights_aggregate_across_scopes_by_kind() {
    // the same resource kind under two different directories still shares
    // one node, with one edge per scope
    let tree = Parser::build_manifest(vec![
        entry("a/x.tf", "resource \"aws_instance\" \"one\" {}\n"),
        entry("b/y.tf", "resource \"aws_instance\" \"two\" {}\n"),
    ]);
    let g = tree.to_graph();
    let names: Vec<&str> = g.nodes.iter().map(|n| n.name.as_str()).collect();
    assert_eq!(names, vec!["a", "aws_instance", "b"]);
    assert_eq!(g.nodes[1].value, 2);
    assert_eq!(g.links.len(), 2);
    assert_eq!(g.links[0].value, 1);
    assert_eq!(g.links[1].value, 1);
    assert_eq!(g.links[0].source, g.nodes[0].id);
    assert_eq!(g.links[1].source, g.nodes[2].id);
    assert_eq!(g.links[0].target, g.nodes[1].id);
    assert_eq!(g.links[1].target, g.nodes[1].id);
}

#[test]
fn categories_are_module_and_resource() {
    let tree = Parser::build_manifest(vec![]);
    let g = tree.to_graph();
    assert_eq!(g.categories.len(), 2);
    assert_eq!(g.categories[0].name, "module");
    assert_eq!(g.categories[1].name, "resource");
}

#[test]
fn symbol_size_grows_with_weight() {
    let tree = Parser::build_manifest(vec![
        entry("infra/a.tf", "resource \"aws_instance\" \"one\" {}\n"),
        entry("infra/b.tf", "resource \"aws_instance\" \"two\" {}\n"),
    ]);
    let g = tree.to_graph();
    // base 10, plus 2 per occurrence
    assert_eq!(g.nodes[0].symbol_size, 12);
    assert_eq!(g.nodes[1].symbol_size, 14);
}

#[test]
fn end_to_end_infra_scenario() {
    // root /infra with /infra/main.tf declaring one s3 bucket, and
    // /infra/modules/net/main.tf referencing a local module ./modules/net
    let tree = Parser::build_manifest(vec![
        entry("/infra/main.tf", "resource \"aws_s3_bucket\" \"logs\" {}\n"),
        entry(
            "/infra/modules/net/main.tf",
            "module \"vpc\" {\n  source = \"./modules/net\"\n}\n",
        ),
    ]);
    // tree shape: root -> infra -> modules -> net
    assert_eq!(tree.name, "root");
    assert_eq!(tree.submodules.len(), 1);
    let infra = &tree.submodules[0];
    assert_eq!(infra.name, "infra");
    assert_eq!(infra.resources.len(), 1);
    let net = &infra.submodules[0].submodules[0];
    assert_eq!(net.name, "net");
    assert_eq!(net.modules.len(), 1);

    let g = tree.to_graph();
    // infra scope, its bucket, and the net scope; the module reference's
    // derived name "net" collapses onto the net scope node and bumps it
    let triples = node_triples(&g);
    assert_eq!(triples.len(), 3);
    assert_eq!(triples[0], (String::from("infra"), Category::Module, 1));
    assert_eq!(triples[1], (String::from("aws_s3_bucket"), Category::Resource, 1));
    assert_eq!(triples[2], (String::from("net"), Category::Module, 2));
    assert_eq!(link_triples(&g), vec![
        (g.nodes[0].id, g.nodes[1].id, 1),
        (g.nodes[2].id, g.nodes[2].id, 1),
    ]);
}

#[test]
fn resource_weight_counts_every_declaration() {
    // five declarations of one kind scattered over three scopes: one node,
    // weight five
    let tree = Parser::build_manifest(vec![
        entry("a/one.tf", "resource \"aws_instance\" \"r1\" {}\nresource \"aws_instance\" \"r2\" {}\n"),
        entry("a/b/two.tf", "resource \"aws_instance\" \"r3\" {}\n"),
        entry("c/three.tf", "resource \"aws_instance\" \"r4\" {}\nresource \"aws_instance\" \"r5\" {}\n"),
    ]);
    let g = tree.to_graph();
    let instance: Vec<&deepterra::GraphNode> = g
        .nodes
        .iter()
        .filter(|n| n.name == "aws_instance" && matches!(n.category, Category::Resource))
        .collect();
    assert_eq!(instance.len(), 1);
    assert_eq!(instance[0].value, 5);
}

#[test]
fn module_reference_scopes_get_their_own_edges() {
    // two different scopes referencing the same registry module share its
    // node, with one edge per scope
    let tree = Parser::build_manifest(vec![
        entry("a/one.tf", "module \"m1\" {\n  source = \"org/vpc/aws\"\n}\n"),
        entry("b/two.tf", "module \"m2\" {\n  source = \"org/vpc/aws\"\n}\n"),
    ]);
    let g = tree.to_graph();
    let names: Vec<&str> = g.nodes.iter().map(|n| n.name.as_str()).collect();
    assert_eq!(names, vec!["a", "org/vpc/aws", "b"]);
    assert_eq!(g.nodes[1].value, 2);
    assert_eq!(g.links.len(), 2);
}

#[test]
fn same_named_scopes_share_node_and_edge() {
    // two directories named "web" under different parents: one module node,
    // and one edge to the shared resource kind carrying both occurrences
    let tree = Parser::build_manifest(vec![
        entry("a/web/x.tf", "resource \"aws_lb\" \"one\" {}\n"),
        entry("b/web/y.tf", "resource \"aws_lb\" \"two\" {}\n"),
    ]);
    let g = tree.to_graph();
    let web_nodes: Vec<&deepterra::GraphNode> =
        g.nodes.iter().filter(|n| n.name == "web").collect();
    assert_eq!(web_nodes.len(), 1);
    assert_eq!(g.links.len(), 1);
    assert_eq!(g.links[0].value, 2);
    assert_eq!(g.links[0].source, web_nodes[0].id);
}

#[test]
fn unknown_module_reference_keys_by_empty_name() {
    // a module block without a usable source still contributes, under the
    // empty name, and does not break the reducer
    let tree = Parser::build_manifest(vec![entry(
        "infra/a.tf",
        "module \"vpc\" {\n  count = 2\n}\n",
    )]);
    let g = tree.to_graph();
    assert_eq!(g.nodes.len(), 2);
    assert_eq!(g.nodes[1].name, "");
    assert!(matches!(g.nodes[1].category, Category::Module));
}
