use deepterra::{File, FileEntry, Parser, TerraformManifest};

struct FakeFile {
    path: String,
    content: Result<String, String>,
}

impl File for FakeFile {
    fn path(&self) -> String {
        self.path.clone()
    }

    fn get_contents(&self) -> Result<String, String> {
        self.content.clone()
    }
}

fn entry(path: &str, text: &str) -> FileEntry {
    FileEntry { path: String::from(path), content: Some(String::from(text)) }
}

fn depth(m: &TerraformManifest) -> usize {
    1 + m.submodules.iter().map(depth).max().unwrap_or(0)
}

#[test]
fn root_is_synthetic() {
    let tree = Parser::build_manifest(vec![]);
    assert_eq!(tree.name, "root");
    assert_eq!(tree.path, "");
    assert!(tree.submodules.is_empty());
    assert!(tree.resources.is_empty());
}

#[test]
fn file_lands_in_its_directory_node() {
    let tree = Parser::build_manifest(vec![entry(
        "infra/main.tf",
        "resource \"aws_s3_bucket\" \"logs\" {}\n",
    )]);
    assert_eq!(tree.submodules.len(), 1);
    let infra = &tree.submodules[0];
    assert_eq!(infra.name, "infra");
    assert_eq!(infra.path, "infra");
    assert_eq!(infra.resources.len(), 1);
    assert_eq!(infra.resources[0].kind, "aws_s3_bucket");
}

#[test]
fn leading_dot_segments_are_skipped() {
    let tree = Parser::build_manifest(vec![entry(
        "./aggregator/module4/main.tf",
        "resource \"kind_a\" \"one\" {}\n",
    )]);
    assert_eq!(tree.submodules.len(), 1);
    let agg = &tree.submodules[0];
    assert_eq!(agg.name, "aggregator");
    assert_eq!(agg.submodules.len(), 1);
    assert_eq!(agg.submodules[0].name, "module4");
    assert_eq!(agg.submodules[0].path, "aggregator/module4");
    assert_eq!(agg.submodules[0].resources.len(), 1);
}

#[test]
fn siblings_are_reused_by_name() {
    let tree = Parser::build_manifest(vec![
        entry("app/a.tf", "resource \"kind_a\" \"one\" {}\n"),
        entry("app/b.tf", "resource \"kind_b\" \"two\" {}\n"),
        entry("lib/c.tf", "resource \"kind_c\" \"three\" {}\n"),
    ]);
    assert_eq!(tree.submodules.len(), 2);
    let app = &tree.submodules[0];
    assert_eq!(app.name, "app");
    assert_eq!(app.resources.len(), 2);
    assert_eq!(app.resources[0].kind, "kind_a");
    assert_eq!(app.resources[1].kind, "kind_b");
    let lib = &tree.submodules[1];
    assert_eq!(lib.name, "lib");
    assert_eq!(lib.resources.len(), 1);
}

#[test]
fn same_named_children_under_different_parents_stay_apart() {
    let tree = Parser::build_manifest(vec![
        entry("a/shared/one.tf", "resource \"kind_a\" \"one\" {}\n"),
        entry("b/shared/two.tf", "resource \"kind_b\" \"two\" {}\n"),
    ]);
    assert_eq!(tree.submodules.len(), 2);
    let a_shared = &tree.submodules[0].submodules[0];
    let b_shared = &tree.submodules[1].submodules[0];
    assert_eq!(a_shared.name, "shared");
    assert_eq!(b_shared.name, "shared");
    assert_eq!(a_shared.path, "a/shared");
    assert_eq!(b_shared.path, "b/shared");
    assert_eq!(a_shared.resources.len(), 1);
    assert_eq!(b_shared.resources.len(), 1);
}

#[test]
fn tree_levels_match_deepest_lineage() {
    let tree = Parser::build_manifest(vec![
        entry("top.tf", "resource \"kind_a\" \"one\" {}\n"),
        entry("a/b/c/deep.tf", "resource \"kind_b\" \"two\" {}\n"),
        entry("a/mid.tf", "resource \"kind_c\" \"three\" {}\n"),
    ]);
    // the deepest lineage is a/b/c, three directory levels below the root
    assert_eq!(depth(&tree), 4);
}

#[test]
fn unreadable_file_contributes_nothing_but_run_succeeds() {
    let files = vec![
        FakeFile {
            path: String::from("infra/bad.tf"),
            content: Err(String::from("permission denied")),
        },
        FakeFile {
            path: String::from("infra/good.tf"),
            content: Ok(String::from("resource \"aws_s3_bucket\" \"logs\" {}\n")),
        },
    ];
    let tree = Parser::parse(files);
    assert_eq!(tree.name, "root");
    assert_eq!(tree.submodules.len(), 1);
    let infra = &tree.submodules[0];
    assert_eq!(infra.resources.len(), 1);
    assert_eq!(infra.resources[0].kind, "aws_s3_bucket");
    assert_eq!(infra.modules.len(), 0);
}

#[test]
fn unparsable_file_is_skipped_not_fatal() {
    let tree = Parser::build_manifest(vec![
        entry("infra/broken.tf", "resource \"a\" \"b\" {"),
        entry("infra/good.tf", "resource \"kind_a\" \"one\" {}\n"),
    ]);
    let infra = &tree.submodules[0];
    assert_eq!(infra.resources.len(), 1);
    assert_eq!(infra.resources[0].kind, "kind_a");
}

#[test]
fn manifest_merge_and_submodule() {
    let mut root = TerraformManifest::new(String::from("root"), String::from(""));
    assert!(root.is_empty());
    let file = Parser::parse_file("resource \"kind_a\" \"one\" {}\n").unwrap();
    root.merge_file(file);
    assert!(!root.is_empty());
    assert_eq!(root.resources.len(), 1);
    let child = TerraformManifest::new(String::from("child"), String::from("root/child"));
    root.add_submodule(child);
    assert_eq!(root.submodules.len(), 1);
    assert_eq!(root.submodules[0].name, "child");
}

#[test]
fn file_order_decides_list_order_within_a_node() {
    let tree_ab = Parser::build_manifest(vec![
        entry("x/a.tf", "resource \"kind_a\" \"one\" {}\n"),
        entry("x/b.tf", "resource \"kind_b\" \"two\" {}\n"),
    ]);
    let tree_ba = Parser::build_manifest(vec![
        entry("x/b.tf", "resource \"kind_b\" \"two\" {}\n"),
        entry("x/a.tf", "resource \"kind_a\" \"one\" {}\n"),
    ]);
    assert_eq!(tree_ab.submodules[0].resources[0].kind, "kind_a");
    assert_eq!(tree_ba.submodules[0].resources[0].kind, "kind_b");
}
