use deepterra::ModuleRef;

#[test]
fn local_source_classifies_and_names() {
    let m = ModuleRef::parse("./modules/vpc");
    match &m {
        ModuleRef::Local(l) => assert_eq!(l.source(), "./modules/vpc"),
        _ => panic!("expected Local"),
    }
    assert_eq!(m.name(), "vpc");
}

#[test]
fn parent_relative_source_is_local() {
    let m = ModuleRef::parse("../shared/net");
    assert!(matches!(m, ModuleRef::Local(_)));
    assert_eq!(m.name(), "net");
}

#[test]
fn git_url_names_last_segment() {
    let m = ModuleRef::parse("git::https://github.com/org/repo.git");
    match &m {
        ModuleRef::Git(g) => assert_eq!(g.source(), "git::https://github.com/org/repo.git"),
        _ => panic!("expected Git"),
    }
    assert_eq!(m.name(), "repo.git");
}

#[test]
fn github_mention_is_git() {
    let m = ModuleRef::parse("https://github.com/org/other");
    assert!(matches!(m, ModuleRef::Git(_)));
    assert_eq!(m.name(), "other");
}

#[test]
fn git_prefix_beats_local_rule() {
    // "git::./foo" does not start with "./", so the Local rule passes it by
    // and the Git rule takes it.
    let m = ModuleRef::parse("git::./foo");
    assert!(matches!(m, ModuleRef::Git(_)));
}

#[test]
fn registry_fallback_keeps_raw_source() {
    let m = ModuleRef::parse("terraform-aws-modules/vpc/aws");
    match &m {
        ModuleRef::Registry(s) => assert_eq!(s, "terraform-aws-modules/vpc/aws"),
        _ => panic!("expected Registry"),
    }
    assert_eq!(m.name(), "terraform-aws-modules/vpc/aws");
}

#[test]
fn scheme_prefixes_classify_in_order() {
    assert!(matches!(ModuleRef::parse("bitbucket.org/org/repo"), ModuleRef::Bitbucket(_)));
    assert!(matches!(ModuleRef::parse("hg::http://example.com/repo"), ModuleRef::Mercurial(_)));
    assert!(matches!(ModuleRef::parse("s3::https://bucket/key"), ModuleRef::S3(_)));
    assert!(matches!(ModuleRef::parse("gcs::https://bucket/key"), ModuleRef::GCS(_)));
    assert!(matches!(ModuleRef::parse("http::example.com/mod"), ModuleRef::Http(_)));
    assert!(matches!(ModuleRef::parse("https::example.com/mod"), ModuleRef::Http(_)));
}

#[test]
fn source_is_trimmed_before_classification() {
    let m = ModuleRef::parse("  ./a/b  ");
    match &m {
        ModuleRef::Local(l) => assert_eq!(l.source(), "./a/b"),
        _ => panic!("expected Local"),
    }
    assert_eq!(m.name(), "b");
}

#[test]
fn unparsable_git_url_names_empty() {
    let m = ModuleRef::parse("git::not a url");
    assert!(matches!(m, ModuleRef::Git(_)));
    assert_eq!(m.name(), "");
}

#[test]
fn local_trailing_slash_names_last_segment() {
    let m = ModuleRef::parse("./modules/vpc/");
    assert_eq!(m.name(), "vpc");
}

#[test]
fn degenerate_local_sources_name_empty() {
    // paths whose final piece is `.` or `..` name no segment
    assert_eq!(ModuleRef::parse("./").name(), "");
    assert_eq!(ModuleRef::parse("../").name(), "");
    assert_eq!(ModuleRef::parse("./a/..").name(), "");
    // a trailing `.` piece is dropped, as Path::file_name drops it
    assert_eq!(ModuleRef::parse("./a/.").name(), "a");
}

#[test]
fn unicode_whitespace_is_trimmed_before_classification() {
    let m = ModuleRef::parse("\u{a0}./modules/vpc\u{3000}");
    match &m {
        ModuleRef::Local(l) => assert_eq!(l.source(), "./modules/vpc"),
        _ => panic!("expected Local"),
    }
    assert_eq!(m.name(), "vpc");
}

#[test]
fn whitespace_only_source_is_registry_with_empty_name() {
    let m = ModuleRef::parse("   \t  ");
    match &m {
        ModuleRef::Registry(s) => assert_eq!(s, ""),
        _ => panic!("expected Registry"),
    }
}

#[test]
fn empty_source_is_registry_with_empty_name() {
    let m = ModuleRef::parse("");
    assert!(matches!(m, ModuleRef::Registry(_)));
    assert_eq!(m.name(), "");
}
