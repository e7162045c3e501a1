use deepterra::discovery::EntryAction;
use deepterra::{Args, DirectoryParser, DiscoveryOptions, IgnorePattern, LocalDiscoverer,
    ParseError, ParserOptions};

#[test]
fn hidden_entries_are_skipped() {
    assert!(matches!(LocalDiscoverer::classify_entry(".git", true), EntryAction::Skip));
    assert!(matches!(LocalDiscoverer::classify_entry(".hidden.tf", false), EntryAction::Skip));
}

#[test]
fn directories_are_descended_into() {
    assert!(matches!(LocalDiscoverer::classify_entry("modules", true), EntryAction::Descend));
}

#[test]
fn only_tf_files_are_kept() {
    assert!(matches!(LocalDiscoverer::classify_entry("main.tf", false), EntryAction::Keep));
    assert!(matches!(LocalDiscoverer::classify_entry("README.md", false), EntryAction::Skip));
    assert!(matches!(LocalDiscoverer::classify_entry("tf", false), EntryAction::Skip));
}

#[test]
fn discoverer_keeps_its_root() {
    let d = LocalDiscoverer::new("infra/prod");
    assert_eq!(d.source, "infra/prod");
    let o = DiscoveryOptions::new(Some(String::from("*.bak")));
    assert_eq!(o.ignore.as_deref(), Some("*.bak"));
}

#[test]
fn ignore_pattern_filters_matching_paths() {
    let pat = IgnorePattern::new("*/ignored/*").unwrap();
    assert!(pat.matches_path("a/ignored/b.tf"));
    assert!(!pat.matches_path("a/kept/b.tf"));
    let kept = deepterra::discovery::filter_ignored(
        vec![
            String::from("a/ignored/b.tf"),
            String::from("a/kept/b.tf"),
            String::from("x/ignored/y.tf"),
        ],
        Some(&pat),
    );
    assert_eq!(kept, vec![String::from("a/kept/b.tf")]);
}

#[test]
fn no_pattern_keeps_everything() {
    let paths = vec![String::from("a.tf"), String::from("b.tf")];
    let kept = deepterra::discovery::filter_ignored(paths.clone(), None);
    assert_eq!(kept, paths);
}

#[test]
fn malformed_pattern_does_not_compile() {
    assert!(IgnorePattern::new("a[").is_none());
}

#[test]
fn skip_decision_follows_the_pattern() {
    let p = DirectoryParser::new(Some(String::from("*.generated.tf")));
    assert_eq!(p.skip_decision("main.generated.tf").unwrap(), true);
    assert_eq!(p.skip_decision("main.tf").unwrap(), false);
}

#[test]
fn skip_decision_without_pattern_skips_nothing() {
    let p = DirectoryParser::new(None);
    assert_eq!(p.skip_decision("anything.tf").unwrap(), false);
}

#[test]
fn malformed_pattern_is_fatal_glob_error() {
    let p = DirectoryParser::new(Some(String::from("a[")));
    match p.skip_decision("main.tf") {
        Err(ParseError::GlobError(_)) => {}
        _ => panic!("expected a glob error"),
    }
}

#[test]
fn parser_options_hold_the_pattern() {
    let o = ParserOptions::new(Some(String::from("*.bak")));
    assert_eq!(o.ignore.as_deref(), Some("*.bak"));
}

#[test]
fn verbosity_maps_to_log_levels() {
    let mut args = Args {
        output: String::from("out.html"),
        ignore: None,
        verbose: 0,
        path: String::from("."),
    };
    assert_eq!(args.log_level(), "off");
    args.verbose = 1;
    assert_eq!(args.log_level(), "info");
    args.verbose = 2;
    assert_eq!(args.log_level(), "debug");
    args.verbose = 7;
    assert_eq!(args.log_level(), "debug");
}
