use deepterra::strings::{last_path_segment, str_contains, str_ends_with, str_eq,
    str_starts_with, trim};

#[test]
fn trim_removes_surrounding_whitespace() {
    assert_eq!(trim("  hello \t\n"), "hello");
    assert_eq!(trim("hello"), "hello");
    assert_eq!(trim("   "), "");
    assert_eq!(trim(""), "");
    assert_eq!(trim(" a b "), "a b");
}

#[test]
fn trim_agrees_with_std_on_unicode_whitespace() {
    let cases = [
        "\u{a0}x\u{3000}",
        "\u{85}\u{1680}y",
        "z\u{2028}\u{2029}",
        "\u{2000}\u{2005}\u{200a}w\u{202f}\u{205f}",
        "\u{b}\u{c}v\r\n",
    ];
    for s in cases {
        assert_eq!(trim(s), s.trim());
    }
}

#[test]
fn prefix_suffix_and_substring_tests_agree_with_std() {
    assert!(str_starts_with("git::x", "git::"));
    assert!(!str_starts_with("git", "git::"));
    assert!(str_ends_with("main.tf", ".tf"));
    assert!(!str_ends_with("main.tf.bak", ".tf"));
    assert!(str_contains("https://github.com/x", "github.com"));
    assert!(!str_contains("https://gitlab.com/x", "github.com"));
    assert!(str_eq("abc", "abc"));
    assert!(!str_eq("abc", "abd"));
    assert!(!str_eq("abc", "abcd"));
}

#[test]
fn last_path_segment_takes_the_final_component() {
    assert_eq!(last_path_segment("./modules/vpc"), "vpc");
    assert_eq!(last_path_segment("vpc"), "vpc");
    assert_eq!(last_path_segment("a/b/c/"), "c");
    assert_eq!(last_path_segment(""), "");
    assert_eq!(last_path_segment("///"), "");
}

#[test]
fn last_path_segment_mirrors_file_name_on_degenerate_paths() {
    // a final `.` piece is dropped like `Path::file_name` drops it; a final
    // `..` piece names nothing
    assert_eq!(last_path_segment("."), "");
    assert_eq!(last_path_segment("./"), "");
    assert_eq!(last_path_segment(".."), "");
    assert_eq!(last_path_segment("../"), "");
    assert_eq!(last_path_segment("./a/.."), "");
    assert_eq!(last_path_segment("./a/."), "a");
    assert_eq!(last_path_segment("a/."), "a");
    assert_eq!(last_path_segment("././."), "");
    assert_eq!(last_path_segment("a/../"), "");
    assert_eq!(last_path_segment("..."), "...");
    assert_eq!(last_path_segment(".a"), ".a");
}
