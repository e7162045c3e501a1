use deepterra::{ModuleRef, ParseError, Parser, Terraform};

#[test]
fn resource_block_labels_become_kind_and_name() {
    let text = "resource \"aws_instance\" \"web\" {}\n";
    let file = Parser::parse_file(text).unwrap();
    assert_eq!(file.resources.len(), 1);
    assert_eq!(file.resources[0].kind, "aws_instance");
    assert_eq!(file.resources[0].name, "web");
    assert_eq!(file.modules.len(), 0);
}

#[test]
fn short_resource_block_is_dropped_not_fatal() {
    // One malformed resource block (a single label) among well-formed ones:
    // the malformed one is dropped, the rest of the file survives.
    let text = "resource \"only_kind\" {}\nresource \"aws_s3_bucket\" \"logs\" {}\n";
    let file = Parser::parse_file(text).unwrap();
    assert_eq!(file.resources.len(), 1);
    assert_eq!(file.resources[0].kind, "aws_s3_bucket");
    assert_eq!(file.resources[0].name, "logs");
}

#[test]
fn module_block_source_is_classified() {
    let text = "module \"vpc\" {\n  source = \"./modules/vpc\"\n}\n";
    let file = Parser::parse_file(text).unwrap();
    assert_eq!(file.modules.len(), 1);
    assert!(matches!(file.modules[0], ModuleRef::Local(_)));
    assert_eq!(file.modules[0].name(), "vpc");
}

#[test]
fn module_without_source_is_unknown() {
    let text = "module \"vpc\" {\n  count = 2\n}\n";
    let file = Parser::parse_file(text).unwrap();
    assert_eq!(file.modules.len(), 1);
    assert!(matches!(file.modules[0], ModuleRef::Unknown));
}

#[test]
fn module_with_non_string_source_is_unknown() {
    let text = "module \"vpc\" {\n  source = 42\n}\n";
    let file = Parser::parse_file(text).unwrap();
    assert_eq!(file.modules.len(), 1);
    assert!(matches!(file.modules[0], ModuleRef::Unknown));
}

#[test]
fn unrelated_blocks_are_ignored() {
    let text = "provider \"aws\" {}\nresource \"aws_instance\" \"web\" {}\noutput \"ip\" {\n  value = \"x\"\n}\n";
    let file = Parser::parse_file(text).unwrap();
    assert_eq!(file.resources.len(), 1);
    assert_eq!(file.modules.len(), 0);
}

#[test]
fn malformed_hcl_is_a_parse_error() {
    let text = "resource \"a\" \"b\" {";
    match Parser::parse_file(text) {
        Err(ParseError::HCLError(_)) => {}
        _ => panic!("expected an HCL parse error"),
    }
}

#[test]
fn block_order_is_kept() {
    let text = "resource \"kind_a\" \"one\" {}\nresource \"kind_b\" \"two\" {}\n";
    let file = Parser::parse_file(text).unwrap();
    assert_eq!(file.resources.len(), 2);
    assert_eq!(file.resources[0].kind, "kind_a");
    assert_eq!(file.resources[1].kind, "kind_b");
}

#[test]
fn terraform_combine_appends_in_order() {
    let a_text = "resource \"kind_a\" \"one\" {}\n";
    let b_text = "resource \"kind_b\" \"two\" {}\n";
    let a = Parser::parse_file(a_text).unwrap();
    let b = Parser::parse_file(b_text).unwrap();
    let mut t = Terraform::new(String::from("scope"));
    assert!(t.is_empty());
    t.combine(Terraform {
        name: String::new(),
        resources: a.resources,
        modules: a.modules,
    });
    t.combine(Terraform {
        name: String::new(),
        resources: b.resources,
        modules: b.modules,
    });
    assert!(!t.is_empty());
    assert_eq!(t.name, "scope");
    assert_eq!(t.resources.len(), 2);
    assert_eq!(t.resources[0].kind, "kind_a");
    assert_eq!(t.resources[1].kind, "kind_b");
}
