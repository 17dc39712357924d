use serde_generate::{normalize_comment, CodeGeneratorConfig, DocComments, Encoding};

#[test]
fn new_config_defaults() {
    let c = CodeGeneratorConfig::new("testing".to_string());
    assert_eq!(c.module_name(), "testing");
    assert!(c.serialization);
    assert!(c.encodings.is_empty());
    assert!(!c.c_style_enums);
    assert!(c.package_manifest);
    assert_eq!(c.namespaces.len(), 0);
    assert_eq!(c.comments.len(), 0);
}

#[test]
fn builders_set_their_field() {
    let c = CodeGeneratorConfig::new("m".to_string())
        .with_serialization(false)
        .with_c_style_enums(true)
        .with_package_manifest(false);
    assert!(!c.serialization);
    assert!(c.c_style_enums);
    assert!(!c.package_manifest);
}

#[test]
fn encodings_are_a_sorted_set() {
    let c = CodeGeneratorConfig::new("m".to_string())
        .with_encodings(vec![Encoding::Bcs, Encoding::Bincode, Encoding::Bcs]);
    assert_eq!(c.encodings, vec![Encoding::Bincode, Encoding::Bcs]);
    let c = c.with_encodings(vec![Encoding::Bcs]);
    assert_eq!(c.encodings, vec![Encoding::Bcs]);
}

#[test]
fn encoding_names() {
    assert_eq!(Encoding::Bincode.name(), "bincode");
    assert_eq!(Encoding::Bcs.name(), "bcs");
}

#[test]
fn later_namespace_wins() {
    let c = CodeGeneratorConfig::new("m".to_string()).with_namespaces(vec![
        ("z".to_string(), "one".to_string()),
        ("a".to_string(), "two".to_string()),
        ("z".to_string(), "three".to_string()),
    ]);
    assert_eq!(c.namespaces.len(), 2);
    assert_eq!(c.namespaces.name(0), "a");
    assert_eq!(c.namespaces.value(0), "two");
    assert_eq!(c.namespaces.name(1), "z");
    assert_eq!(c.namespaces.value(1), "three");
}

#[test]
fn comment_normalization_trims_and_ends_with_one_newline() {
    assert_eq!(normalize_comment(&"  hello world \n\n".to_string()), "hello world\n");
    assert_eq!(normalize_comment(&"\t\u{3000}".to_string()), "\n");
    assert_eq!(normalize_comment(&"x".to_string()), "x\n");
}

#[test]
fn comment_normalization_is_idempotent() {
    for s in ["  a b ", "", "line\n\nmore\n", "\u{a0}z\u{2003}"] {
        let once = normalize_comment(&s.to_string());
        assert_eq!(normalize_comment(&once), once);
    }
}

#[test]
fn with_comments_normalizes_values_and_sorts_keys() {
    let mut docs = DocComments::new();
    docs.insert(vec!["m".to_string(), "B".to_string()], "  second".to_string());
    docs.insert(vec!["m".to_string(), "A".to_string(), "f".to_string()], "first \n".to_string());
    docs.insert(vec!["m".to_string()], "module".to_string());
    let c = CodeGeneratorConfig::new("m".to_string()).with_comments(docs);
    assert_eq!(c.comments.len(), 3);
    assert_eq!(c.comments.key(0), &vec!["m".to_string()]);
    assert_eq!(c.comments.value(0), "module\n");
    assert_eq!(c.comments.key(1), &vec!["m".to_string(), "A".to_string(), "f".to_string()]);
    assert_eq!(c.comments.value(1), "first\n");
    assert_eq!(c.comments.value(2), "second\n");
    assert_eq!(c.comments.position(&vec!["m".to_string(), "B".to_string()]), Some(2));
    assert_eq!(c.comments.position(&vec!["n".to_string()]), None);
}

#[test]
fn custom_code_is_kept_verbatim() {
    let mut code = DocComments::new();
    code.insert(vec!["m".to_string(), "T".to_string()], "  fn f() {}  ".to_string());
    let c = CodeGeneratorConfig::new("m".to_string()).with_custom_code(code);
    assert_eq!(c.custom_code.value(0), "  fn f() {}  ");
}
