use serde_generate::{
    analyze, analyze_with_externals, Analysis, CodeGeneratorConfig, ContainerFormat, ExternalDefinitions, Format, Named,
    Registry, UnresolvedReference, VariantFormat,
};

fn field(name: &str, value: Format) -> Named<Format> {
    Named { name: name.to_string(), value }
}

fn reference(n: &str) -> Format {
    Format::TypeName(n.to_string())
}

fn registry(entries: Vec<(&str, ContainerFormat)>) -> Registry {
    let mut r = Registry::new();
    for (name, format) in entries {
        r.insert(name.to_string(), format);
    }
    r
}

fn names(r: &Registry, idx: &[usize]) -> Vec<String> {
    idx.iter().map(|i| r.name(*i).clone()).collect()
}

fn run(r: &Registry) -> Analysis {
    analyze(r, &CodeGeneratorConfig::new("m".to_string())).unwrap()
}

#[test]
fn struct_reference_orders_dependency_first() {
    let r = registry(vec![
        ("Foo", ContainerFormat::Struct(vec![field("x", reference("Bar"))])),
        ("Bar", ContainerFormat::UnitStruct),
    ]);
    let a = run(&r);
    assert_eq!(names(&r, &a.order), vec!["Bar", "Foo"]);
    assert!(a.cycles.is_empty());
    assert!(a.indirect.is_empty());
}

#[test]
fn self_reference_is_a_cycle() {
    let r = registry(vec![(
        "A",
        ContainerFormat::Struct(vec![field("next", Format::Optional(Box::new(reference("A"))))]),
    )]);
    let a = run(&r);
    assert_eq!(names(&r, &a.order), vec!["A"]);
    assert_eq!(a.cycles, vec![vec![0]]);
    assert_eq!(a.indirect, vec![(0, 0)]);
}

#[test]
fn mutual_recursion_is_one_component() {
    let r = registry(vec![
        ("B", ContainerFormat::Struct(vec![field("a", reference("A"))])),
        ("A", ContainerFormat::Struct(vec![field("b", reference("B"))])),
    ]);
    let a = run(&r);
    assert_eq!(names(&r, &a.order), vec!["A", "B"]);
    assert_eq!(a.cycles, vec![vec![0, 1]]);
    assert_eq!(a.indirect, vec![(0, 1), (1, 0)]);
}

#[test]
fn undefined_reference_is_reported() {
    let r = registry(vec![
        ("A", ContainerFormat::UnitStruct),
        ("B", ContainerFormat::NewTypeStruct(Box::new(Format::Sequence(Box::new(reference("C")))))),
    ]);
    let res = analyze(&r, &CodeGeneratorConfig::new("m".to_string()));
    assert_eq!(
        res,
        Err(UnresolvedReference { container: "B".to_string(), name: "C".to_string() })
    );
}

#[test]
fn independent_containers_in_lexicographic_order() {
    let r = registry(vec![("Y", ContainerFormat::UnitStruct), ("X", ContainerFormat::UnitStruct)]);
    let a = run(&r);
    assert_eq!(names(&r, &a.order), vec!["X", "Y"]);
    assert!(a.cycles.is_empty());
}

#[test]
fn external_definition_resolves_and_stays_out() {
    let r = registry(vec![("A", ContainerFormat::TupleStruct(vec![reference("Ext"), Format::U8]))]);
    let mut ext = ExternalDefinitions::new();
    ext.insert("other".to_string(), vec!["Ext".to_string()]);
    let config = CodeGeneratorConfig::new("m".to_string()).with_external_definitions(ext);
    let a = analyze(&r, &config).unwrap();
    assert_eq!(names(&r, &a.order), vec!["A"]);
    assert!(a.cycles.is_empty());
    assert!(a.indirect.is_empty());
    assert!(analyze_with_externals(&r, &vec![]).is_err());
}

#[test]
fn references_found_at_any_depth() {
    let variants = vec![
        (0, Named { name: "V0".to_string(), value: VariantFormat::Unit }),
        (
            1,
            Named {
                name: "V1".to_string(),
                value: VariantFormat::Struct(vec![field(
                    "m",
                    Format::Mapping {
                        key: Box::new(Format::Str),
                        value: Box::new(Format::Tuple(vec![
                            Format::U64,
                            Format::TupleArray { content: Box::new(reference("Leaf")), size: 3 },
                        ])),
                    },
                )]),
            },
        ),
    ];
    let r = registry(vec![("E", ContainerFormat::Enum(variants)), ("Leaf", ContainerFormat::UnitStruct)]);
    let a = run(&r);
    assert_eq!(names(&r, &a.order), vec!["Leaf", "E"]);
}

#[test]
fn dependencies_precede_dependents_on_a_chain() {
    let r = registry(vec![
        ("A", ContainerFormat::NewTypeStruct(Box::new(reference("B")))),
        ("B", ContainerFormat::NewTypeStruct(Box::new(reference("C")))),
        ("C", ContainerFormat::UnitStruct),
        ("D", ContainerFormat::UnitStruct),
    ]);
    let a = run(&r);
    assert_eq!(names(&r, &a.order), vec!["C", "B", "A", "D"]);
}

#[test]
fn cycle_with_a_tail_marks_only_cycle_edges() {
    let r = registry(vec![
        ("A", ContainerFormat::NewTypeStruct(Box::new(reference("B")))),
        ("B", ContainerFormat::NewTypeStruct(Box::new(reference("C")))),
        ("C", ContainerFormat::NewTypeStruct(Box::new(reference("B")))),
    ]);
    let a = run(&r);
    assert_eq!(names(&r, &a.order), vec!["B", "C", "A"]);
    assert_eq!(a.cycles, vec![vec![1, 2]]);
    assert_eq!(a.indirect, vec![(1, 2), (2, 1)]);
}

#[test]
fn same_content_gives_same_analysis() {
    let build = |order: &[&str]| {
        let mut r = Registry::new();
        for n in order {
            let f = match *n {
                "A" => ContainerFormat::NewTypeStruct(Box::new(reference("B"))),
                "B" => ContainerFormat::NewTypeStruct(Box::new(reference("A"))),
                _ => ContainerFormat::NewTypeStruct(Box::new(reference("A"))),
            };
            r.insert(n.to_string(), f);
        }
        r
    };
    let r1 = build(&["A", "B", "C"]);
    let r2 = build(&["C", "B", "A"]);
    assert_eq!(run(&r1), run(&r2));
    assert_eq!(names(&r1, &run(&r1).order), vec!["A", "B", "C"]);
}

#[test]
fn registry_insert_replaces_and_sorts() {
    let mut r = Registry::new();
    r.insert("b".to_string(), ContainerFormat::UnitStruct);
    r.insert("a".to_string(), ContainerFormat::UnitStruct);
    r.insert("b".to_string(), ContainerFormat::TupleStruct(vec![]));
    assert_eq!(r.len(), 2);
    assert_eq!(r.name(0), "a");
    assert_eq!(r.name(1), "b");
    assert_eq!(r.position(&"b".to_string()), Some(1));
    assert_eq!(r.position(&"c".to_string()), None);
    assert!(matches!(r.value(1), ContainerFormat::TupleStruct(v) if v.is_empty()));
}

#[test]
fn first_container_with_unresolved_reference_is_reported() {
    let r = registry(vec![
        ("B", ContainerFormat::NewTypeStruct(Box::new(reference("Y")))),
        ("A", ContainerFormat::Struct(vec![field("f", Format::Optional(Box::new(reference("X"))))])),
    ]);
    let res = analyze(&r, &CodeGeneratorConfig::new("m".to_string()));
    assert_eq!(
        res,
        Err(UnresolvedReference { container: "A".to_string(), name: "X".to_string() })
    );
}

#[test]
fn empty_registry_gives_empty_analysis() {
    let r = Registry::new();
    let a = run(&r);
    assert!(a.order.is_empty());
    assert!(a.cycles.is_empty());
    assert!(a.indirect.is_empty());
}

#[test]
fn two_separate_cycles_get_two_records() {
    let r = registry(vec![
        ("D", ContainerFormat::NewTypeStruct(Box::new(reference("C")))),
        ("C", ContainerFormat::NewTypeStruct(Box::new(reference("D")))),
        ("B", ContainerFormat::Struct(vec![field("b", Format::Sequence(Box::new(reference("B"))))])),
        ("A", ContainerFormat::UnitStruct),
    ]);
    let a = run(&r);
    assert_eq!(names(&r, &a.order), vec!["A", "B", "C", "D"]);
    assert_eq!(a.cycles, vec![vec![1], vec![2, 3]]);
    assert_eq!(a.indirect, vec![(1, 1), (2, 3), (3, 2)]);
}

#[test]
fn least_available_component_comes_next() {
    let r = registry(vec![
        ("A", ContainerFormat::NewTypeStruct(Box::new(reference("B")))),
        ("B", ContainerFormat::UnitStruct),
        ("C", ContainerFormat::UnitStruct),
    ]);
    let a = run(&r);
    assert_eq!(names(&r, &a.order), vec!["B", "A", "C"]);
}
