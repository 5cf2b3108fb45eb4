use typegen::errors::GenerateError;
use typegen::model::{
    AliasDef, EnumDef, FieldDef, Id, ParsedData, SpecialType, StructDef, TypeItem, TypeRef,
    VariantDef,
};
use typegen::python::Python;
use typegen::topsort::topsort;

fn id(name: &str) -> Id {
    Id { original: name.to_string(), renamed: name.to_string() }
}

fn named(name: &str) -> TypeRef {
    TypeRef::Named { id: name.to_string(), args: vec![] }
}

fn field(name: &str, ty: TypeRef) -> FieldDef {
    FieldDef { id: id(name), ty, overrides: vec![], comments: vec![] }
}

fn struct_item(name: &str, fields: Vec<FieldDef>) -> TypeItem {
    TypeItem::Struct(StructDef { id: id(name), generic_types: vec![], fields, comments: vec![] })
}

#[test]
fn referenced_item_is_emitted_first() {
    let items = vec![
        struct_item("Outer", vec![field("inner", named("Inner"))]),
        struct_item("Inner", vec![field("n", TypeRef::Special(SpecialType::I32))]),
    ];
    let sorted = topsort(items).expect("acyclic graph must sort");
    assert_eq!(sorted.len(), 2);
    assert_eq!(sorted[0].name().as_str(), "Inner");
    assert_eq!(sorted[1].name().as_str(), "Outer");
}

#[test]
fn reference_nested_in_containers_is_an_edge() {
    let items = vec![
        struct_item(
            "Outer",
            vec![field(
                "inners",
                TypeRef::Special(SpecialType::List(Box::new(TypeRef::Special(
                    SpecialType::Optional(Box::new(named("Inner"))),
                )))),
            )],
        ),
        struct_item("Inner", vec![]),
    ];
    let sorted = topsort(items).expect("acyclic graph must sort");
    assert_eq!(sorted[0].name().as_str(), "Inner");
    assert_eq!(sorted[1].name().as_str(), "Outer");
}

#[test]
fn mutual_cycle_is_a_typed_error() {
    let items = vec![
        struct_item("A", vec![field("b", named("B"))]),
        struct_item("B", vec![field("a", named("A"))]),
    ];
    match topsort(items) {
        Ok(_) => panic!("a mutual cycle must not sort"),
        Err(e) => {
            let names: Vec<String> = e.names;
            assert!(names.iter().any(|n| n == "A"));
            assert!(names.iter().any(|n| n == "B"));
        }
    }
}

#[test]
fn self_reference_is_legal() {
    let items = vec![struct_item(
        "Node",
        vec![field(
            "children",
            TypeRef::Special(SpecialType::Optional(Box::new(TypeRef::Special(
                SpecialType::List(Box::new(named("Node"))),
            )))),
        )],
    )];
    let sorted = topsort(items).expect("a self-reference is not an edge");
    assert_eq!(sorted.len(), 1);
    assert_eq!(sorted[0].name().as_str(), "Node");
}

#[test]
fn independent_items_keep_declaration_order() {
    let items = vec![
        struct_item("First", vec![]),
        struct_item("Second", vec![]),
        struct_item("Third", vec![]),
    ];
    let sorted = topsort(items).expect("independent items must sort");
    let order: Vec<&str> = sorted.iter().map(|it| it.name().as_str()).collect();
    assert_eq!(order, vec!["First", "Second", "Third"]);
}

#[test]
fn unknown_names_put_no_constraint() {
    let items = vec![struct_item("Lone", vec![field("other", named("Undeclared"))])];
    let sorted = topsort(items).expect("a reference to an undeclared name is no edge");
    assert_eq!(sorted.len(), 1);
}

#[test]
fn alias_target_is_an_edge() {
    let items = vec![
        TypeItem::Alias(AliasDef {
            id: id("Coordinates"),
            target: TypeRef::Special(SpecialType::List(Box::new(named("Point")))),
            comments: vec![],
        }),
        struct_item(
            "Point",
            vec![
                field("x", TypeRef::Special(SpecialType::F64)),
                field("y", TypeRef::Special(SpecialType::F64)),
            ],
        ),
    ];
    let sorted = topsort(items).expect("alias after its target");
    assert_eq!(sorted[0].name().as_str(), "Point");
    assert_eq!(sorted[1].name().as_str(), "Coordinates");
}

#[test]
fn enum_payload_is_an_edge() {
    let items = vec![
        TypeItem::Enum(EnumDef {
            id: id("Holder"),
            variants: vec![VariantDef { id: id("Of"), payload: Some(named("Payload")) }],
            comments: vec![],
        }),
        struct_item("Payload", vec![]),
    ];
    let sorted = topsort(items).expect("payload reference must sort");
    assert_eq!(sorted[0].name().as_str(), "Payload");
    assert_eq!(sorted[1].name().as_str(), "Holder");
}

#[test]
fn cycle_error_aborts_generation_run() {
    let data = ParsedData {
        structs: vec![
            StructDef {
                id: id("A"),
                generic_types: vec![],
                fields: vec![field("b", named("B"))],
                comments: vec![],
            },
            StructDef {
                id: id("B"),
                generic_types: vec![],
                fields: vec![field("a", named("A"))],
                comments: vec![],
            },
        ],
        enums: vec![],
        aliases: vec![],
    };
    let lang = Python { type_mappings: vec![] };
    match lang.generate_types(data) {
        Err(GenerateError::UnresolvableCycle(ce)) => {
            assert!(ce.names.iter().any(|n| n == "A"));
            assert!(ce.names.iter().any(|n| n == "B"));
        }
        _ => panic!("a cycle must abort the run with UnresolvableCycle"),
    }
}
