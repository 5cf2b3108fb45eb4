use typegen::errors::{ConstructKind, GenerateError, TypeFormatError};
use typegen::language::{struct_like_names, Language, TypeMapping};
use typegen::model::{
    AliasDef, EnumDef, FieldDef, Id, ParsedData, SpecialType, StructDef, TypeOverride, TypeRef,
    VariantDef,
};
use typegen::python::Python;

fn py() -> Python {
    Python { type_mappings: vec![] }
}

fn id(name: &str) -> Id {
    Id { original: name.to_string(), renamed: name.to_string() }
}

fn named(name: &str) -> TypeRef {
    TypeRef::Named { id: name.to_string(), args: vec![] }
}

fn field(name: &str, ty: TypeRef) -> FieldDef {
    FieldDef { id: id(name), ty, overrides: vec![], comments: vec![] }
}

#[test]
fn renamed_field_gets_mapping_annotation() {
    let f = FieldDef {
        id: Id { original: "user_id".to_string(), renamed: "userId".to_string() },
        ty: TypeRef::Special(SpecialType::Str),
        overrides: vec![],
        comments: vec![],
    };
    let out = py().write_field(&f, &vec![]).expect("field must render");
    assert_eq!(out, "\t@JsonProperty(\"userId\")\n\tuser_id: str\n");
}

#[test]
fn unrenamed_field_gets_no_annotation() {
    let f = field("count", TypeRef::Special(SpecialType::U32));
    let out = py().write_field(&f, &vec![]).expect("field must render");
    assert_eq!(out, "\tcount: int\n");
}

#[test]
fn field_override_takes_precedence() {
    let f = FieldDef {
        id: id("when"),
        ty: named("Timestamp"),
        overrides: vec![TypeOverride {
            language: "python".to_string(),
            value: "int64".to_string(),
        }],
        comments: vec![],
    };
    let out = py().write_field(&f, &vec![]).expect("field must render");
    assert_eq!(out, "\twhen: int64\n");
}

#[test]
fn override_for_another_target_is_ignored() {
    let f = FieldDef {
        id: id("when"),
        ty: named("Timestamp"),
        overrides: vec![TypeOverride { language: "go".to_string(), value: "int64".to_string() }],
        comments: vec![],
    };
    let out = py().write_field(&f, &vec![]).expect("field must render");
    assert_eq!(out, "\twhen: Timestamp\n");
}

#[test]
fn optional_field_is_not_double_wrapped() {
    let f = field(
        "nickname",
        TypeRef::Special(SpecialType::Optional(Box::new(TypeRef::Special(SpecialType::Str)))),
    );
    let out = py().write_field(&f, &vec![]).expect("field must render");
    assert_eq!(out, "\tnickname: str|None\n");
}

#[test]
fn field_comments_are_emitted_above_the_field() {
    let f = FieldDef {
        id: id("age"),
        ty: TypeRef::Special(SpecialType::U8),
        overrides: vec![],
        comments: vec!["years since birth".to_string()],
    };
    let out = py().write_field(&f, &vec![]).expect("field must render");
    assert_eq!(out, "\t# years since birth\n\tage: int\n");
}

#[test]
fn struct_renders_class_with_fields() {
    let s = StructDef {
        id: Id { original: "Person".to_string(), renamed: "PersonExport".to_string() },
        generic_types: vec![],
        fields: vec![
            field("name", TypeRef::Special(SpecialType::Str)),
            field("age", TypeRef::Special(SpecialType::U8)),
        ],
        comments: vec!["a person".to_string()],
    };
    let out = py().write_struct(&s).expect("struct must render");
    assert_eq!(out, "# a person\nclass PersonExport:\n\tname: str\n\tage: int\n\n");
}

#[test]
fn alias_renders_assignment() {
    let a = AliasDef {
        id: id("Coordinates"),
        target: TypeRef::Special(SpecialType::List(Box::new(named("Point")))),
        comments: vec![],
    };
    let out = py().write_type_alias(&a).expect("alias must render");
    assert_eq!(out, "Coordinates = list[Point]\n\n");
}

#[test]
fn enum_is_rejected_with_its_name() {
    let e = EnumDef {
        id: id("Color"),
        variants: vec![VariantDef { id: id("Red"), payload: None }],
        comments: vec![],
    };
    match py().write_enum(&e, &vec![]) {
        Err(GenerateError::UnsupportedConstruct { kind, name }) => {
            assert_eq!(kind, ConstructKind::Enum);
            assert_eq!(name, "Color");
        }
        _ => panic!("an enum must be rejected with UnsupportedConstruct"),
    }
}

#[test]
fn generation_end_to_end() {
    let data = ParsedData {
        structs: vec![StructDef {
            id: id("Point"),
            generic_types: vec![],
            fields: vec![
                field("x", TypeRef::Special(SpecialType::F64)),
                field("y", TypeRef::Special(SpecialType::F64)),
            ],
            comments: vec![],
        }],
        enums: vec![],
        aliases: vec![AliasDef {
            id: id("Coordinates"),
            target: TypeRef::Special(SpecialType::List(Box::new(named("Point")))),
            comments: vec![],
        }],
    };
    let out = py().generate_types(data).expect("acyclic enum-free input must generate");
    assert_eq!(
        out,
        "\nclass Point:\n\tx: float\n\ty: float\n\nCoordinates = list[Point]\n\n"
    );
}

#[test]
fn generation_rejects_enums_by_name() {
    let data = ParsedData {
        structs: vec![],
        enums: vec![EnumDef { id: id("Shade"), variants: vec![], comments: vec![] }],
        aliases: vec![],
    };
    match py().generate_types(data) {
        Err(GenerateError::UnsupportedConstruct { kind, name }) => {
            assert_eq!(kind, ConstructKind::Enum);
            assert_eq!(name, "Shade");
        }
        _ => panic!("an enum must abort the Python run"),
    }
}

#[test]
fn generation_applies_mapping_table() {
    let lang = Python {
        type_mappings: vec![TypeMapping {
            source: "Uuid".to_string(),
            target: "str".to_string(),
        }],
    };
    let data = ParsedData {
        structs: vec![StructDef {
            id: id("Session"),
            generic_types: vec![],
            fields: vec![field("token", named("Uuid"))],
            comments: vec![],
        }],
        enums: vec![],
        aliases: vec![],
    };
    let out = lang.generate_types(data).expect("must generate");
    assert_eq!(out, "\nclass Session:\n\ttoken: str\n\n");
}

#[test]
fn struct_like_set_follows_alias_chains_in_order() {
    let structs = vec![StructDef {
        id: id("Base"),
        generic_types: vec![],
        fields: vec![],
        comments: vec![],
    }];
    let aliases = vec![
        AliasDef { id: id("First"), target: named("Base"), comments: vec![] },
        AliasDef { id: id("Second"), target: named("First"), comments: vec![] },
        AliasDef { id: id("Plain"), target: TypeRef::Special(SpecialType::I32), comments: vec![] },
    ];
    let names = struct_like_names(&structs, &aliases);
    assert_eq!(names, vec!["Base", "First", "Second"]);
}

#[test]
fn struct_like_set_closes_chains_declared_out_of_order() {
    let structs = vec![StructDef {
        id: id("Base"),
        generic_types: vec![],
        fields: vec![],
        comments: vec![],
    }];
    let aliases = vec![
        AliasDef { id: id("Second"), target: named("First"), comments: vec![] },
        AliasDef { id: id("First"), target: named("Base"), comments: vec![] },
    ];
    let names = struct_like_names(&structs, &aliases);
    assert!(names.iter().any(|n| n == "Base"));
    assert!(names.iter().any(|n| n == "First"));
    assert!(names.iter().any(|n| n == "Second"));
    assert_eq!(names.len(), 3);
}

#[test]
fn renamed_struct_uses_export_name_and_fields_keep_original() {
    let s = StructDef {
        id: Id { original: "user".to_string(), renamed: "UserExport".to_string() },
        generic_types: vec![],
        fields: vec![FieldDef {
            id: Id { original: "user_id".to_string(), renamed: "userId".to_string() },
            ty: TypeRef::Special(SpecialType::U64),
            overrides: vec![],
            comments: vec![],
        }],
        comments: vec![],
    };
    let out = py().write_struct(&s).expect("struct must render");
    assert_eq!(out, "class UserExport:\n\t@JsonProperty(\"userId\")\n\tuser_id: int\n\n");
}

#[test]
fn first_matching_override_wins() {
    let f = FieldDef {
        id: id("when"),
        ty: named("Timestamp"),
        overrides: vec![
            TypeOverride { language: "python".to_string(), value: "int64".to_string() },
            TypeOverride { language: "python".to_string(), value: "other".to_string() },
        ],
        comments: vec![],
    };
    let out = py().write_field(&f, &vec![]).expect("field must render");
    assert_eq!(out, "\twhen: int64\n");
}

#[test]
fn struct_with_generic_map_key_is_refused() {
    let s = StructDef {
        id: id("Table"),
        generic_types: vec!["K".to_string()],
        fields: vec![field(
            "rows",
            TypeRef::Special(SpecialType::Dict(
                Box::new(named("K")),
                Box::new(TypeRef::Special(SpecialType::Str)),
            )),
        )],
        comments: vec![],
    };
    match py().write_struct(&s) {
        Err(GenerateError::TypeFormat(TypeFormatError::UnboundGeneric { name })) => {
            assert_eq!(name, "K");
        }
        _ => panic!("a generic map key must abort the struct with a typed error"),
    }
}

#[test]
fn generation_reports_unbound_generic_key() {
    let data = ParsedData {
        structs: vec![StructDef {
            id: id("Table"),
            generic_types: vec!["K".to_string()],
            fields: vec![field(
                "rows",
                TypeRef::Special(SpecialType::Dict(
                    Box::new(named("K")),
                    Box::new(TypeRef::Special(SpecialType::Str)),
                )),
            )],
            comments: vec![],
        }],
        enums: vec![],
        aliases: vec![],
    };
    match py().generate_types(data) {
        Err(GenerateError::TypeFormat(TypeFormatError::UnboundGeneric { name })) => {
            assert_eq!(name, "K");
        }
        _ => panic!("generation must surface the formatting error"),
    }
}

#[test]
fn empty_snapshot_generates_only_framing() {
    let data = ParsedData { structs: vec![], enums: vec![], aliases: vec![] };
    let out = py().generate_types(data).expect("empty input must generate");
    assert_eq!(out, "\n");
}
