use typegen::errors::TypeFormatError;
use typegen::language::{Language, TypeMapping};
use typegen::model::{SpecialType, TypeRef};
use typegen::python::{write_comment, write_comments, Python};

fn py() -> Python {
    Python { type_mappings: vec![] }
}

fn named(name: &str) -> TypeRef {
    TypeRef::Named { id: name.to_string(), args: vec![] }
}

fn fmt(lang: &Python, ty: &TypeRef) -> String {
    lang.format_type(ty, &vec![]).expect("the Python formatter renders every shape")
}

#[test]
fn scalars_render_as_python_names() {
    let lang = py();
    assert_eq!(fmt(&lang, &TypeRef::Special(SpecialType::I8)), "int");
    assert_eq!(fmt(&lang, &TypeRef::Special(SpecialType::U64)), "int");
    assert_eq!(fmt(&lang, &TypeRef::Special(SpecialType::I54)), "int");
    assert_eq!(fmt(&lang, &TypeRef::Special(SpecialType::USize)), "int");
    assert_eq!(fmt(&lang, &TypeRef::Special(SpecialType::Bool)), "bool");
    assert_eq!(fmt(&lang, &TypeRef::Special(SpecialType::F32)), "float");
    assert_eq!(fmt(&lang, &TypeRef::Special(SpecialType::F64)), "float");
    assert_eq!(fmt(&lang, &TypeRef::Special(SpecialType::Str)), "str");
    assert_eq!(fmt(&lang, &TypeRef::Special(SpecialType::Unit)), "None");
}

#[test]
fn char_collapses_to_str() {
    assert_eq!(fmt(&py(), &TypeRef::Special(SpecialType::Chr)), "str");
}

#[test]
fn sequences_render_as_list() {
    let lang = py();
    let of_int = Box::new(TypeRef::Special(SpecialType::I32));
    assert_eq!(fmt(&lang, &TypeRef::Special(SpecialType::List(of_int))), "list[int]");
    let of_str = Box::new(TypeRef::Special(SpecialType::Str));
    assert_eq!(fmt(&lang, &TypeRef::Special(SpecialType::FixedArray(of_str, 4))), "list[str]");
    let of_bool = Box::new(TypeRef::Special(SpecialType::Bool));
    assert_eq!(fmt(&lang, &TypeRef::Special(SpecialType::Slice(of_bool))), "list[bool]");
}

#[test]
fn optional_renders_with_none_union() {
    let inner = Box::new(TypeRef::Special(SpecialType::Str));
    assert_eq!(fmt(&py(), &TypeRef::Special(SpecialType::Optional(inner))), "str|None");
}

#[test]
fn map_renders_key_and_value() {
    let k = Box::new(TypeRef::Special(SpecialType::Str));
    let v = Box::new(TypeRef::Special(SpecialType::F64));
    assert_eq!(fmt(&py(), &TypeRef::Special(SpecialType::Dict(k, v))), "dict[str, float]");
}

#[test]
fn nested_shapes_render_recursively() {
    let deep = TypeRef::Special(SpecialType::Optional(Box::new(TypeRef::Special(
        SpecialType::List(Box::new(TypeRef::Special(SpecialType::Dict(
            Box::new(TypeRef::Special(SpecialType::Str)),
            Box::new(named("Point")),
        )))),
    ))));
    assert_eq!(fmt(&py(), &deep), "list[dict[str, Point]]|None");
}

#[test]
fn named_reference_renders_its_name() {
    assert_eq!(fmt(&py(), &named("Point")), "Point");
}

#[test]
fn generic_arguments_render_in_brackets() {
    let ty = TypeRef::Named {
        id: "Pair".to_string(),
        args: vec![TypeRef::Special(SpecialType::I32), TypeRef::Special(SpecialType::Str)],
    };
    assert_eq!(fmt(&py(), &ty), "Pair[int, str]");
}

#[test]
fn mapping_table_replaces_named_reference() {
    let lang = Python {
        type_mappings: vec![TypeMapping {
            source: "Timestamp".to_string(),
            target: "int64".to_string(),
        }],
    };
    assert_eq!(fmt(&lang, &named("Timestamp")), "int64");
    assert_eq!(fmt(&lang, &named("Other")), "Other");
}

#[test]
fn formatting_twice_is_byte_identical() {
    let lang = py();
    let ty = TypeRef::Special(SpecialType::Optional(Box::new(TypeRef::Special(
        SpecialType::List(Box::new(named("Node"))),
    ))));
    let first = fmt(&lang, &ty);
    let second = fmt(&lang, &ty);
    assert_eq!(first, second);
    assert_eq!(first, "list[Node]|None");
}

#[test]
fn format_special_type_matches_format_type() {
    let lang = py();
    let special = SpecialType::List(Box::new(TypeRef::Special(SpecialType::U8)));
    let direct = lang
        .format_special_type(&special, &vec![])
        .expect("the Python formatter renders every special shape");
    assert_eq!(direct, "list[int]");
    assert_eq!(direct, fmt(&lang, &TypeRef::Special(SpecialType::List(Box::new(
        TypeRef::Special(SpecialType::U8),
    )))));
}

#[test]
fn mapped_base_keeps_generic_arguments() {
    let lang = Python {
        type_mappings: vec![TypeMapping {
            source: "Wrapper".to_string(),
            target: "Box".to_string(),
        }],
    };
    let ty = TypeRef::Named {
        id: "Wrapper".to_string(),
        args: vec![named("Inner")],
    };
    assert_eq!(fmt(&lang, &ty), "Box[Inner]");
}

#[test]
fn generic_map_key_is_refused() {
    let lang = py();
    let ty = TypeRef::Special(SpecialType::Dict(
        Box::new(named("T")),
        Box::new(TypeRef::Special(SpecialType::I32)),
    ));
    match lang.format_type(&ty, &vec!["T".to_string()]) {
        Err(TypeFormatError::UnboundGeneric { name }) => assert_eq!(name, "T"),
        _ => panic!("a generic map key has no binding and must be refused"),
    }
}

#[test]
fn concrete_map_key_of_the_same_name_renders() {
    let lang = py();
    let ty = TypeRef::Special(SpecialType::Dict(
        Box::new(named("T")),
        Box::new(TypeRef::Special(SpecialType::I32)),
    ));
    assert_eq!(fmt(&lang, &ty), "dict[T, int]");
}

#[test]
fn comment_lines_are_indented_and_marked() {
    assert_eq!(write_comment(0, "top level"), "# top level\n");
    assert_eq!(write_comment(2, "nested"), "\t\t# nested\n");
}

#[test]
fn comment_blocks_keep_order() {
    let comments = vec!["first".to_string(), "second".to_string()];
    assert_eq!(write_comments(1, &comments), "\t# first\n\t# second\n");
    let empty: Vec<String> = vec![];
    assert_eq!(write_comments(1, &empty), "");
}

#[test]
fn file_framing_is_a_single_blank_line() {
    let lang = py();
    assert_eq!(lang.begin_file(), "\n");
    assert_eq!(lang.end_file(), "");
    assert_eq!(lang.language(), "python");
}

#[test]
fn default_backend_has_no_mappings() {
    let lang = Python::default();
    assert_eq!(lang.type_map().len(), 0);
}
