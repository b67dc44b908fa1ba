use yohsin::{fbs_fields, generate_fbs_schema, map_rust_type_to_fbs, scrape_fbs_schemas};

#[test]
fn test_map_rust_type_to_fbs() {
    assert_eq!(map_rust_type_to_fbs("i32"), "int32");
    assert_eq!(map_rust_type_to_fbs("i64"), "int64");
    assert_eq!(map_rust_type_to_fbs("f32"), "float");
    assert_eq!(map_rust_type_to_fbs("f64"), "double");
    assert_eq!(map_rust_type_to_fbs("String"), "string");
    assert_eq!(map_rust_type_to_fbs("UnknownType"), "Unknown_UnknownType");
}

#[test]
fn test_generate_fbs_schema() {
    let fields = vec![
        ("id".to_string(), "int32".to_string()),
        ("name".to_string(), "string".to_string()),
        ("email".to_string(), "string".to_string()),
    ];

    let expected_schema = "table User {\n  id: int32;\n  name: string;\n  email: string;\n}\n\nroot_type User;\n";
    let schema = generate_fbs_schema("User", &fields);
    assert_eq!(schema, expected_schema);
}

#[test]
fn schema_without_fields() {
    let schema = generate_fbs_schema("Empty", &[]);
    assert_eq!(schema, "table Empty {\n}\n\nroot_type Empty;\n");
}

#[test]
fn type_names_are_matched_whole() {
    assert_eq!(map_rust_type_to_fbs("i321"), "Unknown_i321");
    assert_eq!(map_rust_type_to_fbs(""), "Unknown_");
    assert_eq!(map_rust_type_to_fbs("string"), "Unknown_string");
}

#[test]
fn field_types_are_mapped_in_order() {
    let fields = vec![
        ("a".to_string(), "i64".to_string()),
        ("b".to_string(), "Vec<u8>".to_string()),
    ];
    let mapped = fbs_fields(&fields);
    assert_eq!(
        mapped,
        vec![
            ("a".to_string(), "int64".to_string()),
            ("b".to_string(), "Unknown_Vec<u8>".to_string()),
        ]
    );
}

#[test]
fn structs_are_scraped_from_source() {
    let source = "pub struct User {\n    id: i32,\n    name: String,\n    email: String,\n}\n\nstruct Point { x: f64, y: f64 }\n";
    let schemas = scrape_fbs_schemas(source).unwrap();
    assert_eq!(schemas.len(), 2);
    assert_eq!(schemas[0].0, "User");
    assert_eq!(
        schemas[0].1,
        "table User {\n  id: int32;\n  name: string;\n  email: string;\n}\n\nroot_type User;\n"
    );
    assert_eq!(schemas[1].0, "Point");
    assert_eq!(schemas[1].1, "table Point {\n  x: double;\n  y: double;\n}\n\nroot_type Point;\n");
}

#[test]
fn source_without_structs_gives_no_schema() {
    assert_eq!(scrape_fbs_schemas("fn main() {}").unwrap(), vec![]);
}
