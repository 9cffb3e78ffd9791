use hddm::codegen::{field_name_candidate, raw_string_hashes, raw_string_literal_text, same_struct_shape, struct_name_string};
use hddm::header::{AttributeDef, ElementDef};

fn elem(name: &str, children: Vec<ElementDef>) -> ElementDef {
    ElementDef {
        name: name.into(),
        min_occurs: None,
        max_occurs: None,
        attributes: vec![AttributeDef { name: "n".into(), ty: "int".into() }],
        children,
    }
}

#[test]
fn struct_names_are_upper_camel_case() {
    assert_eq!(struct_name_string("HDDM"), "Hddm");
    assert_eq!(struct_name_string("physicsEvent"), "PhysicsEvent");
    assert_eq!(struct_name_string("momentum_double"), "MomentumDouble");
    assert_eq!(struct_name_string("student"), "Student");
}

#[test]
fn shapes_compare_names_attributes_and_child_bounds() {
    let a = elem("x", vec![elem("c", vec![])]);
    let b = elem("x", vec![elem("c", vec![elem("deeper", vec![])])]);
    assert!(same_struct_shape(&a, &b));
    let mut c = elem("x", vec![elem("c", vec![])]);
    c.children[0].max_occurs = Some("unbounded".into());
    assert!(!same_struct_shape(&a, &c));
    let d = elem("y", vec![elem("c", vec![])]);
    assert!(!same_struct_shape(&a, &d));
    let e = elem("x", vec![]);
    assert!(!same_struct_shape(&a, &e));
}

use hddm::codegen::{
    attribute_type, child_kind, collect_unique_structs, field_kind, is_primitive_type,
    AttributeType, ChildKind, CodegenError, FieldKind, StructTable,
};

#[test]
fn field_kinds_follow_the_outer_type() {
    assert_eq!(field_kind(Some("Option")), FieldKind::OptionalLink);
    assert_eq!(field_kind(Some("Vec")), FieldKind::List);
    assert_eq!(field_kind(Some("f64")), FieldKind::Attr);
    assert_eq!(field_kind(Some("Course")), FieldKind::RequiredLink);
    assert_eq!(field_kind(None), FieldKind::RequiredLink);
    assert!(is_primitive_type(Some("Particle")));
    assert!(!is_primitive_type(Some("usize")));
    assert!(!is_primitive_type(None));
}

#[test]
fn child_kinds_follow_the_bounds() {
    let mut c = elem("c", vec![]);
    assert_eq!(child_kind(&c), ChildKind::Required);
    c.min_occurs = Some("0".into());
    assert_eq!(child_kind(&c), ChildKind::Optional);
    c.max_occurs = Some("unbounded".into());
    assert_eq!(child_kind(&c), ChildKind::List);
}

#[test]
fn attribute_types_map_to_rust_types() {
    assert_eq!(attribute_type("int"), Some(AttributeType::I32));
    assert_eq!(attribute_type("long"), Some(AttributeType::I64));
    assert_eq!(attribute_type("float"), Some(AttributeType::F32));
    assert_eq!(attribute_type("double"), Some(AttributeType::F64));
    assert_eq!(attribute_type("boolean"), Some(AttributeType::Bool));
    assert_eq!(attribute_type("anyURI"), Some(AttributeType::Text));
    assert_eq!(attribute_type("Particle_t"), Some(AttributeType::Particle));
    assert_eq!(attribute_type("decimal"), None);
}

#[test]
fn structs_are_collected_once_in_post_order() {
    let leaf = elem("leaf", vec![]);
    let tree = elem("HDDM", vec![elem("a", vec![leaf.clone()]), elem("b", vec![leaf.clone()])]);
    let mut out = StructTable::new();
    collect_unique_structs(&tree, &mut out).unwrap();
    let names: Vec<String> = out.elements().iter().map(|e| struct_name_string(&e.name)).collect();
    assert_eq!(names, vec!["Leaf", "A", "B", "Hddm"]);
}

#[test]
fn struct_name_collision_is_reported() {
    let tree = elem("HDDM", vec![elem("a", vec![]), elem("x", vec![elem("a", vec![elem("z", vec![])])])]);
    let mut out = StructTable::new();
    let err = collect_unique_structs(&tree, &mut out).unwrap_err();
    assert_eq!(err, CodegenError::StructNameCollision("A".into()));
    assert_eq!(err.message(), "struct name collision for `A` with incompatible shapes");
}

#[test]
fn raw_literal_uses_one_more_mark_than_the_longest_run() {
    assert_eq!(raw_string_hashes("plain"), 1);
    assert_eq!(raw_string_hashes("a # b ## c"), 3);
    assert_eq!(raw_string_hashes("###"), 4);
    assert_eq!(raw_string_literal_text("<a x=\"1\"/>"), "r#\"<a x=\"1\"/>\"#");
    assert_eq!(raw_string_literal_text("#"), "r##\"#\"##");
}

#[test]
fn field_names_are_snake_case_then_underscores() {
    assert_eq!(field_name_candidate("studentName", 0), "student_name");
    assert_eq!(field_name_candidate("Type", 2), "type__");
}
