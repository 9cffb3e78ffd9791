use hddm::header::{read_hddm_header_from_bytes, AttributeDef, ElementDef, HddmModel};
use hddm::model_match::validate_element;
use hddm::plan::build_element_plan;
use hddm::{build_model_plan, validate_models, ChildPlan, FormatError, HddmError};

fn model(text: &str) -> HddmModel {
    read_hddm_header_from_bytes(text.as_bytes()).unwrap().0
}

const BASE: &str = r#"<HDDM class="x">
  <student name="string">
    <enrolled year="int" maxOccurs="unbounded" />
  </student>
</HDDM>"#;

const EXTRA: &str = r#"<HDDM class="x">
  <student name="string">
    <advisor name="string" />
    <enrolled year="int" maxOccurs="unbounded" />
  </student>
</HDDM>"#;

#[test]
fn plan_decodes_known_children_and_skips_others() {
    let plan = build_model_plan(&model(EXTRA), &model(BASE)).unwrap();
    assert_eq!(plan.root.element_name, "HDDM");
    assert_eq!(plan.root.children.len(), 1);
    let student = match &plan.root.children[0] {
        ChildPlan::Decode { input_index: 0, generated_index: 0, plan } => plan,
        other => panic!("unexpected plan {other:?}"),
    };
    assert_eq!(student.element_name, "student");
    assert!(matches!(student.children[0], ChildPlan::Skip { input_index: 0 }));
    assert!(matches!(
        student.children[1],
        ChildPlan::Decode { input_index: 1, generated_index: 0, .. }
    ));
}

#[test]
fn plan_of_a_model_against_itself_decodes_everything() {
    let m = model(EXTRA);
    let plan = build_model_plan(&m, &m).unwrap();
    let student = match &plan.root.children[0] {
        ChildPlan::Decode { plan, .. } => plan,
        other => panic!("unexpected plan {other:?}"),
    };
    assert!(matches!(student.children[0], ChildPlan::Decode { input_index: 0, generated_index: 0, .. }));
    assert!(matches!(student.children[1], ChildPlan::Decode { input_index: 1, generated_index: 1, .. }));
}

#[test]
fn plan_requires_children_that_are_not_optional() {
    let err = build_model_plan(&model(BASE), &model(EXTRA)).unwrap_err();
    assert_eq!(
        err,
        HddmError::FormatError(FormatError::MissingRequiredChild {
            child: "advisor".to_string(),
            parent: "student".to_string()
        })
    );
    assert_eq!(
        err.message(),
        "invalid HDDM format: HDDM file is missing required child `advisor` of `student`"
    );
}

#[test]
fn plan_and_validation_report_class_mismatch() {
    let other = model(&BASE.replace("class=\"x\"", "class=\"z\""));
    let expected = HddmError::FormatError(FormatError::ClassMismatch {
        file_class: Some("z".to_string()),
        expected_class: Some("x".to_string()),
    });
    assert_eq!(build_model_plan(&other, &model(BASE)).unwrap_err(), expected);
    assert_eq!(validate_models(&other, &model(BASE)).unwrap_err(), expected);
}

#[test]
fn element_name_mismatch_is_reported() {
    let a = ElementDef { name: "a".into(), min_occurs: None, max_occurs: None, attributes: vec![], children: vec![] };
    let b = ElementDef { name: "b".into(), min_occurs: None, max_occurs: None, attributes: vec![], children: vec![] };
    let expected = HddmError::FormatError(FormatError::ElementMismatch { file: "a".into(), expected: "b".into() });
    assert_eq!(build_element_plan(&a, &b).unwrap_err(), expected);
    assert_eq!(validate_element(&a, &b).unwrap_err(), expected);
    assert_eq!(expected.message(), "invalid HDDM format: HDDM element mismatch: file has a, generated expects b");
}

#[test]
fn attribute_mismatch_is_reported_by_plan_and_validation() {
    let with = |name: &str| ElementDef {
        name: "s".into(),
        min_occurs: None,
        max_occurs: None,
        attributes: vec![AttributeDef { name: name.into(), ty: "string".into() }],
        children: vec![],
    };
    let err = build_element_plan(&with("full_name"), &with("name")).unwrap_err();
    assert_eq!(err, HddmError::FormatError(FormatError::AttributeMismatch { element: "s".into() }));
    assert_eq!(err.message(), "invalid HDDM format: HDDM attribute mismatch in element `s`");
    let err = validate_element(&with("full_name"), &with("name")).unwrap_err();
    assert_eq!(
        err.message(),
        "invalid HDDM format: HDDM attribute mismatch in element `s`: file has [AttributeDef { name: \"full_name\", ty: \"string\" }], generated code expects [AttributeDef { name: \"name\", ty: \"string\" }]"
    );
}

#[test]
fn validation_accepts_extra_file_children_and_missing_optional_ones() {
    assert!(validate_models(&model(EXTRA), &model(BASE)).is_ok());
    let without = model(r#"<HDDM class="x"><student name="string"></student></HDDM>"#);
    assert!(validate_models(&without, &model(BASE)).is_ok());
    assert!(validate_models(&model(BASE), &model(EXTRA)).is_err());
}

#[test]
fn validation_and_planning_agree() {
    let models = [model(BASE), model(EXTRA), model(r#"<HDDM class="x"><student name="string"></student></HDDM>"#)];
    for a in &models {
        for b in &models {
            assert_eq!(validate_models(a, b).is_ok(), build_model_plan(a, b).is_ok());
        }
    }
}

#[test]
fn plans_clone_entry_by_entry() {
    let plan = build_model_plan(&model(EXTRA), &model(BASE)).unwrap();
    let copy = plan.clone();
    assert_eq!(format!("{copy:?}"), format!("{plan:?}"));
    let child = plan.root.children[0].clone();
    assert_eq!(format!("{child:?}"), format!("{:?}", plan.root.children[0]));
}
