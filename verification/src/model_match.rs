//! Checking that a file's model fits the model that a reader was built for.
use vstd::prelude::*;

use crate::error::{FormatError, HddmError, HddmResult};
use crate::header::{
    attributes_equal, attrs_view, clone_opt_string, copy_attributes, find_child, first_named,
    is_optional_or_list, lemma_first_named, opt_view, optional_or_list, AttributeDef, ElementDef,
    HddmModel,
};
use crate::plan::{
    children_plan_error, distinct_child_names, element_plan_error, lemma_first_named_distinct,
    missing_child_error, reports, ModelMismatch,
};

verus! {

/// The first mismatch in validating `input` against `generated`: the names,
/// then the attribute lists, then each child of `generated` in order, which
/// must be found in the file (by the first child with its name, then
/// validated) unless it is optional or a list.
pub open spec fn element_validation_error(input: ElementDef, generated: ElementDef) -> Option<
    ModelMismatch,
>
    decreases generated, generated.children@.len() + 1,
{
    if input.name@ != generated.name@ {
        Some(ModelMismatch::Element { file: input.name@, expected: generated.name@ })
    } else if attrs_view(input.attributes@) != attrs_view(generated.attributes@) {
        Some(
            ModelMismatch::AttributeLists {
                element: input.name@,
                file_attributes: attrs_view(input.attributes@),
                expected_attributes: attrs_view(generated.attributes@),
            },
        )
    } else {
        children_validation_error(input, generated, 0)
    }
}

/// The first mismatch among the children of `generated` from index `j`.
pub open spec fn children_validation_error(
    input: ElementDef,
    generated: ElementDef,
    j: nat,
) -> Option<ModelMismatch>
    decreases generated, generated.children@.len() - j,
{
    if j >= generated.children@.len() {
        None
    } else {
        let g = generated.children@[j as int];
        let k = first_named(input.children@, g.name@);
        if k >= 0 {
            match element_validation_error(input.children@[k], g) {
                Some(m) => Some(m),
                None => children_validation_error(input, generated, j + 1),
            }
        } else if !optional_or_list(g) {
            Some(ModelMismatch::MissingChild { child: g.name@, parent: input.name@ })
        } else {
            children_validation_error(input, generated, j + 1)
        }
    }
}

/// The outcome of validating a whole model: the classes must agree, then
/// the root elements are validated.
pub open spec fn model_validation_outcome(
    input: HddmModel,
    generated: HddmModel,
    r: HddmResult<()>,
) -> bool {
    if opt_view(input.class_name) != opt_view(generated.class_name) {
        r matches Err(
            HddmError::FormatError(FormatError::ClassMismatch { file_class, expected_class }),
        ) && opt_view(file_class) == opt_view(input.class_name) && opt_view(expected_class)
            == opt_view(generated.class_name)
    } else {
        match element_validation_error(input.root, generated.root) {
            Some(m) => r matches Err(e) && reports(e, m),
            None => r is Ok,
        }
    }
}

/// Checks that records written under model `input` can be decoded by the
/// types generated from model `generated`.
pub fn validate_models(input: &HddmModel, generated: &HddmModel) -> (r: HddmResult<()>)
    ensures
        model_validation_outcome(*input, *generated, r),
{
    let same_class = match (&input.class_name, &generated.class_name) {
        (Some(a), Some(b)) => *a == *b,
        (None, None) => true,
        _ => false,
    };
    if !same_class {
        return Err(
            HddmError::FormatError(
                FormatError::ClassMismatch {
                    file_class: clone_opt_string(&input.class_name),
                    expected_class: clone_opt_string(&generated.class_name),
                },
            ),
        );
    }
    validate_element(&input.root, &generated.root)
}

/// Validates one element of the file's model against one of the reader's.
pub fn validate_element(input: &ElementDef, generated: &ElementDef) -> (r: HddmResult<()>)
    ensures
        match element_validation_error(*input, *generated) {
            Some(m) => r matches Err(e) && reports(e, m),
            None => r is Ok,
        },
    decreases generated,
{
    if input.name != generated.name {
        return Err(
            HddmError::FormatError(
                FormatError::ElementMismatch {
                    file: input.name.clone(),
                    expected: generated.name.clone(),
                },
            ),
        );
    }
    validate_attributes(&input.attributes, &generated.attributes, &input.name)?;
    let mut j: usize = 0;
    while j < generated.children.len()
        invariant
            j <= generated.children.len(),
            input.name@ == generated.name@,
            attrs_view(input.attributes@) == attrs_view(generated.attributes@),
            children_validation_error(*input, *generated, 0) == children_validation_error(
                *input,
                *generated,
                j as nat,
            ),
        decreases generated.children.len() - j,
    {
        let g = &generated.children[j];
        match find_child(&input.children, &g.name) {
            Some(k) => {
                proof {
                    lemma_first_named(input.children@, g.name@, input.children@.len() as int);
                }
                validate_element(&input.children[k], g)?;
            },
            None => {
                if !is_optional_or_list(g) {
                    return Err(
                        HddmError::FormatError(
                            FormatError::MissingRequiredChild {
                                child: g.name.clone(),
                                parent: input.name.clone(),
                            },
                        ),
                    );
                }
            },
        }
        j = j + 1;
    }
    Ok(())
}

/// Checks that two attribute lists are equal, name by name and type by
/// type; the error names the element and holds both lists.
pub fn validate_attributes(
    input: &Vec<AttributeDef>,
    generated: &Vec<AttributeDef>,
    element: &String,
) -> (r: HddmResult<()>)
    ensures
        attrs_view(input@) == attrs_view(generated@) ==> r is Ok,
        attrs_view(input@) != attrs_view(generated@) ==> reports(
            r->Err_0,
            ModelMismatch::AttributeLists {
                element: element@,
                file_attributes: attrs_view(input@),
                expected_attributes: attrs_view(generated@),
            },
        ) && r is Err,
{
    if attributes_equal(input, generated) {
        Ok(())
    } else {
        Err(
            HddmError::FormatError(
                FormatError::AttributeListMismatch {
                    element: element.clone(),
                    file_attributes: copy_attributes(input),
                    expected_attributes: copy_attributes(generated),
                },
            ),
        )
    }
}

/// An element whose elements have distinct child names validates against
/// itself.
pub proof fn lemma_element_validates_itself(e: ElementDef)
    requires
        distinct_child_names(e),
    ensures
        element_validation_error(e, e) is None,
    decreases e, e.children@.len() + 1,
{
    lemma_children_validate_themselves(e, 0);
}

proof fn lemma_children_validate_themselves(e: ElementDef, j: nat)
    requires
        distinct_child_names(e),
    ensures
        children_validation_error(e, e, j) is None,
    decreases e, e.children@.len() - j,
{
    if j < e.children@.len() {
        lemma_first_named_distinct(e.children@, j as int);
        assert(distinct_child_names(e.children@[j as int]));
        lemma_element_validates_itself(e.children@[j as int]);
        lemma_children_validate_themselves(e, j + 1);
    }
}

/// A model whose elements have distinct child names validates against
/// itself.
pub proof fn lemma_model_validates_itself(m: HddmModel)
    requires
        distinct_child_names(m.root),
    ensures
        model_validation_outcome(m, m, Ok(())),
{
    lemma_element_validates_itself(m.root);
}

/// Whether child `t` of the file's element plans without a mismatch
/// against its namesake among the reader's children, if it has one.
pub open spec fn child_plans(a: ElementDef, b: ElementDef, t: int) -> bool {
    let k = first_named(b.children@, a.children@[t].name@);
    k >= 0 ==> element_plan_error(a.children@[t], b.children@[k]) is None
}

/// Whether child `t` of the reader's element, where the file lacks it, may
/// be absent.
pub open spec fn child_may_be_absent(a: ElementDef, b: ElementDef, t: int) -> bool {
    first_named(a.children@, b.children@[t].name@) == -1 ==> optional_or_list(b.children@[t])
}

/// Whether child `t` of the reader's element validates against its
/// namesake among the file's children, if it has one.
pub open spec fn child_validates(a: ElementDef, b: ElementDef, t: int) -> bool {
    let k = first_named(a.children@, b.children@[t].name@);
    k >= 0 ==> element_validation_error(a.children@[k], b.children@[t]) is None
}

proof fn lemma_children_plan_all(a: ElementDef, b: ElementDef, i: nat)
    ensures
        children_plan_error(a, b, i) is None <==> (forall|t: int|
            i <= t < a.children@.len() ==> #[trigger] child_plans(a, b, t)),
    decreases a.children@.len() - i,
{
    if i < a.children@.len() {
        lemma_children_plan_all(a, b, i + 1);
        if children_plan_error(a, b, i) is None {
            assert forall|t: int| i <= t < a.children@.len() implies #[trigger] child_plans(
                a,
                b,
                t,
            ) by {
                if t == i {
                } else {
                    assert(i + 1 <= t);
                }
            }
        } else {
            if forall|t: int| i <= t < a.children@.len() ==> #[trigger] child_plans(a, b, t) {
                assert(child_plans(a, b, i as int));
                assert forall|t: int| i + 1 <= t < a.children@.len() implies #[trigger] child_plans(
                    a,
                    b,
                    t,
                ) by {
                    assert(i <= t);
                }
            }
        }
    }
}

proof fn lemma_missing_all(a: ElementDef, b: ElementDef, j: nat)
    ensures
        missing_child_error(a, b, j) is None <==> (forall|t: int|
            j <= t < b.children@.len() ==> #[trigger] child_may_be_absent(a, b, t)),
    decreases b.children@.len() - j,
{
    if j < b.children@.len() {
        lemma_missing_all(a, b, j + 1);
        if missing_child_error(a, b, j) is None {
            assert forall|t: int| j <= t < b.children@.len() implies #[trigger] child_may_be_absent(
                a,
                b,
                t,
            ) by {
                if t == j {
                } else {
                    assert(j + 1 <= t);
                }
            }
        } else {
            if forall|t: int| j <= t < b.children@.len() ==> #[trigger] child_may_be_absent(a, b, t) {
                assert(child_may_be_absent(a, b, j as int));
                assert forall|t: int|
                    j + 1 <= t < b.children@.len() implies #[trigger] child_may_be_absent(a, b, t) by {
                    assert(j <= t);
                }
            }
        }
    }
}

/// Whether child `t` of the reader's element validates against its
/// namesake in the file, or may be absent where the file lacks it.
pub open spec fn child_checks(a: ElementDef, b: ElementDef, t: int) -> bool {
    child_validates(a, b, t) && child_may_be_absent(a, b, t)
}

proof fn lemma_children_validate_all(a: ElementDef, b: ElementDef, j: nat)
    ensures
        children_validation_error(a, b, j) is None <==> (forall|t: int|
            j <= t < b.children@.len() ==> #[trigger] child_checks(a, b, t)),
    decreases b.children@.len() - j,
{
    if j < b.children@.len() {
        lemma_children_validate_all(a, b, j + 1);
        let g = b.children@[j as int];
        lemma_first_named(a.children@, g.name@, a.children@.len() as int);
        if children_validation_error(a, b, j) is None {
            assert(child_checks(a, b, j as int));
            assert(children_validation_error(a, b, j + 1) is None);
            assert forall|t: int| j <= t < b.children@.len() implies #[trigger] child_checks(
                a,
                b,
                t,
            ) by {
                if t == j {
                } else {
                    assert(j + 1 <= t);
                }
            }
        } else {
            if forall|t: int| j <= t < b.children@.len() ==> #[trigger] child_checks(a, b, t) {
                assert(child_checks(a, b, j as int));
                assert forall|t: int| j + 1 <= t < b.children@.len() implies #[trigger] child_checks(
                    a,
                    b,
                    t,
                ) by {
                    assert(j <= t);
                }
            }
        }
    }
}

/// With distinct child names throughout both trees, validating the file's
/// element against the reader's succeeds exactly where planning it does.
pub proof fn lemma_validation_agrees_with_plan(a: ElementDef, b: ElementDef)
    requires
        distinct_child_names(a),
        distinct_child_names(b),
    ensures
        (element_validation_error(a, b) is None) <==> (element_plan_error(a, b) is None),
    decreases a,
{
    if a.name@ == b.name@ && attrs_view(a.attributes@) == attrs_view(b.attributes@) {
        lemma_children_plan_all(a, b, 0);
        lemma_missing_all(a, b, 0);
        lemma_children_validate_all(a, b, 0);
        let plans = forall|t: int| 0 <= t < a.children@.len() ==> #[trigger] child_plans(a, b, t);
        let validates = forall|t: int|
            0 <= t < b.children@.len() ==> #[trigger] child_checks(a, b, t);
        let missing = forall|t: int|
            0 <= t < b.children@.len() ==> #[trigger] child_may_be_absent(a, b, t);
        if plans && missing {
            assert forall|t: int| 0 <= t < b.children@.len() implies #[trigger] child_checks(
                a,
                b,
                t,
            ) by {
                assert(child_may_be_absent(a, b, t));
                let k = first_named(a.children@, b.children@[t].name@);
                if k >= 0 {
                    lemma_first_named(a.children@, b.children@[t].name@, a.children@.len() as int);
                    lemma_first_named_distinct(b.children@, t);
                    assert(child_plans(a, b, k));
                    assert(distinct_child_names(a.children@[k]));
                    assert(distinct_child_names(b.children@[t]));
                    lemma_validation_agrees_with_plan(a.children@[k], b.children@[t]);
                }
            }
        }
        if validates {
            assert forall|t: int| 0 <= t < b.children@.len() implies #[trigger] child_may_be_absent(
                a,
                b,
                t,
            ) by {
                assert(child_checks(a, b, t));
            }
            assert forall|t: int| 0 <= t < a.children@.len() implies #[trigger] child_plans(
                a,
                b,
                t,
            ) by {
                let k = first_named(b.children@, a.children@[t].name@);
                if k >= 0 {
                    lemma_first_named(b.children@, a.children@[t].name@, b.children@.len() as int);
                    lemma_first_named_distinct(a.children@, t);
                    assert(child_checks(a, b, k));
                    assert(distinct_child_names(a.children@[t]));
                    assert(distinct_child_names(b.children@[k]));
                    lemma_validation_agrees_with_plan(a.children@[t], b.children@[k]);
                }
            }
        }
    }
}

/// With distinct child names throughout both models, `validate_models`
/// succeeds exactly where `build_model_plan` does.
pub proof fn lemma_models_validate_iff_plan(input: HddmModel, generated: HddmModel)
    requires
        distinct_child_names(input.root),
        distinct_child_names(generated.root),
    ensures
        model_validation_outcome(input, generated, Ok(())) <==> (opt_view(input.class_name)
            == opt_view(generated.class_name) && element_plan_error(input.root, generated.root)
            is None),
{
    lemma_validation_agrees_with_plan(input.root, generated.root);
}

} // verus!
