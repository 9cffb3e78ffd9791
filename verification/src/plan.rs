//! Decoding plans: how the elements that a file's model describes map onto
//! the elements of the model that a reader was built for.
use vstd::prelude::*;

use crate::error::{FormatError, HddmError, HddmResult};
use crate::header::{
    attributes_equal, attrs_view, clone_opt_string, find_child, first_named, is_optional_or_list,
    lemma_first_named, opt_view, optional_or_list, ElementDef, HddmModel,
};

verus! {

/// The plan for a whole model: the plan of its root element.
#[derive(Debug)]
pub struct ModelPlan {
    pub root: ElementPlan,
}

/// The plan for one element: for each child that the file holds, in file
/// order, whether it is decoded (and into which child of the reader's
/// model) or skipped.
#[derive(Debug)]
pub struct ElementPlan {
    pub element_name: String,
    pub children: Vec<ChildPlan>,
}

/// What becomes of one child element of the file.
#[derive(Debug)]
pub enum ChildPlan {
    Decode { input_index: usize, generated_index: usize, plan: ElementPlan },
    Skip { input_index: usize },
}

/// Whether two plans are the same: the same element name, and the same
/// entries, child by child.
pub open spec fn same_plan(p: ElementPlan, q: ElementPlan) -> bool
    decreases p,
{
    &&& p.element_name@ == q.element_name@
    &&& p.children@.len() == q.children@.len()
    &&& forall|i: int|
        0 <= i < p.children@.len() ==> match (#[trigger] p.children@[i], q.children@[i]) {
            (
                ChildPlan::Decode { input_index: a, generated_index: b, plan: x },
                ChildPlan::Decode { input_index: c, generated_index: d, plan: y },
            ) => a == c && b == d && same_plan(x, y),
            (ChildPlan::Skip { input_index: a }, ChildPlan::Skip { input_index: c }) => a == c,
            _ => false,
        }
}

/// A copy of a plan.
fn copy_plan(p: &ElementPlan) -> (q: ElementPlan)
    ensures
        same_plan(*p, q),
    decreases p,
{
    let mut children: Vec<ChildPlan> = Vec::new();
    let mut i: usize = 0;
    while i < p.children.len()
        invariant
            i <= p.children@.len(),
            children@.len() == i,
            forall|j: int|
                0 <= j < i ==> match (#[trigger] p.children@[j], children@[j]) {
                    (
                        ChildPlan::Decode { input_index: a, generated_index: b, plan: x },
                        ChildPlan::Decode { input_index: c, generated_index: d, plan: y },
                    ) => a == c && b == d && same_plan(x, y),
                    (ChildPlan::Skip { input_index: a }, ChildPlan::Skip { input_index: c }) => a
                        == c,
                    _ => false,
                },
        decreases p.children.len() - i,
    {
        let c = match &p.children[i] {
            ChildPlan::Decode { input_index, generated_index, plan } => ChildPlan::Decode {
                input_index: *input_index,
                generated_index: *generated_index,
                plan: copy_plan(plan),
            },
            ChildPlan::Skip { input_index } => ChildPlan::Skip { input_index: *input_index },
        };
        children.push(c);
        i = i + 1;
    }
    ElementPlan { element_name: p.element_name.clone(), children }
}

impl Clone for ElementPlan {
    fn clone(&self) -> (q: Self)
        ensures
            same_plan(*self, q),
    {
        copy_plan(self)
    }
}

impl Clone for ChildPlan {
    fn clone(&self) -> (c: Self)
        ensures
            match (*self, c) {
                (
                    ChildPlan::Decode { input_index: a, generated_index: b, plan: x },
                    ChildPlan::Decode { input_index: i, generated_index: j, plan: y },
                ) => a == i && b == j && same_plan(x, y),
                (ChildPlan::Skip { input_index: a }, ChildPlan::Skip { input_index: i }) => a == i,
                _ => false,
            },
    {
        match self {
            ChildPlan::Decode { input_index, generated_index, plan } => ChildPlan::Decode {
                input_index: *input_index,
                generated_index: *generated_index,
                plan: copy_plan(plan),
            },
            ChildPlan::Skip { input_index } => ChildPlan::Skip { input_index: *input_index },
        }
    }
}

impl Clone for ModelPlan {
    fn clone(&self) -> (q: Self)
        ensures
            same_plan(self.root, q.root),
    {
        ModelPlan { root: copy_plan(&self.root) }
    }
}

/// A way in which a file's model fails to fit the reader's model.
pub enum ModelMismatch {
    /// The element names differ.
    Element { file: Seq<char>, expected: Seq<char> },
    /// The attribute lists of the named element differ.
    Attribute { element: Seq<char> },
    /// The attribute lists of the named element differ, with both lists.
    AttributeLists {
        element: Seq<char>,
        file_attributes: Seq<(Seq<char>, Seq<char>)>,
        expected_attributes: Seq<(Seq<char>, Seq<char>)>,
    },
    /// The file lacks a child that the reader's model requires.
    MissingChild { child: Seq<char>, parent: Seq<char> },
}

/// Whether error `e` is the one that reports mismatch `m`.
pub open spec fn reports(e: HddmError, m: ModelMismatch) -> bool {
    match m {
        ModelMismatch::Element { file, expected } => e matches HddmError::FormatError(
            FormatError::ElementMismatch { file: f, expected: x },
        ) && f@ == file && x@ == expected,
        ModelMismatch::Attribute { element } => e matches HddmError::FormatError(
            FormatError::AttributeMismatch { element: el },
        ) && el@ == element,
        ModelMismatch::AttributeLists { element, file_attributes, expected_attributes } => e matches HddmError::FormatError(
            FormatError::AttributeListMismatch {
                element: el,
                file_attributes: f,
                expected_attributes: x,
            },
        ) && el@ == element && attrs_view(f@) == file_attributes && attrs_view(x@)
            == expected_attributes,
        ModelMismatch::MissingChild { child, parent } => e matches HddmError::FormatError(
            FormatError::MissingRequiredChild { child: c, parent: p },
        ) && c@ == child && p@ == parent,
    }
}

/// The first mismatch in planning `input` against `generated`: the names,
/// then the attributes, then the children of the file in order (each
/// planned against the first child of `generated` with its name), then the
/// children that `generated` requires and the file lacks.
pub open spec fn element_plan_error(input: ElementDef, generated: ElementDef) -> Option<
    ModelMismatch,
>
    decreases input, input.children@.len() + 1,
{
    if input.name@ != generated.name@ {
        Some(ModelMismatch::Element { file: input.name@, expected: generated.name@ })
    } else if attrs_view(input.attributes@) != attrs_view(generated.attributes@) {
        Some(ModelMismatch::Attribute { element: input.name@ })
    } else {
        match children_plan_error(input, generated, 0) {
            Some(m) => Some(m),
            None => missing_child_error(input, generated, 0),
        }
    }
}

/// The first mismatch in planning the children of `input` from index `i`.
pub open spec fn children_plan_error(input: ElementDef, generated: ElementDef, i: nat) -> Option<
    ModelMismatch,
>
    decreases input, input.children@.len() - i,
{
    if i >= input.children@.len() {
        None
    } else {
        let k = first_named(generated.children@, input.children@[i as int].name@);
        let here = if k >= 0 {
            element_plan_error(input.children@[i as int], generated.children@[k])
        } else {
            None
        };
        match here {
            Some(m) => Some(m),
            None => children_plan_error(input, generated, i + 1),
        }
    }
}

/// The first child of `generated`, from index `j`, that the file lacks and
/// that is neither optional nor a list.
pub open spec fn missing_child_error(input: ElementDef, generated: ElementDef, j: nat) -> Option<
    ModelMismatch,
>
    decreases generated.children@.len() - j,
{
    if j >= generated.children@.len() {
        None
    } else {
        let g = generated.children@[j as int];
        if first_named(input.children@, g.name@) == -1 && !optional_or_list(g) {
            Some(ModelMismatch::MissingChild { child: g.name@, parent: input.name@ })
        } else {
            missing_child_error(input, generated, j + 1)
        }
    }
}

/// Whether `p` is the plan of `input` against `generated`: it names the
/// element, and holds one entry per child of the file, in order, that
/// decodes the child into the first child of `generated` with its name, or
/// skips it where there is none.
pub open spec fn plans_element(p: ElementPlan, input: ElementDef, generated: ElementDef) -> bool
    decreases input,
{
    &&& p.element_name@ == input.name@
    &&& p.children@.len() == input.children@.len()
    &&& forall|i: int|
        0 <= i < input.children@.len() ==> {
            let k = first_named(generated.children@, input.children@[i].name@);
            if k >= 0 {
                (#[trigger] p.children@[i]) matches ChildPlan::Decode {
                    input_index,
                    generated_index,
                    plan,
                } && input_index == i && generated_index == k && plans_element(
                    plan,
                    input.children@[i],
                    generated.children@[k],
                )
            } else {
                p.children@[i] == ChildPlan::Skip { input_index: i as usize }
            }
        }
}

/// The outcome of planning a whole model: the classes must agree, then the
/// root elements are planned.
pub open spec fn model_plan_outcome(
    input: HddmModel,
    generated: HddmModel,
    r: HddmResult<ModelPlan>,
) -> bool {
    if opt_view(input.class_name) != opt_view(generated.class_name) {
        r matches Err(
            HddmError::FormatError(FormatError::ClassMismatch { file_class, expected_class }),
        ) && opt_view(file_class) == opt_view(input.class_name) && opt_view(expected_class)
            == opt_view(generated.class_name)
    } else {
        match element_plan_error(input.root, generated.root) {
            Some(m) => r matches Err(e) && reports(e, m),
            None => r matches Ok(p) && plans_element(p.root, input.root, generated.root),
        }
    }
}

/// Plans how records written under model `input` are decoded into the
/// types generated from model `generated`.
pub fn build_model_plan(input: &HddmModel, generated: &HddmModel) -> (r: HddmResult<ModelPlan>)
    ensures
        model_plan_outcome(*input, *generated, r),
{
    let same_class = match (&input.class_name, &generated.class_name) {
        (Some(a), Some(b)) => *a == *b,
        (None, None) => true,
        _ => false,
    };
    if !same_class {
        return Err(
            HddmError::FormatError(
                FormatError::ClassMismatch {
                    file_class: clone_opt_string(&input.class_name),
                    expected_class: clone_opt_string(&generated.class_name),
                },
            ),
        );
    }
    let root = build_element_plan(&input.root, &generated.root)?;
    Ok(ModelPlan { root })
}

/// Plans one element of the file's model against one of the reader's.
pub fn build_element_plan(input: &ElementDef, generated: &ElementDef) -> (r: HddmResult<
    ElementPlan,
>)
    ensures
        match element_plan_error(*input, *generated) {
            Some(m) => r matches Err(e) && reports(e, m),
            None => r matches Ok(p) && plans_element(p, *input, *generated),
        },
    decreases input,
{
    if input.name != generated.name {
        return Err(
            HddmError::FormatError(
                FormatError::ElementMismatch {
                    file: input.name.clone(),
                    expected: generated.name.clone(),
                },
            ),
        );
    }
    if !attributes_equal(&input.attributes, &generated.attributes) {
        return Err(
            HddmError::FormatError(FormatError::AttributeMismatch { element: input.name.clone() }),
        );
    }
    let mut children: Vec<ChildPlan> = Vec::new();
    let mut i: usize = 0;
    while i < input.children.len()
        invariant
            i <= input.children.len(),
            children@.len() == i,
            input.name@ == generated.name@,
            attrs_view(input.attributes@) == attrs_view(generated.attributes@),
            children_plan_error(*input, *generated, 0) == children_plan_error(
                *input,
                *generated,
                i as nat,
            ),
            forall|j: int|
                0 <= j < i ==> {
                    let k = first_named(generated.children@, input.children@[j].name@);
                    if k >= 0 {
                        (#[trigger] children@[j]) matches ChildPlan::Decode {
                            input_index,
                            generated_index,
                            plan,
                        } && input_index == j && generated_index == k && plans_element(
                            plan,
                            input.children@[j],
                            generated.children@[k],
                        )
                    } else {
                        children@[j] == ChildPlan::Skip { input_index: j as usize }
                    }
                },
        decreases input.children.len() - i,
    {
        let found = find_child(&generated.children, &input.children[i].name);
        match found {
            Some(k) => {
                proof {
                    lemma_first_named(
                        generated.children@,
                        input.children@[i as int].name@,
                        generated.children@.len() as int,
                    );
                }
                let plan = build_element_plan(&input.children[i], &generated.children[k])?;
                children.push(ChildPlan::Decode { input_index: i, generated_index: k, plan });
            },
            None => {
                children.push(ChildPlan::Skip { input_index: i });
            },
        }
        i = i + 1;
    }
    let mut j: usize = 0;
    while j < generated.children.len()
        invariant
            j <= generated.children.len(),
            input.name@ == generated.name@,
            attrs_view(input.attributes@) == attrs_view(generated.attributes@),
            children_plan_error(*input, *generated, 0) is None,
            missing_child_error(*input, *generated, 0) == missing_child_error(
                *input,
                *generated,
                j as nat,
            ),
        decreases generated.children.len() - j,
    {
        let g = &generated.children[j];
        let present = find_child(&input.children, &g.name);
        if present.is_none() && !is_optional_or_list(g) {
            return Err(
                HddmError::FormatError(
                    FormatError::MissingRequiredChild {
                        child: g.name.clone(),
                        parent: input.name.clone(),
                    },
                ),
            );
        }
        j = j + 1;
    }
    let p = ElementPlan { element_name: input.name.clone(), children };
    Ok(p)
}

/// Whether, in every element of the tree, no two children share a name.
pub open spec fn distinct_child_names(e: ElementDef) -> bool
    decreases e,
{
    &&& forall|i: int, j: int|
        0 <= i < j < e.children@.len() ==> (#[trigger] e.children@[i]).name@
            != (#[trigger] e.children@[j]).name@
    &&& forall|i: int|
        0 <= i < e.children@.len() ==> distinct_child_names(#[trigger] e.children@[i])
}

/// Among children with distinct names, a child is the first with its name.
pub proof fn lemma_first_named_distinct(cs: Seq<ElementDef>, i: int)
    requires
        0 <= i < cs.len(),
        forall|a: int, b: int|
            0 <= a < b < cs.len() ==> (#[trigger] cs[a]).name@ != (#[trigger] cs[b]).name@,
    ensures
        first_named(cs, cs[i].name@) == i,
{
    lemma_first_named(cs, cs[i].name@, cs.len() as int);
    let k = first_named(cs, cs[i].name@);
    if k == -1 {
        assert(cs[i].name@ != cs[i].name@);
    } else {
        if k < i {
            assert(cs[k].name@ != cs[i].name@);
        }
        if k > i {
            assert(cs[i].name@ != cs[i].name@);
        }
    }
}

/// An element with distinct child names plans against itself without a
/// mismatch.
pub proof fn lemma_element_plans_itself(e: ElementDef)
    requires
        distinct_child_names(e),
    ensures
        element_plan_error(e, e) is None,
    decreases e, e.children@.len() + 1,
{
    lemma_children_plan_themselves(e, 0);
    lemma_nothing_missing_from_itself(e, 0);
}

/// The children of such an element, from index `i`, plan against
/// themselves without a mismatch.
proof fn lemma_children_plan_themselves(e: ElementDef, i: nat)
    requires
        distinct_child_names(e),
    ensures
        children_plan_error(e, e, i) is None,
    decreases e, e.children@.len() - i,
{
    if i < e.children@.len() {
        lemma_first_named_distinct(e.children@, i as int);
        assert(distinct_child_names(e.children@[i as int]));
        lemma_element_plans_itself(e.children@[i as int]);
        lemma_children_plan_themselves(e, i + 1);
    }
}

/// No child of an element is missing from the element itself.
proof fn lemma_nothing_missing_from_itself(e: ElementDef, j: nat)
    requires
        distinct_child_names(e),
    ensures
        missing_child_error(e, e, j) is None,
    decreases e.children@.len() - j,
{
    if j < e.children@.len() {
        lemma_first_named_distinct(e.children@, j as int);
        lemma_nothing_missing_from_itself(e, j + 1);
    }
}

/// A model whose elements have distinct child names plans against itself:
/// the plan is found, and it decodes every child of every element into the
/// child at the same index.
pub proof fn lemma_model_plans_itself(m: HddmModel, p: ElementPlan)
    requires
        distinct_child_names(m.root),
    ensures
        element_plan_error(m.root, m.root) is None,
        plans_element(p, m.root, m.root) ==> decodes_in_place(p, m.root),
{
    lemma_element_plans_itself(m.root);
    if plans_element(p, m.root, m.root) {
        lemma_self_plan_in_place(p, m.root);
    }
}

/// Whether plan `p` for element `e` decodes every child of every element
/// into the child at the same index.
pub open spec fn decodes_in_place(p: ElementPlan, e: ElementDef) -> bool
    decreases e,
{
    forall|i: int|
        0 <= i < e.children@.len() ==> ((#[trigger] p.children@[i]) matches ChildPlan::Decode {
            input_index,
            generated_index,
            plan,
        } && input_index == i && generated_index == i && decodes_in_place(plan, e.children@[i]))
}

proof fn lemma_self_plan_in_place(p: ElementPlan, e: ElementDef)
    requires
        distinct_child_names(e),
        plans_element(p, e, e),
    ensures
        decodes_in_place(p, e),
    decreases e,
{
    assert forall|i: int| 0 <= i < e.children@.len() implies ((#[trigger] p.children@[i]) matches ChildPlan::Decode {
        input_index,
        generated_index,
        plan,
    } && input_index == i && generated_index == i && decodes_in_place(plan, e.children@[i])) by {
        lemma_first_named_distinct(e.children@, i);
        assert(distinct_child_names(e.children@[i]));
        if let ChildPlan::Decode { plan, .. } = p.children@[i] {
            lemma_self_plan_in_place(plan, e.children@[i]);
        }
    }
}

} // verus!
