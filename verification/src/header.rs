//! The HDDM model: the element tree that the XML header of a file
//! describes, with its views and comparisons.
use vstd::prelude::*;

pub use crate::header_parse::{read_hddm_header_from_bytes, read_header_streaming};

verus! {

/// An attribute of an element: its name and its type name.
#[derive(Debug, Clone, PartialEq, Eq)]
pub struct AttributeDef {
    pub name: String,
    pub ty: String,
}

/// An element of the model: its name, its occurrence bounds, its attributes
/// and its child elements.
#[derive(Debug, PartialEq, Eq)]
pub struct ElementDef {
    pub name: String,
    pub min_occurs: Option<String>,
    pub max_occurs: Option<String>,
    pub attributes: Vec<AttributeDef>,
    pub children: Vec<ElementDef>,
}

/// A model: the class and version that the root tag declares, and the
/// root element.
#[derive(Debug, PartialEq, Eq)]
pub struct HddmModel {
    pub class_name: Option<String>,
    pub version: Option<String>,
    pub root: ElementDef,
}

/// The text of an optional string.
pub open spec fn opt_view(o: Option<String>) -> Option<Seq<char>> {
    match o {
        Some(s) => Some(s@),
        None => None,
    }
}

/// The names and types of attributes, in order.
pub open spec fn attrs_view(a: Seq<AttributeDef>) -> Seq<(Seq<char>, Seq<char>)> {
    a.map_values(|x: AttributeDef| (x.name@, x.ty@))
}

/// Whether an element may be absent: its minimum is "0" or its maximum is
/// "unbounded".
pub open spec fn optional_or_list(e: ElementDef) -> bool {
    opt_view(e.min_occurs) == Some("0"@) || opt_view(e.max_occurs) == Some("unbounded"@)
}

/// Two elements are the same tree: same names, bounds, attributes and
/// children, recursively.
pub open spec fn same_element(a: ElementDef, b: ElementDef) -> bool
    decreases a,
{
    &&& a.name@ == b.name@
    &&& opt_view(a.min_occurs) == opt_view(b.min_occurs)
    &&& opt_view(a.max_occurs) == opt_view(b.max_occurs)
    &&& attrs_view(a.attributes@) == attrs_view(b.attributes@)
    &&& a.children@.len() == b.children@.len()
    &&& forall|i: int|
        0 <= i < a.children@.len() ==> same_element(#[trigger] a.children@[i], b.children@[i])
}

/// Two models are the same: same class, version and root tree.
pub open spec fn same_model(a: HddmModel, b: HddmModel) -> bool {
    &&& opt_view(a.class_name) == opt_view(b.class_name)
    &&& opt_view(a.version) == opt_view(b.version)
    &&& same_element(a.root, b.root)
}

/// A copy of an element tree.
fn clone_element(e: &ElementDef) -> (r: ElementDef)
    ensures
        same_element(*e, r),
    decreases e,
{
    let mut children: Vec<ElementDef> = Vec::new();
    let mut i: usize = 0;
    while i < e.children.len()
        invariant
            i <= e.children.len(),
            children.len() == i,
            forall|j: int| 0 <= j < i ==> same_element(e.children@[j], #[trigger] children@[j]),
        decreases e.children.len() - i,
    {
        let c = clone_element(&e.children[i]);
        children.push(c);
        i = i + 1;
    }
    let r = ElementDef {
        name: e.name.clone(),
        min_occurs: clone_opt_string(&e.min_occurs),
        max_occurs: clone_opt_string(&e.max_occurs),
        attributes: copy_attributes(&e.attributes),
        children,
    };
    r
}

/// A copy of an attribute list.
pub fn copy_attributes(a: &Vec<AttributeDef>) -> (r: Vec<AttributeDef>)
    ensures
        attrs_view(r@) == attrs_view(a@),
{
    let mut out: Vec<AttributeDef> = Vec::new();
    let mut k: usize = 0;
    while k < a.len()
        invariant
            k <= a.len(),
            out.len() == k,
            forall|j: int|
                0 <= j < k ==> (#[trigger] out@[j]).name@ == a@[j].name@ && out@[j].ty@
                    == a@[j].ty@,
        decreases a.len() - k,
    {
        out.push(AttributeDef { name: a[k].name.clone(), ty: a[k].ty.clone() });
        k = k + 1;
    }
    proof {
        assert(attrs_view(out@) =~= attrs_view(a@));
    }
    out
}

/// A copy of an optional string.
pub fn clone_opt_string(o: &Option<String>) -> (r: Option<String>)
    ensures
        opt_view(r) == opt_view(*o),
{
    match o {
        Some(s) => Some(s.clone()),
        None => None,
    }
}

impl Clone for ElementDef {
    fn clone(&self) -> (r: Self)
        ensures
            same_element(*self, r),
    {
        clone_element(self)
    }
}

impl Clone for HddmModel {
    fn clone(&self) -> (r: Self)
        ensures
            same_model(*self, r),
    {
        HddmModel {
            class_name: clone_opt_string(&self.class_name),
            version: clone_opt_string(&self.version),
            root: clone_element(&self.root),
        }
    }
}

/// Whether `s` reads `lit`.
pub fn string_is(s: &String, lit: &str) -> (b: bool)
    ensures
        b == (s@ == lit@),
{
    let l: String = lit.to_owned();
    *s == l
}

/// Whether two optional strings are equal.
pub fn opt_string_eq(a: &Option<String>, b: &Option<String>) -> (r: bool)
    ensures
        r == (opt_view(*a) == opt_view(*b)),
{
    match (a, b) {
        (Some(x), Some(y)) => *x == *y,
        (None, None) => true,
        _ => false,
    }
}

/// Whether two attribute lists are equal, name by name and type by type.
pub fn attributes_equal(a: &Vec<AttributeDef>, b: &Vec<AttributeDef>) -> (r: bool)
    ensures
        r == (attrs_view(a@) == attrs_view(b@)),
{
    if a.len() != b.len() {
        proof {
            assert(attrs_view(a@).len() != attrs_view(b@).len());
        }
        return false;
    }
    let mut i: usize = 0;
    while i < a.len()
        invariant
            a.len() == b.len(),
            i <= a.len(),
            forall|j: int| 0 <= j < i ==> attrs_view(a@)[j] == attrs_view(b@)[j],
        decreases a.len() - i,
    {
        if !(a[i].name == b[i].name && a[i].ty == b[i].ty) {
            proof {
                assert(attrs_view(a@)[i as int] != attrs_view(b@)[i as int]);
            }
            return false;
        }
        i = i + 1;
    }
    proof {
        assert(attrs_view(a@) =~= attrs_view(b@));
    }
    true
}

/// Whether an element may be absent: its minimum is "0" or its maximum is
/// "unbounded".
pub fn is_optional_or_list(elem: &ElementDef) -> (b: bool)
    ensures
        b == optional_or_list(*elem),
{
    let min_zero = match &elem.min_occurs {
        Some(m) => string_is(m, "0"),
        None => false,
    };
    let max_unbounded = match &elem.max_occurs {
        Some(m) => string_is(m, "unbounded"),
        None => false,
    };
    min_zero || max_unbounded
}

/// Whether two elements are the same tree.
pub fn elements_equal(a: &ElementDef, b: &ElementDef) -> (r: bool)
    ensures
        r == same_element(*a, *b),
    decreases a,
{
    if !(a.name == b.name && opt_string_eq(&a.min_occurs, &b.min_occurs) && opt_string_eq(
        &a.max_occurs,
        &b.max_occurs,
    ) && attributes_equal(&a.attributes, &b.attributes)) {
        return false;
    }
    if a.children.len() != b.children.len() {
        return false;
    }
    let mut i: usize = 0;
    while i < a.children.len()
        invariant
            a.children.len() == b.children.len(),
            i <= a.children.len(),
            forall|j: int| 0 <= j < i ==> same_element(a.children@[j], b.children@[j]),
        decreases a.children.len() - i,
    {
        if !elements_equal(&a.children[i], &b.children[i]) {
            return false;
        }
        i = i + 1;
    }
    true
}

/// Whether two models are the same.
pub fn models_equal(a: &HddmModel, b: &HddmModel) -> (r: bool)
    ensures
        r == same_model(*a, *b),
{
    opt_string_eq(&a.class_name, &b.class_name) && opt_string_eq(&a.version, &b.version)
        && elements_equal(&a.root, &b.root)
}

/// The index of the first of `cs[0..n]` named `name`, or -1 where none is.
pub open spec fn first_named_in(cs: Seq<ElementDef>, name: Seq<char>, n: int) -> int
    decreases n,
{
    if n <= 0 {
        -1
    } else {
        let k = first_named_in(cs, name, n - 1);
        if k >= 0 {
            k
        } else if cs[n - 1].name@ == name {
            n - 1
        } else {
            -1
        }
    }
}

/// The index of the first element of `cs` named `name`, or -1 where none is.
pub open spec fn first_named(cs: Seq<ElementDef>, name: Seq<char>) -> int {
    first_named_in(cs, name, cs.len() as int)
}

/// Once a prefix holds the name, longer prefixes find the same index.
proof fn lemma_first_named_stable(cs: Seq<ElementDef>, name: Seq<char>, n: int, m: int)
    requires
        0 <= n <= m,
        first_named_in(cs, name, n) >= 0,
    ensures
        first_named_in(cs, name, m) == first_named_in(cs, name, n),
    decreases m - n,
{
    if m > n {
        lemma_first_named_stable(cs, name, n, m - 1);
    }
}

/// What the first index of a name is: -1 exactly where no element of the
/// prefix has the name, else an index of the prefix that has it, with none
/// before it.
pub proof fn lemma_first_named(cs: Seq<ElementDef>, name: Seq<char>, n: int)
    requires
        0 <= n <= cs.len(),
    ensures
        first_named_in(cs, name, n) == -1 <==> (forall|j: int|
            0 <= j < n ==> (#[trigger] cs[j]).name@ != name),
        first_named_in(cs, name, n) >= 0 ==> ({
            let k = first_named_in(cs, name, n);
            &&& k < n
            &&& cs[k].name@ == name
            &&& forall|j: int| 0 <= j < k ==> (#[trigger] cs[j]).name@ != name
        }),
        first_named_in(cs, name, n) >= -1,
    decreases n,
{
    if n > 0 {
        lemma_first_named(cs, name, n - 1);
    }
}

/// The index of the first of `children` named `name`.
pub fn find_child(children: &Vec<ElementDef>, name: &String) -> (r: Option<usize>)
    ensures
        match r {
            Some(k) => k == first_named(children@, name@),
            None => first_named(children@, name@) == -1,
        },
{
    let mut i: usize = 0;
    while i < children.len()
        invariant
            i <= children.len(),
            first_named_in(children@, name@, i as int) == -1,
        decreases children.len() - i,
    {
        if children[i].name == *name {
            proof {
                lemma_first_named_stable(children@, name@, i + 1, children@.len() as int);
            }
            return Some(i);
        }
        i = i + 1;
    }
    None
}

/// Two attribute lists agree, as `attrs_view` compares them, exactly when
/// they have as many attributes and each has the name and the type of the
/// other's at the same place.
pub proof fn lemma_attributes_agree(a: Seq<AttributeDef>, b: Seq<AttributeDef>)
    ensures
        attrs_view(a) == attrs_view(b) <==> {
            &&& a.len() == b.len()
            &&& forall|k: int|
                0 <= k < a.len() ==> (#[trigger] a[k]).name@ == b[k].name@ && a[k].ty@ == b[k].ty@
        },
{
    if attrs_view(a) == attrs_view(b) {
        assert(attrs_view(a).len() == a.len() && attrs_view(b).len() == b.len());
        assert forall|k: int| 0 <= k < a.len() implies (#[trigger] a[k]).name@ == b[k].name@ && a[k].ty@
            == b[k].ty@ by {
            assert(attrs_view(a)[k] == attrs_view(b)[k]);
        }
    }
    if a.len() == b.len() && forall|k: int|
        0 <= k < a.len() ==> (#[trigger] a[k]).name@ == b[k].name@ && a[k].ty@ == b[k].ty@ {
        assert(attrs_view(a) =~= attrs_view(b));
    }
}

/// Two elements are the same tree exactly when they have the same name and
/// bounds, as many attributes, each with the name and the type of the
/// other's at the same place, as many children, and the same tree as each
/// child at the same place. So elements whose attribute types differ are
/// never the same (and records of such models are never decoded directly).
pub proof fn lemma_same_element_fields(a: ElementDef, b: ElementDef)
    ensures
        same_element(a, b) <==> {
            &&& a.name@ == b.name@
            &&& opt_view(a.min_occurs) == opt_view(b.min_occurs)
            &&& opt_view(a.max_occurs) == opt_view(b.max_occurs)
            &&& a.attributes@.len() == b.attributes@.len()
            &&& forall|k: int|
                0 <= k < a.attributes@.len() ==> (#[trigger] a.attributes@[k]).name@
                    == b.attributes@[k].name@ && a.attributes@[k].ty@ == b.attributes@[k].ty@
            &&& a.children@.len() == b.children@.len()
            &&& forall|i: int|
                0 <= i < a.children@.len() ==> same_element(#[trigger] a.children@[i], b.children@[i])
        },
{
    lemma_attributes_agree(a.attributes@, b.attributes@);
}

/// Two models are the same exactly when they have the same class and
/// version and their roots are the same tree; in particular their roots'
/// attributes agree in name and type.
pub proof fn lemma_same_model_fields(a: HddmModel, b: HddmModel)
    ensures
        same_model(a, b) <==> {
            &&& opt_view(a.class_name) == opt_view(b.class_name)
            &&& opt_view(a.version) == opt_view(b.version)
            &&& same_element(a.root, b.root)
        },
        same_model(a, b) ==> a.root.attributes@.len() == b.root.attributes@.len() && forall|k: int|
            0 <= k < a.root.attributes@.len() ==> (#[trigger] a.root.attributes@[k]).ty@
                == b.root.attributes@[k].ty@,
{
    lemma_same_element_fields(a.root, b.root);
}

} // verus!
