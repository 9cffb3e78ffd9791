//! The naming and shape rules that generating Rust types from a model
//! follows.
use vstd::prelude::*;

use heck::{ToSnakeCase, ToUpperCamelCase};
use indexmap::IndexMap;

use vstd::utf8::encode_utf8;

use crate::header::{
    attrs_view, attributes_equal, lemma_attributes_agree, lemma_same_element_fields, opt_string_eq, opt_view,
    optional_or_list, same_element, ElementDef,
};

verus! {

#[verifier::external_type_specification]
#[verifier::external_body]
#[verifier::reject_recursive_types(K)]
#[verifier::reject_recursive_types(V)]
#[verifier::reject_recursive_types(S)]
pub struct ExIndexMap<K, V, S>(IndexMap<K, V, S>);

/// The text that heck's `to_upper_camel_case` makes of `s`: the words of
/// `s`, each capitalized, joined without separators.
pub uninterp spec fn upper_camel_case(s: Seq<char>) -> Seq<char>;

/// `heck::ToUpperCamelCase::to_upper_camel_case`. Claimed: the result is
/// the named text for `s`.
#[verifier::external_body]
fn heck_upper_camel_case(s: &str) -> (r: String)
    ensures
        r@ == upper_camel_case(s@),
{
    s.to_upper_camel_case()
}

/// The text that heck's `to_snake_case` makes of `s`: the words of `s`, in
/// lower case, joined by underscores.
pub uninterp spec fn snake_case(s: Seq<char>) -> Seq<char>;

/// `heck::ToSnakeCase::to_snake_case`. Claimed: the result is the named
/// text for `s`.
#[verifier::external_body]
fn heck_snake_case(s: &str) -> (r: String)
    ensures
        r@ == snake_case(s@),
{
    s.to_snake_case()
}

/// `n` underscores.
pub open spec fn underscores(n: nat) -> Seq<char> {
    Seq::new(n, |_i: int| '_')
}

/// A candidate name for the field of an element or attribute named
/// `name`: the name in snake case, then `extra` underscores (added where a
/// name with fewer is not an identifier).
pub fn field_name_candidate(name: &str, extra: usize) -> (r: String)
    ensures
        r@ == snake_case(name@) + underscores(extra as nat),
{
    let mut r = heck_snake_case(name);
    let ghost base = r@;
    let mut k: usize = 0;
    while k < extra
        invariant
            k <= extra,
            r@ == base + underscores(k as nat),
        decreases extra - k,
    {
        r.append("_");
        k = k + 1;
        proof {
            reveal_strlit("_");
            assert(r@ =~= base + underscores(k as nat));
        }
    }
    r
}

/// The name of the struct generated for an element named `name`: `Hddm`
/// for the root `HDDM`, else the name in upper camel case.
pub open spec fn struct_name(name: Seq<char>) -> Seq<char> {
    if name == "HDDM"@ {
        "Hddm"@
    } else {
        upper_camel_case(name)
    }
}

/// The name of the struct generated for an element named `name`.
pub fn struct_name_string(name: &str) -> (r: String)
    ensures
        r@ == struct_name(name@),
{
    let n: String = name.to_owned();
    if crate::header::string_is(&n, "HDDM") {
        "Hddm".to_owned()
    } else {
        heck_upper_camel_case(name)
    }
}

/// Whether two elements generate the same struct: the same name and
/// attributes, and children with the same names and bounds, in order.
pub open spec fn same_shape(a: ElementDef, b: ElementDef) -> bool {
    &&& a.name@ == b.name@
    &&& attrs_view(a.attributes@) == attrs_view(b.attributes@)
    &&& a.children@.len() == b.children@.len()
    &&& forall|i: int|
        0 <= i < a.children@.len() ==> {
            &&& (#[trigger] a.children@[i]).name@ == b.children@[i].name@
            &&& opt_view(a.children@[i].min_occurs) == opt_view(b.children@[i].min_occurs)
            &&& opt_view(a.children@[i].max_occurs) == opt_view(b.children@[i].max_occurs)
        }
}

/// Whether two elements generate the same struct.
pub fn same_struct_shape(a: &ElementDef, b: &ElementDef) -> (r: bool)
    ensures
        r == same_shape(*a, *b),
{
    if !(a.name == b.name && attributes_equal(&a.attributes, &b.attributes)) {
        return false;
    }
    if a.children.len() != b.children.len() {
        return false;
    }
    let mut i: usize = 0;
    while i < a.children.len()
        invariant
            a.children.len() == b.children.len(),
            i <= a.children.len(),
            forall|j: int|
                0 <= j < i ==> {
                    &&& (#[trigger] a.children@[j]).name@ == b.children@[j].name@
                    &&& opt_view(a.children@[j].min_occurs) == opt_view(
                        b.children@[j].min_occurs,
                    )
                    &&& opt_view(a.children@[j].max_occurs) == opt_view(
                        b.children@[j].max_occurs,
                    )
                },
        decreases a.children.len() - i,
    {
        let ac = &a.children[i];
        let bc = &b.children[i];
        if !(ac.name == bc.name && opt_string_eq(&ac.min_occurs, &bc.min_occurs) && opt_string_eq(
            &ac.max_occurs,
            &bc.max_occurs,
        )) {
            return false;
        }
        i = i + 1;
    }
    true
}

/// How a child element is held by the struct of its parent.
#[derive(Debug, Clone, Copy, PartialEq, Eq, Structural)]
pub enum ChildKind {
    /// `Vec<T>`: the child may repeat without bound.
    List,
    /// `Option<T>`: the child may be absent.
    Optional,
    /// `T`: the child is there exactly once.
    Required,
}

/// How a child is held: a list where its maximum is `unbounded`, else an
/// option where its minimum is `0`, else the child itself.
pub open spec fn kind_of(child: ElementDef) -> ChildKind {
    if opt_view(child.max_occurs) == Some("unbounded"@) {
        ChildKind::List
    } else if opt_view(child.min_occurs) == Some("0"@) {
        ChildKind::Optional
    } else {
        ChildKind::Required
    }
}

/// How a child element is held by the struct of its parent.
pub fn child_kind(child: &ElementDef) -> (k: ChildKind)
    ensures
        k == kind_of(*child),
{
    let unbounded = match &child.max_occurs {
        Some(m) => crate::header::string_is(m, "unbounded"),
        None => false,
    };
    if unbounded {
        return ChildKind::List;
    }
    let optional = match &child.min_occurs {
        Some(m) => crate::header::string_is(m, "0"),
        None => false,
    };
    if optional {
        ChildKind::Optional
    } else {
        ChildKind::Required
    }
}

/// The Rust type that holds an attribute of an HDDM type.
#[derive(Debug, Clone, Copy, PartialEq, Eq, Structural)]
pub enum AttributeType {
    I32,
    I64,
    F32,
    F64,
    Bool,
    Text,
    Particle,
}

/// The Rust type of the HDDM attribute type `ty`, if it has one: `int`,
/// `long`, `float`, `double`, `boolean`, `string` or `anyURI`, and
/// `Particle_t`.
pub open spec fn type_of(ty: Seq<char>) -> Option<AttributeType> {
    if ty == "int"@ {
        Some(AttributeType::I32)
    } else if ty == "long"@ {
        Some(AttributeType::I64)
    } else if ty == "float"@ {
        Some(AttributeType::F32)
    } else if ty == "double"@ {
        Some(AttributeType::F64)
    } else if ty == "boolean"@ {
        Some(AttributeType::Bool)
    } else if ty == "string"@ || ty == "anyURI"@ {
        Some(AttributeType::Text)
    } else if ty == "Particle_t"@ {
        Some(AttributeType::Particle)
    } else {
        None
    }
}

/// The Rust type of the HDDM attribute type `ty`, if it has one.
pub fn attribute_type(ty: &str) -> (r: Option<AttributeType>)
    ensures
        r == type_of(ty@),
{
    let t: String = ty.to_owned();
    if crate::header::string_is(&t, "int") {
        Some(AttributeType::I32)
    } else if crate::header::string_is(&t, "long") {
        Some(AttributeType::I64)
    } else if crate::header::string_is(&t, "float") {
        Some(AttributeType::F32)
    } else if crate::header::string_is(&t, "double") {
        Some(AttributeType::F64)
    } else if crate::header::string_is(&t, "boolean") {
        Some(AttributeType::Bool)
    } else if crate::header::string_is(&t, "string") || crate::header::string_is(&t, "anyURI") {
        Some(AttributeType::Text)
    } else if crate::header::string_is(&t, "Particle_t") {
        Some(AttributeType::Particle)
    } else {
        None
    }
}

/// How a field of a record type is read and written, by its type: an
/// attribute (a primitive), an optional link (`Option`), a list (`Vec`), or
/// a required link (any other type).
#[derive(Debug, Clone, Copy, PartialEq, Eq, Structural)]
pub enum FieldKind {
    Attr,
    OptionalLink,
    RequiredLink,
    List,
}

/// The names of the types that an attribute holds.
pub open spec fn primitive_type_name(name: Seq<char>) -> bool {
    name == "i32"@ || name == "u32"@ || name == "i64"@ || name == "u64"@ || name == "f32"@ || name
        == "f64"@ || name == "bool"@ || name == "String"@ || name == "Particle"@
}

/// Whether a type whose last path segment is `name` is held by an
/// attribute.
pub fn is_primitive_type(name: Option<&str>) -> (b: bool)
    ensures
        b == (name matches Some(n) && primitive_type_name(n@)),
{
    match name {
        None => false,
        Some(n) => {
            let t: String = n.to_owned();
            crate::header::string_is(&t, "i32") || crate::header::string_is(&t, "u32")
                || crate::header::string_is(&t, "i64") || crate::header::string_is(&t, "u64")
                || crate::header::string_is(&t, "f32") || crate::header::string_is(&t, "f64")
                || crate::header::string_is(&t, "bool") || crate::header::string_is(&t, "String")
                || crate::header::string_is(&t, "Particle")
        },
    }
}

/// The kind of a field whose type's last path segment is `outer` (`None`
/// for a type that is not a path).
pub open spec fn kind_of_field(outer: Option<Seq<char>>) -> FieldKind {
    if outer == Some("Option"@) {
        FieldKind::OptionalLink
    } else if outer == Some("Vec"@) {
        FieldKind::List
    } else if outer matches Some(n) && primitive_type_name(n) {
        FieldKind::Attr
    } else {
        FieldKind::RequiredLink
    }
}

/// The kind of a field whose type's last path segment is `outer`.
pub fn field_kind(outer: Option<&str>) -> (k: FieldKind)
    ensures
        k == kind_of_field(
            match outer {
                Some(n) => Some(n@),
                None => None,
            },
        ),
{
    if let Some(n) = outer {
        let t: String = n.to_owned();
        if crate::header::string_is(&t, "Option") {
            return FieldKind::OptionalLink;
        }
        if crate::header::string_is(&t, "Vec") {
            return FieldKind::List;
        }
    }
    if is_primitive_type(outer) {
        FieldKind::Attr
    } else {
        FieldKind::RequiredLink
    }
}

/// Why generating types from a model failed.
#[derive(Debug, Clone, PartialEq, Eq)]
pub enum CodegenError {
    /// Two elements with different shapes would generate structs of this
    /// name.
    StructNameCollision(String),
}

impl CodegenError {
    /// The text that describes this error.
    pub fn message(&self) -> (s: String)
        ensures
            match *self {
                CodegenError::StructNameCollision(n) => s@ == "struct name collision for `"@
                    + n@ + "` with incompatible shapes"@,
            },
    {
        let mut s = String::new();
        match self {
            CodegenError::StructNameCollision(n) => {
                s.append("struct name collision for `");
                s.append(n.as_str());
                s.append("` with incompatible shapes");
            },
        }
        s
    }
}

/// The elements of a tree in post-order: the children, in order and each
/// in post-order, then the element itself.
pub open spec fn postorder(e: ElementDef) -> Seq<ElementDef>
    decreases e, e.children@.len() + 1,
{
    children_postorder(e, e.children@.len()).push(e)
}

/// The post-orders of the first `n` children of `e`, one after the other.
pub open spec fn children_postorder(e: ElementDef, n: nat) -> Seq<ElementDef>
    decreases e, n,
{
    if n == 0 || n > e.children@.len() {
        Seq::empty()
    } else {
        children_postorder(e, (n - 1) as nat) + postorder(e.children@[n - 1])
    }
}

/// The post-orders of the first `i` children start those of the first `j`.
proof fn lemma_children_postorder_prefix(e: ElementDef, i: nat, j: nat)
    requires
        i <= j <= e.children@.len(),
    ensures
        children_postorder(e, i).len() <= children_postorder(e, j).len(),
        children_postorder(e, j).take(children_postorder(e, i).len() as int) == children_postorder(
            e,
            i,
        ),
    decreases j,
{
    if i < j {
        lemma_children_postorder_prefix(e, i, (j - 1) as nat);
        assert(children_postorder(e, j).take(children_postorder(e, i).len() as int)
            =~= children_postorder(e, (j - 1) as nat).take(children_postorder(e, i).len() as int));
    } else {
        assert(children_postorder(e, j).take(children_postorder(e, i).len() as int)
            =~= children_postorder(e, i));
    }
}

/// The index of the first entry of `acc` named `name`, or -1.
pub open spec fn entry_named(acc: Seq<(Seq<char>, ElementDef)>, name: Seq<char>, n: int) -> int
    decreases n,
{
    if n <= 0 {
        -1
    } else {
        let k = entry_named(acc, name, n - 1);
        if k >= 0 {
            k
        } else if acc[n - 1].0 == name {
            n - 1
        } else {
            -1
        }
    }
}

/// Collecting the structs of `items` after the entries `acc`: an item
/// whose struct name an entry has adds nothing where the shapes agree and
/// fails with the name where they do not; any other item is appended with
/// its struct name.
pub open spec fn collect_from(acc: Seq<(Seq<char>, ElementDef)>, items: Seq<ElementDef>) -> Result<
    Seq<(Seq<char>, ElementDef)>,
    Seq<char>,
>
    decreases items.len(),
{
    if items.len() == 0 {
        Ok(acc)
    } else {
        let e = items[0];
        let name = struct_name(e.name@);
        let k = entry_named(acc, name, acc.len() as int);
        if k >= 0 {
            if same_shape(acc[k].1, e) {
                collect_from(acc, items.drop_first())
            } else {
                Err(name)
            }
        } else {
            collect_from(acc.push((name, e)), items.drop_first())
        }
    }
}

/// Collecting `a + b` is collecting `a`, then `b` after what it gave.
pub proof fn lemma_collect_concat(
    acc: Seq<(Seq<char>, ElementDef)>,
    a: Seq<ElementDef>,
    b: Seq<ElementDef>,
)
    ensures
        collect_from(acc, a + b) == match collect_from(acc, a) {
            Ok(mid) => collect_from(mid, b),
            Err(n) => Err(n),
        },
    decreases a.len(),
{
    if a.len() > 0 {
        assert((a + b).drop_first() =~= a.drop_first() + b);
        assert((a + b)[0] == a[0]);
        let e = a[0];
        let name = struct_name(e.name@);
        let k = entry_named(acc, name, acc.len() as int);
        if k >= 0 {
            lemma_collect_concat(acc, a.drop_first(), b);
        } else {
            lemma_collect_concat(acc.push((name, e)), a.drop_first(), b);
        }
    } else {
        assert(a + b =~= b);
    }
}

proof fn lemma_entry_named_bounds(acc: Seq<(Seq<char>, ElementDef)>, name: Seq<char>, n: int)
    requires
        0 <= n,
    ensures
        -1 <= entry_named(acc, name, n) < n,
    decreases n,
{
    if n > 0 {
        lemma_entry_named_bounds(acc, name, n - 1);
    }
}

/// The entries of a map from struct names to the places of their elements,
/// in the map's order.
pub uninterp spec fn name_map_entries(m: IndexMap<String, usize>) -> Seq<(Seq<char>, usize)>;

/// The index of the first of `e[0..n]` whose key is `key`, or -1.
pub open spec fn key_index(e: Seq<(Seq<char>, usize)>, key: Seq<char>, n: int) -> int
    decreases n,
{
    if n <= 0 {
        -1
    } else {
        let k = key_index(e, key, n - 1);
        if k >= 0 {
            k
        } else if e[n - 1].0 == key {
            n - 1
        } else {
            -1
        }
    }
}

/// `IndexMap::new`: a map with no entries.
#[verifier::external_body]
fn name_map_new() -> (m: IndexMap<String, usize>)
    ensures
        name_map_entries(m) == Seq::<(Seq<char>, usize)>::empty(),
{
    IndexMap::new()
}

/// `IndexMap::get`: the value of the entry whose key is `key`, if there is
/// one. Claimed: the value of the first entry with that key (an index map
/// holds each key once).
#[verifier::external_body]
fn name_map_get(m: &IndexMap<String, usize>, key: &String) -> (r: Option<usize>)
    ensures
        ({
            let e = name_map_entries(*m);
            let k = key_index(e, key@, e.len() as int);
            match r {
                Some(v) => 0 <= k < e.len() && e[k].1 == v,
                None => k == -1,
            }
        }),
{
    m.get(key).copied()
}

/// `IndexMap::insert`. Claimed, as its documentation has it: a key that is
/// not in the map is added last with its value and `None` is returned; a
/// key that is in the map keeps its place, takes the new value, and its old
/// value is returned.
#[verifier::external_body]
fn name_map_insert(m: &mut IndexMap<String, usize>, key: String, value: usize) -> (r: Option<
    usize,
>)
    ensures
        ({
            let e = name_map_entries(*old(m));
            let k = key_index(e, key@, e.len() as int);
            if k == -1 {
                name_map_entries(*final(m)) == e.push((key@, value)) && r is None
            } else {
                name_map_entries(*final(m)) == e.update(k, (key@, value)) && r == Some(e[k].1)
            }
        }),
{
    m.insert(key, value)
}

/// The structs collected from a model: an index map from each struct name
/// to the place of its element, and the elements in that order.
pub struct StructTable<'a> {
    names: IndexMap<String, usize>,
    elements: Vec<&'a ElementDef>,
}

impl<'a> StructTable<'a> {
    /// The map holds one entry per element, each naming its own place.
    pub closed spec fn wf(&self) -> bool {
        let e = name_map_entries(self.names);
        &&& e.len() == self.elements@.len()
        &&& forall|i: int| 0 <= i < e.len() ==> (#[trigger] e[i]).1 == i
    }

    /// The struct names with their elements, in order.
    pub closed spec fn entries(&self) -> Seq<(Seq<char>, ElementDef)> {
        Seq::new(
            self.elements@.len(),
            |i: int| (name_map_entries(self.names)[i].0, *self.elements@[i]),
        )
    }

    /// A table with no structs.
    pub fn new() -> (t: Self)
        ensures
            t.wf(),
            t.entries() == Seq::<(Seq<char>, ElementDef)>::empty(),
    {
        let t = StructTable { names: name_map_new(), elements: Vec::new() };
        proof {
            assert(t.entries() =~= Seq::<(Seq<char>, ElementDef)>::empty());
        }
        t
    }

    /// The elements of the structs, in order.
    pub fn elements(&self) -> (v: &Vec<&'a ElementDef>)
        ensures
            v@.len() == self.entries().len(),
            forall|i: int| 0 <= i < v@.len() ==> *v@[i] == (#[trigger] self.entries()[i]).1,
    {
        &self.elements
    }
}

proof fn lemma_key_index_entries(t: StructTable, key: Seq<char>, n: int)
    requires
        t.wf(),
        0 <= n <= t.entries().len(),
    ensures
        key_index(name_map_entries(t.names), key, n) == entry_named(t.entries(), key, n),
    decreases n,
{
    if n > 0 {
        lemma_key_index_entries(t, key, n - 1);
    }
}

proof fn lemma_key_index_bounds(e: Seq<(Seq<char>, usize)>, key: Seq<char>, n: int)
    requires
        0 <= n,
    ensures
        -1 <= key_index(e, key, n) < n,
    decreases n,
{
    if n > 0 {
        lemma_key_index_bounds(e, key, n - 1);
    }
}

/// Collects, after the entries of `out`, the structs that the tree under
/// `elem` generates, each once with its name, in post-order of first
/// appearance; two elements with one struct name must have the same shape.
pub fn collect_unique_structs<'a>(elem: &'a ElementDef, out: &mut StructTable<'a>) -> (r: Result<
    (),
    CodegenError,
>)
    requires
        old(out).wf(),
    ensures
        final(out).wf(),
        match collect_from(old(out).entries(), postorder(*elem)) {
            Ok(acc) => r is Ok && final(out).entries() == acc,
            Err(n) => r matches Err(CodegenError::StructNameCollision(s)) && s@ == n,
        },
    decreases elem,
{
    let ghost start = out.entries();
    let mut i: usize = 0;
    while i < elem.children.len()
        invariant
            i <= elem.children@.len(),
            out.wf(),
            start == old(out).entries(),
            collect_from(start, children_postorder(*elem, i as nat)) == Ok::<
                Seq<(Seq<char>, ElementDef)>,
                Seq<char>,
            >(out.entries()),
        decreases elem.children.len() - i,
    {
        let ghost before = out.entries();
        proof {
            lemma_collect_concat(
                start,
                children_postorder(*elem, i as nat),
                postorder(elem.children@[i as int]),
            );
            assert(children_postorder(*elem, (i + 1) as nat) == children_postorder(
                *elem,
                i as nat,
            ) + postorder(elem.children@[i as int]));
        }
        let r = collect_unique_structs(&elem.children[i], out);
        if r.is_err() {
            proof {
                let done = children_postorder(*elem, (i + 1) as nat);
                lemma_children_postorder_prefix(*elem, (i + 1) as nat, elem.children@.len());
                let rest = postorder(*elem).skip(done.len() as int);
                assert(postorder(*elem).take(done.len() as int) =~= done);
                assert(postorder(*elem) =~= done + rest);
                lemma_collect_concat(start, done, rest);
            }
            return r;
        }
        i = i + 1;
    }
    let name = struct_name_string(elem.name.as_str());
    proof {
        assert(children_postorder(*elem, elem.children@.len()) + seq![*elem] =~= postorder(*elem));
        lemma_collect_concat(start, children_postorder(*elem, elem.children@.len()), seq![*elem]);
        assert(seq![*elem].drop_first() =~= Seq::<ElementDef>::empty());
        reveal_with_fuel(collect_from, 2);
        lemma_entry_named_bounds(out.entries(), name@, out.entries().len() as int);
        lemma_key_index_entries(*out, name@, out.entries().len() as int);
    }
    match name_map_get(&out.names, &name) {
        Some(k) => {
            if !same_struct_shape(out.elements[k], elem) {
                return Err(CodegenError::StructNameCollision(name));
            }
        },
        None => {
            let ghost before = *out;
            let place = out.elements.len();
            let ghost key = name@;
            let _ = name_map_insert(&mut out.names, name, place);
            out.elements.push(elem);
            proof {
                let e = name_map_entries(out.names);
                assert(e == name_map_entries(before.names).push((key, place)));
                assert forall|i: int| 0 <= i < e.len() implies (#[trigger] e[i]).1 == i by {
                    if i < e.len() - 1 {
                        assert(e[i] == name_map_entries(before.names)[i]);
                    }
                }
                assert(out.entries() =~= before.entries().push((key, *elem)));
            }
        },
    }
    Ok(())
}

/// Whether the bytes of `b` from index `i` on are `n` times `#`.
pub open spec fn hash_run_at(b: Seq<u8>, i: int, n: nat) -> bool {
    &&& 0 <= i
    &&& i + n <= b.len()
    &&& forall|j: int| i <= j < i + n ==> b[j] == 35u8
}

/// Whether `b` holds `n` times `#` in a row.
pub open spec fn has_hash_run(b: Seq<u8>, n: nat) -> bool {
    exists|i: int| hash_run_at(b, i, n)
}

/// Whether the bytes of `b` from index `j` up to `end` are all `#`.
spec fn run_to(b: Seq<u8>, j: int, end: int) -> bool {
    j <= end && hash_run_at(b, j, (end - j) as nat)
}

/// `n` times `#`.
pub open spec fn hash_chars(n: nat) -> Seq<char> {
    Seq::new(n, |_i: int| '#')
}

/// Whether `h` is the fewest `#` marks, at least one, whose run the bytes
/// `b` do not hold.
pub open spec fn fewest_hashes(b: Seq<u8>, h: nat) -> bool {
    &&& h >= 1
    &&& !has_hash_run(b, h)
    &&& forall|k: nat| 1 <= k < h ==> has_hash_run(b, k)
}

/// A raw string literal of `s` delimited by `h` marks: `r`, the marks, a
/// quote, `s`, a quote and the marks again.
pub open spec fn raw_literal(s: Seq<char>, h: nat) -> Seq<char> {
    seq!['r'] + hash_chars(h) + seq!['"'] + s + seq!['"'] + hash_chars(h)
}

/// The raw string literal that holds `s` as it is, delimited by as few `#`
/// marks as `s` allows.
pub fn raw_string_literal_text(s: &str) -> (r: String)
    requires
        encode_utf8(s@).len() < usize::MAX,
    ensures
        exists|h: nat| fewest_hashes(encode_utf8(s@), h) && r@ == raw_literal(s@, h),
{
    let h = raw_string_hashes(s);
    let mut hashes = String::new();
    let mut k: usize = 0;
    while k < h
        invariant
            k <= h,
            hashes@ == hash_chars(k as nat),
        decreases h - k,
    {
        hashes.append("#");
        k = k + 1;
        proof {
            reveal_strlit("#");
            assert(hashes@ =~= hash_chars(k as nat));
        }
    }
    let mut r = String::new();
    r.append("r");
    r.append(hashes.as_str());
    r.append("\"");
    r.append(s);
    r.append("\"");
    r.append(hashes.as_str());
    proof {
        reveal_strlit("r");
        reveal_strlit("\"");
        assert(r@ =~= raw_literal(s@, h as nat));
        assert(fewest_hashes(encode_utf8(s@), h as nat));
    }
    r
}

/// The number of `#` marks that delimit a raw string literal of `s`: the
/// fewest, at least one, whose run `s` does not hold.
pub fn raw_string_hashes(s: &str) -> (h: usize)
    requires
        encode_utf8(s@).len() < usize::MAX,
    ensures
        fewest_hashes(encode_utf8(s@), h as nat),
{
    let b = s.as_bytes();
    let ghost bs = encode_utf8(s@);
    let mut best: usize = 0;
    let mut cur: usize = 0;
    let ghost mut at: int = 0;
    let mut i: usize = 0;
    while i < b.len()
        invariant
            b@ == bs,
            bs.len() < usize::MAX,
            i <= bs.len(),
            cur <= best <= i,
            hash_run_at(bs, i - cur, cur as nat),
            hash_run_at(bs, at, best as nat),
            forall|j: int| 0 <= j && #[trigger] run_to(bs, j, i as int) ==> i - j <= cur,
            forall|j: int, n: nat| #[trigger] hash_run_at(bs, j, n) && j + n <= i ==> n <= best,
        decreases bs.len() - i,
    {
        if b[i] == 35u8 {
            cur = cur + 1;
            if cur > best {
                best = cur;
                proof {
                    at = i + 1 - cur;
                }
            }
        } else {
            cur = 0;
        }
        proof {
            let i1 = i + 1 as int;
            assert forall|j: int| 0 <= j && #[trigger] run_to(bs, j, i1) implies i1 - j <= cur by {
                if j < i1 {
                    assert(bs[i as int] == 35u8);
                    assert(run_to(bs, j, i as int));
                }
            }
            assert forall|j: int, n: nat| #[trigger] hash_run_at(bs, j, n) && j + n <= i1 implies n
                <= best by {
                if j + n == i1 && n > 0 {
                    assert(run_to(bs, j, i1));
                }
            }
        }
        i = i + 1;
    }
    proof {
        assert forall|k: nat| 1 <= k < best + 1 implies has_hash_run(bs, k) by {
            assert(hash_run_at(bs, at, k));
        }
        let m = (best + 1) as nat;
        if has_hash_run(bs, m) {
            let j = choose|j: int| #[trigger] hash_run_at(bs, j, m);
            assert(hash_run_at(bs, j, m));
        }
    }
    best + 1
}

/// A child whose maximum is `unbounded` is held as a list, whatever its
/// minimum; a child held as a list is unbounded. A child that is not
/// unbounded is held as an option exactly when its minimum is `0`, and
/// otherwise is held as itself. So a child is held other than as itself
/// exactly when it may be absent from its parent.
pub proof fn lemma_child_kind_rules(c: ElementDef)
    ensures
        opt_view(c.max_occurs) == Some("unbounded"@) ==> kind_of(c) == ChildKind::List,
        kind_of(c) == ChildKind::List ==> opt_view(c.max_occurs) == Some("unbounded"@),
        opt_view(c.max_occurs) != Some("unbounded"@) ==> (kind_of(c) == ChildKind::Optional
            <==> opt_view(c.min_occurs) == Some("0"@)),
        kind_of(c) == ChildKind::Required <==> (opt_view(c.max_occurs) != Some("unbounded"@)
            && opt_view(c.min_occurs) != Some("0"@)),
        kind_of(c) != ChildKind::Required <==> optional_or_list(c),
{
}

/// Which HDDM attribute types have a Rust type, and which: `string` and
/// `anyURI` are text, `int` is `i32`, `long` is `i64`, `float` is `f32`,
/// `double` is `f64`, `boolean` is `bool`, `Particle_t` is a particle; no
/// other type name has one.
pub proof fn lemma_attribute_type_names(ty: Seq<char>)
    ensures
        type_of(ty) == Some(AttributeType::Text) <==> (ty == "string"@ || ty == "anyURI"@),
        type_of(ty) == Some(AttributeType::I32) <==> ty == "int"@,
        type_of(ty) == Some(AttributeType::I64) <==> ty == "long"@,
        type_of(ty) == Some(AttributeType::F32) <==> ty == "float"@,
        type_of(ty) == Some(AttributeType::F64) <==> ty == "double"@,
        type_of(ty) == Some(AttributeType::Bool) <==> ty == "boolean"@,
        type_of(ty) == Some(AttributeType::Particle) <==> ty == "Particle_t"@,
        type_of(ty) is None <==> !(ty == "string"@ || ty == "anyURI"@ || ty == "int"@ || ty
            == "long"@ || ty == "float"@ || ty == "double"@ || ty == "boolean"@ || ty
            == "Particle_t"@),
{
    reveal_strlit("string");
    reveal_strlit("anyURI");
    reveal_strlit("int");
    reveal_strlit("long");
    reveal_strlit("float");
    reveal_strlit("double");
    reveal_strlit("boolean");
    reveal_strlit("Particle_t");
    assert("int"@.len() == 3 && "long"@.len() == 4 && "float"@.len() == 5);
    assert("string"@.len() == 6 && "anyURI"@.len() == 6 && "double"@.len() == 6);
    assert("boolean"@.len() == 7 && "Particle_t"@.len() == 10);
    assert("string"@[0] == 's' && "anyURI"@[0] == 'a' && "double"@[0] == 'd');
    if ty == "string"@ || ty == "anyURI"@ {
        assert(ty != "double"@) by {
            assert(ty[0] != 'd');
        }
    }
}

/// Two elements generate the same struct exactly when they have the same
/// name, as many attributes, each with the name and the type of the
/// other's at the same place, and as many children, each with the name and
/// bounds of the other's at the same place.
pub proof fn lemma_same_shape_fields(a: ElementDef, b: ElementDef)
    ensures
        same_shape(a, b) <==> {
            &&& a.name@ == b.name@
            &&& a.attributes@.len() == b.attributes@.len()
            &&& forall|k: int|
                0 <= k < a.attributes@.len() ==> (#[trigger] a.attributes@[k]).name@
                    == b.attributes@[k].name@ && a.attributes@[k].ty@ == b.attributes@[k].ty@
            &&& a.children@.len() == b.children@.len()
            &&& forall|i: int|
                0 <= i < a.children@.len() ==> {
                    &&& (#[trigger] a.children@[i]).name@ == b.children@[i].name@
                    &&& opt_view(a.children@[i].min_occurs) == opt_view(b.children@[i].min_occurs)
                    &&& opt_view(a.children@[i].max_occurs) == opt_view(b.children@[i].max_occurs)
                }
        },
{
    lemma_attributes_agree(a.attributes@, b.attributes@);
}

/// Elements that are the same tree generate the same struct.
pub proof fn lemma_same_tree_same_shape(a: ElementDef, b: ElementDef)
    requires
        same_element(a, b),
    ensures
        same_shape(a, b),
{
    lemma_same_element_fields(a, b);
    lemma_same_shape_fields(a, b);
    assert forall|i: int| 0 <= i < a.children@.len() implies {
        &&& (#[trigger] a.children@[i]).name@ == b.children@[i].name@
        &&& opt_view(a.children@[i].min_occurs) == opt_view(b.children@[i].min_occurs)
        &&& opt_view(a.children@[i].max_occurs) == opt_view(b.children@[i].max_occurs)
    } by {
        lemma_same_element_fields(a.children@[i], b.children@[i]);
    }
}

} // verus!
