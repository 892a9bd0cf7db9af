//! A Roblox place, as this library sees it.
//!
//! A place is modelled by its instances: name, class, children and properties of
//! each. The functions here hand single calls to `rbx_dom_weak`; what their
//! contracts claim of it is stated, not proved.

use crate::lua::number_parsed;
use crate::text::texts;
use rbx_dom_weak::types::{Ref, Variant, VariantType};
use rbx_dom_weak::{Instance, WeakDom};
use vstd::prelude::*;

verus! {

/// `rbx_dom_weak::types::Ref`, what an instance is known by in its place.
#[verifier::external_type_specification]
#[verifier::external_body]
pub struct ExRef(rbx_dom_weak::types::Ref);

/// `rbx_dom_weak::types::Variant`, the value of a property, named by [`worth`].
#[verifier::external_type_specification]
#[verifier::external_body]
pub struct ExVariant(rbx_dom_weak::types::Variant);

/// `rbx_dom_weak::types::VariantType`, the type of a property, told apart by
/// [`kind`].
#[verifier::external_type_specification]
#[verifier::external_body]
pub struct ExVariantType(rbx_dom_weak::types::VariantType);

/// `rbx_dom_weak::Instance`, named by [`node_of`].
#[verifier::external_type_specification]
#[verifier::external_body]
pub struct ExInstance(rbx_dom_weak::Instance);

/// `rbx_dom_weak::WeakDom`, a place. What it holds is named by [`scene`].
#[verifier::external_type_specification]
#[verifier::external_body]
pub struct ExWeakDom(rbx_dom_weak::WeakDom);

/// The types of property that can be written from a text, and all others.
#[derive(Debug, Clone, Copy, PartialEq, Eq, Structural)]
pub enum Kind {
    Content,
    ContentId,
    Text,
    Bool,
    Int32,
    Int64,
    Float32,
    Float64,
    Other,
}

/// The value of a property. Floating point numbers stand as the shortest decimal
/// text that reads back as them.
pub enum Worth {
    /// A content that is a URI.
    Content(Seq<char>),
    /// Any other content.
    OtherContent(Variant),
    ContentId(Seq<char>),
    Text(Seq<char>),
    Bool(bool),
    Int32(i32),
    Int64(i64),
    Float32(Seq<char>),
    Float64(Seq<char>),
    Other(Variant),
}

/// The type of a value.
pub open spec fn worth_kind(value: Worth) -> Kind {
    match value {
        Worth::Content(_) => Kind::Content,
        Worth::OtherContent(_) => Kind::Content,
        Worth::ContentId(_) => Kind::ContentId,
        Worth::Text(_) => Kind::Text,
        Worth::Bool(_) => Kind::Bool,
        Worth::Int32(_) => Kind::Int32,
        Worth::Int64(_) => Kind::Int64,
        Worth::Float32(_) => Kind::Float32,
        Worth::Float64(_) => Kind::Float64,
        Worth::Other(_) => Kind::Other,
    }
}

/// An instance.
#[verifier::ext_equal]
pub struct Node {
    /// The reference that the instance has for itself.
    pub referent: Ref,
    /// The reference of the instance that it says it lies in.
    pub parent: Ref,
    pub name: Seq<char>,
    pub class: Seq<char>,
    pub children: Seq<Ref>,
    pub props: Map<Seq<char>, Worth>,
}

/// A place: its instances, and which of them is the root.
#[verifier::ext_equal]
pub struct Scene {
    pub root: Ref,
    pub nodes: Map<Ref, Node>,
}

/// What a place holds.
pub uninterp spec fn scene(dom: WeakDom) -> Scene;

/// What an instance is.
pub uninterp spec fn node_of(inst: Instance) -> Node;

/// What a property value is.
pub uninterp spec fn worth(value: Variant) -> Worth;

/// Which type a property type is.
pub uninterp spec fn kind(ty: VariantType) -> Kind;

/// Whether a reference points to something.
pub uninterp spec fn points(r: Ref) -> bool;

/// The 32-bit floating point number that `raw` writes, if it writes one, as the
/// shortest decimal text that reads back as it.
pub uninterp spec fn float32_parsed(raw: Seq<char>) -> Option<Seq<char>>;

/// The place with one property of one instance set.
pub open spec fn with_property(s: Scene, target: Ref, name: Seq<char>, value: Worth) -> Scene {
    let node = s.nodes[target];
    Scene {
        nodes: s.nodes.insert(target, Node { props: node.props.insert(name, value), ..node }),
        ..s
    }
}

/// The place with one property of one instance taken away.
pub open spec fn without_property(s: Scene, target: Ref, name: Seq<char>) -> Scene {
    let node = s.nodes[target];
    Scene {
        nodes: s.nodes.insert(target, Node { props: node.props.remove(name), ..node }),
        ..s
    }
}

/// An instance with nothing in it.
pub open spec fn new_node(r: Ref, parent: Ref, class: Seq<char>, name: Seq<char>) -> Node {
    Node { referent: r, parent, name, class, children: Seq::empty(), props: Map::empty() }
}

/// The place with a new instance `r`, as the last child of `parent` where it is
/// linked to it.
pub open spec fn with_instance(
    s: Scene,
    parent: Ref,
    linked: bool,
    r: Ref,
    class: Seq<char>,
    name: Seq<char>,
) -> Scene {
    let nodes = s.nodes.insert(r, new_node(r, parent, class, name));
    if linked {
        let node = nodes[parent];
        Scene {
            nodes: nodes.insert(parent, Node { children: node.children.push(r), ..node }),
            ..s
        }
    } else {
        Scene { nodes, ..s }
    }
}

/// `WeakDom::root_ref`: the root of the place.
pub assume_specification[ WeakDom::root_ref ](dom: &WeakDom) -> (r: Ref)
    ensures
        r == scene(*dom).root,
;

/// `==` on two references: whether they are the same.
#[verifier::external_body]
pub(crate) fn same_ref(a: Ref, b: Ref) -> (r: bool)
    ensures
        r == (a == b),
{
    a == b
}

/// `WeakDom::get_by_ref`: the instance with this reference, if there is one. It is
/// one of finitely many.
pub assume_specification[ WeakDom::get_by_ref ](dom: &WeakDom, referent: Ref) -> (r: Option<
    &Instance,
>)
    ensures
        match r {
            Some(inst) => {
                &&& scene(*dom).nodes.dom().finite()
                &&& scene(*dom).nodes.contains_key(referent)
                &&& node_of(*inst) == scene(*dom).nodes[referent]
            },
            None => !scene(*dom).nodes.contains_key(referent),
        },
;

/// `Instance::children`: the children, in order.
pub assume_specification[ Instance::children ](inst: &Instance) -> (r: &[Ref])
    ensures
        r@ == node_of(*inst).children,
;

/// `Instance::referent`: the reference that the instance has for itself.
pub assume_specification[ Instance::referent ](inst: &Instance) -> (r: Ref)
    ensures
        r == node_of(*inst).referent,
;

/// `Instance::parent`: the reference of the instance that it says it lies in.
pub assume_specification[ Instance::parent ](inst: &Instance) -> (r: Ref)
    ensures
        r == node_of(*inst).parent,
;

/// The field `name` of an `Instance`.
#[verifier::external_body]
pub(crate) fn instance_name(inst: &Instance) -> (r: &str)
    ensures
        r@ == node_of(*inst).name,
{
    inst.name.as_str()
}

/// The field `class` of an `Instance`, read with `Ustr::as_str`.
#[verifier::external_body]
pub(crate) fn instance_class(inst: &Instance) -> (r: &str)
    ensures
        r@ == node_of(*inst).class,
{
    inst.class.as_str()
}

/// `keys` of the field `properties` of an `Instance`: the names of all properties, in
/// an order that is left open.
#[verifier::external_body]
pub(crate) fn property_keys(inst: &Instance) -> (r: Vec<String>)
    ensures
        forall|name: Seq<char>| #[trigger]
            texts(r@).contains(name) == node_of(*inst).props.contains_key(name),
{
    inst.properties.keys().map(|name| name.to_string()).collect()
}

/// Look a property up in the field `properties` of an `Instance`, and take its
/// type with `Variant::ty`.
#[verifier::external_body]
pub(crate) fn property_type(inst: &Instance, name: &str) -> (r: Option<VariantType>)
    ensures
        match r {
            Some(ty) => node_of(*inst).props.contains_key(name@) && kind(ty) == worth_kind(
                node_of(*inst).props[name@],
            ),
            None => !node_of(*inst).props.contains_key(name@),
        },
{
    inst.properties.get(&rbx_dom_weak::ustr(name)).map(Variant::ty)
}

/// Look a property up in the field `properties` of an `Instance`, and take its
/// text where it is a `Variant::String`.
#[verifier::external_body]
pub(crate) fn property_text(inst: &Instance, name: &str) -> (r: Option<String>)
    ensures
        match r {
            Some(text) => node_of(*inst).props.contains_key(name@) && node_of(*inst).props[name@]
                == Worth::Text(text@),
            None => !(node_of(*inst).props.contains_key(name@) && node_of(*inst).props[name@] is Text),
        },
{
    match inst.properties.get(&rbx_dom_weak::ustr(name)) {
        Some(Variant::String(text)) => Some(text.clone()),
        _ => None,
    }
}

/// `WeakDom::get_by_ref_mut`, and `insert` on the field `properties`: set a
/// property of an instance. Where there is no such instance, nothing changes.
#[verifier::external_body]
pub(crate) fn set_property(dom: &mut WeakDom, target: Ref, name: &str, value: Variant) -> (there:
    bool)
    ensures
        there == scene(*old(dom)).nodes.contains_key(target),
        scene(*final(dom)) == if there {
            with_property(scene(*old(dom)), target, name@, worth(value))
        } else {
            scene(*old(dom))
        },
{
    match dom.get_by_ref_mut(target) {
        Some(inst) => {
            inst.properties.insert(rbx_dom_weak::ustr(name), value);
            true
        },
        None => false,
    }
}

/// `WeakDom::get_by_ref_mut`, and `remove` on the field `properties`: take a
/// property of an instance away, and say whether it was there.
#[verifier::external_body]
pub(crate) fn remove_property(dom: &mut WeakDom, target: Ref, name: &str) -> (was_there: bool)
    ensures
        was_there == (scene(*old(dom)).nodes.contains_key(target) && scene(
            *old(dom),
        ).nodes[target].props.contains_key(name@)),
        scene(*final(dom)) == if was_there {
            without_property(scene(*old(dom)), target, name@)
        } else {
            scene(*old(dom))
        },
{
    match dom.get_by_ref_mut(target) {
        Some(inst) => inst.properties.remove(&rbx_dom_weak::ustr(name)).is_some(),
        None => false,
    }
}

/// `InstanceBuilder::new`, `InstanceBuilder::with_name` and `WeakDom::insert`: add
/// a new instance under `parent`. Its reference is a random number other than zero, so it
/// points to something; that it is a new one is not said. A parent whose reference points
/// to nothing does not get to know of its child.
#[verifier::external_body]
pub(crate) fn insert_instance(dom: &mut WeakDom, parent: Ref, class: &str, name: &str) -> (r: Ref)
    requires
        scene(*old(dom)).nodes.contains_key(parent),
    ensures
        scene(*final(dom)) == with_instance(
            scene(*old(dom)),
            parent,
            points(parent),
            r,
            class@,
            name@,
        ),
        points(r),
{
    dom.insert(parent, rbx_dom_weak::InstanceBuilder::new(class).with_name(name))
}

/// Tell the variants of `VariantType` apart.
#[verifier::external_body]
pub(crate) fn kind_of(ty: VariantType) -> (r: Kind)
    ensures
        r == kind(ty),
{
    match ty {
        VariantType::Content => Kind::Content,
        VariantType::ContentId => Kind::ContentId,
        VariantType::String => Kind::Text,
        VariantType::Bool => Kind::Bool,
        VariantType::Int32 => Kind::Int32,
        VariantType::Int64 => Kind::Int64,
        VariantType::Float32 => Kind::Float32,
        VariantType::Float64 => Kind::Float64,
        _ => Kind::Other,
    }
}

/// `Content::from_uri`, as a `Variant::Content`.
#[verifier::external_body]
pub(crate) fn content(uri: &str) -> (r: Variant)
    ensures
        worth(r) == Worth::Content(uri@),
{
    Variant::Content(rbx_dom_weak::types::Content::from_uri(uri))
}

/// `ContentId::from`, as a `Variant::ContentId`.
#[verifier::external_body]
pub(crate) fn content_id(uri: &str) -> (r: Variant)
    ensures
        worth(r) == Worth::ContentId(uri@),
{
    Variant::ContentId(rbx_dom_weak::types::ContentId::from(uri))
}

/// A text, as a `Variant::String`.
#[verifier::external_body]
pub(crate) fn text_variant(text: &str) -> (r: Variant)
    ensures
        worth(r) == Worth::Text(text@),
{
    Variant::from(text)
}

/// A truth value, as a `Variant::Bool`.
#[verifier::external_body]
pub(crate) fn bool_variant(b: bool) -> (r: Variant)
    ensures
        worth(r) == Worth::Bool(b),
{
    Variant::Bool(b)
}

/// An integer, as a `Variant::Int32`.
#[verifier::external_body]
pub(crate) fn int32_variant(i: i32) -> (r: Variant)
    ensures
        worth(r) == Worth::Int32(i),
{
    Variant::Int32(i)
}

/// An integer, as a `Variant::Int64`.
#[verifier::external_body]
pub(crate) fn int64_variant(i: i64) -> (r: Variant)
    ensures
        worth(r) == Worth::Int64(i),
{
    Variant::Int64(i)
}

/// `str::parse` into a 32-bit floating point number, as a `Variant::Float32`.
#[verifier::external_body]
pub(crate) fn float32_variant(raw: &str) -> (r: Option<Variant>)
    ensures
        match r {
            Some(v) => float32_parsed(raw@) is Some && worth(v) == Worth::Float32(
                float32_parsed(raw@)->0,
            ),
            None => float32_parsed(raw@) is None,
        },
{
    raw.parse().ok().map(Variant::Float32)
}

/// `str::parse` into a 64-bit floating point number, as a `Variant::Float64`.
#[verifier::external_body]
pub(crate) fn float64_variant(raw: &str) -> (r: Option<Variant>)
    ensures
        match r {
            Some(v) => number_parsed(raw@) is Some && worth(v) == Worth::Float64(
                number_parsed(raw@)->0,
            ),
            None => number_parsed(raw@) is None,
        },
{
    raw.parse().ok().map(Variant::Float64)
}

} // verus!
