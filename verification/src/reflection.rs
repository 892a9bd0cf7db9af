//! The reflection database: what Roblox declares of its classes.
//!
//! The database comes from the crate that ships it, or from a file that the
//! machine has in its place, so it is an argument of everything that is stated
//! here. The small functions at the end hand single calls to `rbx_reflection`;
//! what their contracts claim of it is stated, not proved.

use crate::text::texts;
use rbx_dom_weak::types::VariantType;
use rbx_reflection::{ClassDescriptor, PropertyDescriptor, ReflectionDatabase};
use vstd::prelude::*;

verus! {

/// `rbx_reflection::ReflectionDatabase`. Its classes are named by [`classes_of`].
#[verifier::external_type_specification]
#[verifier::external_body]
pub struct ExReflectionDatabase<'a>(rbx_reflection::ReflectionDatabase<'a>);

/// `rbx_reflection::ClassDescriptor`, named by [`class_of`].
#[verifier::external_type_specification]
#[verifier::external_body]
pub struct ExClassDescriptor<'a>(rbx_reflection::ClassDescriptor<'a>);

/// `rbx_reflection::PropertyDescriptor`, named by [`property_of`].
#[verifier::external_type_specification]
#[verifier::external_body]
pub struct ExPropertyDescriptor<'a>(rbx_reflection::PropertyDescriptor<'a>);

/// How a property is written into a place file.
pub enum Form {
    /// Under its own name.
    Plain,
    /// Not at all.
    Hidden,
    /// Under the name of another property of the class.
    As(Seq<char>),
    /// It stands for another property of the class.
    Alias(Seq<char>),
    /// It is moved to other properties, in this way.
    Moves(Seq<char>),
    /// In a way that is not known here.
    Unknown,
}

/// A property of a class.
pub struct Property {
    /// The name that it has for itself.
    pub name: Seq<char>,
    /// How it is written.
    pub form: Form,
    /// Its type.
    pub ty: VariantType,
    /// The properties that it is moved to when a place is read, if any.
    pub moved_to: Seq<Seq<char>>,
}

/// A class.
pub struct Class {
    /// The class that it descends from, if any.
    pub parent: Option<Seq<char>>,
    /// The properties that it declares itself.
    pub props: Map<Seq<char>, Property>,
}

/// The classes of a database, by name.
pub type Classes = Map<Seq<char>, Class>;

/// A database that is there for good, or none at all.
pub type Reflection = Option<&'static ReflectionDatabase<'static>>;

/// The classes that a database knows.
pub uninterp spec fn classes_of(db: ReflectionDatabase<'static>) -> Classes;

/// What a class descriptor says.
pub uninterp spec fn class_of(class: ClassDescriptor<'static>) -> Class;

/// What a property descriptor says.
pub uninterp spec fn property_of(prop: PropertyDescriptor<'static>) -> Property;

/// Whether this can be what the machine has at hand: a database with these classes,
/// or none. A relation: a machine may have a database of its own, or one that cannot
/// be read.
pub uninterp spec fn may_know(found: Option<Classes>) -> bool;

/// Whether this can be the database that the machine has at hand.
pub open spec fn at_hand(refl: Reflection) -> bool {
    may_know(classes_found(refl))
}

/// The classes of a database, where there is one.
pub open spec fn classes_found(refl: Reflection) -> Option<Classes> {
    match refl {
        Some(db) => Some(classes_of(*db)),
        None => None,
    }
}

/// The classes that are known: without a database, none.
pub open spec fn known_classes(refl: Reflection) -> Classes {
    match refl {
        Some(db) => classes_of(*db),
        None => Map::empty(),
    }
}

/// The property `prop` of `class`, declared by the class or by one of those that
/// it descends from, of which `steps` are looked at.
pub open spec fn inherited(
    classes: Classes,
    class: Seq<char>,
    prop: Seq<char>,
    steps: nat,
) -> Option<Property>
    decreases steps,
{
    if steps == 0 || !classes.contains_key(class) {
        None
    } else if classes[class].props.contains_key(prop) {
        Some(classes[class].props[prop])
    } else {
        match classes[class].parent {
            Some(parent) => inherited(classes, parent, prop, (steps - 1) as nat),
            None => None,
        }
    }
}

/// The property `prop` of `class`. No line of descent is longer than there are
/// classes.
pub open spec fn property_in(classes: Classes, class: Seq<char>, prop: Seq<char>) -> Option<
    Property,
> {
    inherited(classes, class, prop, classes.dom().len())
}

/// The type that is declared for a property, if any.
pub open spec fn type_in(classes: Classes, class: Seq<char>, prop: Seq<char>) -> Option<
    VariantType,
> {
    match property_in(classes, class, prop) {
        Some(p) => Some(p.ty),
        None => None,
    }
}

/// The properties that take precedence over a property when a place is read.
pub open spec fn moved_in(classes: Classes, class: Seq<char>, prop: Seq<char>) -> Seq<Seq<char>> {
    match property_in(classes, class, prop) {
        Some(p) => p.moved_to,
        None => Seq::empty(),
    }
}

/// `rbx_reflection_database::get`. Which database comes back depends on the
/// machine, so only this is said of it: it is one that the machine can have at hand.
/// It is none where a file that the machine has in place of the database cannot be
/// read.
#[verifier::external_body]
pub(crate) fn reflection() -> (r: Reflection)
    ensures
        may_know(classes_found(r)),
{
    rbx_reflection_database::get().ok()
}

/// `len` of the field `classes` of a `ReflectionDatabase`.
#[verifier::external_body]
pub(crate) fn class_count(db: &'static ReflectionDatabase<'static>) -> (n: usize)
    ensures
        n == classes_of(*db).dom().len(),
{
    db.classes.len()
}

/// `get` on the field `classes` of a `ReflectionDatabase`.
#[verifier::external_body]
pub(crate) fn class_named(db: &'static ReflectionDatabase<'static>, name: &str) -> (r: Option<
    &'static ClassDescriptor<'static>,
>)
    ensures
        match r {
            Some(class) => classes_of(*db).contains_key(name@) && class_of(*class) == classes_of(
                *db,
            )[name@],
            None => !classes_of(*db).contains_key(name@),
        },
{
    db.classes.get(name)
}

/// The field `superclass` of a `ClassDescriptor`.
#[verifier::external_body]
pub(crate) fn superclass(class: &'static ClassDescriptor<'static>) -> (r: Option<&'static str>)
    ensures
        match r {
            Some(name) => class_of(*class).parent == Some(name@),
            None => class_of(*class).parent is None,
        },
{
    class.superclass
}

/// `get` on the field `properties` of a `ClassDescriptor`.
#[verifier::external_body]
pub(crate) fn property_named(class: &'static ClassDescriptor<'static>, name: &str) -> (r: Option<
    &'static PropertyDescriptor<'static>,
>)
    ensures
        match r {
            Some(prop) => class_of(*class).props.contains_key(name@) && property_of(*prop)
                == class_of(*class).props[name@],
            None => !class_of(*class).props.contains_key(name@),
        },
{
    class.properties.get(name)
}

/// `DataType::ty` of the field `data_type` of a `PropertyDescriptor`.
#[verifier::external_body]
pub(crate) fn declared(prop: &'static PropertyDescriptor<'static>) -> (r: VariantType)
    ensures
        r == property_of(*prop).ty,
{
    prop.data_type.ty()
}

/// `PropertyMigration::new_property_names`, where the field `kind` of a
/// `PropertyDescriptor` holds a migration; no names where it does not.
#[verifier::external_body]
pub(crate) fn migrates_to(prop: &'static PropertyDescriptor<'static>) -> (r: Vec<String>)
    ensures
        texts(r@) == property_of(*prop).moved_to,
{
    match &prop.kind {
        rbx_reflection::PropertyKind::Canonical {
            serialization: rbx_reflection::PropertySerialization::Migrate(migration),
        } => migration.new_property_names().iter().map(|name| name.to_string()).collect(),
        _ => Vec::new(),
    }
}

/// `keys` of the field `properties` of a `ClassDescriptor`: the names of all
/// properties. In which order they come is left open.
#[verifier::external_body]
pub(crate) fn property_names(class: &'static ClassDescriptor<'static>) -> (r: Vec<String>)
    ensures
        forall|name: Seq<char>| #[trigger]
            texts(r@).contains(name) == class_of(*class).props.contains_key(name),
{
    class.properties.keys().map(|name| name.to_string()).collect()
}

/// The field `name` of a `PropertyDescriptor`.
#[verifier::external_body]
pub(crate) fn own_name(prop: &'static PropertyDescriptor<'static>) -> (r: &'static str)
    ensures
        r@ == property_of(*prop).name,
{
    prop.name
}

/// How a property is written into a place file.
#[derive(Debug)]
pub enum Way {
    Plain,
    Hidden,
    As(String),
    Alias(String),
    Moves(String),
    Unknown,
}

impl View for Way {
    type V = Form;

    open spec fn view(&self) -> Form {
        match *self {
            Way::Plain => Form::Plain,
            Way::Hidden => Form::Hidden,
            Way::As(name) => Form::As(name@),
            Way::Alias(name) => Form::Alias(name@),
            Way::Moves(way) => Form::Moves(way@),
            Way::Unknown => Form::Unknown,
        }
    }
}

/// Tell the variants of the field `kind` of a `PropertyDescriptor` apart. A migration
/// is taken as what `Debug` shows of it, which tells two of them apart where they
/// differ.
#[verifier::external_body]
pub(crate) fn way_of(prop: &'static PropertyDescriptor<'static>) -> (r: Way)
    ensures
        r@ == property_of(*prop).form,
{
    match &prop.kind {
        rbx_reflection::PropertyKind::Canonical { serialization } => match serialization {
            rbx_reflection::PropertySerialization::Serializes => Way::Plain,
            rbx_reflection::PropertySerialization::DoesNotSerialize => Way::Hidden,
            rbx_reflection::PropertySerialization::SerializesAs(n) => Way::As(n.to_string()),
            rbx_reflection::PropertySerialization::Migrate(m) => Way::Moves(format!("{m:?}")),
            _ => Way::Unknown,
        },
        rbx_reflection::PropertyKind::Alias { alias_for } => Way::Alias(alias_for.to_string()),
        _ => Way::Unknown,
    }
}

// ---------------------------------------------------------------------------
// Asking the database
// ---------------------------------------------------------------------------

/// Whether `r` is a descriptor of `found`.
pub open spec fn describes(
    r: Option<&'static PropertyDescriptor<'static>>,
    found: Option<Property>,
) -> bool {
    match r {
        Some(prop) => found == Some(property_of(*prop)),
        None => found is None,
    }
}

/// The descriptor for a property, looked for up the line of descent.
fn descriptor_in(refl: Reflection, class_name: &str, prop_name: &str) -> (r: Option<
    &'static PropertyDescriptor<'static>,
>)
    ensures
        describes(r, property_in(known_classes(refl), class_name@, prop_name@)),
{
    let db: &'static ReflectionDatabase<'static> = match refl {
        Some(db) => db,
        None => {
            return None;
        },
    };
    let ghost classes = known_classes(refl);
    let mut steps: usize = class_count(db);
    let mut name: String = class_name.to_owned();
    while steps > 0
        invariant
            classes == known_classes(refl),
            classes == classes_of(*db),
            inherited(classes, name@, prop_name@, steps as nat) == property_in(
                classes,
                class_name@,
                prop_name@,
            ),
        decreases steps,
    {
        let class: &'static ClassDescriptor<'static> = match class_named(db, name.as_str()) {
            Some(class) => class,
            None => {
                return None;
            },
        };
        if let Some(prop) = property_named(class, prop_name) {
            return Some(prop);
        }
        match superclass(class) {
            Some(parent) => {
                name = parent.to_owned();
            },
            None => {
                return None;
            },
        }
        steps = steps - 1;
    }
    None
}

/// Whether the class is known at all.
pub fn class_is_known_in(refl: Reflection, class_name: &str) -> (r: bool)
    ensures
        r == known_classes(refl).contains_key(class_name@),
{
    match refl {
        Some(db) => class_named(db, class_name).is_some(),
        None => false,
    }
}

/// The type that is declared for a property, if any.
pub fn declared_type_in(refl: Reflection, class_name: &str, prop_name: &str) -> (r: Option<
    VariantType,
>)
    ensures
        r == type_in(known_classes(refl), class_name@, prop_name@),
{
    match descriptor_in(refl, class_name, prop_name) {
        Some(prop) => Some(declared(prop)),
        None => None,
    }
}

/// The properties that take precedence over a property when a place is read.
pub fn overriding_properties_in(refl: Reflection, class_name: &str, prop_name: &str) -> (r: Vec<
    String,
>)
    ensures
        texts(r@) == moved_in(known_classes(refl), class_name@, prop_name@),
{
    match descriptor_in(refl, class_name, prop_name) {
        Some(prop) => migrates_to(prop),
        None => {
            let none: Vec<String> = Vec::new();
            assert(texts(none@) =~= Seq::<Seq<char>>::empty());
            none
        },
    }
}

/// A property that is found stays found where more classes are looked at.
pub proof fn lemma_inherited_grows(
    classes: Classes,
    class: Seq<char>,
    prop: Seq<char>,
    few: nat,
    many: nat,
)
    requires
        few <= many,
        inherited(classes, class, prop, few) is Some,
    ensures
        inherited(classes, class, prop, many) == inherited(classes, class, prop, few),
    decreases few,
{
    if !classes[class].props.contains_key(prop) {
        let parent = classes[class].parent->0;
        lemma_inherited_grows(classes, parent, prop, (few - 1) as nat, (many - 1) as nat);
    }
}

/// A line of descent on which a property is found no sooner than after `steps`
/// classes, and which `seen` are not on, is no longer than the classes that are
/// left.
proof fn lemma_line_of_descent(
    classes: Classes,
    class: Seq<char>,
    prop: Seq<char>,
    steps: nat,
    seen: Set<Seq<char>>,
)
    requires
        classes.dom().finite(),
        inherited(classes, class, prop, steps) is Some,
        forall|n: nat| n < steps ==> inherited(classes, class, prop, n) is None,
        forall|a: Seq<char>, n: nat|
            seen.contains(a) && n <= steps ==> (#[trigger] inherited(classes, a, prop, n)) is None,
    ensures
        steps <= classes.dom().difference(seen).len(),
    decreases steps,
{
    let left = classes.dom().difference(seen);
    assert(!seen.contains(class));
    assert(left.contains(class));
    if classes[class].props.contains_key(prop) {
        assert(inherited(classes, class, prop, 1) is Some);
        assert(steps <= 1);
        assert(left.len() > 0) by {
            if left.len() == 0 {
                left.lemma_len0_is_empty();
            }
        }
    } else {
        let parent = classes[class].parent->0;
        let rest = (steps - 1) as nat;
        let further = seen.insert(class);
        assert forall|n: nat| n < rest implies inherited(classes, parent, prop, n) is None by {
            assert(inherited(classes, class, prop, n + 1) == inherited(classes, parent, prop, n));
        }
        lemma_line_of_descent(classes, parent, prop, rest, further);
        assert(classes.dom().difference(further) =~= left.remove(class));
    }
}

/// Looking at as many classes as there are finds what can be found.
pub proof fn law_descent_is_exhausted(
    classes: Classes,
    class: Seq<char>,
    prop: Seq<char>,
    steps: nat,
)
    requires
        classes.dom().finite(),
        inherited(classes, class, prop, steps) is Some,
    ensures
        property_in(classes, class, prop) == inherited(classes, class, prop, steps),
    decreases steps,
{
    let shorter = (steps - 1) as nat;
    if inherited(classes, class, prop, shorter) is Some {
        law_descent_is_exhausted(classes, class, prop, shorter);
        lemma_inherited_grows(classes, class, prop, shorter, steps);
    } else {
        assert forall|n: nat| n < steps implies inherited(classes, class, prop, n) is None by {
            if inherited(classes, class, prop, n) is Some {
                lemma_inherited_grows(classes, class, prop, n, shorter);
            }
        }
        lemma_line_of_descent(classes, class, prop, steps, Set::empty());
        assert(classes.dom().difference(Set::empty()) =~= classes.dom());
        lemma_inherited_grows(classes, class, prop, steps, classes.dom().len());
    }
}

/// A property that a class declares itself is what it declares, whatever the classes that
/// it descends from declare under that name. What is asked of it is told of that property:
/// its type, and the properties that it is moved to.
pub proof fn law_its_own_declaration_decides(classes: Classes, class: Seq<char>, prop: Seq<char>)
    requires
        classes.dom().finite(),
        classes.contains_key(class),
        classes[class].props.contains_key(prop),
    ensures
        type_in(classes, class, prop) == Some(classes[class].props[prop].ty),
        moved_in(classes, class, prop) == classes[class].props[prop].moved_to,
        property_in(classes, class, prop) == Some(classes[class].props[prop]),
{
    assert(inherited(classes, class, prop, 1) is Some);
    law_descent_is_exhausted(classes, class, prop, 1);
}

/// A property that a class does not declare itself is what it is for the class that it
/// descends from, in type and in the properties that override it. Where it descends from
/// none, it has no such property, and nothing overrides it.
pub proof fn law_properties_are_inherited(classes: Classes, class: Seq<char>, prop: Seq<char>)
    requires
        classes.dom().finite(),
        classes.contains_key(class),
        !classes[class].props.contains_key(prop),
    ensures
        match classes[class].parent {
            Some(parent) => {
                &&& type_in(classes, class, prop) == type_in(classes, parent, prop)
                &&& moved_in(classes, class, prop) == moved_in(classes, parent, prop)
                &&& property_in(classes, class, prop) == property_in(classes, parent, prop)
            },
            None => {
                &&& type_in(classes, class, prop) is None
                &&& moved_in(classes, class, prop).len() == 0
                &&& property_in(classes, class, prop) is None
            },
        },
{
    let n = classes.dom().len();
    assert(n > 0) by {
        if n == 0 {
            classes.dom().lemma_len0_is_empty();
        }
    }
    if let Some(parent) = classes[class].parent {
        assert(inherited(classes, class, prop, n) == inherited(
            classes,
            parent,
            prop,
            (n - 1) as nat,
        ));
        assert(inherited(classes, class, prop, n + 1) == inherited(classes, parent, prop, n));
        if inherited(classes, parent, prop, n) is Some {
            law_descent_is_exhausted(classes, class, prop, n + 1);
        } else if inherited(classes, parent, prop, (n - 1) as nat) is Some {
            lemma_inherited_grows(classes, parent, prop, (n - 1) as nat, n);
        }
    }
}

/// A class that is not known has no properties, and nothing overrides any.
pub proof fn law_an_unknown_class_has_no_properties(
    classes: Classes,
    class: Seq<char>,
    prop: Seq<char>,
)
    requires
        !classes.contains_key(class),
    ensures
        type_in(classes, class, prop) is None,
        moved_in(classes, class, prop).len() == 0,
        property_in(classes, class, prop) is None,
{
}

/// The type of a property and the properties that override it are told of one and the same
/// declaration: there is one on the line of descent that both come from, or there is none
/// and both are missing.
pub proof fn law_one_declaration_tells_all(classes: Classes, class: Seq<char>, prop: Seq<char>)
    ensures
        match property_in(classes, class, prop) {
            Some(p) => {
                &&& type_in(classes, class, prop) == Some(p.ty)
                &&& moved_in(classes, class, prop) == p.moved_to
                &&& exists|line: Seq<Seq<char>>| #[trigger] descends(classes, line) && {
                    &&& line[0] == class
                    &&& classes[line.last()].props.contains_key(prop)
                    &&& classes[line.last()].props[prop] == p
                    &&& forall|i: int|
                        0 <= i < line.len() - 1 ==> !classes[#[trigger] line[i]].props.contains_key(
                            prop,
                        )
                }
            },
            None => {
                &&& type_in(classes, class, prop) is None
                &&& moved_in(classes, class, prop).len() == 0
            },
        },
{
    if property_in(classes, class, prop) is Some {
        lemma_declared_on_the_line(classes, class, prop, classes.dom().len());
    }
}

/// Whether each class of a line is known and descends from the next.
pub open spec fn descends(classes: Classes, line: Seq<Seq<char>>) -> bool {
    &&& line.len() > 0
    &&& forall|i: int| 0 <= i < line.len() ==> classes.contains_key(#[trigger] line[i])
    &&& forall|i: int|
        0 <= i < line.len() - 1 ==> classes[#[trigger] line[i]].parent == Some(line[i + 1])
}

/// A property that is found was declared by a class on the line of descent, and by none
/// before it.
proof fn lemma_declared_on_the_line(
    classes: Classes,
    class: Seq<char>,
    prop: Seq<char>,
    steps: nat,
) -> (line: Seq<Seq<char>>)
    requires
        inherited(classes, class, prop, steps) is Some,
    ensures
        descends(classes, line),
        line[0] == class,
        classes[line.last()].props.contains_key(prop),
        classes[line.last()].props[prop] == inherited(classes, class, prop, steps)->0,
        forall|i: int|
            0 <= i < line.len() - 1 ==> !classes[#[trigger] line[i]].props.contains_key(prop),
    decreases steps,
{
    if classes[class].props.contains_key(prop) {
        seq![class]
    } else {
        let parent = classes[class].parent->0;
        let rest = lemma_declared_on_the_line(classes, parent, prop, (steps - 1) as nat);
        let line = seq![class] + rest;
        assert(line.last() == rest.last());
        assert forall|i: int| 0 <= i < line.len() implies classes.contains_key(
            #[trigger] line[i],
        ) by {
            if i > 0 {
                assert(line[i] == rest[i - 1]);
            }
        }
        assert forall|i: int| 0 <= i < line.len() - 1 implies classes[#[trigger] line[i]].parent
            == Some(line[i + 1]) && !classes[line[i]].props.contains_key(prop) by {
            assert(line[i + 1] == rest[i]);
            if i > 0 {
                assert(line[i] == rest[i - 1]);
            }
        }
        line
    }
}

/// Which classes are known: those of the database, all of them as they are, and none without one.
pub proof fn law_which_classes_are_known(db: &'static ReflectionDatabase<'static>, class: Seq<char>)
    ensures
        known_classes(Some(db)) == classes_of(*db),
        !known_classes(None).contains_key(class),
        at_hand(Some(db)) == may_know(Some(classes_of(*db))),
        at_hand(None) == may_know(None),
{
}

} // verus!
