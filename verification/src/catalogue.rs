//! Whether what a reflection database says is in order.
//!
//! A place is read and written by names that the database gives, and what is named has
//! to be there: the property that a property stands for or is written as and, to write,
//! the class that a class descends from. A property that is moved to others cannot be
//! written where one of these is not.

use crate::place::{instance_class, node_of, property_keys, Node};
use crate::reflection::{class_count, class_named, class_of, classes_of};
use crate::reflection::{migrates_to, own_name, property_named, property_names, property_of};
use crate::reflection::{superclass, way_of, Class, Classes, Form, Way};
use crate::text::{same, texts};
use crate::text_map::TextMap;
use rbx_dom_weak::Instance;
use rbx_reflection::{ClassDescriptor, PropertyDescriptor, ReflectionDatabase};
use vstd::prelude::*;

verus! {

/// Whether the line of descent of a class ends within `steps` classes, all of which
/// are known.
pub open spec fn line_ends(classes: Classes, class: Seq<char>, steps: nat) -> bool
    decreases steps,
{
    &&& steps > 0
    &&& classes.contains_key(class)
    &&& match classes[class].parent {
        Some(parent) => line_ends(classes, parent, (steps - 1) as nat),
        None => true,
    }
}

/// The property that `prop` stands for.
pub open spec fn meant(class: Class, prop: Seq<char>) -> Seq<char> {
    match class.props[prop].form {
        Form::Alias(name) => name,
        _ => prop,
    }
}

/// Whether a property, or the one that it stands for, is written.
pub open spec fn is_written(class: Class, prop: Seq<char>) -> bool {
    &&& class.props.contains_key(prop)
    &&& class.props.contains_key(meant(class, prop))
    &&& match class.props[meant(class, prop)].form {
        Form::Plain => true,
        Form::As(_) => true,
        Form::Moves(_) => true,
        _ => false,
    }
}

/// Whether what a property names is there.
pub open spec fn names_hold(class: Class, prop: Seq<char>) -> bool {
    let p = class.props[prop];
    &&& p.name == prop
    &&& match p.form {
        Form::As(name) => class.props.contains_key(name),
        Form::Alias(name) => class.props.contains_key(name),
        _ => true,
    }
}

/// Whether a property of a class is moved to `target`, the name that the target has
/// for itself, in the way `way`.
pub open spec fn leads(
    classes: Classes,
    class: Seq<char>,
    prop: Seq<char>,
    i: int,
    target: Seq<char>,
    way: Seq<char>,
) -> bool {
    let c = classes[class];
    let p = c.props[prop];
    &&& classes.contains_key(class)
    &&& c.props.contains_key(prop)
    &&& p.form == Form::Moves(way)
    &&& 0 <= i < p.moved_to.len()
    &&& is_written(c, p.moved_to[i])
    &&& target == meant(c, p.moved_to[i])
}

/// Whether some property that a class declares is moved to `target` in the way `way`.
pub open spec fn led_to(
    classes: Classes,
    class: Seq<char>,
    target: Seq<char>,
    way: Seq<char>,
) -> bool {
    exists|prop: Seq<char>, i: int| leads(classes, class, prop, i, target, way)
}

/// The same of a class and those that it descends from, of which `steps` are looked at.
pub open spec fn line_led_to(
    classes: Classes,
    class: Seq<char>,
    target: Seq<char>,
    way: Seq<char>,
    steps: nat,
) -> bool
    decreases steps,
{
    &&& steps > 0
    &&& classes.contains_key(class)
    &&& {
        ||| led_to(classes, class, target, way)
        ||| match classes[class].parent {
            Some(parent) => line_led_to(classes, parent, target, way, (steps - 1) as nat),
            None => false,
        }
    }
}

/// Whether what a class moves to a name, and what those do that it descends from, is
/// moved in one way.
pub open spec fn ways_agree(classes: Classes, class: Seq<char>) -> bool {
    forall|target: Seq<char>, a: Seq<char>, b: Seq<char>|
        #[trigger] led_to(classes, class, target, a) && #[trigger] line_led_to(
            classes,
            class,
            target,
            b,
            classes.dom().len(),
        ) ==> a == b
}

/// Whether a class is in order: its line of descent ends, what its properties name is
/// there, and what is moved to one name is moved in one way.
pub open spec fn class_holds(classes: Classes, class: Seq<char>) -> bool {
    &&& line_ends(classes, class, classes.dom().len())
    &&& forall|prop: Seq<char>|
        classes[class].props.contains_key(prop) ==> #[trigger] names_hold(classes[class], prop)
    &&& ways_agree(classes, class)
}

/// Whether a class and those that it descends from are in order, of which `steps` are
/// looked at.
pub open spec fn line_holds(classes: Classes, class: Seq<char>, steps: nat) -> bool
    decreases steps,
{
    steps > 0 && classes.contains_key(class) ==> {
        &&& class_holds(classes, class)
        &&& match classes[class].parent {
            Some(parent) => line_holds(classes, parent, (steps - 1) as nat),
            None => true,
        }
    }
}

/// Whether instances of a class can be written: the database does not know the class, or
/// what it says of the class is in order.
pub open spec fn usable(classes: Classes, class: Seq<char>) -> bool {
    line_holds(classes, class, classes.dom().len())
}

/// Whether the line of descent of a class ends.
fn ends(db: &'static ReflectionDatabase<'static>, class: &str) -> (r: bool)
    ensures
        r == line_ends(classes_of(*db), class@, classes_of(*db).dom().len()),
{
    let ghost classes = classes_of(*db);
    let mut steps: usize = class_count(db);
    let mut name: String = class.to_owned();
    while steps > 0
        invariant
            classes == classes_of(*db),
            line_ends(classes, name@, steps as nat) == line_ends(
                classes,
                class@,
                classes.dom().len(),
            ),
        decreases steps,
    {
        match class_named(db, name.as_str()) {
            Some(found) => match superclass(found) {
                Some(parent) => {
                    name = parent.to_owned();
                },
                None => {
                    return true;
                },
            },
            None => {
                return false;
            },
        }
        steps = steps - 1;
    }
    false
}

/// Whether a property, or the one that it stands for, is written; and its name, where
/// it is.
fn written_name(class: &'static ClassDescriptor<'static>, prop: &str) -> (r: Option<String>)
    ensures
        match r {
            Some(name) => is_written(class_of(*class), prop@) && name@ == meant(
                class_of(*class),
                prop@,
            ),
            None => !is_written(class_of(*class), prop@),
        },
{
    let found: &'static PropertyDescriptor<'static> = match property_named(class, prop) {
        Some(found) => found,
        None => {
            return None;
        },
    };
    let name: String = match way_of(found) {
        Way::Alias(name) => name,
        _ => prop.to_owned(),
    };
    let stands: &'static PropertyDescriptor<'static> = match property_named(class, name.as_str()) {
        Some(stands) => stands,
        None => {
            return None;
        },
    };
    match way_of(stands) {
        Way::Plain => Some(name),
        Way::As(_) => Some(name),
        Way::Moves(_) => Some(name),
        _ => None,
    }
}

/// Whether the ways that were found out are ways of the class.
spec fn found_out(classes: Classes, class: Seq<char>, ways: Map<Seq<char>, Seq<char>>) -> bool {
    forall|target: Seq<char>| #[trigger]
        ways.contains_key(target) ==> led_to(classes, class, target, ways[target])
}

/// Whether the ways in which a property is moved are among those found out.
spec fn seen(
    classes: Classes,
    class: Seq<char>,
    prop: Seq<char>,
    ways: Map<Seq<char>, Seq<char>>,
) -> bool {
    forall|i: int, target: Seq<char>, way: Seq<char>| #[trigger]
        leads(classes, class, prop, i, target, way) ==> ways.contains_key(target) && ways[target]
            == way
}

/// Whether the ways in which a property is moved are none but those found out, as far
/// as these go.
spec fn fits(
    classes: Classes,
    class: Seq<char>,
    prop: Seq<char>,
    ways: Map<Seq<char>, Seq<char>>,
) -> bool {
    forall|i: int, target: Seq<char>, way: Seq<char>| #[trigger]
        leads(classes, class, prop, i, target, way) && ways.contains_key(target) ==> ways[target]
            == way
}

/// Where two ways of a class lead to one name, it is not in order.
proof fn lemma_own_ways_differ(
    classes: Classes,
    class: Seq<char>,
    target: Seq<char>,
    a: Seq<char>,
    b: Seq<char>,
)
    requires
        classes.contains_key(class),
        led_to(classes, class, target, a),
        led_to(classes, class, target, b),
        a != b,
    ensures
        !class_holds(classes, class),
{
    if class_holds(classes, class) {
        assert(line_led_to(classes, class, target, b, classes.dom().len()));
    }
}

/// Hold a property against the others of its class, and find out the ways in which it
/// is moved.
fn hold_property(
    db: &'static ReflectionDatabase<'static>,
    class_name: &str,
    class: &'static ClassDescriptor<'static>,
    prop_name: &str,
    ways: &mut TextMap,
) -> (r: bool)
    requires
        classes_of(*db).contains_key(class_name@),
        classes_of(*db)[class_name@] == class_of(*class),
        class_of(*class).props.contains_key(prop_name@),
        found_out(classes_of(*db), class_name@, old(ways)@),
    ensures
        r ==> {
            &&& names_hold(class_of(*class), prop_name@)
            &&& found_out(classes_of(*db), class_name@, final(ways)@)
            &&& seen(classes_of(*db), class_name@, prop_name@, final(ways)@)
            &&& old(ways)@.submap_of(final(ways)@)
        },
        !r ==> !class_holds(classes_of(*db), class_name@),
{
    let ghost classes = classes_of(*db);
    let ghost c = class_of(*class);
    let prop: &'static PropertyDescriptor<'static> = match property_named(class, prop_name) {
        Some(prop) => prop,
        None => {
            return true;
        },
    };
    let ghost p = property_of(*prop);
    assert(!names_hold(c, prop_name@) ==> !class_holds(classes, class_name@)) by {
        assert(classes[class_name@] == c);
    }
    if !same(own_name(prop), prop_name) {
        return false;
    }
    let way: String = match way_of(prop) {
        Way::As(name) => {
            return property_named(class, name.as_str()).is_some();
        },
        Way::Alias(name) => {
            return property_named(class, name.as_str()).is_some();
        },
        Way::Moves(way) => way,
        _ => {
            return true;
        },
    };
    let targets: Vec<String> = migrates_to(prop);
    let ghost before = ways@;
    let mut i: usize = 0;
    while i < targets.len()
        invariant
            i <= targets@.len(),
            texts(targets@) == p.moved_to,
            classes == classes_of(*db),
            c == class_of(*class),
            classes.contains_key(class_name@),
            classes[class_name@] == c,
            c.props.contains_key(prop_name@),
            c.props[prop_name@] == p,
            p.form == Form::Moves(way@),
            p.name == prop_name@,
            before == old(ways)@,
            !names_hold(c, prop_name@) ==> !class_holds(classes, class_name@),
            found_out(classes, class_name@, ways@),
            before.submap_of(ways@),
            forall|k: int|
                0 <= k < i && is_written(c, #[trigger] p.moved_to[k]) ==> {
                    &&& ways@.contains_key(meant(c, p.moved_to[k]))
                    &&& ways@[meant(c, p.moved_to[k])] == way@
                },
        decreases targets@.len() - i,
    {
        assert(p.moved_to[i as int] == targets@[i as int]@);
        let name: String = match written_name(class, targets[i].as_str()) {
            Some(name) => name,
            None => {
                assert(!is_written(c, p.moved_to[i as int]));
                i = i + 1;
                continue;
            },
        };
        assert(leads(classes, class_name@, prop_name@, i as int, name@, way@));
        assert(led_to(classes, class_name@, name@, way@));
        let ghost ways_before = ways@;
        match ways.get(name.as_str()) {
            Some(other) => {
                if !same(other, way.as_str()) {
                    proof {
                        lemma_own_ways_differ(classes, class_name@, name@, ways@[name@], way@);
                    }
                    return false;
                }
            },
            None => {
                ways.insert(name.as_str().to_owned(), way.as_str().to_owned());
            },
        }
        assert(ways@.contains_key(name@) && ways@[name@] == way@);
        assert(ways_before.submap_of(ways@));
        i = i + 1;
    }
    assert(seen(classes, class_name@, prop_name@, ways@)) by {
        assert forall|k: int, target: Seq<char>, w: Seq<char>| #[trigger]
            leads(classes, class_name@, prop_name@, k, target, w) implies ways@.contains_key(target)
            && ways@[target] == w by {
            assert(target == meant(c, p.moved_to[k]));
        }
    }
    true
}

/// Hold the ways in which a property of a class is moved against those found out of
/// another.
fn hold_ways(
    db: &'static ReflectionDatabase<'static>,
    class_name: &str,
    class: &'static ClassDescriptor<'static>,
    prop_name: &str,
    ways: &TextMap,
) -> (r: bool)
    requires
        classes_of(*db).contains_key(class_name@),
        classes_of(*db)[class_name@] == class_of(*class),
        class_of(*class).props.contains_key(prop_name@),
    ensures
        r == fits(classes_of(*db), class_name@, prop_name@, ways@),
{
    let ghost classes = classes_of(*db);
    let ghost c = class_of(*class);
    let prop: &'static PropertyDescriptor<'static> = match property_named(class, prop_name) {
        Some(prop) => prop,
        None => {
            return true;
        },
    };
    let ghost p = property_of(*prop);
    let way: String = match way_of(prop) {
        Way::Moves(way) => way,
        _ => {
            return true;
        },
    };
    let targets: Vec<String> = migrates_to(prop);
    let mut i: usize = 0;
    while i < targets.len()
        invariant
            i <= targets@.len(),
            texts(targets@) == p.moved_to,
            classes == classes_of(*db),
            c == class_of(*class),
            classes.contains_key(class_name@),
            classes[class_name@] == c,
            c.props.contains_key(prop_name@),
            c.props[prop_name@] == p,
            p.form == Form::Moves(way@),
            forall|k: int|
                0 <= k < i && is_written(c, #[trigger] p.moved_to[k]) && ways@.contains_key(
                    meant(c, p.moved_to[k]),
                ) ==> ways@[meant(c, p.moved_to[k])] == way@,
        decreases targets@.len() - i,
    {
        assert(p.moved_to[i as int] == targets@[i as int]@);
        let name: String = match written_name(class, targets[i].as_str()) {
            Some(name) => name,
            None => {
                assert(!is_written(c, p.moved_to[i as int]));
                i = i + 1;
                continue;
            },
        };
        assert(leads(classes, class_name@, prop_name@, i as int, name@, way@));
        if let Some(other) = ways.get(name.as_str()) {
            if !same(other, way.as_str()) {
                return false;
            }
        }
        i = i + 1;
    }
    assert(fits(classes, class_name@, prop_name@, ways@)) by {
        assert forall|k: int, target: Seq<char>, w: Seq<char>| #[trigger]
            leads(classes, class_name@, prop_name@, k, target, w) && ways@.contains_key(
                target,
            ) implies ways@[target] == w by {
            assert(target == meant(c, p.moved_to[k]));
        }
    }
    true
}

/// Whether the ways in which all properties of a class are moved are none but those
/// found out, as far as these go.
spec fn class_fits(classes: Classes, class: Seq<char>, ways: Map<Seq<char>, Seq<char>>) -> bool {
    forall|target: Seq<char>, way: Seq<char>|
        #[trigger] led_to(classes, class, target, way) && ways.contains_key(target)
            ==> ways[target] == way
}

/// Hold the ways in which the properties of a class are moved against those found out
/// of another.
fn hold_class(
    db: &'static ReflectionDatabase<'static>,
    class_name: &str,
    class: &'static ClassDescriptor<'static>,
    ways: &TextMap,
) -> (r: bool)
    requires
        classes_of(*db).contains_key(class_name@),
        classes_of(*db)[class_name@] == class_of(*class),
    ensures
        r ==> class_fits(classes_of(*db), class_name@, ways@),
        !r ==> !class_fits(classes_of(*db), class_name@, ways@),
{
    let ghost classes = classes_of(*db);
    let ghost c = class_of(*class);
    let props: Vec<String> = property_names(class);
    let ghost listed = texts(props@);
    let mut j: usize = 0;
    while j < props.len()
        invariant
            j <= props@.len(),
            listed == texts(props@),
            classes == classes_of(*db),
            classes.contains_key(class_name@),
            classes[class_name@] == c,
            c == class_of(*class),
            forall|prop: Seq<char>| #[trigger] listed.contains(prop) == c.props.contains_key(prop),
            forall|k: int| 0 <= k < j ==> fits(classes, class_name@, #[trigger] listed[k], ways@),
        decreases props@.len() - j,
    {
        let ghost prop = listed[j as int];
        assert(prop == props@[j as int]@);
        assert(listed.contains(prop));
        if !hold_ways(db, class_name, class, props[j].as_str(), ways) {
            proof {
                if !fits(classes, class_name@, prop, ways@) {
                    let (n, target, way) = choose|n: int, target: Seq<char>, way: Seq<char>|
                        #[trigger] leads(classes, class_name@, prop, n, target, way)
                            && ways@.contains_key(target) && ways@[target] != way;
                    assert(leads(classes, class_name@, prop, n, target, way));
                    assert(led_to(classes, class_name@, target, way));
                }
            }
            return false;
        }
        j = j + 1;
    }
    assert(class_fits(classes, class_name@, ways@)) by {
        assert forall|target: Seq<char>, way: Seq<char>|
            #[trigger] led_to(classes, class_name@, target, way) && ways@.contains_key(
                target,
            ) implies ways@[target] == way by {
            let (prop, n) = choose|prop: Seq<char>, n: int|
                leads(classes, class_name@, prop, n, target, way);
            assert(listed.contains(prop));
            let k = choose|k: int| 0 <= k < listed.len() && listed[k] == prop;
            assert(fits(classes, class_name@, listed[k], ways@));
        }
    }
    true
}

/// Whether the ways of all classes on a line of descent are none but those found out, as
/// far as these go.
spec fn line_fits(
    classes: Classes,
    class: Seq<char>,
    ways: Map<Seq<char>, Seq<char>>,
    steps: nat,
) -> bool {
    forall|target: Seq<char>, way: Seq<char>|
        #[trigger] line_led_to(classes, class, target, way, steps) && ways.contains_key(target)
            ==> ways[target] == way
}

/// One class further up the line.
proof fn lemma_line_step(
    classes: Classes,
    class: Seq<char>,
    ways: Map<Seq<char>, Seq<char>>,
    steps: nat,
)
    requires
        steps > 0,
        classes.contains_key(class),
    ensures
        line_fits(classes, class, ways, steps) == {
            &&& class_fits(classes, class, ways)
            &&& match classes[class].parent {
                Some(parent) => line_fits(classes, parent, ways, (steps - 1) as nat),
                None => true,
            }
        },
{
    let rest_fits = match classes[class].parent {
        Some(parent) => line_fits(classes, parent, ways, (steps - 1) as nat),
        None => true,
    };
    if class_fits(classes, class, ways) && rest_fits {
        assert forall|target: Seq<char>, way: Seq<char>|
            #[trigger] line_led_to(classes, class, target, way, steps) && ways.contains_key(
                target,
            ) implies ways[target] == way by {
            if !led_to(classes, class, target, way) {
                let parent = classes[class].parent->0;
                assert(line_led_to(classes, parent, target, way, (steps - 1) as nat));
            }
        }
    }
    if line_fits(classes, class, ways, steps) {
        assert forall|target: Seq<char>, way: Seq<char>|
            #[trigger] led_to(classes, class, target, way) && ways.contains_key(
                target,
            ) implies ways[target] == way by {
            assert(line_led_to(classes, class, target, way, steps));
        }
        if classes[class].parent is Some {
            let parent = classes[class].parent->0;
            assert forall|target: Seq<char>, way: Seq<char>|
                #[trigger] line_led_to(classes, parent, target, way, (steps - 1) as nat)
                    && ways.contains_key(target) implies ways[target] == way by {
                assert(line_led_to(classes, class, target, way, steps));
            }
        }
    }
}

/// Hold the ways found out of a class against those of the classes that it descends
/// from.
fn hold_line(db: &'static ReflectionDatabase<'static>, class_name: &str, ways: &TextMap) -> (r:
    bool)
    ensures
        r == line_fits(classes_of(*db), class_name@, ways@, classes_of(*db).dom().len()),
{
    let ghost classes = classes_of(*db);
    let mut steps: usize = class_count(db);
    let mut name: String = class_name.to_owned();
    while steps > 0
        invariant
            classes == classes_of(*db),
            line_fits(classes, name@, ways@, steps as nat) == line_fits(
                classes,
                class_name@,
                ways@,
                classes.dom().len(),
            ),
        decreases steps,
    {
        let class: &'static ClassDescriptor<'static> = match class_named(db, name.as_str()) {
            Some(class) => class,
            None => {
                assert(line_fits(classes, name@, ways@, steps as nat));
                return true;
            },
        };
        proof {
            lemma_line_step(classes, name@, ways@, steps as nat);
        }
        if !hold_class(db, name.as_str(), class, ways) {
            return false;
        }
        match superclass(class) {
            Some(parent) => {
                name = parent.to_owned();
            },
            None => {
                return true;
            },
        }
        steps = steps - 1;
    }
    assert(line_fits(classes, name@, ways@, 0));
    true
}

/// Whether what a class names is there, and the ways in which its properties are moved
/// agree.
fn hold_all(db: &'static ReflectionDatabase<'static>, name: &str) -> (r: bool)
    requires
        classes_of(*db).contains_key(name@),
    ensures
        r == class_holds(classes_of(*db), name@),
{
    let ghost classes = classes_of(*db);
    if !ends(db, name) {
        return false;
    }
    let class: &'static ClassDescriptor<'static> = match class_named(db, name) {
        Some(class) => class,
        None => {
            return true;
        },
    };
    let ghost c = class_of(*class);
    let props: Vec<String> = property_names(class);
    let ghost listed = texts(props@);
    let mut ways: TextMap = TextMap::new();
    let mut j: usize = 0;
    while j < props.len()
        invariant
            j <= props@.len(),
            listed == texts(props@),
            classes == classes_of(*db),
            classes.contains_key(name@),
            classes[name@] == c,
            c == class_of(*class),
            forall|prop: Seq<char>| #[trigger] listed.contains(prop) == c.props.contains_key(prop),
            found_out(classes, name@, ways@),
            forall|k: int|
                0 <= k < j ==> {
                    &&& names_hold(c, #[trigger] listed[k])
                    &&& seen(classes, name@, listed[k], ways@)
                },
        decreases props@.len() - j,
    {
        assert(listed[j as int] == props@[j as int]@);
        assert(listed.contains(listed[j as int]));
        let ghost before = ways@;
        if !hold_property(db, name, class, props[j].as_str(), &mut ways) {
            return false;
        }
        proof {
            assert forall|k: int| 0 <= k < j + 1 implies {
                &&& names_hold(c, #[trigger] listed[k])
                &&& seen(classes, name@, listed[k], ways@)
            } by {
                if k < j {
                    lemma_seen_stays(classes, name@, listed[k], before, ways@);
                }
            }
        }
        j = j + 1;
    }
    proof {
        assert forall|prop: Seq<char>| c.props.contains_key(prop) implies #[trigger] names_hold(
            c,
            prop,
        ) by {
            assert(listed.contains(prop));
            let k = choose|k: int| 0 <= k < listed.len() && listed[k] == prop;
            assert(names_hold(c, listed[k]));
        }
        assert forall|target: Seq<char>, way: Seq<char>|
            #[trigger] led_to(classes, name@, target, way) implies ways@.contains_key(target)
            && ways@[target] == way by {
            let (prop, n) = choose|prop: Seq<char>, n: int|
                leads(classes, name@, prop, n, target, way);
            assert(listed.contains(prop));
            let k = choose|k: int| 0 <= k < listed.len() && listed[k] == prop;
            assert(seen(classes, name@, listed[k], ways@));
        }
    }
    if ways.is_empty() {
        return true;
    }
    let fine: bool = hold_line(db, name, &ways);
    proof {
        let steps = classes.dom().len();
        if line_fits(classes, name@, ways@, steps) {
            assert(ways_agree(classes, name@));
        } else {
            let (target, way) = choose|target: Seq<char>, way: Seq<char>|
                #[trigger] line_led_to(classes, name@, target, way, steps) && ways@.contains_key(
                    target,
                ) && ways@[target] != way;
            assert(line_led_to(classes, name@, target, way, steps));
            assert(led_to(classes, name@, target, ways@[target]));
            assert(!ways_agree(classes, name@));
        }
    }
    fine
}

/// Whether instances of a class can be written.
pub(crate) fn is_usable(db: &'static ReflectionDatabase<'static>, class_name: &str) -> (r: bool)
    ensures
        r == usable(classes_of(*db), class_name@),
{
    let ghost classes = classes_of(*db);
    let mut steps: usize = class_count(db);
    let mut name: String = class_name.to_owned();
    while steps > 0
        invariant
            classes == classes_of(*db),
            line_holds(classes, name@, steps as nat) == usable(classes, class_name@),
        decreases steps,
    {
        let class: &'static ClassDescriptor<'static> = match class_named(db, name.as_str()) {
            Some(class) => class,
            None => {
                return true;
            },
        };
        if !hold_all(db, name.as_str()) {
            return false;
        }
        match superclass(class) {
            Some(parent) => {
                name = parent.to_owned();
            },
            None => {
                return true;
            },
        }
        steps = steps - 1;
    }
    true
}

// ---------------------------------------------------------------------------
// Writing properties
// ---------------------------------------------------------------------------

/// The class that declares the property `prop` of `class`: itself, or one of those that
/// it descends from, of which `steps` are looked at.
pub open spec fn home(
    classes: Classes,
    class: Seq<char>,
    prop: Seq<char>,
    steps: nat,
) -> Option<Class>
    decreases steps,
{
    if steps == 0 || !classes.contains_key(class) {
        None
    } else if classes[class].props.contains_key(prop) {
        Some(classes[class])
    } else {
        match classes[class].parent {
            Some(parent) => home(classes, parent, prop, (steps - 1) as nat),
            None => None,
        }
    }
}

/// The property that `prop` is written as.
pub open spec fn written_as(class: Class, prop: Seq<char>) -> Seq<char> {
    match class.props[meant(class, prop)].form {
        Form::As(name) => name,
        _ => meant(class, prop),
    }
}

/// Whether a property can be written: where it is moved to others, these are written.
pub open spec fn movable(class: Class, prop: Seq<char>) -> bool {
    let p = class.props[written_as(class, prop)];
    p.form is Moves ==> forall|i: int|
        0 <= i < p.moved_to.len() ==> is_written(class, #[trigger] p.moved_to[i])
}

/// Whether all properties of an instance can be written. Those that no class declares
/// are written as they are.
pub open spec fn all_movable(classes: Classes, node: Node) -> bool {
    forall|prop: Seq<char>| #[trigger]
        node.props.contains_key(prop) ==> match home(
            classes,
            node.class,
            prop,
            classes.dom().len(),
        ) {
            Some(class) => movable(class, prop),
            None => true,
        }
}

/// The class that declares a property.
fn find_home(db: &'static ReflectionDatabase<'static>, class_name: &str, prop: &str) -> (r: Option<
    &'static ClassDescriptor<'static>,
>)
    ensures
        match r {
            Some(class) => {
                &&& home(classes_of(*db), class_name@, prop@, classes_of(*db).dom().len()) == Some(
                    class_of(*class),
                )
                &&& class_of(*class).props.contains_key(prop@)
            },
            None => home(classes_of(*db), class_name@, prop@, classes_of(*db).dom().len()) is None,
        },
{
    let ghost classes = classes_of(*db);
    let mut steps: usize = class_count(db);
    let mut name: String = class_name.to_owned();
    while steps > 0
        invariant
            classes == classes_of(*db),
            home(classes, name@, prop@, steps as nat) == home(
                classes,
                class_name@,
                prop@,
                classes.dom().len(),
            ),
        decreases steps,
    {
        let class: &'static ClassDescriptor<'static> = match class_named(db, name.as_str()) {
            Some(class) => class,
            None => {
                return None;
            },
        };
        if property_named(class, prop).is_some() {
            return Some(class);
        }
        match superclass(class) {
            Some(parent) => {
                name = parent.to_owned();
            },
            None => {
                return None;
            },
        }
        steps = steps - 1;
    }
    None
}

/// The class that declares a property of a usable class is in order.
proof fn lemma_home_holds(classes: Classes, class: Seq<char>, prop: Seq<char>, steps: nat)
    requires
        line_holds(classes, class, steps),
    ensures
        home(classes, class, prop, steps) matches Some(c) ==> forall|name: Seq<char>| #[trigger]
            c.props.contains_key(name) ==> names_hold(c, name),
    decreases steps,
{
    if steps > 0 && classes.contains_key(class) && !classes[class].props.contains_key(prop) {
        if let Some(parent) = classes[class].parent {
            lemma_home_holds(classes, parent, prop, (steps - 1) as nat);
        }
    }
}

/// Whether a property is known and not written. Values of it are not looked at.
pub open spec fn hidden(classes: Classes, class: Seq<char>, prop: Seq<char>) -> bool {
    match home(classes, class, prop, classes.dom().len()) {
        Some(c) => c.props.contains_key(meant(c, prop)) && c.props[meant(c, prop)].form is Hidden,
        None => false,
    }
}

/// Whether a property is known and not written.
pub(crate) fn is_hidden(db: &'static ReflectionDatabase<'static>, class_name: &str, prop: &str) -> (r:
    bool)
    ensures
        r == hidden(classes_of(*db), class_name@, prop@),
{
    let class: &'static ClassDescriptor<'static> = match find_home(db, class_name, prop) {
        Some(class) => class,
        None => {
            return false;
        },
    };
    let name: String = match property_named(class, prop) {
        Some(found) => match way_of(found) {
            Way::Alias(name) => name,
            _ => prop.to_owned(),
        },
        None => {
            return false;
        },
    };
    match property_named(class, name.as_str()) {
        Some(stands) => match way_of(stands) {
            Way::Hidden => true,
            _ => false,
        },
        None => false,
    }
}

/// Whether a search for the class that declares a property ends: it is found, or the line
/// of descent ends.
pub open spec fn search_ends(
    classes: Classes,
    class: Seq<char>,
    prop: Seq<char>,
    steps: nat,
) -> bool
    decreases steps,
{
    classes.contains_key(class) ==> {
        &&& steps > 0
        &&& classes[class].props.contains_key(prop) || match classes[class].parent {
            Some(parent) => search_ends(classes, parent, prop, (steps - 1) as nat),
            None => true,
        }
    }
}

/// Whether the property that a property stands for is there, and the one that it is
/// written as.
pub open spec fn stands_for_some(class: Class, prop: Seq<char>) -> bool {
    &&& class.props.contains_key(meant(class, prop))
    &&& class.props[meant(class, prop)].form matches Form::As(name) ==> class.props.contains_key(
        name,
    )
}

/// Whether a property can be read: what the database says of it is in order as far as it is
/// asked.
pub open spec fn readable(classes: Classes, class: Seq<char>, prop: Seq<char>) -> bool {
    &&& search_ends(classes, class, prop, classes.dom().len())
    &&& home(classes, class, prop, classes.dom().len()) matches Some(c) ==> stands_for_some(c, prop)
}

/// Whether a search for the class that declares a property ends.
fn does_end(db: &'static ReflectionDatabase<'static>, class_name: &str, prop: &str) -> (r: bool)
    ensures
        r == search_ends(classes_of(*db), class_name@, prop@, classes_of(*db).dom().len()),
{
    let ghost classes = classes_of(*db);
    let mut steps: usize = class_count(db);
    let mut name: String = class_name.to_owned();
    loop
        invariant
            classes == classes_of(*db),
            search_ends(classes, name@, prop@, steps as nat) == search_ends(
                classes,
                class_name@,
                prop@,
                classes.dom().len(),
            ),
        decreases steps,
    {
        let class: &'static ClassDescriptor<'static> = match class_named(db, name.as_str()) {
            Some(class) => class,
            None => {
                return true;
            },
        };
        if steps == 0 {
            return false;
        }
        if property_named(class, prop).is_some() {
            return true;
        }
        match superclass(class) {
            Some(parent) => {
                name = parent.to_owned();
            },
            None => {
                return true;
            },
        }
        steps = steps - 1;
    }
}

/// Whether a property can be read.
pub(crate) fn is_readable(
    db: &'static ReflectionDatabase<'static>,
    class_name: &str,
    prop: &str,
) -> (r: bool)
    ensures
        r == readable(classes_of(*db), class_name@, prop@),
{
    if !does_end(db, class_name, prop) {
        return false;
    }
    let class: &'static ClassDescriptor<'static> = match find_home(db, class_name, prop) {
        Some(class) => class,
        None => {
            return true;
        },
    };
    let name: String = match property_named(class, prop) {
        Some(found) => match way_of(found) {
            Way::Alias(name) => name,
            _ => prop.to_owned(),
        },
        None => {
            return true;
        },
    };
    match property_named(class, name.as_str()) {
        Some(stands) => match way_of(stands) {
            Way::As(other) => property_named(class, other.as_str()).is_some(),
            _ => true,
        },
        None => false,
    }
}

/// Whether a property of a class can be written.
fn is_movable(class: &'static ClassDescriptor<'static>, prop: &str) -> (r: bool)
    requires
        class_of(*class).props.contains_key(prop@),
        forall|name: Seq<char>| #[trigger]
            class_of(*class).props.contains_key(name) ==> names_hold(class_of(*class), name),
    ensures
        r == movable(class_of(*class), prop@),
{
    let ghost c = class_of(*class);
    let found: &'static PropertyDescriptor<'static> = match property_named(class, prop) {
        Some(found) => found,
        None => {
            return true;
        },
    };
    let name: String = match way_of(found) {
        Way::Alias(name) => name,
        _ => prop.to_owned(),
    };
    assert(names_hold(c, prop@));
    assert(name@ == meant(c, prop@));
    let stands: &'static PropertyDescriptor<'static> = match property_named(class, name.as_str()) {
        Some(stands) => stands,
        None => {
            return true;
        },
    };
    let last: &'static PropertyDescriptor<'static> = match way_of(stands) {
        Way::As(other) => {
            assert(names_hold(c, name@));
            match property_named(class, other.as_str()) {
                Some(last) => last,
                None => {
                    return true;
                },
            }
        },
        _ => stands,
    };
    let ghost p = property_of(*last);
    assert(p == c.props[written_as(c, prop@)]);
    match way_of(last) {
        Way::Moves(_) => {},
        _ => {
            return true;
        },
    }
    let targets: Vec<String> = migrates_to(last);
    let mut i: usize = 0;
    while i < targets.len()
        invariant
            i <= targets@.len(),
            texts(targets@) == p.moved_to,
            c == class_of(*class),
            p.form is Moves,
            p == c.props[written_as(c, prop@)],
            forall|k: int| 0 <= k < i ==> is_written(c, #[trigger] p.moved_to[k]),
        decreases targets@.len() - i,
    {
        assert(p.moved_to[i as int] == targets@[i as int]@);
        if written_name(class, targets[i].as_str()).is_none() {
            return false;
        }
        i = i + 1;
    }
    true
}

/// Whether all properties of an instance can be written.
pub(crate) fn is_all_movable(db: &'static ReflectionDatabase<'static>, inst: &Instance) -> (r: bool)
    requires
        usable(classes_of(*db), node_of(*inst).class),
    ensures
        r == all_movable(classes_of(*db), node_of(*inst)),
{
    let ghost classes = classes_of(*db);
    let ghost node = node_of(*inst);
    let props: Vec<String> = property_keys(inst);
    let ghost listed = texts(props@);
    let mut i: usize = 0;
    while i < props.len()
        invariant
            i <= props@.len(),
            listed == texts(props@),
            classes == classes_of(*db),
            usable(classes, node_of(*inst).class),
            node == node_of(*inst),
            forall|prop: Seq<char>| #[trigger]
                listed.contains(prop) == node.props.contains_key(prop),
            forall|k: int|
                0 <= k < i ==> match home(
                    classes,
                    node.class,
                    #[trigger] listed[k],
                    classes.dom().len(),
                ) {
                    Some(class) => movable(class, listed[k]),
                    None => true,
                },
        decreases props@.len() - i,
    {
        let prop: &str = props[i].as_str();
        assert(listed[i as int] == prop@);
        assert(listed.contains(prop@));
        assert(node.props.contains_key(prop@));
        proof {
            lemma_home_holds(classes, node.class, prop@, classes.dom().len());
        }
        if let Some(class) = find_home(db, instance_class(inst), prop) {
            if !is_movable(class, prop) {
                return false;
            }
        }
        i = i + 1;
    }
    assert forall|prop: Seq<char>| #[trigger] node.props.contains_key(prop) implies match home(
        classes,
        node.class,
        prop,
        classes.dom().len(),
    ) {
        Some(class) => movable(class, prop),
        None => true,
    } by {
        assert(listed.contains(prop));
        let k = choose|k: int| 0 <= k < listed.len() && listed[k] == prop;
        assert(listed[k] == prop);
    }
    true
}

/// What is among the ways found out stays among them.
proof fn lemma_seen_stays(
    classes: Classes,
    class: Seq<char>,
    prop: Seq<char>,
    few: Map<Seq<char>, Seq<char>>,
    many: Map<Seq<char>, Seq<char>>,
)
    requires
        seen(classes, class, prop, few),
        few.submap_of(many),
    ensures
        seen(classes, class, prop, many),
{
    assert forall|i: int, target: Seq<char>, way: Seq<char>| #[trigger]
        leads(classes, class, prop, i, target, way) implies many.contains_key(target)
        && many[target] == way by {
        assert(few.contains_key(target));
        assert(few.dom().contains(target));
        assert(many.dom().contains(target));
    }
}

// ---------------------------------------------------------------------------
// Laws
// ---------------------------------------------------------------------------

/// Whether each class that is known descends from one that is known, or from none, and lies lower
/// than that; each property has the name that it is filed under, and what it stands for or is
/// written as is there; and what is moved to one name is moved in one way.
pub open spec fn consistent(classes: Classes, height: spec_fn(Seq<char>) -> nat) -> bool {
    &&& forall|class: Seq<char>| #[trigger]
        classes.contains_key(class) ==> {
            &&& classes[class].parent matches Some(parent) ==> classes.contains_key(parent)
                && height(parent) < height(class)
            &&& forall|prop: Seq<char>| #[trigger]
                classes[class].props.contains_key(prop) ==> {
                    let p = classes[class].props[prop];
                    &&& p.name == prop
                    &&& p.form matches Form::As(name) ==> classes[class].props.contains_key(name)
                    &&& p.form matches Form::Alias(name) ==> classes[class].props.contains_key(name)
                }
        }
    &&& forall|a: Seq<char>, b: Seq<char>, target: Seq<char>, x: Seq<char>, y: Seq<char>|
        #[trigger] led_to(classes, a, target, x) && #[trigger] led_to(classes, b, target, y) ==> x
            == y
}

proof fn lemma_line_ends(
    classes: Classes,
    height: spec_fn(Seq<char>) -> nat,
    class: Seq<char>,
    above: Set<Seq<char>>,
    steps: nat,
)
    requires
        classes.dom().finite(),
        consistent(classes, height),
        classes.contains_key(class),
        above.subset_of(classes.dom()),
        forall|a: Seq<char>| #[trigger] above.contains(a) ==> height(class) < height(a),
        steps + above.len() == classes.dom().len(),
    ensures
        line_ends(classes, class, steps),
    decreases height(class),
{
    assert(!above.contains(class));
    let more = above.insert(class);
    vstd::set_lib::lemma_len_subset(above, classes.dom());
    assert(above.finite());
    assert(more.subset_of(classes.dom()));
    vstd::set_lib::lemma_len_subset(more, classes.dom());
    assert(steps > 0);
    if let Some(parent) = classes[class].parent {
        lemma_line_ends(classes, height, parent, more, (steps - 1) as nat);
    }
}

proof fn lemma_led_on_the_line(
    classes: Classes,
    class: Seq<char>,
    target: Seq<char>,
    way: Seq<char>,
    steps: nat,
) -> (home: Seq<char>)
    requires
        line_led_to(classes, class, target, way, steps),
    ensures
        led_to(classes, home, target, way),
    decreases steps,
{
    if led_to(classes, class, target, way) {
        class
    } else {
        let parent = classes[class].parent->0;
        lemma_led_on_the_line(classes, parent, target, way, (steps - 1) as nat)
    }
}

proof fn lemma_line_holds(
    classes: Classes,
    height: spec_fn(Seq<char>) -> nat,
    class: Seq<char>,
    steps: nat,
)
    requires
        classes.dom().finite(),
        consistent(classes, height),
    ensures
        line_holds(classes, class, steps),
    decreases steps,
{
    if steps > 0 && classes.contains_key(class) {
        lemma_line_ends(classes, height, class, Set::empty(), classes.dom().len());
        assert forall|prop: Seq<char>|
            classes[class].props.contains_key(prop) implies #[trigger] names_hold(
            classes[class],
            prop,
        ) by {}
        assert(ways_agree(classes, class)) by {
            assert forall|target: Seq<char>, a: Seq<char>, b: Seq<char>|
                #[trigger] led_to(classes, class, target, a) && #[trigger] line_led_to(
                    classes,
                    class,
                    target,
                    b,
                    classes.dom().len(),
                ) implies a == b by {
                let home = lemma_led_on_the_line(classes, class, target, b, classes.dom().len());
                assert(led_to(classes, home, target, b));
            }
        }
        if let Some(parent) = classes[class].parent {
            lemma_line_holds(classes, height, parent, (steps - 1) as nat);
        }
    }
}

/// Instances of every class can be written with a database that is consistent, and values of
/// every property can be read. So can those of a class that it does not know, with any database.
pub proof fn law_a_consistent_database_can_be_used(
    classes: Classes,
    height: spec_fn(Seq<char>) -> nat,
    class: Seq<char>,
    prop: Seq<char>,
)
    requires
        classes.dom().finite(),
    ensures
        consistent(classes, height) ==> usable(classes, class) && readable(classes, class, prop),
        !classes.contains_key(class) ==> usable(classes, class) && readable(classes, class, prop),
{
    if consistent(classes, height) {
        lemma_line_holds(classes, height, class, classes.dom().len());
        lemma_search_ends(classes, height, class, prop, Set::empty(), classes.dom().len());
        if home(classes, class, prop, classes.dom().len()) is Some {
            lemma_stands_for_some(classes, height, class, prop, classes.dom().len());
        }
    }
}

proof fn lemma_search_ends(
    classes: Classes,
    height: spec_fn(Seq<char>) -> nat,
    class: Seq<char>,
    prop: Seq<char>,
    above: Set<Seq<char>>,
    steps: nat,
)
    requires
        classes.dom().finite(),
        consistent(classes, height),
        above.subset_of(classes.dom()),
        forall|a: Seq<char>| #[trigger] above.contains(a) ==> height(class) < height(a),
        steps + above.len() == classes.dom().len(),
    ensures
        search_ends(classes, class, prop, steps),
    decreases height(class),
{
    if classes.contains_key(class) {
        let more = above.insert(class);
        vstd::set_lib::lemma_len_subset(above, classes.dom());
        assert(!above.contains(class));
        assert(more.subset_of(classes.dom()));
        vstd::set_lib::lemma_len_subset(more, classes.dom());
        if let Some(parent) = classes[class].parent {
            lemma_search_ends(classes, height, parent, prop, more, (steps - 1) as nat);
        }
    }
}

proof fn lemma_stands_for_some(
    classes: Classes,
    height: spec_fn(Seq<char>) -> nat,
    class: Seq<char>,
    prop: Seq<char>,
    steps: nat,
)
    requires
        consistent(classes, height),
        home(classes, class, prop, steps) is Some,
    ensures
        stands_for_some(home(classes, class, prop, steps)->0, prop),
    decreases steps,
{
    if classes[class].props.contains_key(prop) {
        let c = classes[class];
        assert(c.props.contains_key(meant(c, prop)));
    } else {
        let parent = classes[class].parent->0;
        lemma_stands_for_some(classes, height, parent, prop, (steps - 1) as nat);
    }
}

/// The properties of an instance can be written where none of those that its class has or
/// inherits is moved to others.
pub proof fn law_what_is_not_moved_can_be_written(classes: Classes, node: Node)
    requires
        forall|class: Seq<char>, prop: Seq<char>|
            classes.contains_key(class) && #[trigger] classes[class].props.contains_key(prop)
                ==> !(classes[class].props[prop].form is Moves),
        forall|class: Seq<char>, prop: Seq<char>|
            classes.contains_key(class) && #[trigger] classes[class].props.contains_key(prop)
                ==> classes[class].props.contains_key(written_as(classes[class], prop)),
    ensures
        all_movable(classes, node),
{
    assert forall|prop: Seq<char>| #[trigger] node.props.contains_key(prop) implies match home(
        classes,
        node.class,
        prop,
        classes.dom().len(),
    ) {
        Some(class) => movable(class, prop),
        None => true,
    } by {
        if home(classes, node.class, prop, classes.dom().len()) is Some {
            let class = lemma_home_is_known(classes, node.class, prop, classes.dom().len());
            assert(classes[class].props.contains_key(prop));
        }
    }
}

proof fn lemma_home_is_known(classes: Classes, class: Seq<char>, prop: Seq<char>, steps: nat) -> (
    name: Seq<char>)
    requires
        home(classes, class, prop, steps) is Some,
    ensures
        classes.contains_key(name),
        classes[name] == home(classes, class, prop, steps)->0,
        classes[name].props.contains_key(prop),
    decreases steps,
{
    if classes[class].props.contains_key(prop) {
        class
    } else {
        lemma_home_is_known(classes, classes[class].parent->0, prop, (steps - 1) as nat)
    }
}

/// What has to be there for instances of a class that is known to be written: the class that it
/// descends from, and for each of its properties the name that it is filed under, and what it stands
/// for or is written as. What it moves to one name it moves in one way.
pub proof fn law_a_class_that_can_be_written(
    classes: Classes,
    class: Seq<char>,
    prop: Seq<char>,
    target: Seq<char>,
    a: Seq<char>,
    b: Seq<char>,
)
    requires
        classes.dom().finite(),
        classes.contains_key(class),
        usable(classes, class),
    ensures
        classes[class].parent matches Some(parent) ==> classes.contains_key(parent) && parent
            != class,
        classes[class].props.contains_key(prop) ==> {
            let p = classes[class].props[prop];
            &&& p.name == prop
            &&& p.form matches Form::As(name) ==> classes[class].props.contains_key(name)
            &&& p.form matches Form::Alias(name) ==> classes[class].props.contains_key(name)
        },
        led_to(classes, class, target, a) && led_to(classes, class, target, b) ==> a == b,
{
    let n = classes.dom().len();
    if n == 0 {
        classes.dom().lemma_len0_is_empty();
    }
    assert(class_holds(classes, class));
    if classes[class].props.contains_key(prop) {
        assert(names_hold(classes[class], prop));
    }
    if let Some(parent) = classes[class].parent {
        assert(line_ends(classes, parent, (n - 1) as nat));
        if parent == class {
            lemma_no_end(classes, class, n);
        }
    }
    if led_to(classes, class, target, a) && led_to(classes, class, target, b) {
        assert(line_led_to(classes, class, target, b, n));
    }
}

proof fn lemma_no_end(classes: Classes, class: Seq<char>, steps: nat)
    requires
        classes.contains_key(class),
        classes[class].parent == Some(class),
    ensures
        !line_ends(classes, class, steps),
    decreases steps,
{
    if steps > 0 {
        lemma_no_end(classes, class, (steps - 1) as nat);
    }
}

/// A property that a class declares can be read just where what it stands for is there, and what that
/// is written as. Where it is moved to another, it can be written only if that is written.
pub proof fn law_a_property_that_can_be_used(
    classes: Classes,
    class: Seq<char>,
    prop: Seq<char>,
    node: Node,
    i: int,
)
    requires
        classes.dom().finite(),
        classes.contains_key(class),
        classes[class].props.contains_key(prop),
    ensures
        classes[class].props[prop].form is Plain || classes[class].props[prop].form is Hidden
            || classes[class].props[prop].form is Moves ==> readable(classes, class, prop),
        classes[class].props[prop].form matches Form::As(name) ==> readable(classes, class, prop)
            == classes[class].props.contains_key(name),
        classes[class].props[prop].form matches Form::Alias(name) ==> (readable(
            classes,
            class,
            prop,
        ) ==> classes[class].props.contains_key(name)),
        node.class == class && node.props.contains_key(prop) && all_movable(classes, node)
            && classes[class].props[prop].form is Moves && 0 <= i
            < classes[class].props[prop].moved_to.len() ==> is_written(
            classes[class],
            classes[class].props[prop].moved_to[i],
        ),
{
    let n = classes.dom().len();
    if n == 0 {
        classes.dom().lemma_len0_is_empty();
    }
    let c = classes[class];
    assert(home(classes, class, prop, n) == Some(c));
    assert(search_ends(classes, class, prop, n));
    if node.class == class && node.props.contains_key(prop) && all_movable(classes, node)
        && c.props[prop].form is Moves && 0 <= i < c.props[prop].moved_to.len() {
        assert(movable(c, prop));
        assert(is_written(c, c.props[written_as(c, prop)].moved_to[i]));
    }
}

} // verus!
