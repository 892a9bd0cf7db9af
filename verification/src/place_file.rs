//! A place as the bytes of a file.
//!
//! Reading and writing are left to `rbx_binary`. It asks the reflection database
//! and gives instances random references, so there are many outcomes for one input,
//! and a relation stands for them. It takes for granted that the bytes are what they
//! announce, that the database is in order as far as it is asked, that every instance
//! is filed under its own reference and lies where it says, and that a property can be
//! moved to where the database says, so that is tested first.

use crate::catalogue::{all_movable, is_all_movable, is_usable, usable};
use crate::chunks::{is_presentable, presentable};
use crate::place::{instance_class, same_ref, scene, Node, Scene};
use crate::reflection::{at_hand, classes_of, may_know, reflection, Classes, Reflection};
use crate::text_map::TextSet;
use rbx_dom_weak::types::Ref;
use rbx_dom_weak::WeakDom;
use rbx_reflection::ReflectionDatabase;
use vstd::prelude::*;
use vstd::string::*;

verus! {

// ---------------------------------------------------------------------------
// What can be written
// ---------------------------------------------------------------------------

/// How many instances are left to go into, below the instances `above`.
pub open spec fn places_left(s: Scene, above: Set<Ref>) -> nat {
    s.nodes.dom().difference(above).len()
}

/// Going into an instance leaves fewer.
pub proof fn lemma_places_left(s: Scene, above: Set<Ref>, r: Ref)
    requires
        s.nodes.dom().finite(),
        s.nodes.contains_key(r),
        !above.contains(r),
    ensures
        places_left(s, above.insert(r)) < places_left(s, above),
{
    let left = s.nodes.dom().difference(above);
    assert(left.contains(r));
    assert(s.nodes.dom().difference(above.insert(r)) =~= left.remove(r));
}

/// Whether an instance that is filed under `r` and lies in `parent` says so itself, and
/// can be written: the database can be asked about its class, and its properties can be
/// moved to where the database says.
pub open spec fn in_place(classes: Classes, node: Node, parent: Ref, r: Ref) -> bool {
    &&& node.referent == r
    &&& node.parent == parent
    &&& usable(classes, node.class)
    &&& all_movable(classes, node)
}

/// Whether the child `r` of `parent` and all below it can be written: each is in its
/// place, and none lies below itself. `above` are the instances that it lies in.
pub open spec fn writable(
    classes: Classes,
    s: Scene,
    above: Set<Ref>,
    parent: Ref,
    r: Ref,
) -> bool
    decreases places_left(s, above), 0nat, 0nat,
{
    s.nodes.contains_key(r) ==> if above.contains(r) || !s.nodes.dom().finite() || !in_place(
        classes,
        s.nodes[r],
        parent,
        r,
    ) {
        false
    } else {
        proof {
            lemma_places_left(s, above, r);
        }
        all_writable(classes, s, above.insert(r), r, s.nodes[r].children)
    }
}

/// Whether all of the children `refs` of `parent` and all below them can be written.
pub open spec fn all_writable(
    classes: Classes,
    s: Scene,
    above: Set<Ref>,
    parent: Ref,
    refs: Seq<Ref>,
) -> bool
    decreases places_left(s, above), 1nat, refs.len(),
{
    refs.len() > 0 ==> {
        &&& writable(classes, s, above, parent, refs[0])
        &&& all_writable(classes, s, above, parent, refs.skip(1))
    }
}

/// Whether everything below the root of a place can be written. The root lies in no other
/// instance.
pub open spec fn place_writable(classes: Classes, s: Scene) -> bool {
    &&& s.nodes.contains_key(s.root)
    &&& !s.nodes.contains_key(s.nodes[s.root].parent)
    &&& all_writable(classes, s, set![s.root], s.root, s.nodes[s.root].children)
}

/// How many steps it takes to go through an instance and all below it.
spec fn weight(s: Scene, above: Set<Ref>, r: Ref) -> nat
    decreases places_left(s, above), 0nat, 0nat,
{
    if s.nodes.contains_key(r) && !above.contains(r) && s.nodes.dom().finite() {
        proof {
            lemma_places_left(s, above, r);
        }
        1 + weights(s, above.insert(r), s.nodes[r].children)
    } else {
        1
    }
}

/// How many steps it takes to go through instances and all below them.
spec fn weights(s: Scene, above: Set<Ref>, refs: Seq<Ref>) -> nat
    decreases places_left(s, above), 1nat, refs.len(),
{
    if refs.len() == 0 {
        0
    } else {
        weight(s, above, refs[0]) + weights(s, above, refs.skip(1))
    }
}

/// The instances that are being gone through, from the root on, each with how many of its
/// children are done.
type Trail = Seq<(Ref, usize)>;

/// The instances of a trail.
spec fn trail_refs(trail: Trail) -> Seq<Ref> {
    Seq::new(trail.len(), |i: int| trail[i].0)
}

/// The children that are not done yet of the last instance of a trail.
spec fn left_over(s: Scene, trail: Trail) -> Seq<Ref> {
    s.nodes[trail.last().0].children.skip(trail.last().1 as int)
}

/// Whether all that is not done yet can be written.
spec fn rest_writable(classes: Classes, s: Scene, trail: Trail) -> bool
    decreases trail.len(),
{
    trail.len() > 0 ==> {
        &&& rest_writable(classes, s, trail.drop_last())
        &&& all_writable(
            classes,
            s,
            trail_refs(trail).to_set(),
            trail.last().0,
            left_over(s, trail),
        )
    }
}

/// How many steps it takes to go through all that is not done yet.
spec fn rest_weight(s: Scene, trail: Trail) -> nat
    decreases trail.len(),
{
    if trail.len() == 0 {
        0
    } else {
        rest_weight(s, trail.drop_last()) + weights(
            s,
            trail_refs(trail).to_set(),
            left_over(s, trail),
        )
    }
}

/// Whether the instances of a trail lie in each other, as they say themselves, and the
/// first one in none.
spec fn trail_holds(s: Scene, trail: Trail) -> bool {
    &&& forall|i: int| 0 <= i < trail.len() ==> s.nodes.contains_key((#[trigger] trail[i]).0)
    &&& forall|i: int|
        0 <= i < trail.len() ==> (#[trigger] trail[i]).1 <= s.nodes[trail[i].0].children.len()
    &&& forall|i: int|
        0 < i < trail.len() ==> s.nodes[(#[trigger] trail[i]).0].parent == trail[i - 1].0
    &&& trail_refs(trail).no_duplicates()
    &&& trail.len() > 0 ==> !s.nodes.contains_key(s.nodes[trail[0].0].parent)
}

/// What lies in the last instance of a trail, as it says itself, is none of the trail.
proof fn lemma_not_on_the_trail(s: Scene, trail: Trail, r: Ref)
    requires
        trail_holds(s, trail),
        trail.len() > 0,
        s.nodes.contains_key(r),
        s.nodes[r].parent == trail.last().0,
    ensures
        !trail_refs(trail).contains(r),
{
    let refs = trail_refs(trail);
    if refs.contains(r) {
        let i = choose|i: int| 0 <= i < refs.len() && refs[i] == r;
        assert(trail[i].0 == r);
        assert(s.nodes.contains_key(trail[trail.len() - 1].0));
        if i > 0 {
            assert(s.nodes[trail[i].0].parent == trail[i - 1].0);
            assert(refs[i - 1] == refs[refs.len() - 1]);
        }
    }
}

/// Whether everything below the root of a place can be written.
#[verifier::rlimit(40)]
fn can_write(db: &'static ReflectionDatabase<'static>, dom: &WeakDom) -> (r: bool)
    ensures
        r == place_writable(classes_of(*db), scene(*dom)),
{
    let ghost classes = classes_of(*db);
    let ghost s = scene(*dom);
    let root: Ref = dom.root_ref();
    let lies_in: Ref = match dom.get_by_ref(root) {
        Some(inst) => inst.parent(),
        None => {
            return false;
        },
    };
    if dom.get_by_ref(lies_in).is_some() {
        return false;
    }
    let mut trail: Vec<(Ref, usize)> = Vec::new();
    trail.push((root, 0));
    proof {
        let t = trail@;
        assert(t.drop_last() =~= Seq::<(Ref, usize)>::empty());
        assert(trail_refs(t) =~= seq![root]);
        assert(trail_refs(t)[0] == root);
        assert(trail_refs(t).to_set() =~= set![root]);
        assert(left_over(s, t) =~= s.nodes[root].children);
        assert(rest_writable(classes, s, t.drop_last()));
    }
    let mut fine: TextSet = TextSet::new();
    loop
        invariant
            classes == classes_of(*db),
            s == scene(*dom),
            s.nodes.dom().finite(),
            trail_holds(s, trail@),
            rest_writable(classes, s, trail@) == place_writable(classes, s),
            forall|class: Seq<char>| #[trigger] fine@.contains(class) ==> usable(classes, class),
        decreases rest_weight(s, trail@), trail@.len(),
    {
        let ghost before = trail@;
        let (at, done): (Ref, usize) = match trail.pop() {
            Some(last) => last,
            None => {
                return true;
            },
        };
        let ghost front = trail@;
        proof {
            assert(front =~= before.drop_last());
            assert(before[before.len() - 1] == (at, done));
        }
        let children: &[Ref] = match dom.get_by_ref(at) {
            Some(inst) => inst.children(),
            None => {
                return true;
            },
        };
        let ghost above = trail_refs(before).to_set();
        if done >= children.len() {
            proof {
                assert(left_over(s, before) =~= Seq::<Ref>::empty());
                lemma_shorter(s, before);
            }
            continue;
        }
        let child: Ref = children[done];
        trail.push((at, done + 1));
        let ghost after = trail@;
        proof {
            lemma_one_more_done(classes, s, before, after);
        }
        if let Some(inst) = dom.get_by_ref(child) {
            if !same_ref(inst.referent(), child) || !same_ref(inst.parent(), at) {
                return false;
            }
            let class: &str = instance_class(inst);
            if !fine.contains(class) {
                if !is_usable(db, class) {
                    return false;
                }
                fine.insert(class.to_owned());
            }
            if !is_all_movable(db, inst) {
                return false;
            }
            trail.push((child, 0));
            proof {
                lemma_one_deeper(classes, s, after, child, trail@);
            }
        }
    }
}

/// Going back from an instance.
proof fn lemma_shorter(s: Scene, trail: Trail)
    requires
        trail_holds(s, trail),
        trail.len() > 0,
    ensures
        trail_holds(s, trail.drop_last()),
        rest_weight(s, trail.drop_last()) <= rest_weight(s, trail),
{
    let front = trail.drop_last();
    assert(trail_refs(front) =~= trail_refs(trail).drop_last());
    assert forall|i: int| 0 <= i < front.len() implies s.nodes.contains_key((#[trigger] front[i]).0)
        && front[i].1 <= s.nodes[front[i].0].children.len() && (i > 0 ==> s.nodes[front[i].0].parent
        == front[i - 1].0) by {
        assert(front[i] == trail[i]);
        if i > 0 {
            assert(front[i - 1] == trail[i - 1]);
        }
    }
    if front.len() > 0 {
        assert(front[0] == trail[0]);
    }
}

/// One child of the last instance is taken up.
proof fn lemma_one_more_done(classes: Classes, s: Scene, before: Trail, after: Trail)
    requires
        trail_holds(s, before),
        before.len() > 0,
        before.last().1 < s.nodes[before.last().0].children.len(),
        after == before.drop_last().push((before.last().0, (before.last().1 + 1) as usize)),
        before.last().1 + 1 <= usize::MAX,
    ensures
        trail_holds(s, after),
        ({
            let child = s.nodes[before.last().0].children[before.last().1 as int];
            let above = trail_refs(after).to_set();
            &&& rest_writable(classes, s, before) == (rest_writable(classes, s, after)
                && writable(classes, s, above, after.last().0, child))
            &&& rest_weight(s, before) == rest_weight(s, after) + weight(s, above, child)
        }),
        after.len() == before.len(),
{
    assert(after.drop_last() =~= before.drop_last());
    assert(trail_refs(after) =~= trail_refs(before));
    let left = left_over(s, before);
    assert(left.skip(1) =~= left_over(s, after));
    assert(left[0] == s.nodes[before.last().0].children[before.last().1 as int]);
    assert forall|i: int| 0 <= i < after.len() implies (#[trigger] after[i]).0 == before[i].0
        && s.nodes.contains_key(after[i].0) && after[i].1 <= s.nodes[after[i].0].children.len() && (i
        > 0 ==> s.nodes[after[i].0].parent == after[i - 1].0) by {
        assert(s.nodes.contains_key(before[i].0));
        if i < after.len() - 1 {
            assert(after[i] == before[i]);
        }
        if i > 0 {
            assert(after[i - 1].0 == before[i - 1].0);
        }
    }
}

/// A child that is in its place is gone into.
proof fn lemma_one_deeper(classes: Classes, s: Scene, before: Trail, child: Ref, after: Trail)
    requires
        s.nodes.dom().finite(),
        trail_holds(s, before),
        before.len() > 0,
        s.nodes.contains_key(child),
        in_place(classes, s.nodes[child], before.last().0, child),
        after == before.push((child, 0)),
    ensures
        trail_holds(s, after),
        ({
            let above = trail_refs(before).to_set();
            &&& rest_writable(classes, s, after) == (rest_writable(classes, s, before)
                && writable(classes, s, above, before.last().0, child))
            &&& rest_weight(s, after) + 1 == rest_weight(s, before) + weight(s, above, child)
        }),
{
    lemma_not_on_the_trail(s, before, child);
    let refs = trail_refs(before);
    assert(after.drop_last() =~= before);
    assert(trail_refs(after) =~= refs.push(child));
    refs.lemma_push_to_set_commute(child);
    assert(!refs.to_set().contains(child));
    assert(left_over(s, after) =~= s.nodes[child].children);
    assert forall|i: int| 0 <= i < after.len() implies s.nodes.contains_key((#[trigger] after[i]).0)
        && after[i].1 <= s.nodes[after[i].0].children.len() && (i > 0 ==> s.nodes[after[i].0].parent
        == after[i - 1].0) by {
        if i < before.len() {
            assert(after[i] == before[i]);
        }
        if i > 0 {
            assert(after[i - 1] == before[i - 1]);
        }
    }
    assert(after[0] == before[0]);
}

// ---------------------------------------------------------------------------
// Reading and writing
// ---------------------------------------------------------------------------

/// Whether reading the bytes of a place file, with this database, can come to
/// `outcome`: a place, or a message.
pub uninterp spec fn may_decode(
    classes: Classes,
    bytes: Seq<u8>,
    outcome: Result<Scene, Seq<char>>,
) -> bool;

/// Whether writing the instances `tops` of a place, with all below them, can come,
/// with this database, to `outcome`: the bytes of a place file, or a message.
pub uninterp spec fn may_encode(
    classes: Classes,
    s: Scene,
    tops: Seq<Ref>,
    outcome: Result<Seq<u8>, Seq<char>>,
) -> bool;

/// `rbx_binary::Deserializer::deserialize`: read the bytes of a place file. Of the
/// place that comes back nothing is said but that it is one of those that the bytes
/// can be read as. `Deserializer::new` asks for the machine's own database, `_own`, and
/// does not return where there is none.
#[verifier::external_body]
fn decode(
    _own: &'static ReflectionDatabase<'static>,
    db: &'static ReflectionDatabase<'static>,
    bytes: &[u8],
) -> (r: Result<WeakDom, String>)
    requires
        may_know(Some(classes_of(*_own))),
        presentable(classes_of(*db), bytes@),
    ensures
        match r {
            Ok(dom) => may_decode(classes_of(*db), bytes@, Ok(scene(dom))),
            Err(e) => may_decode(classes_of(*db), bytes@, Err(e@)),
        },
{
    let reader = rbx_binary::Deserializer::new().reflection_database(db);
    reader.deserialize(bytes).map_err(|e| e.to_string())
}

/// `rbx_binary::Serializer::serialize`: write the instances at the top of a place, with
/// all below them. Of the bytes that come back nothing is said but that they are some that
/// the instances can be written as. `Serializer::new` asks for the machine's own
/// database, `_own`, and does not return where there is none.
#[verifier::external_body]
fn encode(
    _own: &'static ReflectionDatabase<'static>,
    db: &'static ReflectionDatabase<'static>,
    dom: &WeakDom,
    tops: &[Ref],
) -> (r: Result<Vec<u8>, String>)
    requires
        may_know(Some(classes_of(*_own))),
        place_writable(classes_of(*db), scene(*dom)),
        tops@ == scene(*dom).nodes[scene(*dom).root].children,
    ensures
        match r {
            Ok(bytes) => may_encode(classes_of(*db), scene(*dom), tops@, Ok(bytes@)),
            Err(e) => may_encode(classes_of(*db), scene(*dom), tops@, Err(e@)),
        },
{
    let mut bytes = Vec::new();
    let writer = rbx_binary::Serializer::new().reflection_database(db);
    writer.serialize(&mut bytes, dom, tops).map_err(|e| e.to_string())?;
    Ok(bytes)
}

/// What is said where there is no reflection database.
pub open spec fn no_database() -> Seq<char> {
    "the reflection database cannot be read"@
}

/// What is said of bytes that cannot be handed over.
pub open spec fn broken_chunks() -> Seq<char> {
    "the chunks of the file are not what they announce, or the reflection database is not in order for what they hold"@
}

/// What is said of a place with an instance that cannot be written.
pub open spec fn stuck() -> Seq<char> {
    "an instance is not in its place, or the reflection database is not in order for what it is"@
}

/// Whether `r` is what reading the bytes of a file comes to.
pub open spec fn place_read(
    refl: Reflection,
    name: Seq<char>,
    bytes: Seq<u8>,
    r: Result<WeakDom, String>,
) -> bool {
    let head = "parsing "@ + name + ": "@;
    match (refl, r) {
        (None, Ok(_)) => false,
        (None, Err(e)) => e@ == head + no_database(),
        (Some(db), Ok(dom)) => {
            &&& presentable(classes_of(*db), bytes)
            &&& may_decode(classes_of(*db), bytes, Ok(scene(dom)))
        },
        (Some(db), Err(e)) => {
            ||| may_know(None) && e@ == head + no_database()
            ||| if !presentable(classes_of(*db), bytes) {
                e@ == head + broken_chunks()
            } else {
                exists|reason: Seq<char>|
                    {
                        &&& #[trigger] may_decode(classes_of(*db), bytes, Err(reason))
                        &&& e@ == head + reason
                    }
            }
        },
    }
}

/// Read a place out of the bytes of a file, with the database at hand. `name` is
/// what the file is called.
pub fn read_place_in(refl: Reflection, name: &str, bytes: &[u8]) -> (r: Result<WeakDom, String>)
    ensures
        place_read(refl, name@, bytes@, r),
{
    let mut e: String = "parsing ".to_owned();
    e.append(name);
    e.append(": ");
    let (own, db) = match (reflection(), refl) {
        (Some(own), Some(db)) => (own, db),
        _ => {
            e.append("the reflection database cannot be read");
            return Err(e);
        },
    };
    if !is_presentable(db, bytes) {
        e.append(
            "the chunks of the file are not what they announce, or the reflection database is not in order for what they hold",
        );
        return Err(e);
    }
    match decode(own, db, bytes) {
        Ok(dom) => Ok(dom),
        Err(reason) => {
            e.append(reason.as_str());
            assert(may_decode(classes_of(*db), bytes@, Err(reason@)));
            Err(e)
        },
    }
}

/// Read a place out of the bytes of a file. `name` is what the file is called.
pub fn read_place(name: &str, bytes: &[u8]) -> (r: Result<WeakDom, String>)
    ensures
        exists|refl: Reflection|
            at_hand(refl) && #[trigger] place_read(refl, name@, bytes@, r),
{
    let refl: Reflection = reflection();
    let r = read_place_in(refl, name, bytes);
    assert(at_hand(refl) && place_read(refl, name@, bytes@, r));
    r
}

/// Whether `r` is what writing a place comes to: everything below its root.
pub open spec fn place_written(refl: Reflection, s: Scene, r: Result<Vec<u8>, String>) -> bool {
    let tops = s.nodes[s.root].children;
    let head = "serializing the place: "@;
    match (refl, r) {
        (Some(db), Ok(bytes)) => {
            &&& place_writable(classes_of(*db), s)
            &&& may_encode(classes_of(*db), s, tops, Ok(bytes@))
        },
        (None, Ok(_)) => false,
        (refl, Err(e)) => if !s.nodes.contains_key(s.root) {
            e@ == "place has no root"@
        } else {
            match refl {
                None => e@ == head + no_database(),
                Some(db) => {
                    ||| may_know(None) && e@ == head + no_database()
                    ||| if !place_writable(classes_of(*db), s) {
                        e@ == head + stuck()
                    } else {
                        exists|reason: Seq<char>|
                            {
                                &&& #[trigger] may_encode(classes_of(*db), s, tops, Err(reason))
                                &&& e@ == head + reason
                            }
                    }
                },
            }
        },
    }
}

/// The bytes of a file that holds a place, with the database at hand.
pub fn place_bytes_in(refl: Reflection, dom: &WeakDom) -> (r: Result<Vec<u8>, String>)
    ensures
        place_written(refl, scene(*dom), r),
{
    let root: Ref = dom.root_ref();
    let tops: &[Ref] = match dom.get_by_ref(root) {
        Some(inst) => inst.children(),
        None => {
            return Err("place has no root".to_owned());
        },
    };
    let mut e: String = "serializing the place: ".to_owned();
    let (own, db) = match (reflection(), refl) {
        (Some(own), Some(db)) => (own, db),
        _ => {
            e.append("the reflection database cannot be read");
            return Err(e);
        },
    };
    if !can_write(db, dom) {
        e.append(
            "an instance is not in its place, or the reflection database is not in order for what it is",
        );
        return Err(e);
    }
    match encode(own, db, dom, tops) {
        Ok(bytes) => Ok(bytes),
        Err(reason) => {
            e.append(reason.as_str());
            assert(may_encode(classes_of(*db), scene(*dom), tops@, Err(reason@)));
            Err(e)
        },
    }
}

/// The bytes of a file that holds a place.
pub fn place_bytes(dom: &WeakDom) -> (r: Result<Vec<u8>, String>)
    ensures
        exists|refl: Reflection| at_hand(refl) && #[trigger] place_written(refl, scene(*dom), r),
{
    let refl: Reflection = reflection();
    let r = place_bytes_in(refl, dom);
    assert(at_hand(refl) && place_written(refl, scene(*dom), r));
    r
}

// ---------------------------------------------------------------------------
// Laws
// ---------------------------------------------------------------------------

/// Whether every child that is there is filed under its own reference and says where it lies,
/// its class and its properties are in order, and it lies deeper than what it lies in.
pub open spec fn well_kept(classes: Classes, s: Scene, depth: spec_fn(Ref) -> nat) -> bool {
    forall|k: Ref, i: int|
        {
            &&& s.nodes.contains_key(k)
            &&& 0 <= i < s.nodes[k].children.len()
            &&& s.nodes.contains_key(#[trigger] s.nodes[k].children[i])
        } ==> {
            let r = s.nodes[k].children[i];
            &&& s.nodes[r].referent == r
            &&& s.nodes[r].parent == k
            &&& usable(classes, s.nodes[r].class)
            &&& all_movable(classes, s.nodes[r])
            &&& depth(k) < depth(r)
        }
}

proof fn lemma_well_kept(
    classes: Classes,
    s: Scene,
    depth: spec_fn(Ref) -> nat,
    above: Set<Ref>,
    parent: Ref,
    n: int,
)
    requires
        s.nodes.dom().finite(),
        well_kept(classes, s, depth),
        s.nodes.contains_key(parent),
        forall|a: Ref| #[trigger] above.contains(a) ==> depth(a) <= depth(parent),
        0 <= n <= s.nodes[parent].children.len(),
    ensures
        all_writable(classes, s, above, parent, s.nodes[parent].children.skip(n)),
    decreases places_left(s, above), s.nodes[parent].children.len() - n,
{
    let children = s.nodes[parent].children;
    let rest = children.skip(n);
    if n < children.len() {
        let r = children[n];
        assert(rest[0] == r);
        assert(rest.skip(1) =~= children.skip(n + 1));
        lemma_well_kept(classes, s, depth, above, parent, n + 1);
        if s.nodes.contains_key(r) {
            assert(s.nodes.contains_key(s.nodes[parent].children[n]));
            assert(!above.contains(r));
            lemma_places_left(s, above, r);
            lemma_well_kept(classes, s, depth, above.insert(r), r, 0);
            assert(s.nodes[r].children.skip(0) =~= s.nodes[r].children);
            assert(in_place(classes, s.nodes[r], parent, r));
        }
        assert(writable(classes, s, above, parent, r));
        assert(all_writable(classes, s, above, parent, rest.skip(1)));
    }
}

/// A place can be written that has its root, which lies in no other instance, and is well kept
/// below it: however many instances there are, and however deep they lie.
pub proof fn law_a_well_kept_place_can_be_written(
    classes: Classes,
    s: Scene,
    depth: spec_fn(Ref) -> nat,
)
    requires
        s.nodes.dom().finite(),
        s.nodes.contains_key(s.root),
        !s.nodes.contains_key(s.nodes[s.root].parent),
        well_kept(classes, s, depth),
    ensures
        place_writable(classes, s),
{
    lemma_well_kept(classes, s, depth, set![s.root], s.root, 0);
    assert(s.nodes[s.root].children.skip(0) =~= s.nodes[s.root].children);
}

/// Whether each instance of a way is a child of the one before it, from the root down.
pub open spec fn goes_down(s: Scene, way: Seq<Ref>) -> bool {
    &&& way.len() > 0
    &&& way[0] == s.root
    &&& forall|i: int| 0 <= i < way.len() ==> s.nodes.contains_key(#[trigger] way[i])
    &&& forall|i: int| 0 < i < way.len() ==> s.nodes[way[i - 1]].children.contains(#[trigger] way[i])
}

proof fn lemma_each_is_writable(
    classes: Classes,
    s: Scene,
    above: Set<Ref>,
    parent: Ref,
    refs: Seq<Ref>,
    r: Ref,
)
    requires
        all_writable(classes, s, above, parent, refs),
        refs.contains(r),
    ensures
        writable(classes, s, above, parent, r),
    decreases refs.len(),
{
    let i = choose|i: int| 0 <= i < refs.len() && refs[i] == r;
    if i > 0 {
        assert(refs.skip(1)[i - 1] == r);
        lemma_each_is_writable(classes, s, above, parent, refs.skip(1), r);
    }
}

proof fn lemma_way_is_writable(classes: Classes, s: Scene, way: Seq<Ref>)
    requires
        place_writable(classes, s),
        goes_down(s, way),
    ensures
        all_writable(classes, s, way.to_set(), way.last(), s.nodes[way.last()].children),
        way.len() > 1 ==> in_place(
            classes,
            s.nodes[way.last()],
            way[way.len() - 2],
            way.last(),
        ) && !way.drop_last().contains(way.last()),
    decreases way.len(),
{
    if way.len() == 1 {
        assert(way.to_set() =~= set![s.root]) by {
            assert(way =~= seq![s.root]);
            assert(way[0] == s.root);
        }
    } else {
        let front = way.drop_last();
        let r = way.last();
        let parent = front.last();
        assert(goes_down(s, front)) by {
            assert forall|i: int| 0 <= i < front.len() implies s.nodes.contains_key(
                #[trigger] front[i],
            ) by {
                assert(front[i] == way[i]);
            }
            assert forall|i: int| 0 < i < front.len() implies s.nodes[front[i - 1]].children.contains(
                #[trigger] front[i],
            ) by {
                assert(front[i] == way[i]);
            }
        }
        lemma_way_is_writable(classes, s, front);
        assert(s.nodes[way[way.len() - 2]].children.contains(way[way.len() - 1]));
        assert(s.nodes.contains_key(way[way.len() - 1]));
        lemma_each_is_writable(
            classes,
            s,
            front.to_set(),
            parent,
            s.nodes[parent].children,
            r,
        );
        assert(front.push(r) =~= way);
        front.lemma_push_to_set_commute(r);
    }
}

/// A place that can be written has its root, which lies in no other instance. Every instance
/// that is gone down to from there is filed under its own reference, says where it lies, has a
/// class and properties that are in order, and does not lie in itself.
pub proof fn law_a_place_that_can_be_written(classes: Classes, s: Scene, way: Seq<Ref>)
    requires
        place_writable(classes, s),
        goes_down(s, way),
        way.len() > 1,
    ensures
        s.nodes.contains_key(s.root) && !s.nodes.contains_key(s.nodes[s.root].parent),
        s.nodes[way.last()].referent == way.last(),
        s.nodes[way.last()].parent == way[way.len() - 2],
        usable(classes, s.nodes[way.last()].class),
        all_movable(classes, s.nodes[way.last()]),
        !way.drop_last().contains(way.last()),
{
    lemma_way_is_writable(classes, s, way);
}

/// What writing a place comes to. Its bytes, or a reason that the writer gives, where there is a
/// database and the place can be written; else an error that says which of these is missing.
pub proof fn law_what_writing_comes_to(refl: Reflection, s: Scene, r: Result<Vec<u8>, String>)
    requires
        place_written(refl, s, r),
    ensures
        !s.nodes.contains_key(s.root) ==> (r matches Err(e) && e@
            == "place has no root"@),
        refl is None ==> r is Err,
        r matches Ok(bytes) ==> may_encode(
            classes_of(*refl->0),
            s,
            s.nodes[s.root].children,
            Ok(bytes@),
        ),
        s.nodes.contains_key(s.root) ==> match refl {
            None => r matches Err(e) && e@ == "serializing the place: "@
                + "the reflection database cannot be read"@,
            Some(db) => !may_know(None) ==> {
                &&& !place_writable(classes_of(*db), s) ==> (r matches Err(e) && e@
                    == "serializing the place: "@
                    + "an instance is not in its place, or the reflection database is not in order for what it is"@)
                &&& place_writable(classes_of(*db), s) ==> (r matches Err(e) ==> exists|
                    reason: Seq<char>,
                |
                    {
                        &&& #[trigger] may_encode(
                            classes_of(*db),
                            s,
                            s.nodes[s.root].children,
                            Err(reason),
                        )
                        &&& e@ == "serializing the place: "@ + reason
                    })
            },
        },
{
}

/// What reading a place comes to. The place, or a reason that the reader gives, where there is a
/// database and the bytes can be handed over; else an error that names the file and says which of
/// these is missing.
pub proof fn law_what_reading_a_place_comes_to(
    refl: Reflection,
    name: Seq<char>,
    bytes: Seq<u8>,
    r: Result<WeakDom, String>,
)
    requires
        place_read(refl, name, bytes, r),
    ensures
        r matches Ok(dom) ==> refl is Some && may_decode(
            classes_of(*refl->0),
            bytes,
            Ok(scene(dom)),
        ),
        match refl {
            None => r matches Err(e) && e@ == "parsing "@ + name + ": "@
                + "the reflection database cannot be read"@,
            Some(db) => !may_know(None) ==> {
                &&& !presentable(classes_of(*db), bytes) ==> (r matches Err(e) && e@ == "parsing "@
                    + name + ": "@
                    + "the chunks of the file are not what they announce, or the reflection database is not in order for what they hold"@)
                &&& presentable(classes_of(*db), bytes) ==> (r matches Err(e) ==> exists|
                    reason: Seq<char>,
                |
                    {
                        &&& #[trigger] may_decode(classes_of(*db), bytes, Err(reason))
                        &&& e@ == "parsing "@ + name + ": "@ + reason
                    })
            },
        },
{
}

} // verus!
