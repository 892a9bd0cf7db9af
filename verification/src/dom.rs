//! Finding, growing and typing the instances of a place.

use crate::lua::number_parsed;
use crate::place::{bool_variant, content, content_id, float32_parsed, float32_variant};
use crate::place::{float64_variant, insert_instance, instance_class, instance_name, int32_variant};
use crate::place::{int64_variant, kind, kind_of, node_of, points, property_type, scene};
use crate::place::{text_variant, with_instance, worth, worth_kind, Kind, Node, Scene, Worth};
use crate::reflection::{at_hand, class_is_known_in, declared_type_in, known_classes, moved_in};
use crate::reflection::{overriding_properties_in, reflection, type_in, Classes, Reflection};
use crate::text::{begins, lemma_split_nonempty, parse_int, parsed_int, same, split, split_at_each};
use crate::text::{int_text, law_a_prefix_can_be_told, law_int_text_reads_back, starts_with, texts};
use rbx_dom_weak::types::{Ref, Variant, VariantType};
use rbx_dom_weak::{Instance, WeakDom};
use vstd::prelude::*;
use vstd::string::*;

verus! {

// ---------------------------------------------------------------------------
// Paths
// ---------------------------------------------------------------------------

/// The first of `children` that is called `name`.
pub open spec fn child_named(s: Scene, children: Seq<Ref>, name: Seq<char>) -> Option<Ref>
    decreases children.len(),
{
    if children.len() == 0 {
        None
    } else if s.nodes.contains_key(children[0]) && s.nodes[children[0]].name == name {
        Some(children[0])
    } else {
        child_named(s, children.drop_first(), name)
    }
}

/// The instance that the names `parts` lead to from `at` on.
pub open spec fn reached(s: Scene, at: Ref, parts: Seq<Seq<char>>) -> Option<Ref>
    decreases parts.len(),
{
    if parts.len() == 0 {
        Some(at)
    } else if !s.nodes.contains_key(at) {
        None
    } else {
        match child_named(s, s.nodes[at].children, parts[0]) {
            Some(next) => reached(s, next, parts.skip(1)),
            None => None,
        }
    }
}

/// The instance at a path from the root down.
pub open spec fn found(s: Scene, path: Seq<char>) -> Option<Ref> {
    reached(s, s.root, split(path, '.'))
}

/// A child that was found is one of the children, is there, and has the name.
pub proof fn lemma_child_named(s: Scene, children: Seq<Ref>, name: Seq<char>)
    ensures
        child_named(s, children, name) matches Some(r) ==> {
            &&& children.contains(r)
            &&& s.nodes.contains_key(r)
            &&& s.nodes[r].name == name
        },
    decreases children.len(),
{
    if children.len() > 0 {
        lemma_child_named(s, children.drop_first(), name);
        let rest = children.drop_first();
        if let Some(r) = child_named(s, rest, name) {
            let i = choose|i: int| 0 <= i < rest.len() && rest[i] == r;
            assert(children[i + 1] == r);
        }
        assert(children.contains(children[0]));
    }
}

/// Whatever is reached by a name is an instance of the place.
pub proof fn lemma_reached(s: Scene, at: Ref, parts: Seq<Seq<char>>)
    requires
        parts.len() > 0,
    ensures
        reached(s, at, parts) matches Some(r) ==> s.nodes.contains_key(r),
    decreases parts.len(),
{
    reveal_with_fuel(reached, 2);
    if s.nodes.contains_key(at) {
        lemma_child_named(s, s.nodes[at].children, parts[0]);
        if let Some(next) = child_named(s, s.nodes[at].children, parts[0]) {
            if parts.len() > 1 {
                lemma_reached(s, next, parts.skip(1));
            }
        }
    }
}

/// The first of the children of `inst` that is called `name`.
fn child(dom: &WeakDom, inst: &Instance, name: &str) -> (r: Option<Ref>)
    ensures
        r == child_named(scene(*dom), node_of(*inst).children, name@),
{
    let children: &[Ref] = inst.children();
    let ghost all = children@;
    let mut i: usize = 0;
    assert(all.skip(0) =~= all);
    while i < children.len()
        invariant
            i <= children@.len(),
            all == children@,
            all == node_of(*inst).children,
            child_named(scene(*dom), all.skip(i as int), name@) == child_named(
                scene(*dom),
                all,
                name@,
            ),
        decreases children@.len() - i,
    {
        let ghost rest = all.skip(i as int);
        assert(rest[0] == all[i as int]);
        assert(rest.drop_first() =~= all.skip(i as int + 1));
        if let Some(candidate) = dom.get_by_ref(children[i]) {
            if same(instance_name(candidate), name) {
                return Some(children[i]);
            }
        }
        i = i + 1;
    }
    None
}

/// The instance at a dot-separated path from the root down.
pub fn find(dom: &WeakDom, path: &str) -> (r: Option<Ref>)
    ensures
        r == found(scene(*dom), path@),
        r matches Some(target) ==> scene(*dom).nodes.contains_key(target),
{
    let parts: Vec<String> = split_at_each(path, '.');
    let ghost names = texts(parts@);
    let ghost s = scene(*dom);
    let mut current: Ref = dom.root_ref();
    let mut i: usize = 0;
    assert(names.skip(0) =~= names);
    while i < parts.len()
        invariant
            i <= parts@.len(),
            names == texts(parts@),
            names == split(path@, '.'),
            s == scene(*dom),
            reached(s, current, names.skip(i as int)) == found(s, path@),
        decreases parts@.len() - i,
    {
        let ghost rest = names.skip(i as int);
        assert(rest[0] == parts@[i as int]@);
        assert(rest.skip(1) =~= names.skip(i as int + 1));
        match dom.get_by_ref(current) {
            Some(inst) => match child(dom, inst, parts[i].as_str()) {
                Some(next) => {
                    current = next;
                },
                None => {
                    return None;
                },
            },
            None => {
                return None;
            },
        }
        i = i + 1;
    }
    proof {
        lemma_split_nonempty(path@, '.');
        lemma_reached(s, s.root, names);
    }
    Some(current)
}

// ---------------------------------------------------------------------------
// Growing
// ---------------------------------------------------------------------------

/// Why a path could not be grown.
pub enum Obstacle {
    /// A name on it is empty.
    EmptySegment,
    /// The place has no root.
    Dangling,
    /// The first name is not there.
    NotAService(Seq<char>),
}

/// A place after a path was grown: where the path ends, whether anything was
/// created, and what the place holds.
pub struct Grown {
    pub leaf: Ref,
    pub created: bool,
    pub scene: Scene,
}

/// The place with what is missing of the names `parts` from `at` on: `leaf_class`
/// for the last one, `Folder` for the others. The new instances get the references
/// `fresh`, in order.
pub open spec fn grown_from(
    s: Scene,
    at: Ref,
    parts: Seq<Seq<char>>,
    leaf_class: Seq<char>,
    fresh: Seq<Ref>,
) -> Grown
    decreases parts.len(),
{
    if parts.len() == 0 {
        Grown { leaf: at, created: false, scene: s }
    } else {
        match child_named(s, s.nodes[at].children, parts[0]) {
            Some(next) => grown_from(s, next, parts.skip(1), leaf_class, fresh),
            None => {
                let class = if parts.len() == 1 {
                    leaf_class
                } else {
                    "Folder"@
                };
                let grown = with_instance(s, at, points(at), fresh[0], class, parts[0]);
                Grown {
                    created: true,
                    ..grown_from(grown, fresh[0], parts.skip(1), leaf_class, fresh.skip(1))
                }
            },
        }
    }
}

/// Whether one of the names is empty.
pub open spec fn has_empty(parts: Seq<Seq<char>>) -> bool {
    exists|i: int| 0 <= i < parts.len() && (#[trigger] parts[i]).len() == 0
}

/// What is in the way of growing a path, if anything. The first name is never
/// created: it is a service, and a place has its services.
pub open spec fn obstacle(s: Scene, path: Seq<char>) -> Option<Obstacle> {
    let parts = split(path, '.');
    if has_empty(parts) {
        Some(Obstacle::EmptySegment)
    } else if !s.nodes.contains_key(s.root) {
        Some(Obstacle::Dangling)
    } else if child_named(s, s.nodes[s.root].children, parts[0]) is None {
        Some(Obstacle::NotAService(parts[0]))
    } else {
        None
    }
}

/// The place with what is missing of a path, where nothing is in the way.
pub open spec fn grown(
    s: Scene,
    path: Seq<char>,
    leaf_class: Seq<char>,
    fresh: Seq<Ref>,
) -> Grown {
    grown_from(s, s.root, split(path, '.'), leaf_class, fresh)
}

/// What an obstacle reads as.
pub open spec fn obstacle_text(path: Seq<char>, o: Obstacle) -> Seq<char> {
    match o {
        Obstacle::EmptySegment => "path '"@ + path + "' has an empty segment"@,
        Obstacle::Dangling => "dangling reference while walking path"@,
        Obstacle::NotAService(name) => "'"@ + name + "' is not a service of this place"@,
    }
}

/// Whether one of the names is empty.
fn any_empty(parts: &Vec<String>) -> (r: bool)
    ensures
        r == has_empty(texts(parts@)),
{
    let mut i: usize = 0;
    while i < parts.len()
        invariant
            i <= parts@.len(),
            forall|k: int| 0 <= k < i ==> (#[trigger] texts(parts@)[k]).len() != 0,
        decreases parts@.len() - i,
    {
        if parts[i].as_str().unicode_len() == 0 {
            assert(texts(parts@)[i as int].len() == 0);
            return true;
        }
        i = i + 1;
    }
    false
}

/// What is in the way of a path, in words.
pub(crate) fn blocked(dom: &WeakDom, path: &str) -> (r: Option<String>)
    ensures
        match r {
            Some(e) => obstacle(scene(*dom), path@) matches Some(o) && e@ == obstacle_text(path@, o),
            None => obstacle(scene(*dom), path@) is None,
        },
{
    let parts: Vec<String> = split_at_each(path, '.');
    if any_empty(&parts) {
        let mut e: String = "path '".to_owned();
        e.append(path);
        e.append("' has an empty segment");
        return Some(e);
    }
    let service: Option<Ref> = match dom.get_by_ref(dom.root_ref()) {
        Some(inst) => child(dom, inst, parts[0].as_str()),
        None => {
            return Some("dangling reference while walking path".to_owned());
        },
    };
    assert(texts(parts@)[0] == parts@[0]@);
    if service.is_none() {
        let mut e: String = "'".to_owned();
        e.append(parts[0].as_str());
        e.append("' is not a service of this place");
        return Some(e);
    }
    None
}

/// What growing comes to, where something was created before.
spec fn grown_further(created: bool, g: Grown) -> Grown {
    Grown { created: created || g.created, ..g }
}

/// Find the instance at a path, and create what is missing: `Folder` for the names
/// on the way, `leaf_class` for the last one. Gives back where the path ends and
/// whether anything was created. The references of new instances are random; where they
/// are new, as they are but for the rarest chance, the path is found from then on.
///
/// The first name is never created. It is a service, and a typo in it would grow a
/// folder next to the real service, which looks like success.
pub fn ensure(dom: &mut WeakDom, path: &str, leaf_class: &str) -> (r: Result<(Ref, bool), String>)
    ensures
        match r {
            Ok((leaf, created)) => {
                let g = Grown { leaf, created, scene: scene(*final(dom)) };
                &&& obstacle(scene(*old(dom)), path@) is None
                &&& scene(*final(dom)).nodes.contains_key(leaf)
                &&& exists|fresh: Seq<Ref>|
                    {
                        &&& (#[trigger] grown(scene(*old(dom)), path@, leaf_class@, fresh)) == g
                        &&& all_new(scene(*old(dom)), fresh) && anchored(
                            scene(*old(dom)),
                            path@,
                        ) ==> grown_rightly(scene(*old(dom)), path@, leaf_class@, g)
                    }
            },
            Err(e) => {
                &&& obstacle(scene(*old(dom)), path@) matches Some(o)
                &&& e@ == obstacle_text(path@, o)
                &&& scene(*final(dom)) == scene(*old(dom))
            },
        },
{
    if let Some(e) = blocked(dom, path) {
        return Err(e);
    }
    let ghost s = scene(*dom);
    let parts: Vec<String> = split_at_each(path, '.');
    let ghost names = texts(parts@);
    let root: Ref = dom.root_ref();
    let mut at: Ref = root;
    let mut created: bool = false;
    let ghost mut used = Seq::<Ref>::empty();
    let mut i: usize = 0;
    proof {
        assert(names.skip(0) =~= names);
        assert forall|later: Seq<Ref>| used + later =~= later by {}
    }
    while i < parts.len()
        invariant
            i <= parts@.len(),
            names == texts(parts@),
            s == scene(*old(dom)),
            root == s.root,
            scene(*dom).nodes.contains_key(at),
            forall|k: Ref| #[trigger]
                scene(*dom).nodes.contains_key(k) ==> s.nodes.contains_key(k) || used.contains(k),
            forall|k: int| 0 <= k < used.len() ==> points(#[trigger] used[k]),
            all_unused(s, used) ==> used.len() + missing_from(
                scene(*dom),
                at,
                names.skip(i as int),
            ) == missing_from(s, root, names),
            forall|later: Seq<Ref>|
                grown_from(s, root, names, leaf_class@, used + later) == grown_further(
                    created,
                    #[trigger] grown_from(
                        scene(*dom),
                        at,
                        names.skip(i as int),
                        leaf_class@,
                        later,
                    ),
                ),
        decreases parts@.len() - i,
    {
        let ghost here = scene(*dom);
        let ghost from = at;
        let ghost rest = names.skip(i as int);
        let ghost so_far = used;
        let ghost was = created;
        assert(rest[0] == parts@[i as int]@);
        assert(rest.skip(1) =~= names.skip(i as int + 1));
        let existing: Option<Ref> = match dom.get_by_ref(at) {
            Some(inst) => child(dom, inst, parts[i].as_str()),
            None => None,
        };
        proof {
            lemma_child_named(here, here.nodes[at].children, rest[0]);
        }
        match existing {
            Some(next) => {
                at = next;
            },
            None => {
                let class: &str = if i == parts.len() - 1 {
                    leaf_class
                } else {
                    "Folder"
                };
                let next: Ref = insert_instance(dom, at, class, parts[i].as_str());
                proof {
                    used = used.push(next);
                    assert(used[used.len() - 1] == next);
                    assert forall|k: Ref| #[trigger]
                        scene(*dom).nodes.contains_key(k) implies s.nodes.contains_key(k)
                        || used.contains(k) by {
                        if so_far.contains(k) {
                            let n = choose|n: int| 0 <= n < so_far.len() && so_far[n] == k;
                            assert(used[n] == k);
                        } else if k != next {
                            assert(here.nodes.contains_key(k));
                        }
                    }
                    if all_unused(s, used) {
                        assert forall|k: int| 0 <= k < so_far.len() implies unused(
                            s,
                            #[trigger] so_far[k],
                        ) && points(so_far[k]) by {
                            assert(used[k] == so_far[k]);
                        }
                        assert forall|a: int, b: int|
                            0 <= a < so_far.len() && 0 <= b < so_far.len() && a != b implies
                            so_far[a] != so_far[b] by {
                            assert(used[a] == so_far[a] && used[b] == so_far[b]);
                        }
                        assert(next != from) by {
                            assert(here.nodes.contains_key(from));
                            assert(unused(s, used[used.len() - 1]));
                            if so_far.contains(from) {
                                let n = choose|n: int| 0 <= n < so_far.len() && so_far[n] == from;
                                assert(used[n] == from);
                            }
                        }
                        assert(scene(*dom).nodes[next].children =~= Seq::<Ref>::empty());
                        assert(missing_from(scene(*dom), next, rest.skip(1)) == rest.skip(1).len());
                    }
                }
                at = next;
                created = true;
            },
        }
        i = i + 1;
        proof {
            assert forall|later: Seq<Ref>|
                grown_from(s, root, names, leaf_class@, used + later) == grown_further(
                    created,
                    #[trigger] grown_from(
                        scene(*dom),
                        at,
                        names.skip(i as int),
                        leaf_class@,
                        later,
                    ),
                ) by {
                if existing is Some {
                    assert(grown_from(here, from, rest, leaf_class@, later) == grown_from(
                        here,
                        at,
                        rest.skip(1),
                        leaf_class@,
                        later,
                    ));
                } else {
                    let fresh = seq![at] + later;
                    assert(fresh.skip(1) =~= later);
                    assert(fresh[0] == at);
                    assert(used + later =~= so_far + fresh);
                    assert(grown_from(here, from, rest, leaf_class@, fresh) == (Grown {
                        created: true,
                        ..grown_from(scene(*dom), at, rest.skip(1), leaf_class@, later)
                    }));
                }
            }
        }
    }
    proof {
        let none = Seq::<Ref>::empty();
        assert(names.skip(i as int) =~= Seq::<Seq<char>>::empty());
        assert(grown_from(scene(*dom), at, names.skip(i as int), leaf_class@, none) == (Grown {
            leaf: at,
            created: false,
            scene: scene(*dom),
        }));
        let g = Grown { leaf: at, created, scene: scene(*dom) };
        assert(used + none =~= used);
        assert(grown(s, path@, leaf_class@, used) == g);
        if all_new(s, used) && anchored(s, path@) {
            law_grown_path_is_found(s, path@, leaf_class@, used);
        }
    }
    Ok((at, created))
}

/// Growing a path that is there changes nothing and ends where it ends.
pub proof fn law_growing_what_is_there(
    s: Scene,
    path: Seq<char>,
    leaf_class: Seq<char>,
    fresh: Seq<Ref>,
)
    requires
        found(s, path) is Some,
    ensures
        grown(s, path, leaf_class, fresh) == (Grown {
            leaf: found(s, path)->0,
            created: false,
            scene: s,
        }),
{
    lemma_growing_what_is_there(s, s.root, split(path, '.'), leaf_class, fresh);
}

proof fn lemma_growing_what_is_there(
    s: Scene,
    at: Ref,
    parts: Seq<Seq<char>>,
    leaf_class: Seq<char>,
    fresh: Seq<Ref>,
)
    requires
        reached(s, at, parts) is Some,
    ensures
        grown_from(s, at, parts, leaf_class, fresh) == (Grown {
            leaf: reached(s, at, parts)->0,
            created: false,
            scene: s,
        }),
    decreases parts.len(),
{
    if parts.len() > 0 {
        let next = child_named(s, s.nodes[at].children, parts[0])->0;
        lemma_growing_what_is_there(s, next, parts.skip(1), leaf_class, fresh);
    }
}

/// How many of the names `parts` are missing from `at` on.
pub open spec fn missing_from(s: Scene, at: Ref, parts: Seq<Seq<char>>) -> nat
    decreases parts.len(),
{
    if parts.len() == 0 {
        0
    } else {
        match child_named(s, s.nodes[at].children, parts[0]) {
            Some(next) => missing_from(s, next, parts.skip(1)),
            None => parts.len(),
        }
    }
}

/// How many names of a path are missing.
pub open spec fn missing(s: Scene, path: Seq<char>) -> nat {
    missing_from(s, s.root, split(path, '.'))
}

/// Whether nothing of the place refers to `r`.
pub open spec fn unused(s: Scene, r: Ref) -> bool {
    &&& !s.nodes.contains_key(r)
    &&& forall|k: Ref| #[trigger] s.nodes.contains_key(k) ==> !s.nodes[k].children.contains(r)
}

/// Whether the references are new to the place and to each other.
pub open spec fn all_new(s: Scene, fresh: Seq<Ref>) -> bool {
    &&& fresh.no_duplicates()
    &&& forall|i: int| 0 <= i < fresh.len() ==> unused(s, #[trigger] fresh[i])
}

/// Whether the references are new to the place and to each other, and point to
/// something.
pub open spec fn all_unused(s: Scene, fresh: Seq<Ref>) -> bool {
    &&& fresh.no_duplicates()
    &&& forall|i: int|
        0 <= i < fresh.len() ==> unused(s, #[trigger] fresh[i]) && points(fresh[i])
}

/// Whether the instance points to something that the missing names `parts` from `at` on
/// are put into, if any are missing.
pub open spec fn anchored_from(s: Scene, at: Ref, parts: Seq<Seq<char>>) -> bool
    decreases parts.len(),
{
    parts.len() > 0 ==> match child_named(s, s.nodes[at].children, parts[0]) {
        Some(next) => anchored_from(s, next, parts.skip(1)),
        None => points(at),
    }
}

/// Whether the instance points to something that what is missing of a path is put into,
/// if anything is missing.
pub open spec fn anchored(s: Scene, path: Seq<char>) -> bool {
    anchored_from(s, s.root, split(path, '.'))
}

/// Whether the instances of `t` that `s` does not have are without properties.
pub open spec fn all_bare(s: Scene, t: Scene) -> bool {
    forall|r: Ref| #[trigger]
        t.nodes.contains_key(r) && !s.nodes.contains_key(r) ==> t.nodes[r].props
            == Map::<Seq<char>, Worth>::empty()
}

/// Whether the instances of `t` that `s` does not have are folders, but for `leaf`, which
/// is of the class that was asked for.
pub open spec fn all_classed(s: Scene, t: Scene, leaf: Ref, leaf_class: Seq<char>) -> bool {
    forall|r: Ref| #[trigger]
        t.nodes.contains_key(r) && !s.nodes.contains_key(r) ==> t.nodes[r].class == if r == leaf {
            leaf_class
        } else {
            "Folder"@
        }
}

/// Whether a path was grown as it should be: it leads to the leaf, something was created
/// only where it led nowhere, what was there is as it was but for new children after
/// the old ones, and what is new is of the right class and has no properties yet.
pub open spec fn grown_rightly(s: Scene, path: Seq<char>, leaf_class: Seq<char>, g: Grown) -> bool {
    &&& found(g.scene, path) == Some(g.leaf)
    &&& g.created == (found(s, path) is None)
    &&& extends(s, g.scene)
    &&& all_bare(s, g.scene)
    &&& all_classed(s, g.scene, g.leaf, leaf_class)
}

/// Whether the instances of `s` are in `t` under their name and class and where they
/// were, with new children after the old ones at most. Nothing that `s` refers to in vain is
/// among the added ones.
pub open spec fn builds_on(s: Scene, t: Scene) -> bool {
    &&& s.root == t.root
    &&& forall|r: Ref| #[trigger]
        s.nodes.contains_key(r) ==> {
            &&& t.nodes.contains_key(r)
            &&& t.nodes[r].name == s.nodes[r].name
            &&& t.nodes[r].class == s.nodes[r].class
            &&& t.nodes[r].referent == s.nodes[r].referent
            &&& t.nodes[r].parent == s.nodes[r].parent
            &&& s.nodes[r].children.len() <= t.nodes[r].children.len()
            &&& t.nodes[r].children.take(s.nodes[r].children.len() as int) == s.nodes[r].children
        }
    &&& forall|r: Ref, k: Ref| #[trigger]
        t.nodes.contains_key(r) && !s.nodes.contains_key(r) && #[trigger] s.nodes.contains_key(k)
            ==> !s.nodes[k].children.contains(r)
}

/// Whether `t` is `s` with instances added: those of `s` keep their properties
/// too.
pub open spec fn extends(s: Scene, t: Scene) -> bool {
    &&& builds_on(s, t)
    &&& forall|r: Ref| #[trigger]
        s.nodes.contains_key(r) ==> t.nodes[r].props == s.nodes[r].props
}

/// Building on what builds on something.
pub proof fn lemma_builds_on_chain(a: Scene, b: Scene, c: Scene)
    requires
        builds_on(a, b),
        builds_on(b, c),
    ensures
        builds_on(a, c),
{
    assert forall|r: Ref| #[trigger] a.nodes.contains_key(r) implies {
        &&& c.nodes.contains_key(r)
        &&& c.nodes[r].name == a.nodes[r].name
        &&& c.nodes[r].class == a.nodes[r].class
        &&& c.nodes[r].referent == a.nodes[r].referent
        &&& c.nodes[r].parent == a.nodes[r].parent
        &&& a.nodes[r].children.len() <= c.nodes[r].children.len()
        &&& c.nodes[r].children.take(a.nodes[r].children.len() as int) == a.nodes[r].children
    } by {
        assert(b.nodes.contains_key(r));
        let n = a.nodes[r].children.len() as int;
        let m = b.nodes[r].children.len() as int;
        assert(c.nodes[r].children.take(m).take(n) =~= c.nodes[r].children.take(n));
    }
    assert forall|r: Ref, k: Ref| #[trigger]
        c.nodes.contains_key(r) && !a.nodes.contains_key(r) && #[trigger] a.nodes.contains_key(
            k,
        ) implies !a.nodes[k].children.contains(r) by {
        assert(b.nodes.contains_key(k));
        if a.nodes[k].children.contains(r) {
            let i = choose|i: int| 0 <= i < a.nodes[k].children.len() && a.nodes[k].children[i] == r;
            assert(b.nodes[k].children.take(a.nodes[k].children.len() as int)[i] == r);
            assert(b.nodes[k].children[i] == r);
            assert(b.nodes[k].children.contains(r));
            assert(!b.nodes.contains_key(r));
        }
    }
}

/// Adding to what was added to.
proof fn lemma_extends_chain(a: Scene, b: Scene, c: Scene)
    requires
        extends(a, b),
        extends(b, c),
    ensures
        extends(a, c),
{
    lemma_builds_on_chain(a, b, c);
    assert forall|r: Ref| #[trigger] a.nodes.contains_key(r) implies c.nodes[r].props
        == a.nodes[r].props by {
        assert(b.nodes.contains_key(r));
    }
}

/// What a path leads to, it leads to in whatever builds on the place.
pub proof fn lemma_found_kept(s: Scene, t: Scene, at: Ref, parts: Seq<Seq<char>>)
    requires
        builds_on(s, t),
        reached(s, at, parts) is Some,
    ensures
        reached(t, at, parts) == reached(s, at, parts),
    decreases parts.len(),
{
    if parts.len() > 0 {
        let children = s.nodes[at].children;
        assert(t.nodes.contains_key(at));
        assert forall|i: int|
            0 <= i < children.len() && t.nodes.contains_key(
                #[trigger] children[i],
            ) implies s.nodes.contains_key(children[i]) by {
            assert(children.contains(children[i]));
            assert(s.nodes.contains_key(at));
        }
        lemma_child_kept(s, t, children, t.nodes[at].children, parts[0]);
        let next = child_named(s, children, parts[0])->0;
        lemma_found_kept(s, t, next, parts.skip(1));
    }
}

/// A child that is found stays the one that is found.
proof fn lemma_child_kept(
    s: Scene,
    t: Scene,
    fewer: Seq<Ref>,
    more: Seq<Ref>,
    name: Seq<char>,
)
    requires
        forall|r: Ref| #[trigger]
            s.nodes.contains_key(r) ==> t.nodes.contains_key(r) && t.nodes[r].name
                == s.nodes[r].name,
        forall|i: int|
            0 <= i < fewer.len() ==> (t.nodes.contains_key(#[trigger] fewer[i])
                ==> s.nodes.contains_key(fewer[i])),
        fewer.len() <= more.len(),
        more.take(fewer.len() as int) == fewer,
        child_named(s, fewer, name) is Some,
    ensures
        child_named(t, more, name) == child_named(s, fewer, name),
    decreases fewer.len(),
{
    assert(more.take(fewer.len() as int)[0] == more[0]);
    assert(fewer[0] == more[0]);
    if !(s.nodes.contains_key(fewer[0]) && s.nodes[fewer[0]].name == name) {
        let a = fewer.drop_first();
        let b = more.drop_first();
        assert(b.take(a.len() as int) =~= a) by {
            assert forall|i: int| 0 <= i < a.len() implies b[i] == a[i] by {
                assert(more.take(fewer.len() as int)[i + 1] == more[i + 1]);
            }
        }
        assert forall|i: int|
            0 <= i < a.len() && t.nodes.contains_key(
                #[trigger] a[i],
            ) implies s.nodes.contains_key(a[i]) by {
            assert(a[i] == fewer[i + 1]);
        }
        lemma_child_kept(s, t, a, b, name);
    }
}

/// A new child is found by its name where no other was.
proof fn lemma_child_added(s: Scene, t: Scene, children: Seq<Ref>, r: Ref, name: Seq<char>)
    requires
        forall|k: Ref| #[trigger]
            s.nodes.contains_key(k) ==> t.nodes.contains_key(k) && t.nodes[k].name
                == s.nodes[k].name,
        forall|i: int|
            0 <= i < children.len() ==> (t.nodes.contains_key(#[trigger] children[i])
                ==> s.nodes.contains_key(children[i])),
        child_named(s, children, name) is None,
        t.nodes.contains_key(r),
        t.nodes[r].name == name,
    ensures
        child_named(t, children.push(r), name) == Some(r),
    decreases children.len(),
{
    if children.len() > 0 {
        let rest = children.drop_first();
        assert(children.push(r).drop_first() =~= rest.push(r));
        assert(children.push(r)[0] == children[0]);
        assert forall|i: int|
            0 <= i < rest.len() && t.nodes.contains_key(
                #[trigger] rest[i],
            ) implies s.nodes.contains_key(rest[i]) by {
            assert(rest[i] == children[i + 1]);
        }
        lemma_child_added(s, t, rest, r, name);
    }
}

/// A place to which one instance is added.
proof fn lemma_with_instance(s: Scene, at: Ref, r: Ref, class: Seq<char>, name: Seq<char>)
    requires
        s.nodes.contains_key(at),
        points(at),
        unused(s, r),
    ensures
        extends(s, with_instance(s, at, true, r, class, name)),
        with_instance(s, at, true, r, class, name).nodes[at].children
            == s.nodes[at].children.push(r),
{
    let t = with_instance(s, at, true, r, class, name);
    assert(r != at);
    assert forall|k: Ref| #[trigger] s.nodes.contains_key(k) implies t.nodes[k].children.take(
        s.nodes[k].children.len() as int,
    ) == s.nodes[k].children by {
        if k == at {
            assert(t.nodes[k].children =~= s.nodes[k].children.push(r));
        }
        assert(t.nodes[k].children.take(s.nodes[k].children.len() as int)
            =~= s.nodes[k].children);
    }
}

/// What growing does from some instance on.
proof fn lemma_growing(
    s: Scene,
    at: Ref,
    parts: Seq<Seq<char>>,
    leaf_class: Seq<char>,
    fresh: Seq<Ref>,
)
    requires
        s.nodes.contains_key(at),
        anchored_from(s, at, parts),
        all_unused(s, fresh),
        missing_from(s, at, parts) <= fresh.len(),
    ensures
        extends(s, grown_from(s, at, parts, leaf_class, fresh).scene),
        reached(grown_from(s, at, parts, leaf_class, fresh).scene, at, parts) == Some(
            grown_from(s, at, parts, leaf_class, fresh).leaf,
        ),
        grown_from(s, at, parts, leaf_class, fresh).created == (reached(s, at, parts) is None),
        grown_from(s, at, parts, leaf_class, fresh).created ==> !s.nodes.contains_key(
            grown_from(s, at, parts, leaf_class, fresh).leaf,
        ),
        all_bare(s, grown_from(s, at, parts, leaf_class, fresh).scene),
        all_classed(
            s,
            grown_from(s, at, parts, leaf_class, fresh).scene,
            grown_from(s, at, parts, leaf_class, fresh).leaf,
            leaf_class,
        ),
    decreases parts.len(),
{
    let g = grown_from(s, at, parts, leaf_class, fresh);
    if parts.len() > 0 {
        let rest = parts.skip(1);
        let children = s.nodes[at].children;
        lemma_child_named(s, children, parts[0]);
        match child_named(s, children, parts[0]) {
            Some(next) => {
                lemma_growing(s, next, rest, leaf_class, fresh);
                assert(g.scene.nodes.contains_key(at));
                assert forall|i: int|
                    0 <= i < children.len() && g.scene.nodes.contains_key(
                        #[trigger] children[i],
                    ) implies s.nodes.contains_key(children[i]) by {
                    assert(children.contains(children[i]));
                }
                lemma_child_kept(s, g.scene, children, g.scene.nodes[at].children, parts[0]);
            },
            None => {
                let class = if parts.len() == 1 {
                    leaf_class
                } else {
                    "Folder"@
                };
                let r = fresh[0];
                let later = fresh.skip(1);
                let t = with_instance(s, at, points(at), r, class, parts[0]);
                lemma_with_instance(s, at, r, class, parts[0]);
                assert(t.nodes[r].children =~= Seq::<Ref>::empty());
                assert(anchored_from(t, r, rest));
                assert(all_unused(t, later)) by {
                    assert forall|i: int| 0 <= i < later.len() implies unused(
                        t,
                        #[trigger] later[i],
                    ) && points(later[i]) by {
                        let x = later[i];
                        assert(x == fresh[i + 1]);
                        assert(x != r);
                        assert(unused(s, x));
                        assert forall|k: Ref| #[trigger]
                            t.nodes.contains_key(k) implies !t.nodes[k].children.contains(x) by {
                            if k == r {
                                assert(t.nodes[k].children =~= Seq::<Ref>::empty());
                            } else {
                                assert(s.nodes.contains_key(k));
                                if t.nodes[k].children.contains(x) {
                                    let j = choose|j: int|
                                        0 <= j < t.nodes[k].children.len()
                                            && t.nodes[k].children[j] == x;
                                    if k == at && j == children.len() {
                                    } else {
                                        assert(s.nodes[k].children[j] == x);
                                        assert(s.nodes[k].children.contains(x));
                                    }
                                }
                            }
                        }
                    }
                }
                lemma_growing(t, r, rest, leaf_class, later);
                lemma_extends_chain(s, t, g.scene);
                assert forall|i: int|
                    0 <= i < children.len() && t.nodes.contains_key(
                        #[trigger] children[i],
                    ) implies s.nodes.contains_key(children[i]) by {
                    assert(children.contains(children[i]));
                }
                lemma_child_added(s, t, children, r, parts[0]);
                let more = t.nodes[at].children;
                assert(t.nodes.contains_key(at));
                assert forall|i: int|
                    0 <= i < more.len() && g.scene.nodes.contains_key(
                        #[trigger] more[i],
                    ) implies t.nodes.contains_key(more[i]) by {
                    assert(more.contains(more[i]));
                }
                lemma_child_kept(t, g.scene, more, g.scene.nodes[at].children, parts[0]);
            },
        }
    } else {
        assert(g.scene == s);
        assert forall|r: Ref| #[trigger] s.nodes.contains_key(r) implies s.nodes[r].children.take(
            s.nodes[r].children.len() as int,
        ) == s.nodes[r].children by {
            assert(s.nodes[r].children.take(s.nodes[r].children.len() as int)
                =~= s.nodes[r].children);
        }
    }
}

/// A path that was grown can be found, and leads to the leaf that came back. The
/// instances that were there keep their name, class and properties, and have new
/// children after the old ones at most. Something is created only where the path
/// led nowhere; what is created are folders, and a leaf of the class that was asked for,
/// and has no properties yet. Growing the path once more gives the same leaf and creates
/// nothing.
pub proof fn law_grown_path_is_found(
    s: Scene,
    path: Seq<char>,
    leaf_class: Seq<char>,
    fresh: Seq<Ref>,
)
    requires
        obstacle(s, path) is None,
        anchored(s, path),
        all_unused(s, fresh),
        missing(s, path) <= fresh.len(),
    ensures
        grown_rightly(s, path, leaf_class, grown(s, path, leaf_class, fresh)),
        obstacle(grown(s, path, leaf_class, fresh).scene, path) is None,
        forall|class: Seq<char>, more: Seq<Ref>|
            #[trigger] grown(grown(s, path, leaf_class, fresh).scene, path, class, more) == (
            Grown { created: false, ..grown(s, path, leaf_class, fresh) }),
{
    let g = grown(s, path, leaf_class, fresh);
    lemma_split_nonempty(path, '.');
    lemma_growing(s, s.root, split(path, '.'), leaf_class, fresh);
    assert(s.nodes.contains_key(s.root));
    assert forall|class: Seq<char>, more: Seq<Ref>|
        #[trigger] grown(g.scene, path, class, more) == (Grown { created: false, ..g }) by {
        law_growing_what_is_there(g.scene, path, class, more);
    }
}

// ---------------------------------------------------------------------------
// Typing
// ---------------------------------------------------------------------------

/// The value of a type that a text writes. `None` where the text writes none, and
/// for the types that no text is taken for.
pub open spec fn built(ty: Kind, value: Seq<char>) -> Option<Worth> {
    match ty {
        Kind::Content => Some(Worth::Content(value)),
        Kind::ContentId => Some(Worth::ContentId(value)),
        Kind::Text => Some(Worth::Text(value)),
        Kind::Bool => Some(Worth::Bool(value == "true"@)),
        Kind::Int32 => match parsed_int(value, i32::MIN as int, i32::MAX as int) {
            Some(i) => Some(Worth::Int32(i as i32)),
            None => None,
        },
        Kind::Int64 => match parsed_int(value, i64::MIN as int, i64::MAX as int) {
            Some(i) => Some(Worth::Int64(i as i64)),
            None => None,
        },
        Kind::Float32 => match float32_parsed(value) {
            Some(text) => Some(Worth::Float32(text)),
            None => None,
        },
        Kind::Float64 => match number_parsed(value) {
            Some(text) => Some(Worth::Float64(text)),
            None => None,
        },
        Kind::Other => None,
    }
}

/// The value that the declared type of a property makes of a text, if it makes
/// one of it.
pub open spec fn as_declared(
    classes: Classes,
    class: Seq<char>,
    prop: Seq<char>,
    value: Seq<char>,
) -> Option<Worth> {
    match type_in(classes, class, prop) {
        Some(ty) => built(kind(ty), value),
        None => None,
    }
}

/// The value that the type of what a property holds makes of a text, if it makes one
/// of it.
pub open spec fn as_before(existing: Option<Worth>, value: Seq<char>) -> Option<Worth> {
    match existing {
        Some(w) => built(worth_kind(w), value),
        None => None,
    }
}

/// What is written for a text into a property of a class that holds `existing`: a value
/// of the type that is declared for it, else of the type that it has already, else a
/// content id for what looks like one, else the text.
pub open spec fn typed_over(
    classes: Classes,
    class: Seq<char>,
    existing: Option<Worth>,
    prop: Seq<char>,
    value: Seq<char>,
) -> Worth {
    match (as_declared(classes, class, prop, value), as_before(existing, value)) {
        (Some(v), _) => v,
        (None, Some(v)) => v,
        (None, None) => if begins(value, "rbxassetid://"@) || begins(value, "rbxasset://"@) {
            Worth::ContentId(value)
        } else {
            Worth::Text(value)
        },
    }
}

/// What an instance holds in a property.
pub open spec fn held_in(node: Node, prop: Seq<char>) -> Option<Worth> {
    if node.props.contains_key(prop) {
        Some(node.props[prop])
    } else {
        None
    }
}

/// What is written into a property of an instance for a text.
pub open spec fn typed(classes: Classes, node: Node, prop: Seq<char>, value: Seq<char>) -> Worth {
    typed_over(classes, node.class, held_in(node, prop), prop, value)
}

/// The value of a type that a text writes.
fn build(ty: VariantType, value: &str) -> (r: Option<Variant>)
    ensures
        match r {
            Some(v) => built(kind(ty), value@) == Some(worth(v)),
            None => built(kind(ty), value@) is None,
        },
{
    match kind_of(ty) {
        Kind::Content => Some(content(value)),
        Kind::ContentId => Some(content_id(value)),
        Kind::Text => Some(text_variant(value)),
        Kind::Bool => Some(bool_variant(same(value, "true"))),
        Kind::Int32 => match parse_int(value, i32::MIN as i128, i32::MAX as i128) {
            Some(i) => Some(int32_variant(i as i32)),
            None => None,
        },
        Kind::Int64 => match parse_int(value, i64::MIN as i128, i64::MAX as i128) {
            Some(i) => Some(int64_variant(i as i64)),
            None => None,
        },
        Kind::Float32 => float32_variant(value),
        Kind::Float64 => float64_variant(value),
        Kind::Other => None,
    }
}

/// The value to write into a property for a text, with the database at hand.
pub fn variant_for_in(refl: Reflection, inst: &Instance, prop_name: &str, value: &str) -> (r:
    Variant)
    ensures
        worth(r) == typed(known_classes(refl), node_of(*inst), prop_name@, value@),
{
    if let Some(ty) = declared_type_in(refl, instance_class(inst), prop_name) {
        if let Some(v) = build(ty, value) {
            return v;
        }
    }
    if let Some(ty) = property_type(inst, prop_name) {
        if let Some(v) = build(ty, value) {
            return v;
        }
    }
    if starts_with(value, "rbxassetid://") || starts_with(value, "rbxasset://") {
        content_id(value)
    } else {
        text_variant(value)
    }
}

/// The value to write into a property for a text.
///
/// The reflection database decides, not the name of the property: Roblox has two
/// types for content, which are not interchangeable, and no list of names stays
/// right across its releases. Where the database knows nothing, the type that the
/// place has there already does.
pub fn variant_for(inst: &Instance, prop_name: &str, value: &str) -> (r: Variant)
    ensures
        exists|refl: Reflection| #[trigger]
            at_hand(refl) && worth(r) == typed(
                known_classes(refl),
                node_of(*inst),
                prop_name@,
                value@,
            ),
{
    let refl: Reflection = reflection();
    assert(at_hand(refl));
    variant_for_in(refl, inst, prop_name, value)
}

/// Whether the reflection database knows this class at all.
///
/// An unknown property of a known class is a mistake, an unknown class is a
/// Roblox release that the database has not caught up with.
pub fn class_is_known(class_name: &str) -> (r: bool)
    ensures
        exists|refl: Reflection| #[trigger]
            at_hand(refl) && r == known_classes(refl).contains_key(class_name@),
{
    let refl: Reflection = reflection();
    assert(at_hand(refl));
    class_is_known_in(refl, class_name)
}

/// The type that the reflection database declares for a property, looked for up
/// the line of descent. `None` where it knows no such class or property.
pub fn declared_type(class_name: &str, prop_name: &str) -> (r: Option<VariantType>)
    ensures
        exists|refl: Reflection| #[trigger]
            at_hand(refl) && r == type_in(known_classes(refl), class_name@, prop_name@),
{
    let refl: Reflection = reflection();
    assert(at_hand(refl));
    declared_type_in(refl, class_name, prop_name)
}

/// The properties that would override a property when the place is read back.
///
/// Roblox moves old properties to new ones when a place is read, and where the new
/// one is there already, the old one is ignored. So a new one that was left behind
/// by an earlier run has to go, or what is written now would have no effect.
pub fn overriding_properties(class_name: &str, prop_name: &str) -> (r: Vec<String>)
    ensures
        exists|refl: Reflection| #[trigger]
            at_hand(refl) && texts(r@) == moved_in(known_classes(refl), class_name@, prop_name@),
{
    let refl: Reflection = reflection();
    assert(at_hand(refl));
    overriding_properties_in(refl, class_name, prop_name)
}

/// A text that makes a value of a type makes one of that type.
pub proof fn lemma_built_kind(ty: Kind, value: Seq<char>)
    ensures
        built(ty, value) matches Some(w) ==> worth_kind(w) == ty,
{
}

/// The declared type decides: where it makes a value of the text, that value is
/// written, and it is of the declared type.
pub proof fn law_the_declared_type_decides(
    classes: Classes,
    node: Node,
    prop: Seq<char>,
    value: Seq<char>,
)
    requires
        as_declared(classes, node.class, prop, value) is Some,
    ensures
        type_in(classes, node.class, prop) matches Some(ty) && worth_kind(
            typed(classes, node, prop, value),
        ) == kind(ty) && built(kind(ty), value) == Some(typed(classes, node, prop, value)),
{
    lemma_built_kind(kind(type_in(classes, node.class, prop)->0), value);
}

/// Writing the same text again writes the same value.
pub proof fn law_typing_is_stable(
    classes: Classes,
    node: Node,
    again: Node,
    prop: Seq<char>,
    value: Seq<char>,
)
    requires
        again.class == node.class,
        again.props.contains_key(prop),
        again.props[prop] == typed(classes, node, prop, value),
    ensures
        typed(classes, again, prop, value) == typed(classes, node, prop, value),
{
    if node.props.contains_key(prop) {
        lemma_built_kind(worth_kind(node.props[prop]), value);
    }
}

/// What a value reads as: the text itself, a truth value as its word, a whole number in
/// decimal, any other number as its shortest text. Other values read as nothing.
pub open spec fn reads_as(value: Worth) -> Option<Seq<char>> {
    match value {
        Worth::Content(s) => Some(s),
        Worth::ContentId(s) => Some(s),
        Worth::Text(s) => Some(s),
        Worth::Bool(true) => Some("true"@),
        Worth::Bool(false) => Some("false"@),
        Worth::Int32(i) => Some(int_text(i as int)),
        Worth::Int64(i) => Some(int_text(i as int)),
        Worth::Float32(s) => Some(s),
        Worth::Float64(s) => Some(s),
        _ => None,
    }
}

/// The value that is made of a text reads as that text. A content and a text do so to the
/// letter, and so does a truth value of `true` and of `false`; every other text makes the
/// value false. A number reads as the same number. What is no number of the type makes no
/// value of it.
pub proof fn law_a_value_reads_as_its_text(ty: Kind, value: Seq<char>)
    ensures
        built(ty, value) matches Some(w) ==> worth_kind(w) == ty && reads_as(w) is Some,
        match ty {
            Kind::Content | Kind::ContentId | Kind::Text => built(ty, value) matches Some(w)
                && reads_as(w) == Some(value),
            Kind::Bool => built(ty, value) matches Some(w) && {
                &&& value == "true"@ || value == "false"@ ==> reads_as(w) == Some(value)
                &&& value != "true"@ ==> reads_as(w) == Some("false"@)
            },
            Kind::Int32 => match built(ty, value) {
                Some(w) => parsed_int(value, i32::MIN as int, i32::MAX as int) is Some
                    && parsed_int(reads_as(w)->0, i32::MIN as int, i32::MAX as int) == parsed_int(
                    value,
                    i32::MIN as int,
                    i32::MAX as int,
                ),
                None => parsed_int(value, i32::MIN as int, i32::MAX as int) is None,
            },
            Kind::Int64 => match built(ty, value) {
                Some(w) => parsed_int(value, i64::MIN as int, i64::MAX as int) is Some
                    && parsed_int(reads_as(w)->0, i64::MIN as int, i64::MAX as int) == parsed_int(
                    value,
                    i64::MIN as int,
                    i64::MAX as int,
                ),
                None => parsed_int(value, i64::MIN as int, i64::MAX as int) is None,
            },
            Kind::Float32 => match built(ty, value) {
                Some(w) => float32_parsed(value) == reads_as(w),
                None => float32_parsed(value) is None,
            },
            Kind::Float64 => match built(ty, value) {
                Some(w) => number_parsed(value) == reads_as(w),
                None => number_parsed(value) is None,
            },
            Kind::Other => built(ty, value) is None,
        },
        forall|i: i32|
            built(Kind::Int32, #[trigger] int_text(i as int)) == Some(Worth::Int32(i)),
        forall|i: i64|
            built(Kind::Int64, #[trigger] int_text(i as int)) == Some(Worth::Int64(i)),
{
    assert forall|i: i32|
        built(Kind::Int32, #[trigger] int_text(i as int)) == Some(Worth::Int32(i)) && parsed_int(
            int_text(i as int),
            i32::MIN as int,
            i32::MAX as int,
        ) == Some(i as int) by {
        law_int_text_reads_back(i as int, i32::MIN as int, i32::MAX as int);
    }
    assert forall|i: i64|
        built(Kind::Int64, #[trigger] int_text(i as int)) == Some(Worth::Int64(i)) && parsed_int(
            int_text(i as int),
            i64::MIN as int,
            i64::MAX as int,
        ) == Some(i as int) by {
        law_int_text_reads_back(i as int, i64::MIN as int, i64::MAX as int);
    }
    if ty is Int32 {
        if let Some(Worth::Int32(i)) = built(ty, value) {
            law_int_text_reads_back(i as int, i32::MIN as int, i32::MAX as int);
        }
    }
    if ty is Int64 {
        if let Some(Worth::Int64(i)) = built(ty, value) {
            law_int_text_reads_back(i as int, i64::MIN as int, i64::MAX as int);
        }
    }
}

/// Which type a text is written as. The declared one, whatever the property holds, where it
/// takes the text; else that of what the property holds, where that takes it; else a text
/// that begins as an asset id does is a content id, and any other stays a text. In the last
/// two cases it is written to the letter.
pub proof fn law_which_type_is_written(
    classes: Classes,
    node: Node,
    prop: Seq<char>,
    value: Seq<char>,
)
    ensures
        ({
            let w = typed(classes, node, prop, value);
            let declared = type_in(classes, node.class, prop);
            let by_type = declared is Some && built(kind(declared->0), value) is Some;
            let by_value = node.props.contains_key(prop) && built(
                worth_kind(node.props[prop]),
                value,
            ) is Some;
            let asset = (exists|rest: Seq<char>| value == #[trigger] ("rbxassetid://"@ + rest)) || (
            exists|rest: Seq<char>| value == #[trigger] ("rbxasset://"@ + rest));
            &&& reads_as(w) is Some
            &&& by_type ==> worth_kind(w) == kind(declared->0) && Some(w) == built(
                kind(declared->0),
                value,
            )
            &&& !by_type && by_value ==> worth_kind(w) == worth_kind(node.props[prop]) && Some(w)
                == built(worth_kind(node.props[prop]), value)
            &&& !by_type && !by_value && asset ==> w == Worth::ContentId(value)
            &&& !by_type && !by_value && !asset ==> w == Worth::Text(value)
        }),
{
    law_a_prefix_can_be_told("rbxassetid://"@, value);
    law_a_prefix_can_be_told("rbxasset://"@, value);
    if let Some(ty) = type_in(classes, node.class, prop) {
        law_a_value_reads_as_its_text(kind(ty), value);
    }
    if node.props.contains_key(prop) {
        law_a_value_reads_as_its_text(worth_kind(node.props[prop]), value);
    }
}

// ---------------------------------------------------------------------------
// Where a path leads
// ---------------------------------------------------------------------------

/// Whether `r` is the first child of `at` that is there and is called `name`.
pub open spec fn first_child(s: Scene, at: Ref, name: Seq<char>, r: Ref) -> bool {
    &&& s.nodes.contains_key(at)
    &&& s.nodes.contains_key(r)
    &&& s.nodes[r].name == name
    &&& exists|i: int|
        {
            &&& 0 <= i < s.nodes[at].children.len()
            &&& #[trigger] s.nodes[at].children[i] == r
            &&& forall|j: int|
                0 <= j < i ==> {
                    let other = #[trigger] s.nodes[at].children[j];
                    !s.nodes.contains_key(other) || s.nodes[other].name != name
                }
        }
}

/// Whether the instances `way`, from `at` on, each have the next one for a child of the next
/// name, the first of that name.
pub open spec fn leads_from(s: Scene, at: Ref, names: Seq<Seq<char>>, way: Seq<Ref>) -> bool {
    &&& way.len() == names.len() + 1
    &&& way[0] == at
    &&& forall|i: int|
        0 <= i < names.len() ==> first_child(s, way[i], #[trigger] names[i], way[i + 1])
}

/// Whether `way` is the way that a path takes from the root down, one instance for each
/// name between its dots.
pub open spec fn leads(s: Scene, path: Seq<char>, way: Seq<Ref>) -> bool {
    leads_from(s, s.root, split(path, '.'), way)
}

/// A child is found just where one is there that is called so, and it is the first of them.
proof fn lemma_first_child(s: Scene, at: Ref, children: Seq<Ref>, name: Seq<char>)
    ensures
        match child_named(s, children, name) {
            Some(r) => s.nodes.contains_key(r) && s.nodes[r].name == name && exists|i: int|
                {
                    &&& 0 <= i < children.len()
                    &&& #[trigger] children[i] == r
                    &&& forall|j: int|
                        0 <= j < i ==> !s.nodes.contains_key(#[trigger] children[j])
                            || s.nodes[children[j]].name != name
                },
            None => forall|j: int|
                0 <= j < children.len() ==> !s.nodes.contains_key(#[trigger] children[j])
                    || s.nodes[children[j]].name != name,
        },
    decreases children.len(),
{
    if children.len() > 0 {
        let rest = children.drop_first();
        lemma_first_child(s, at, rest, name);
        if !(s.nodes.contains_key(children[0]) && s.nodes[children[0]].name == name) {
            match child_named(s, rest, name) {
                Some(r) => {
                    let i = choose|i: int|
                        {
                            &&& 0 <= i < rest.len()
                            &&& #[trigger] rest[i] == r
                            &&& forall|j: int|
                                0 <= j < i ==> !s.nodes.contains_key(#[trigger] rest[j])
                                    || s.nodes[rest[j]].name != name
                        };
                    assert(children[i + 1] == r);
                    assert forall|j: int| 0 <= j < i + 1 implies !s.nodes.contains_key(
                        #[trigger] children[j],
                    ) || s.nodes[children[j]].name != name by {
                        if j > 0 {
                            assert(children[j] == rest[j - 1]);
                        }
                    }
                },
                None => {
                    assert forall|j: int| 0 <= j < children.len() implies !s.nodes.contains_key(
                        #[trigger] children[j],
                    ) || s.nodes[children[j]].name != name by {
                        if j > 0 {
                            assert(children[j] == rest[j - 1]);
                        }
                    }
                },
            }
        } else {
            assert(children[0] == child_named(s, children, name)->0);
        }
    }
}

/// The child that is found is the first one of that name, and the only one that is.
proof fn lemma_child_is_first(s: Scene, at: Ref, name: Seq<char>, r: Ref)
    requires
        s.nodes.contains_key(at),
    ensures
        first_child(s, at, name, r) <==> child_named(s, s.nodes[at].children, name) == Some(r),
{
    let children = s.nodes[at].children;
    lemma_first_child(s, at, children, name);
    if first_child(s, at, name, r) {
        let i = choose|i: int|
            {
                &&& 0 <= i < s.nodes[at].children.len()
                &&& #[trigger] s.nodes[at].children[i] == r
                &&& forall|j: int|
                    0 <= j < i ==> {
                        let other = #[trigger] s.nodes[at].children[j];
                        !s.nodes.contains_key(other) || s.nodes[other].name != name
                    }
            };
        assert(children[i] == r);
        let q = child_named(s, children, name)->0;
        let k = choose|k: int|
            {
                &&& 0 <= k < children.len()
                &&& #[trigger] children[k] == q
                &&& forall|j: int|
                    0 <= j < k ==> !s.nodes.contains_key(#[trigger] children[j])
                        || s.nodes[children[j]].name != name
            };
        assert(children[k] == q);
        if i < k {
            assert(children[i] == r);
        } else if k < i {
            assert(s.nodes[at].children[k] == q);
        }
    }
    if child_named(s, children, name) == Some(r) {
        let k = choose|k: int|
            {
                &&& 0 <= k < children.len()
                &&& #[trigger] children[k] == r
                &&& forall|j: int|
                    0 <= j < k ==> !s.nodes.contains_key(#[trigger] children[j])
                        || s.nodes[children[j]].name != name
            };
        assert(s.nodes[at].children[k] == r);
    }
}

proof fn lemma_reached_by_a_way(s: Scene, at: Ref, names: Seq<Seq<char>>) -> (way: Seq<Ref>)
    ensures
        reached(s, at, names) matches Some(r) ==> leads_from(s, at, names, way) && way.last() == r,
        forall|other: Seq<Ref>| #[trigger]
            leads_from(s, at, names, other) ==> reached(s, at, names) == Some(other.last())
                && other == way,
    decreases names.len(),
{
    if names.len() == 0 {
        let way = seq![at];
        assert forall|other: Seq<Ref>| #[trigger] leads_from(s, at, names, other) implies reached(
            s,
            at,
            names,
        ) == Some(other.last()) && other == way by {
            assert(other =~= way);
        }
        way
    } else if !s.nodes.contains_key(at) {
        assert forall|other: Seq<Ref>| #[trigger] leads_from(s, at, names, other) implies false by {
            assert(first_child(s, other[0], names[0], other[1]));
        }
        seq![at]
    } else {
        let name = names[0];
        let rest = names.skip(1);
        match child_named(s, s.nodes[at].children, name) {
            None => {
                assert forall|other: Seq<Ref>| #[trigger]
                    leads_from(s, at, names, other) implies false by {
                    assert(first_child(s, other[0], names[0], other[1]));
                    lemma_child_is_first(s, at, name, other[1]);
                }
                seq![at]
            },
            Some(next) => {
                lemma_child_is_first(s, at, name, next);
                let further = lemma_reached_by_a_way(s, next, rest);
                let way = seq![at] + further;
                assert forall|other: Seq<Ref>| #[trigger]
                    leads_from(s, at, names, other) implies reached(s, at, names) == Some(
                    other.last(),
                ) && other == way by {
                    assert(first_child(s, other[0], names[0], other[1]));
                    lemma_child_is_first(s, at, name, other[1]);
                    let less = other.skip(1);
                    assert forall|i: int| 0 <= i < rest.len() implies first_child(
                        s,
                        less[i],
                        #[trigger] rest[i],
                        less[i + 1],
                    ) by {
                        assert(rest[i] == names[i + 1]);
                        assert(less[i] == other[i + 1] && less[i + 1] == other[i + 2]);
                    }
                    assert(leads_from(s, next, rest, less));
                    assert(other =~= way);
                }
                if reached(s, at, names) is Some {
                    assert forall|i: int| 0 <= i < names.len() implies first_child(
                        s,
                        way[i],
                        #[trigger] names[i],
                        way[i + 1],
                    ) by {
                        if i > 0 {
                            assert(names[i] == rest[i - 1]);
                            assert(way[i] == further[i - 1] && way[i + 1] == further[i]);
                        }
                    }
                }
                way
            },
        }
    }
}

/// A path is found just where there is a way for it from the root down, and ends where that
/// ends. There is one such way at most.
pub proof fn law_a_path_is_found_by_its_way(s: Scene, path: Seq<char>)
    ensures
        match found(s, path) {
            Some(r) => exists|way: Seq<Ref>| #[trigger] leads(s, path, way) && way.last() == r,
            None => forall|way: Seq<Ref>| !#[trigger] leads(s, path, way),
        },
        forall|way: Seq<Ref>| #[trigger] leads(s, path, way) ==> found(s, path) == Some(way.last()),
        forall|one: Seq<Ref>, other: Seq<Ref>| #[trigger]
            leads(s, path, one) && #[trigger] leads(s, path, other) ==> one == other,
{
    let way = lemma_reached_by_a_way(s, s.root, split(path, '.'));
    if found(s, path) is Some {
        assert(leads(s, path, way));
    }
    assert forall|other: Seq<Ref>| #[trigger] leads(s, path, other) implies found(s, path) == Some(
        other.last(),
    ) && other == way by {
        assert(leads_from(s, s.root, split(path, '.'), other));
    }
}

/// Nothing is in the way of growing a path just where none of its names is empty and the
/// first of them leads from the root to an instance. However long it is, and whatever is
/// missing of it, nothing else is asked.
pub proof fn law_what_is_in_the_way(s: Scene, path: Seq<char>)
    ensures
        obstacle(s, path) is None <==> {
            &&& forall|i: int|
                0 <= i < split(path, '.').len() ==> (#[trigger] split(path, '.')[i]).len() > 0
            &&& exists|r: Ref| #[trigger] first_child(s, s.root, split(path, '.')[0], r)
        },
        obstacle(s, path) matches Some(o) ==> obstacle_text(path, o) == {
            if exists|i: int|
                0 <= i < split(path, '.').len() && (#[trigger] split(path, '.')[i]).len() == 0 {
                "path '"@ + path + "' has an empty segment"@
            } else if !s.nodes.contains_key(s.root) {
                "dangling reference while walking path"@
            } else {
                "'"@ + split(path, '.')[0] + "' is not a service of this place"@
            }
        },
{
    let name = split(path, '.')[0];
    lemma_split_nonempty(path, '.');
    if s.nodes.contains_key(s.root) {
        if let Some(r) = child_named(s, s.nodes[s.root].children, name) {
            lemma_child_is_first(s, s.root, name, r);
            assert(first_child(s, s.root, name, r));
        }
        assert forall|r: Ref| #[trigger] first_child(s, s.root, name, r) implies child_named(
            s,
            s.nodes[s.root].children,
            name,
        ) == Some(r) by {
            lemma_child_is_first(s, s.root, name, r);
        }
    }
}

/// What growing adds lies on the way that it grows, and what was there gets one child at most.
proof fn lemma_only_the_way_grows(
    s: Scene,
    at: Ref,
    parts: Seq<Seq<char>>,
    leaf_class: Seq<char>,
    fresh: Seq<Ref>,
) -> (anchor: Ref)
    requires
        s.nodes.contains_key(at),
        anchored_from(s, at, parts),
        all_unused(s, fresh),
        missing_from(s, at, parts) <= fresh.len(),
    ensures
        ({
            let g = grown_from(s, at, parts, leaf_class, fresh);
            &&& forall|r: Ref| #[trigger]
                g.scene.nodes.contains_key(r) && !s.nodes.contains_key(r) ==> exists|k: int|
                    0 < k <= parts.len() && #[trigger] reached(g.scene, at, parts.take(k)) == Some(r)
            &&& forall|r: Ref| #[trigger]
                s.nodes.contains_key(r) && r != anchor ==> g.scene.nodes[r] == s.nodes[r]
            &&& s.nodes.contains_key(anchor)
            &&& g.created ==> g.scene.nodes[anchor].children.drop_last() == s.nodes[anchor].children
                && g.scene.nodes[anchor].children.len() == s.nodes[anchor].children.len() + 1
            &&& !g.created ==> g.scene == s
            &&& parts.len() == 0 || child_named(s, s.nodes[at].children, parts[0]) is None
                ==> anchor == at
        }),
    decreases parts.len(),
{
    lemma_growing(s, at, parts, leaf_class, fresh);
    if parts.len() == 0 {
        at
    } else {
        let g = grown_from(s, at, parts, leaf_class, fresh);
        let rest = parts.skip(1);
        let children = s.nodes[at].children;
        let one = parts.take(1);
        lemma_child_named(s, children, parts[0]);
        assert(one.skip(1) =~= Seq::<Seq<char>>::empty());
        reveal_with_fuel(reached, 2);
        match child_named(s, children, parts[0]) {
            Some(next) => {
                let anchor = lemma_only_the_way_grows(s, next, rest, leaf_class, fresh);
                assert(reached(s, at, one) == Some(next));
                lemma_found_kept(s, g.scene, at, one);
                assert forall|r: Ref| #[trigger]
                    g.scene.nodes.contains_key(r) && !s.nodes.contains_key(r) implies exists|
                    k: int,
                |
                    0 < k <= parts.len() && #[trigger] reached(g.scene, at, parts.take(k)) == Some(
                        r,
                    ) by {
                    let k = choose|k: int|
                        0 < k <= rest.len() && #[trigger] reached(g.scene, next, rest.take(k))
                            == Some(r);
                    assert(parts.take(k + 1).skip(1) =~= rest.take(k));
                    assert(reached(g.scene, at, parts.take(k + 1)) == Some(r));
                }
                anchor
            },
            None => {
                let class = if parts.len() == 1 {
                    leaf_class
                } else {
                    "Folder"@
                };
                let r0 = fresh[0];
                let later = fresh.skip(1);
                let t = with_instance(s, at, points(at), r0, class, parts[0]);
                assert(unused(s, fresh[0]));
                lemma_with_instance(s, at, r0, class, parts[0]);
                assert(t.nodes[r0].children =~= Seq::<Ref>::empty());
                assert(all_unused(t, later)) by {
                    assert forall|i: int| 0 <= i < later.len() implies unused(
                        t,
                        #[trigger] later[i],
                    ) && points(later[i]) by {
                        let x = later[i];
                        assert(x == fresh[i + 1]);
                        assert(x != r0);
                        assert(unused(s, x));
                        assert forall|k: Ref| #[trigger]
                            t.nodes.contains_key(k) implies !t.nodes[k].children.contains(x) by {
                            if k != r0 {
                                assert(s.nodes.contains_key(k));
                                if t.nodes[k].children.contains(x) {
                                    let j = choose|j: int|
                                        0 <= j < t.nodes[k].children.len()
                                            && t.nodes[k].children[j] == x;
                                    assert(s.nodes[k].children[j] == x);
                                    assert(s.nodes[k].children.contains(x));
                                }
                            }
                        }
                    }
                }
                lemma_growing(t, r0, rest, leaf_class, later);
                let further = lemma_only_the_way_grows(t, r0, rest, leaf_class, later);
                assert(further == r0);
                assert forall|i: int|
                    0 <= i < children.len() && t.nodes.contains_key(
                        #[trigger] children[i],
                    ) implies s.nodes.contains_key(children[i]) by {
                    assert(children.contains(children[i]));
                }
                lemma_child_added(s, t, children, r0, parts[0]);
                assert(reached(t, at, one) == Some(r0));
                lemma_found_kept(t, g.scene, at, one);
                assert forall|r: Ref| #[trigger]
                    g.scene.nodes.contains_key(r) && !s.nodes.contains_key(r) implies exists|
                    k: int,
                |
                    0 < k <= parts.len() && #[trigger] reached(g.scene, at, parts.take(k)) == Some(
                        r,
                    ) by {
                    if r == r0 {
                        assert(reached(g.scene, at, parts.take(1)) == Some(r));
                    } else {
                        assert(!t.nodes.contains_key(r));
                        let k = choose|k: int|
                            0 < k <= rest.len() && #[trigger] reached(g.scene, r0, rest.take(k))
                                == Some(r);
                        assert(parts.take(k + 1).skip(1) =~= rest.take(k));
                        assert(reached(g.scene, at, parts.take(k + 1)) == Some(r));
                    }
                }
                assert forall|r: Ref| #[trigger] s.nodes.contains_key(r) && r != at implies g.scene.nodes[r]
                    == s.nodes[r] by {
                    assert(t.nodes.contains_key(r));
                    assert(t.nodes[r] == s.nodes[r]);
                }
                assert(t.nodes.contains_key(at));
                assert(g.scene.nodes[at] == t.nodes[at]);
                assert(g.scene.nodes[at].children.drop_last() =~= children);
                at
            },
        }
    }
}

/// Growing a path adds nothing but what the path was missing: each new instance is one that
/// some of its names, from the first on, lead to. Of what was there, one instance gets one
/// child more, after its other children, and all others are as they were.
pub proof fn law_only_the_path_is_grown(
    s: Scene,
    path: Seq<char>,
    leaf_class: Seq<char>,
    fresh: Seq<Ref>,
) -> (anchor: Ref)
    requires
        obstacle(s, path) is None,
        anchored(s, path),
        all_unused(s, fresh),
        missing(s, path) <= fresh.len(),
    ensures
        ({
            let g = grown(s, path, leaf_class, fresh);
            &&& forall|r: Ref| #[trigger]
                g.scene.nodes.contains_key(r) && !s.nodes.contains_key(r) ==> exists|
                    way: Seq<Ref>,
                | #[trigger] leads(g.scene, path, way) && way.contains(r)
            &&& forall|r: Ref| #[trigger]
                s.nodes.contains_key(r) && r != anchor ==> g.scene.nodes[r] == s.nodes[r]
            &&& g.created ==> g.scene.nodes[anchor].children.drop_last() == s.nodes[anchor].children
                && g.scene.nodes[anchor].children.len() == s.nodes[anchor].children.len() + 1
            &&& !g.created ==> g.scene == s
        }),
{
    let g = grown(s, path, leaf_class, fresh);
    let parts = split(path, '.');
    law_grown_path_is_found(s, path, leaf_class, fresh);
    law_a_path_is_found_by_its_way(g.scene, path);
    let way = choose|way: Seq<Ref>| #[trigger] leads(g.scene, path, way) && way.last() == g.leaf;
    let anchor = lemma_only_the_way_grows(s, s.root, parts, leaf_class, fresh);
    assert(g.scene.root == s.root);
    assert forall|r: Ref| #[trigger]
        g.scene.nodes.contains_key(r) && !s.nodes.contains_key(r) implies exists|
        way: Seq<Ref>,
    | #[trigger] leads(g.scene, path, way) && way.contains(r) by {
        let k = choose|k: int|
            0 < k <= parts.len() && #[trigger] reached(g.scene, s.root, parts.take(k)) == Some(r);
        let some = parts.take(k);
        let upto = way.take(k + 1);
        assert forall|i: int| 0 <= i < some.len() implies first_child(
            g.scene,
            upto[i],
            #[trigger] some[i],
            upto[i + 1],
        ) by {
            assert(some[i] == parts[i]);
        }
        assert(leads_from(g.scene, s.root, some, upto));
        let other = lemma_reached_by_a_way(g.scene, s.root, some);
        assert(upto.last() == r);
        assert(way[k] == r);
        assert(leads(g.scene, path, way) && way.contains(r));
    }
    anchor
}

} // verus!
