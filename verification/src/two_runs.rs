//! Runs that differ in the references which new instances get.
//!
//! The references are random, so two runs never come to the very same place. They come to
//! places that are alike: every instance of one has its counterpart in the other.

use crate::config::Rule;
use crate::dom::{all_unused, child_named, found, grown, grown_from, lemma_child_named};
use crate::dom::{lemma_reached, missing, missing_from, obstacle, reached, unused};
use crate::inject::{cleared, entries_done, entry_done, fills, keys_resolved};
use crate::inject::{lemma_filling_asks, properties_done, written, State};
use crate::inject_laws::{keying, setting};
use crate::luau::Rewriting;
use crate::place::{points, with_instance, with_property, without_property, Node, Scene, Worth};
use crate::reflection::{moved_in, Classes};
use crate::resolve::TextModel;
use crate::run_laws::{all_answerable, can_run_by, keys_run, properties_run, run_by};
use crate::text::{lemma_split_nonempty, split};
use crate::text_map::Pairs;
use rbx_dom_weak::types::Ref;
use vstd::prelude::*;

verus! {

/// Which reference of one place stands for which of another.
pub type Counterpart = spec_fn(Ref) -> Ref;

/// Whether some reference has `b` for its counterpart.
pub open spec fn stood_for(f: Counterpart, b: Ref) -> bool {
    exists|a: Ref| #[trigger] f(a) == b
}

/// Whether references and counterparts belong together one to one, and those that point
/// to something with those that do.
pub open spec fn one_to_one(f: Counterpart) -> bool {
    &&& forall|a: Ref, b: Ref| #[trigger] f(a) == #[trigger] f(b) ==> a == b
    &&& forall|b: Ref| #[trigger] stood_for(f, b)
    &&& forall|a: Ref| points(#[trigger] f(a)) == points(a)
}

/// Whether an instance is the same but for references: its name, its class, its
/// properties and, in their order, the counterparts of its children.
pub open spec fn same_instance(f: Counterpart, a: Node, b: Node) -> bool {
    &&& a.name == b.name
    &&& a.class == b.class
    &&& a.props == b.props
    &&& b.children == a.children.map_values(f)
}

/// Whether `r` is an instance of one place where its counterpart is the same instance of
/// the other, and no instance where that is none.
pub open spec fn matched(f: Counterpart, s: Scene, t: Scene, r: Ref) -> bool {
    &&& s.nodes.contains_key(r) == t.nodes.contains_key(f(r))
    &&& s.nodes.contains_key(r) ==> same_instance(f, s.nodes[r], t.nodes[f(r)])
}

/// Whether two places are the same but for references.
pub open spec fn alike(f: Counterpart, s: Scene, t: Scene) -> bool {
    &&& t.root == f(s.root)
    &&& forall|r: Ref| #[trigger] matched(f, s, t, r)
}

/// Whether two places are the same but for references, and the same was reported of them.
pub open spec fn states_alike(f: Counterpart, a: State, b: State) -> bool {
    &&& alike(f, a.scene, b.scene)
    &&& a.changes == b.changes
    &&& a.warnings == b.warnings
}

/// Whether the instances of a place keep their counterparts.
pub open spec fn keeps(f: Counterpart, g: Counterpart, s: Scene) -> bool {
    forall|r: Ref| #[trigger] s.nodes.contains_key(r) ==> g(r) == f(r)
}

/// The counterpart of what was reached, if anything was.
pub open spec fn counterpart(f: Counterpart, r: Option<Ref>) -> Option<Ref> {
    match r {
        Some(r) => Some(f(r)),
        None => None,
    }
}

// ---------------------------------------------------------------------------
// Paths
// ---------------------------------------------------------------------------

proof fn lemma_child_alike(
    f: Counterpart,
    s: Scene,
    t: Scene,
    children: Seq<Ref>,
    name: Seq<char>,
)
    requires
        alike(f, s, t),
    ensures
        child_named(t, children.map_values(f), name) == counterpart(
            f,
            child_named(s, children, name),
        ),
    decreases children.len(),
{
    if children.len() > 0 {
        assert(matched(f, s, t, children[0]));
        assert(children.map_values(f)[0] == f(children[0]));
        assert(children.map_values(f).drop_first() =~= children.drop_first().map_values(f));
        lemma_child_alike(f, s, t, children.drop_first(), name);
    }
}

proof fn lemma_reached_alike(
    f: Counterpart,
    s: Scene,
    t: Scene,
    at: Ref,
    parts: Seq<Seq<char>>,
)
    requires
        alike(f, s, t),
    ensures
        reached(t, f(at), parts) == counterpart(f, reached(s, at, parts)),
    decreases parts.len(),
{
    if parts.len() > 0 {
        assert(matched(f, s, t, at));
        if s.nodes.contains_key(at) {
            lemma_child_alike(f, s, t, s.nodes[at].children, parts[0]);
            if let Some(next) = child_named(s, s.nodes[at].children, parts[0]) {
                lemma_reached_alike(f, s, t, next, parts.skip(1));
            }
        }
    }
}

proof fn lemma_found_alike(f: Counterpart, s: Scene, t: Scene, path: Seq<char>)
    requires
        alike(f, s, t),
    ensures
        found(t, path) == counterpart(f, found(s, path)),
        found(s, path) matches Some(r) ==> s.nodes.contains_key(r),
        obstacle(t, path) == obstacle(s, path),
{
    let parts = split(path, '.');
    lemma_split_nonempty(path, '.');
    lemma_reached(s, s.root, parts);
    lemma_reached_alike(f, s, t, s.root, parts);
    assert(matched(f, s, t, s.root));
    if s.nodes.contains_key(s.root) {
        lemma_child_alike(f, s, t, s.nodes[s.root].children, parts[0]);
    }
}

// ---------------------------------------------------------------------------
// Growing
// ---------------------------------------------------------------------------

/// The counterparts with `b` standing for `a`. What `b` stood for gets what stood for `a`.
pub open spec fn rebound(f: Counterpart, a: Ref, b: Ref) -> Counterpart {
    |r: Ref|
        if f(r) == b {
            f(a)
        } else if f(r) == f(a) {
            b
        } else {
            f(r)
        }
}

proof fn lemma_rebound_one_to_one(f: Counterpart, a: Ref, b: Ref)
    requires
        one_to_one(f),
        points(a),
        points(b),
    ensures
        one_to_one(rebound(f, a, b)),
        rebound(f, a, b)(a) == b,
{
    let g = rebound(f, a, b);
    assert forall|x: Ref, y: Ref| #[trigger] g(x) == #[trigger] g(y) implies x == y by {
        assert(f(x) == f(y));
    }
    assert forall|y: Ref| #[trigger] stood_for(g, y) by {
        assert(stood_for(f, y) && stood_for(f, b));
        if y == b {
            assert(g(a) == y);
        } else if y == f(a) {
            let d = choose|d: Ref| #[trigger] f(d) == b;
            assert(g(d) == y);
        } else {
            let x = choose|x: Ref| #[trigger] f(x) == y;
            assert(g(x) == y);
        }
    }
    assert forall|x: Ref| points(#[trigger] g(x)) == points(x) by {
        assert(points(f(x)) == points(x));
        assert(points(f(a)) == points(a));
    }
}

/// New references can be made to stand for each other.
proof fn lemma_rebound(f: Counterpart, s: Scene, t: Scene, a: Ref, b: Ref)
    requires
        one_to_one(f),
        alike(f, s, t),
        s.nodes.contains_key(s.root),
        unused(s, a),
        unused(t, b),
        points(a),
        points(b),
    ensures
        one_to_one(rebound(f, a, b)),
        rebound(f, a, b)(a) == b,
        alike(rebound(f, a, b), s, t),
        keeps(f, rebound(f, a, b), s),
{
    let g = rebound(f, a, b);
    lemma_rebound_one_to_one(f, a, b);
    assert forall|r: Ref| #[trigger] s.nodes.contains_key(r) implies g(r) == f(r) by {
        assert(matched(f, s, t, r));
        if f(r) == f(a) {
            assert(r == a);
        }
    }
    assert forall|r: Ref| #[trigger] matched(g, s, t, r) by {
        assert(matched(f, s, t, r));
        assert(matched(f, s, t, a));
        if s.nodes.contains_key(r) {
            assert(g(r) == f(r));
            let children = s.nodes[r].children;
            assert(children.map_values(g) =~= children.map_values(f)) by {
                assert forall|i: int| 0 <= i < children.len() implies g(
                    #[trigger] children[i],
                ) == f(children[i]) by {
                    assert(children.contains(children[i]));
                    assert(children.map_values(f)[i] == f(children[i]));
                    assert(t.nodes[f(r)].children.contains(f(children[i])));
                    assert(t.nodes.contains_key(f(r)));
                    if f(children[i]) == f(a) {
                        assert(children[i] == a);
                    }
                }
            }
        }
    }
}

/// New instances that stand for each other.
proof fn lemma_instance_alike(
    f: Counterpart,
    s: Scene,
    t: Scene,
    at: Ref,
    linked: bool,
    a: Ref,
    class: Seq<char>,
    name: Seq<char>,
)
    requires
        one_to_one(f),
        alike(f, s, t),
        s.nodes.contains_key(at),
        !s.nodes.contains_key(a),
    ensures
        alike(
            f,
            with_instance(s, at, linked, a, class, name),
            with_instance(t, f(at), linked, f(a), class, name),
        ),
{
    let more = with_instance(s, at, linked, a, class, name);
    let more_too = with_instance(t, f(at), linked, f(a), class, name);
    assert forall|r: Ref| #[trigger] matched(f, more, more_too, r) by {
        assert(matched(f, s, t, r));
        assert(matched(f, s, t, at));
        assert(f(r) == f(a) ==> r == a);
        assert(f(r) == f(at) ==> r == at);
        assert(Seq::<Ref>::empty().map_values(f) =~= Seq::<Ref>::empty());
        let children = s.nodes[at].children;
        assert(children.push(a).map_values(f) =~= children.map_values(f).push(f(a)));
    }
}

/// References that are new stay new when another one is used.
proof fn lemma_still_unused(
    s: Scene,
    at: Ref,
    linked: bool,
    class: Seq<char>,
    name: Seq<char>,
    fresh: Seq<Ref>,
)
    requires
        s.nodes.contains_key(at),
        fresh.len() > 0,
        all_unused(s, fresh),
    ensures
        all_unused(with_instance(s, at, linked, fresh[0], class, name), fresh.skip(1)),
{
    let r = fresh[0];
    let t = with_instance(s, at, linked, r, class, name);
    let later = fresh.skip(1);
    assert(unused(s, fresh[0]));
    assert forall|i: int| 0 <= i < later.len() implies unused(t, #[trigger] later[i]) && points(
        later[i],
    ) by {
        let x = later[i];
        assert(x == fresh[i + 1]);
        assert(x != r);
        assert(unused(s, x));
        assert forall|k: Ref| #[trigger] t.nodes.contains_key(k) implies !t.nodes[k].children.contains(
            x,
        ) by {
            if k != r {
                assert(s.nodes.contains_key(k));
                if t.nodes[k].children.contains(x) {
                    let j = choose|j: int|
                        0 <= j < t.nodes[k].children.len() && t.nodes[k].children[j] == x;
                    assert(s.nodes[k].children[j] == x);
                    assert(s.nodes[k].children.contains(x));
                }
            }
        }
    }
}

/// Paths that are grown in places that are alike leave them alike.
proof fn lemma_grown_alike(
    f: Counterpart,
    s: Scene,
    t: Scene,
    at: Ref,
    parts: Seq<Seq<char>>,
    leaf_class: Seq<char>,
    one: Seq<Ref>,
    other: Seq<Ref>,
) -> (g: Counterpart)
    requires
        one_to_one(f),
        alike(f, s, t),
        s.nodes.contains_key(s.root),
        s.nodes.contains_key(at),
        all_unused(s, one),
        all_unused(t, other),
        missing_from(s, at, parts) <= one.len(),
        missing_from(t, f(at), parts) <= other.len(),
    ensures
        one_to_one(g),
        keeps(f, g, s),
        alike(
            g,
            grown_from(s, at, parts, leaf_class, one).scene,
            grown_from(t, f(at), parts, leaf_class, other).scene,
        ),
        grown_from(t, f(at), parts, leaf_class, other).leaf == g(
            grown_from(s, at, parts, leaf_class, one).leaf,
        ),
        grown_from(s, at, parts, leaf_class, one).created == grown_from(
            t,
            f(at),
            parts,
            leaf_class,
            other,
        ).created,
        grown_from(s, at, parts, leaf_class, one).scene.nodes.contains_key(
            grown_from(s, at, parts, leaf_class, one).leaf,
        ),
        s.nodes.dom().subset_of(grown_from(s, at, parts, leaf_class, one).scene.nodes.dom()),
    decreases parts.len(),
{
    if parts.len() == 0 {
        f
    } else {
        let rest = parts.skip(1);
        let children = s.nodes[at].children;
        assert(matched(f, s, t, at));
        lemma_child_alike(f, s, t, children, parts[0]);
        lemma_child_named(s, children, parts[0]);
        match child_named(s, children, parts[0]) {
            Some(next) => lemma_grown_alike(f, s, t, next, rest, leaf_class, one, other),
            None => {
                let class = if parts.len() == 1 {
                    leaf_class
                } else {
                    "Folder"@
                };
                let a = one[0];
                let b = other[0];
                assert(unused(s, one[0]) && unused(t, other[0]));
                lemma_rebound(f, s, t, a, b);
                let g = rebound(f, a, b);
                assert(g(at) == f(at));
                let linked = points(at);
                assert(points(g(at)) == linked);
                lemma_instance_alike(g, s, t, at, linked, a, class, parts[0]);
                let more = with_instance(s, at, linked, a, class, parts[0]);
                let more_too = with_instance(t, f(at), linked, b, class, parts[0]);
                lemma_still_unused(s, at, linked, class, parts[0], one);
                lemma_still_unused(t, f(at), linked, class, parts[0], other);
                assert(more.nodes[a].children =~= Seq::<Ref>::empty());
                assert(f(at) != b);
                assert(more_too.nodes[b].children =~= Seq::<Ref>::empty());
                let h = lemma_grown_alike(
                    g,
                    more,
                    more_too,
                    a,
                    rest,
                    leaf_class,
                    one.skip(1),
                    other.skip(1),
                );
                assert forall|r: Ref| #[trigger] s.nodes.contains_key(r) implies h(r) == f(r) by {
                    assert(more.nodes.contains_key(r));
                    assert(g(r) == f(r));
                }
                h
            },
        }
    }
}

// ---------------------------------------------------------------------------
// Properties
// ---------------------------------------------------------------------------

proof fn lemma_with_property_alike(
    f: Counterpart,
    s: Scene,
    t: Scene,
    target: Ref,
    name: Seq<char>,
    value: Worth,
)
    requires
        one_to_one(f),
        alike(f, s, t),
        s.nodes.contains_key(target),
    ensures
        alike(
            f,
            with_property(s, target, name, value),
            with_property(t, f(target), name, value),
        ),
{
    let a = with_property(s, target, name, value);
    let b = with_property(t, f(target), name, value);
    assert forall|r: Ref| #[trigger] matched(f, a, b, r) by {
        assert(matched(f, s, t, r) && matched(f, s, t, target));
        assert(f(r) == f(target) ==> r == target);
    }
}

proof fn lemma_without_property_alike(
    f: Counterpart,
    s: Scene,
    t: Scene,
    target: Ref,
    name: Seq<char>,
)
    requires
        one_to_one(f),
        alike(f, s, t),
        s.nodes.contains_key(target),
    ensures
        alike(f, without_property(s, target, name), without_property(t, f(target), name)),
{
    let a = without_property(s, target, name);
    let b = without_property(t, f(target), name);
    assert forall|r: Ref| #[trigger] matched(f, a, b, r) by {
        assert(matched(f, s, t, r) && matched(f, s, t, target));
        assert(f(r) == f(target) ==> r == target);
    }
}

proof fn lemma_cleared_alike(
    f: Counterpart,
    s: Scene,
    t: Scene,
    target: Ref,
    names: Seq<Seq<char>>,
)
    requires
        one_to_one(f),
        alike(f, s, t),
        s.nodes.contains_key(target),
    ensures
        alike(f, cleared(s, target, names).0, cleared(t, f(target), names).0),
        cleared(s, target, names).1 == cleared(t, f(target), names).1,
        cleared(s, target, names).0.nodes.dom() == s.nodes.dom(),
    decreases names.len(),
{
    if names.len() > 0 {
        let front = names.drop_last();
        lemma_cleared_alike(f, s, t, target, front);
        let (before, _) = cleared(s, target, front);
        let (before_too, _) = cleared(t, f(target), front);
        assert(matched(f, before, before_too, target));
        lemma_without_property_alike(f, before, before_too, target, names.last());
        assert(cleared(s, target, names).0.nodes.dom() =~= s.nodes.dom());
    }
}

proof fn lemma_written_alike(
    f: Counterpart,
    classes: Classes,
    target: Ref,
    prop: Seq<char>,
    value: Worth,
    line: Seq<char>,
    a: State,
    b: State,
)
    requires
        one_to_one(f),
        states_alike(f, a, b),
        a.scene.nodes.contains_key(target),
    ensures
        states_alike(
            f,
            written(classes, target, prop, value, line, a),
            written(classes, f(target), prop, value, line, b),
        ),
        written(classes, target, prop, value, line, a).scene.nodes.dom() == a.scene.nodes.dom(),
{
    assert(matched(f, a.scene, b.scene, target));
    let names = moved_in(classes, a.scene.nodes[target].class, prop);
    lemma_cleared_alike(f, a.scene, b.scene, target, names);
    let (rest, _) = cleared(a.scene, target, names);
    let (rest_too, _) = cleared(b.scene, f(target), names);
    lemma_with_property_alike(f, rest, rest_too, target, prop, value);
    assert(written(classes, target, prop, value, line, a).scene.nodes.dom()
        =~= a.scene.nodes.dom());
}

proof fn lemma_entry_alike(
    f: Counterpart,
    classes: Classes,
    path: Seq<char>,
    target: Ref,
    entry: (Seq<char>, Seq<char>),
    map: TextModel,
    modules: TextModel,
    a: State,
    b: State,
)
    requires
        one_to_one(f),
        states_alike(f, a, b),
        a.scene.nodes.contains_key(target),
    ensures
        states_alike(
            f,
            entry_done(classes, path, target, entry, map, modules, a),
            entry_done(classes, path, f(target), entry, map, modules, b),
        ),
        entry_done(classes, path, target, entry, map, modules, a).scene.nodes.dom()
            == a.scene.nodes.dom(),
{
    assert(matched(f, a.scene, b.scene, target));
    assert forall|value: Worth, line: Seq<char>|
        states_alike(
            f,
            #[trigger] written(classes, target, entry.0, value, line, a),
            written(classes, f(target), entry.0, value, line, b),
        ) && written(classes, target, entry.0, value, line, a).scene.nodes.dom()
            == a.scene.nodes.dom() by {
        lemma_written_alike(f, classes, target, entry.0, value, line, a, b);
    }
}

proof fn lemma_entries_alike(
    f: Counterpart,
    classes: Classes,
    path: Seq<char>,
    target: Ref,
    entries: Pairs,
    map: TextModel,
    modules: TextModel,
    a: State,
    b: State,
)
    requires
        one_to_one(f),
        states_alike(f, a, b),
        a.scene.nodes.contains_key(target),
    ensures
        states_alike(
            f,
            entries_done(classes, path, target, entries, map, modules, a),
            entries_done(classes, path, f(target), entries, map, modules, b),
        ),
        entries_done(classes, path, target, entries, map, modules, a).scene.nodes.dom()
            == a.scene.nodes.dom(),
    decreases entries.len(),
{
    if entries.len() > 0 {
        let front = entries.drop_last();
        lemma_entries_alike(f, classes, path, target, front, map, modules, a, b);
        let before = entries_done(classes, path, target, front, map, modules, a);
        let before_too = entries_done(classes, path, f(target), front, map, modules, b);
        lemma_entry_alike(
            f,
            classes,
            path,
            target,
            entries.last(),
            map,
            modules,
            before,
            before_too,
        );
    }
}

/// Whether a rule that creates what is missing of its path has new references for it, and
/// enough of them.
pub open spec fn supplied(
    rule: Rule,
    map: TextModel,
    modules: TextModel,
    fresh: Seq<Ref>,
    s: Scene,
) -> bool {
    rule.properties.len() > 0 && fills(rule.properties, map, modules) && obstacle(s, rule.path)
        is None ==> all_unused(s, fresh) && missing(s, rule.path) <= fresh.len()
}

/// Whether every rule is supplied when its turn comes.
pub open spec fn all_supplied(
    classes: Classes,
    rules: Seq<Rule>,
    map: TextModel,
    modules: TextModel,
    fresh: Seq<Seq<Ref>>,
    before: State,
) -> bool
    decreases rules.len(),
{
    rules.len() > 0 ==> {
        let front = rules.drop_last();
        let between = properties_run(classes, front, map, modules, fresh, before);
        &&& all_supplied(classes, front, map, modules, fresh, before)
        &&& supplied(rules.last(), map, modules, fresh[rules.len() - 1], between.scene)
    }
}

proof fn lemma_properties_alike(
    f: Counterpart,
    classes: Classes,
    rule: Rule,
    map: TextModel,
    modules: TextModel,
    one: Seq<Ref>,
    other: Seq<Ref>,
    a: State,
    b: State,
) -> (g: Counterpart)
    requires
        one_to_one(f),
        states_alike(f, a, b),
        supplied(rule, map, modules, one, a.scene),
        supplied(rule, map, modules, other, b.scene),
    ensures
        one_to_one(g),
        keeps(f, g, a.scene),
        states_alike(
            g,
            properties_done(classes, rule, map, modules, one, a),
            properties_done(classes, rule, map, modules, other, b),
        ),
        a.scene.nodes.dom().subset_of(
            properties_done(classes, rule, map, modules, one, a).scene.nodes.dom(),
        ),
{
    let path = rule.path;
    let entries = rule.properties;
    lemma_found_alike(f, a.scene, b.scene, path);
    lemma_filling_asks(entries, map, modules);
    if entries.len() > 0 && fills(entries, map, modules) && obstacle(a.scene, path) is None {
        let parts = split(path, '.');
        let g = lemma_grown_alike(
            f,
            a.scene,
            b.scene,
            a.scene.root,
            parts,
            "ModuleScript"@,
            one,
            other,
        );
        let at = grown(a.scene, path, "ModuleScript"@, one);
        let at_too = grown(b.scene, path, "ModuleScript"@, other);
        let line = path + "  [created ModuleScript]"@;
        let there = if at.created {
            a.at(at.scene).change(line)
        } else {
            a.at(at.scene)
        };
        let there_too = if at_too.created {
            b.at(at_too.scene).change(line)
        } else {
            b.at(at_too.scene)
        };
        assert(states_alike(g, there, there_too));
        lemma_entries_alike(g, classes, path, at.leaf, entries, map, modules, there, there_too);
        g
    } else {
        if let Some(target) = found(a.scene, path) {
            lemma_entries_alike(f, classes, path, target, entries, map, modules, a, b);
        }
        f
    }
}

proof fn lemma_runs_alike(
    classes: Classes,
    rules: Seq<Rule>,
    map: TextModel,
    modules: TextModel,
    one: Seq<Seq<Ref>>,
    other: Seq<Seq<Ref>>,
    before: State,
) -> (f: Counterpart)
    requires
        all_supplied(classes, rules, map, modules, one, before),
        all_supplied(classes, rules, map, modules, other, before),
    ensures
        one_to_one(f),
        forall|r: Ref| #[trigger] before.scene.nodes.contains_key(r) ==> f(r) == r,
        before.scene.nodes.dom().subset_of(
            properties_run(classes, rules, map, modules, one, before).scene.nodes.dom(),
        ),
        states_alike(
            f,
            properties_run(classes, rules, map, modules, one, before),
            properties_run(classes, rules, map, modules, other, before),
        ),
    decreases rules.len(),
{
    if rules.len() == 0 {
        let f = |r: Ref| r;
        assert forall|b: Ref| #[trigger] stood_for(f, b) by {
            assert(f(b) == b);
        }
        assert forall|r: Ref| #[trigger] matched(f, before.scene, before.scene, r) by {
            let children = before.scene.nodes[r].children;
            assert(children.map_values(f) =~= children);
        }
        f
    } else {
        let front = rules.drop_last();
        let f = lemma_runs_alike(classes, front, map, modules, one, other, before);
        let a = properties_run(classes, front, map, modules, one, before);
        let b = properties_run(classes, front, map, modules, other, before);
        let n = rules.len() - 1;
        let g = lemma_properties_alike(
            f,
            classes,
            rules.last(),
            map,
            modules,
            one[n],
            other[n],
            a,
            b,
        );
        assert forall|r: Ref| #[trigger] before.scene.nodes.contains_key(r) implies g(r) == r by {
            assert(a.scene.nodes.contains_key(r));
        }
        g
    }
}

// ---------------------------------------------------------------------------
// Keys
// ---------------------------------------------------------------------------

proof fn lemma_resolved_alike(
    f: Counterpart,
    path: Seq<char>,
    keys: Pairs,
    map: TextModel,
    a: State,
    b: State,
)
    requires
        states_alike(f, a, b),
    ensures
        states_alike(f, keys_resolved(path, keys, map, a).0, keys_resolved(path, keys, map, b).0),
        keys_resolved(path, keys, map, a).1 == keys_resolved(path, keys, map, b).1,
        keys_resolved(path, keys, map, a).0.scene == a.scene,
    decreases keys.len(),
{
    if keys.len() > 0 {
        lemma_resolved_alike(f, path, keys.drop_last(), map, a, b);
    }
}

proof fn lemma_keys_alike(
    f: Counterpart,
    outcomes: Seq<Rewriting>,
    rules: Seq<Rule>,
    map: TextModel,
    a: State,
    b: State,
)
    requires
        one_to_one(f),
        states_alike(f, a, b),
    ensures
        states_alike(f, keys_run(outcomes, rules, map, a), keys_run(outcomes, rules, map, b)),
        all_answerable(outcomes, rules, map, a) == all_answerable(outcomes, rules, map, b),
    decreases rules.len(),
{
    if rules.len() > 0 {
        let front = rules.drop_last();
        let rule = rules.last();
        lemma_keys_alike(f, outcomes, front, map, a, b);
        let before = keys_run(outcomes, front, map, a);
        let before_too = keys_run(outcomes, front, map, b);
        lemma_found_alike(f, before.scene, before_too.scene, rule.path);
        lemma_resolved_alike(f, rule.path, rule.keys, map, before, before_too);
        if let Some(target) = found(before.scene, rule.path) {
            assert(matched(f, before.scene, before_too.scene, target));
            let (reported, _) = keys_resolved(rule.path, rule.keys, map, before);
            let (reported_too, _) = keys_resolved(rule.path, rule.keys, map, before_too);
            if let Ok(text) = outcomes[rules.len() - 1] {
                lemma_with_property_alike(
                    f,
                    reported.scene,
                    reported_too.scene,
                    target,
                    "Source"@,
                    Worth::Text(text@),
                );
            }
        }
    }
}

// ---------------------------------------------------------------------------
// Runs
// ---------------------------------------------------------------------------

/// Two runs on one place in which the modules come to the same come to the same reports
/// and to places that are the same but for the references of new instances, in whatever
/// way the rules are split into properties and keys and these stand among each other:
/// every property takes effect before any key does. Instances that were there keep their
/// references, and what the modules can come to in one run they can come to in the other.
/// The references that are given out have to be new ones.
pub proof fn law_two_runs_agree(
    classes: Classes,
    one: Seq<Rule>,
    other: Seq<Rule>,
    map: TextModel,
    modules: TextModel,
    fresh: Seq<Seq<Ref>>,
    fresh_too: Seq<Seq<Ref>>,
    outcomes: Seq<Rewriting>,
    before: State,
) -> (f: Counterpart)
    requires
        setting(one) == setting(other),
        keying(one) == keying(other),
        all_supplied(classes, setting(one), map, modules, fresh, before),
        all_supplied(classes, setting(other), map, modules, fresh_too, before),
    ensures
        one_to_one(f),
        forall|r: Ref| #[trigger] before.scene.nodes.contains_key(r) ==> f(r) == r,
        states_alike(
            f,
            run_by(classes, one, map, modules, fresh, outcomes, before),
            run_by(classes, other, map, modules, fresh_too, outcomes, before),
        ),
        fresh.len() == fresh_too.len() ==> can_run_by(
            classes,
            one,
            map,
            modules,
            fresh,
            outcomes,
            before,
        ) == can_run_by(classes, other, map, modules, fresh_too, outcomes, before),
{
    let rules = setting(one);
    let f = lemma_runs_alike(classes, rules, map, modules, fresh, fresh_too, before);
    let a = properties_run(classes, rules, map, modules, fresh, before);
    let b = properties_run(classes, rules, map, modules, fresh_too, before);
    lemma_keys_alike(f, outcomes, keying(one), map, a, b);
    f
}

} // verus!
