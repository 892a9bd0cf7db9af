//! What a whole run leaves as it was, and what a second one adds.

use crate::config::Rule;
use crate::dom::{all_unused, anchored, as_declared, built, builds_on, found, grown, has_empty};
use crate::dom::{law_growing_what_is_there, law_grown_path_is_found, lemma_builds_on_chain};
use crate::dom::{lemma_built_kind, lemma_found_kept, lemma_reached, missing, obstacle, reached};
use crate::inject::{applied, asks_for_source, entries_done, fills, keys_pass, keys_step};
use crate::inject::{keys_concluded, keys_resolved, keys_target, lemma_filling_asks};
use crate::inject::module_rewritten;
use crate::inject::{properties_done, properties_pass, properties_step, State};
use crate::inject_laws::{affects, entry_value, held, law_entries_keep_to_their_target};
use crate::inject_laws::{law_keys_change_one_source, law_what_an_entry_does, lemma_entry_effect};
use crate::inject_laws::{keying, lemma_keying, lemma_setting, lemma_unaffected};
use crate::inject_laws::{only_properties_of, setting};
use crate::luau::{may_rewrite, KeysError, Rewriting};
use crate::place::{worth_kind, Kind, Scene, Worth};
use crate::reflection::Classes;
use crate::resolve::{resolved_property, Resolution, TextModel};
use crate::text::{lemma_split_nonempty, split};
use crate::text_map::Pairs;
use rbx_dom_weak::types::Ref;
use vstd::prelude::*;

verus! {

// ---------------------------------------------------------------------------
// The references of new instances
// ---------------------------------------------------------------------------

/// The state that the properties of the rules lead to, one rule after the other,
/// where the instances that rule `i` creates get the references `fresh[i]`.
pub open spec fn properties_run(
    classes: Classes,
    rules: Seq<Rule>,
    map: TextModel,
    modules: TextModel,
    fresh: Seq<Seq<Ref>>,
    before: State,
) -> State
    decreases rules.len(),
{
    if rules.len() == 0 {
        before
    } else {
        properties_done(
            classes,
            rules.last(),
            map,
            modules,
            fresh[rules.len() - 1],
            properties_run(classes, rules.drop_last(), map, modules, fresh, before),
        )
    }
}

/// Only the references for the rules themselves matter.
proof fn lemma_run_by_its_own(
    classes: Classes,
    rules: Seq<Rule>,
    map: TextModel,
    modules: TextModel,
    fresh: Seq<Seq<Ref>>,
    more: Seq<Ref>,
    before: State,
)
    requires
        rules.len() <= fresh.len(),
    ensures
        properties_run(classes, rules, map, modules, fresh.push(more), before) == properties_run(
            classes,
            rules,
            map,
            modules,
            fresh,
            before,
        ),
    decreases rules.len(),
{
    if rules.len() > 0 {
        lemma_run_by_its_own(classes, rules.drop_last(), map, modules, fresh, more, before);
    }
}

/// The properties of the rules lead from one state to another just where some
/// choice of references for the new instances does.
pub proof fn law_a_pass_is_a_choice_of_references(
    classes: Classes,
    rules: Seq<Rule>,
    map: TextModel,
    modules: TextModel,
    before: State,
    after: State,
)
    ensures
        properties_pass(classes, rules, map, modules, before, after) <==> exists|
            fresh: Seq<Seq<Ref>>,
        |
            {
                &&& fresh.len() == rules.len()
                &&& #[trigger] properties_run(classes, rules, map, modules, fresh, before)
                    == after
            },
    decreases rules.len(),
{
    if rules.len() == 0 {
        let none = Seq::<Seq<Ref>>::empty();
        assert(properties_run(classes, rules, map, modules, none, before) == before);
    } else {
        let front = rules.drop_last();
        let last = rules.last();
        if properties_pass(classes, rules, map, modules, before, after) {
            let between = choose|between: State|
                {
                    &&& properties_pass(classes, front, map, modules, before, between)
                    &&& #[trigger] properties_step(classes, last, map, modules, between, after)
                };
            law_a_pass_is_a_choice_of_references(classes, front, map, modules, before, between);
            let fresh = choose|fresh: Seq<Seq<Ref>>|
                {
                    &&& fresh.len() == front.len()
                    &&& #[trigger] properties_run(classes, front, map, modules, fresh, before)
                        == between
                };
            let more = choose|more: Seq<Ref>|
                #[trigger] properties_done(classes, last, map, modules, more, between) == after;
            lemma_run_by_its_own(classes, front, map, modules, fresh, more, before);
            assert(fresh.push(more)[rules.len() - 1] == more);
            assert(properties_run(classes, rules, map, modules, fresh.push(more), before)
                == after);
        }
        if exists|fresh: Seq<Seq<Ref>>|
            {
                &&& fresh.len() == rules.len()
                &&& #[trigger] properties_run(classes, rules, map, modules, fresh, before)
                    == after
            } {
            let fresh = choose|fresh: Seq<Seq<Ref>>|
                {
                    &&& fresh.len() == rules.len()
                    &&& #[trigger] properties_run(classes, rules, map, modules, fresh, before)
                        == after
                };
            let between = properties_run(classes, front, map, modules, fresh, before);
            let fewer = fresh.drop_last();
            assert(fewer.push(fresh.last()) =~= fresh);
            lemma_run_by_its_own(classes, front, map, modules, fewer, fresh.last(), before);
            law_a_pass_is_a_choice_of_references(classes, front, map, modules, before, between);
            assert(properties_run(classes, front, map, modules, fewer, before) == between);
            assert(properties_done(
                classes,
                last,
                map,
                modules,
                fresh[rules.len() - 1],
                between,
            ) == after);
            assert(properties_step(classes, last, map, modules, between, after));
        }
    }
}

/// Whether a rule that creates what is missing of its path has new references for it,
/// and enough of them, and puts it into an instance that points to something.
pub open spec fn equipped(
    rule: Rule,
    map: TextModel,
    modules: TextModel,
    fresh: Seq<Ref>,
    s: Scene,
) -> bool {
    rule.properties.len() > 0 && fills(rule.properties, map, modules) && obstacle(s, rule.path)
        is None ==> {
        &&& all_unused(s, fresh)
        &&& missing(s, rule.path) <= fresh.len()
        &&& anchored(s, rule.path)
    }
}

/// Whether every rule is equipped when its turn comes.
pub open spec fn all_equipped(
    classes: Classes,
    rules: Seq<Rule>,
    map: TextModel,
    modules: TextModel,
    fresh: Seq<Seq<Ref>>,
    before: State,
) -> bool
    decreases rules.len(),
{
    rules.len() > 0 ==> {
        let front = rules.drop_last();
        let between = properties_run(classes, front, map, modules, fresh, before);
        &&& all_equipped(classes, front, map, modules, fresh, before)
        &&& equipped(rules.last(), map, modules, fresh[rules.len() - 1], between.scene)
    }
}

// ---------------------------------------------------------------------------
// What is left as it was
// ---------------------------------------------------------------------------

/// Whether a rule is for a property of an instance: the path leads there, and one
/// of the entries that resolve sets or clears it, or it is the source of a module
/// and the rule edits that.
pub open spec fn meant(
    classes: Classes,
    rule: Rule,
    map: TextModel,
    modules: TextModel,
    s: Scene,
    r: Ref,
    prop: Seq<char>,
) -> bool {
    let class = s.nodes[r].class;
    &&& found(s, rule.path) == Some(r)
    &&& {
        ||| exists|j: int|
            0 <= j < rule.properties.len() && affects(
                classes,
                class,
                #[trigger] rule.properties[j],
                map,
                modules,
                prop,
            )
        ||| rule.keys.len() > 0 && class == "ModuleScript"@ && prop == "Source"@
    }
}

/// Whether one of the rules is for a property of an instance.
pub open spec fn asked_for(
    classes: Classes,
    rules: Seq<Rule>,
    map: TextModel,
    modules: TextModel,
    s: Scene,
    r: Ref,
    prop: Seq<char>,
) -> bool {
    exists|i: int|
        0 <= i < rules.len() && meant(classes, #[trigger] rules[i], map, modules, s, r, prop)
}

/// Whether the instances of `s` are in `t` as they were, but for what the rules ask
/// for: the name and the class are the same, the children are the same but for new
/// ones after them, and a property that differs is one that a rule is for.
pub open spec fn spared(
    classes: Classes,
    rules: Seq<Rule>,
    map: TextModel,
    modules: TextModel,
    s: Scene,
    t: Scene,
) -> bool {
    &&& builds_on(s, t)
    &&& forall|r: Ref, prop: Seq<char>|
        s.nodes.contains_key(r) && #[trigger] held(t, r, prop) != held(s, r, prop) ==> asked_for(
            classes,
            rules,
            map,
            modules,
            t,
            r,
            prop,
        )
}

proof fn lemma_spared_itself(
    classes: Classes,
    rules: Seq<Rule>,
    map: TextModel,
    modules: TextModel,
    s: Scene,
)
    ensures
        spared(classes, rules, map, modules, s, s),
{
    assert forall|r: Ref| #[trigger] s.nodes.contains_key(r) implies s.nodes[r].children.take(
        s.nodes[r].children.len() as int,
    ) == s.nodes[r].children by {
        assert(s.nodes[r].children.take(s.nodes[r].children.len() as int)
            =~= s.nodes[r].children);
    }
}

proof fn lemma_asked_for_later(
    classes: Classes,
    rules: Seq<Rule>,
    map: TextModel,
    modules: TextModel,
    s: Scene,
    t: Scene,
    r: Ref,
    prop: Seq<char>,
)
    requires
        builds_on(s, t),
        s.nodes.contains_key(r),
        asked_for(classes, rules, map, modules, s, r, prop),
    ensures
        asked_for(classes, rules, map, modules, t, r, prop),
{
    let i = choose|i: int|
        0 <= i < rules.len() && meant(classes, #[trigger] rules[i], map, modules, s, r, prop);
    lemma_found_kept(s, t, s.root, split(rules[i].path, '.'));
    assert(meant(classes, rules[i], map, modules, t, r, prop));
}

proof fn lemma_spared_chain(
    classes: Classes,
    rules: Seq<Rule>,
    map: TextModel,
    modules: TextModel,
    a: Scene,
    b: Scene,
    c: Scene,
)
    requires
        spared(classes, rules, map, modules, a, b),
        spared(classes, rules, map, modules, b, c),
    ensures
        spared(classes, rules, map, modules, a, c),
{
    lemma_builds_on_chain(a, b, c);
    assert forall|r: Ref, prop: Seq<char>|
        a.nodes.contains_key(r) && #[trigger] held(c, r, prop) != held(a, r, prop) implies asked_for(
        classes,
        rules,
        map,
        modules,
        c,
        r,
        prop,
    ) by {
        assert(b.nodes.contains_key(r));
        if held(b, r, prop) != held(a, r, prop) {
            lemma_asked_for_later(classes, rules, map, modules, b, c, r, prop);
        }
    }
}

proof fn lemma_spared_by_more(
    classes: Classes,
    rules: Seq<Rule>,
    map: TextModel,
    modules: TextModel,
    s: Scene,
    t: Scene,
)
    requires
        rules.len() > 0,
        spared(classes, rules.drop_last(), map, modules, s, t),
    ensures
        spared(classes, rules, map, modules, s, t),
{
    let front = rules.drop_last();
    assert forall|r: Ref, prop: Seq<char>|
        s.nodes.contains_key(r) && #[trigger] held(t, r, prop) != held(s, r, prop) implies asked_for(
        classes,
        rules,
        map,
        modules,
        t,
        r,
        prop,
    ) by {
        let i = choose|i: int|
            0 <= i < front.len() && meant(classes, #[trigger] front[i], map, modules, t, r, prop);
        assert(rules[i] == front[i]);
    }
}

/// A place that differs in the properties of an instance builds on the other.
proof fn lemma_properties_build_on(target: Ref, s: Scene, t: Scene)
    requires
        only_properties_of(target, s, t),
    ensures
        builds_on(s, t),
        builds_on(t, s),
{
    assert forall|r: Ref| s.nodes.contains_key(r) == #[trigger] t.nodes.contains_key(r) by {
        assert(s.nodes.dom().contains(r) == t.nodes.dom().contains(r));
    }
    assert forall|r: Ref| #[trigger] s.nodes.contains_key(r) implies s.nodes[r].children.take(
        s.nodes[r].children.len() as int,
    ) == s.nodes[r].children by {
        assert(s.nodes[r].children.take(s.nodes[r].children.len() as int)
            =~= s.nodes[r].children);
    }
}

/// What the entries of a rule do to the instance at its path.
proof fn lemma_entries_spare(
    classes: Classes,
    rule: Rule,
    target: Ref,
    map: TextModel,
    modules: TextModel,
    st: State,
)
    requires
        st.scene.nodes.contains_key(target),
        found(st.scene, rule.path) == Some(target),
    ensures
        ({
            let after = entries_done(
                classes,
                rule.path,
                target,
                rule.properties,
                map,
                modules,
                st,
            );
            &&& spared(classes, seq![rule], map, modules, st.scene, after.scene)
        }),
{
    let after = entries_done(classes, rule.path, target, rule.properties, map, modules, st);
    law_entries_keep_to_their_target(
        classes,
        rule.path,
        target,
        rule.properties,
        map,
        modules,
        st,
    );
    lemma_properties_build_on(target, st.scene, after.scene);
    lemma_found_kept(st.scene, after.scene, st.scene.root, split(rule.path, '.'));
    assert forall|r: Ref, prop: Seq<char>|
        st.scene.nodes.contains_key(r) && #[trigger] held(after.scene, r, prop) != held(
            st.scene,
            r,
            prop,
        ) implies asked_for(classes, seq![rule], map, modules, after.scene, r, prop) by {
        assert(r == target);
        lemma_unaffected(
            classes,
            rule.path,
            target,
            rule.properties,
            map,
            modules,
            st,
            prop,
        );
        assert(meant(classes, seq![rule][0], map, modules, after.scene, r, prop));
    }
}

/// What the properties of a rule leave as it was.
proof fn lemma_properties_spare(
    classes: Classes,
    rule: Rule,
    map: TextModel,
    modules: TextModel,
    fresh: Seq<Ref>,
    st: State,
)
    requires
        equipped(rule, map, modules, fresh, st.scene),
    ensures
        ({
            let after = properties_done(classes, rule, map, modules, fresh, st);
            &&& spared(classes, seq![rule], map, modules, st.scene, after.scene)
        }),
{
    let path = rule.path;
    lemma_spared_itself(classes, seq![rule], map, modules, st.scene);
    lemma_split_nonempty(path, '.');
    lemma_filling_asks(rule.properties, map, modules);
    if rule.properties.len() > 0 && !(asks_for_source(rule.properties) && obstacle(st.scene, path)
        is Some) {
        if fills(rule.properties, map, modules) {
            if obstacle(st.scene, path) is None {
                let g = grown(st.scene, path, "ModuleScript"@, fresh);
                let there = if g.created {
                    st.at(g.scene).change(path + "  [created ModuleScript]"@)
                } else {
                    st.at(g.scene)
                };
                law_grown_path_is_found(st.scene, path, "ModuleScript"@, fresh);
                lemma_reached(g.scene, g.scene.root, split(path, '.'));
                assert(spared(classes, seq![rule], map, modules, st.scene, g.scene));
                lemma_entries_spare(classes, rule, g.leaf, map, modules, there);
                lemma_spared_chain(
                    classes,
                    seq![rule],
                    map,
                    modules,
                    st.scene,
                    g.scene,
                    properties_done(classes, rule, map, modules, fresh, st).scene,
                );
            }
        } else if let Some(target) = found(st.scene, path) {
            lemma_reached(st.scene, st.scene.root, split(path, '.'));
            lemma_entries_spare(classes, rule, target, map, modules, st);
        }
    }
}

/// One rule of several.
proof fn lemma_spared_by_the_last(
    classes: Classes,
    rules: Seq<Rule>,
    map: TextModel,
    modules: TextModel,
    s: Scene,
    t: Scene,
)
    requires
        rules.len() > 0,
        spared(classes, seq![rules.last()], map, modules, s, t),
    ensures
        spared(classes, rules, map, modules, s, t),
{
    assert forall|r: Ref, prop: Seq<char>|
        s.nodes.contains_key(r) && #[trigger] held(t, r, prop) != held(s, r, prop) implies asked_for(
        classes,
        rules,
        map,
        modules,
        t,
        r,
        prop,
    ) by {
        assert(asked_for(classes, seq![rules.last()], map, modules, t, r, prop));
        assert(meant(classes, rules[rules.len() - 1], map, modules, t, r, prop));
    }
}

/// What the properties of the rules leave as it was.
proof fn lemma_run_spares(
    classes: Classes,
    rules: Seq<Rule>,
    map: TextModel,
    modules: TextModel,
    fresh: Seq<Seq<Ref>>,
    before: State,
)
    requires
        all_equipped(classes, rules, map, modules, fresh, before),
    ensures
        ({
            let after = properties_run(classes, rules, map, modules, fresh, before);
            &&& spared(classes, rules, map, modules, before.scene, after.scene)
        }),
    decreases rules.len(),
{
    if rules.len() == 0 {
        lemma_spared_itself(classes, rules, map, modules, before.scene);
    } else {
        let front = rules.drop_last();
        let between = properties_run(classes, front, map, modules, fresh, before);
        let after = properties_run(classes, rules, map, modules, fresh, before);
        lemma_run_spares(classes, front, map, modules, fresh, before);
        lemma_spared_by_more(classes, rules, map, modules, before.scene, between.scene);
        lemma_properties_spare(
            classes,
            rules.last(),
            map,
            modules,
            fresh[rules.len() - 1],
            between,
        );
        lemma_spared_by_the_last(classes, rules, map, modules, between.scene, after.scene);
        lemma_spared_chain(
            classes,
            rules,
            map,
            modules,
            before.scene,
            between.scene,
            after.scene,
        );
    }
}

/// What the keys of the rules leave as it was.
proof fn lemma_keys_spare(
    classes: Classes,
    rules: Seq<Rule>,
    map: TextModel,
    modules: TextModel,
    before: State,
    after: State,
)
    requires
        keys_pass(rules, map, before, after),
    ensures
        spared(classes, rules, map, modules, before.scene, after.scene),
    decreases rules.len(),
{
    if rules.len() == 0 {
        lemma_spared_itself(classes, rules, map, modules, before.scene);
    } else {
        let front = rules.drop_last();
        let rule = rules.last();
        let between = choose|between: State|
            {
                &&& keys_pass(front, map, before, between)
                &&& #[trigger] keys_step(rule, map, between, after)
            };
        lemma_keys_spare(classes, front, map, modules, before, between);
        lemma_spared_by_more(classes, rules, map, modules, before.scene, between.scene);
        law_keys_change_one_source(rule, map, between, after);
        let s = between.scene;
        let t = after.scene;
        if t == s {
            lemma_spared_itself(classes, rules, map, modules, s);
        } else {
            let target = keys_target(s, rule.path)->Ok_0.0;
            lemma_split_nonempty(rule.path, '.');
            lemma_reached(s, s.root, split(rule.path, '.'));
            assert(t.nodes.dom() =~= s.nodes.dom());
            assert(only_properties_of(target, s, t));
            lemma_properties_build_on(target, s, t);
            lemma_found_kept(s, t, s.root, split(rule.path, '.'));
            assert forall|r: Ref, prop: Seq<char>|
                s.nodes.contains_key(r) && #[trigger] held(t, r, prop) != held(
                    s,
                    r,
                    prop,
                ) implies asked_for(classes, rules, map, modules, t, r, prop) by {
                assert(r == target && prop == "Source"@);
                assert(meant(classes, rules[rules.len() - 1], map, modules, t, r, prop));
            }
        }
        lemma_spared_chain(classes, rules, map, modules, before.scene, s, t);
    }
}

/// A run leaves everything as it was that no rule asks for. Every instance that was
/// there keeps its name and its class. Its children are those that it had, in
/// their order, and new ones after them. Of its properties no others differ than
/// those that an entry for this instance sets or clears, and the source of a module
/// that a rule edits. Where something is created, that takes new references, and an
/// instance to put it into that points to something.
pub proof fn law_a_run_spares_the_rest(
    classes: Classes,
    rules: Seq<Rule>,
    map: TextModel,
    modules: TextModel,
    fresh: Seq<Seq<Ref>>,
    before: State,
    after: State,
)
    requires
        all_equipped(classes, rules, map, modules, fresh, before),
        fresh.len() == rules.len(),
        keys_pass(
            rules,
            map,
            properties_run(classes, rules, map, modules, fresh, before),
            after,
        ),
    ensures
        applied(classes, rules, map, modules, before, after),
        spared(classes, rules, map, modules, before.scene, after.scene),
{
    let between = properties_run(classes, rules, map, modules, fresh, before);
    lemma_run_spares(classes, rules, map, modules, fresh, before);
    lemma_keys_spare(classes, rules, map, modules, between, after);
    lemma_spared_chain(
        classes,
        rules,
        map,
        modules,
        before.scene,
        between.scene,
        after.scene,
    );
    law_a_pass_is_a_choice_of_references(classes, rules, map, modules, before, between);
}

// ---------------------------------------------------------------------------
// A second pass
// ---------------------------------------------------------------------------

/// An entry for an instance.
pub type Write = (Ref, (Seq<char>, Seq<char>));

/// What an entry makes of what a property of an instance holds.
pub open spec fn effect(
    classes: Classes,
    class: Seq<char>,
    map: TextModel,
    modules: TextModel,
    r: Ref,
    prop: Seq<char>,
    write: Write,
    existing: Option<Worth>,
) -> Option<Worth> {
    if write.0 != r || !affects(classes, class, write.1, map, modules, prop) {
        existing
    } else if write.1.0 != prop {
        None
    } else {
        entry_value(classes, class, write.1, map, modules, existing)
    }
}

/// What entries, one after the other, make of what a property of an instance holds.
pub open spec fn settled(
    classes: Classes,
    class: Seq<char>,
    map: TextModel,
    modules: TextModel,
    r: Ref,
    prop: Seq<char>,
    writes: Seq<Write>,
    existing: Option<Worth>,
) -> Option<Worth>
    decreases writes.len(),
{
    if writes.len() == 0 {
        existing
    } else {
        effect(
            classes,
            class,
            map,
            modules,
            r,
            prop,
            writes.last(),
            settled(classes, class, map, modules, r, prop, writes.drop_last(), existing),
        )
    }
}

proof fn lemma_settled_in_turn(
    classes: Classes,
    class: Seq<char>,
    map: TextModel,
    modules: TextModel,
    r: Ref,
    prop: Seq<char>,
    a: Seq<Write>,
    b: Seq<Write>,
    existing: Option<Worth>,
)
    ensures
        settled(classes, class, map, modules, r, prop, a + b, existing) == settled(
            classes,
            class,
            map,
            modules,
            r,
            prop,
            b,
            settled(classes, class, map, modules, r, prop, a, existing),
        ),
    decreases b.len(),
{
    if b.len() == 0 {
        assert(a + b =~= a);
    } else {
        assert((a + b).drop_last() =~= a + b.drop_last());
        assert((a + b).last() == b.last());
        lemma_settled_in_turn(
            classes,
            class,
            map,
            modules,
            r,
            prop,
            a,
            b.drop_last(),
            existing,
        );
    }
}

/// Whether an entry makes the same of a property whatever it holds.
pub open spec fn decides(
    classes: Classes,
    class: Seq<char>,
    map: TextModel,
    modules: TextModel,
    r: Ref,
    prop: Seq<char>,
    write: Write,
) -> bool {
    &&& write.0 == r
    &&& affects(classes, class, write.1, map, modules, prop)
    &&& write.1.0 == prop ==> match resolved_property(write.1.1, map, modules) {
        Ok(Resolution::Value(value)) => as_declared(classes, class, prop, value) is Some,
        _ => true,
    }
}

/// From an entry that decides on, nothing depends on what the property held.
proof fn lemma_decided(
    classes: Classes,
    class: Seq<char>,
    map: TextModel,
    modules: TextModel,
    r: Ref,
    prop: Seq<char>,
    writes: Seq<Write>,
    a: Option<Worth>,
    b: Option<Worth>,
)
    requires
        exists|i: int|
            0 <= i < writes.len() && decides(
                classes,
                class,
                map,
                modules,
                r,
                prop,
                #[trigger] writes[i],
            ),
    ensures
        settled(classes, class, map, modules, r, prop, writes, a) == settled(
            classes,
            class,
            map,
            modules,
            r,
            prop,
            writes,
            b,
        ),
    decreases writes.len(),
{
    let front = writes.drop_last();
    if !decides(classes, class, map, modules, r, prop, writes.last()) {
        let i = choose|i: int|
            0 <= i < writes.len() && decides(
                classes,
                class,
                map,
                modules,
                r,
                prop,
                #[trigger] writes[i],
            );
        assert(front[i] == writes[i]);
        lemma_decided(classes, class, map, modules, r, prop, front, a, b);
    }
}

/// Whether every text makes a value of the kind.
spec fn takes_all(k: Kind) -> bool {
    k is Text || k is ContentId
}

/// Where no entry decides, a property of a kind that takes every text keeps it.
proof fn lemma_kind_stays(
    classes: Classes,
    class: Seq<char>,
    map: TextModel,
    modules: TextModel,
    r: Ref,
    prop: Seq<char>,
    writes: Seq<Write>,
    w: Worth,
)
    requires
        forall|i: int|
            0 <= i < writes.len() ==> !decides(
                classes,
                class,
                map,
                modules,
                r,
                prop,
                #[trigger] writes[i],
            ),
        takes_all(worth_kind(w)),
    ensures
        settled(classes, class, map, modules, r, prop, writes, Some(w)) matches Some(v)
            && worth_kind(v) == worth_kind(w),
    decreases writes.len(),
{
    if writes.len() > 0 {
        let front = writes.drop_last();
        assert forall|i: int| 0 <= i < front.len() implies !decides(
            classes,
            class,
            map,
            modules,
            r,
            prop,
            #[trigger] front[i],
        ) by {
            assert(front[i] == writes[i]);
        }
        assert(writes[writes.len() - 1] == writes.last());
        lemma_kind_stays(classes, class, map, modules, r, prop, front, w);
    }
}

/// Where no entry decides, whatever is of the kind of the outcome comes to the
/// same outcome.
proof fn lemma_kind_decides(
    classes: Classes,
    class: Seq<char>,
    map: TextModel,
    modules: TextModel,
    r: Ref,
    prop: Seq<char>,
    writes: Seq<Write>,
    existing: Option<Worth>,
    other: Worth,
)
    requires
        forall|i: int|
            0 <= i < writes.len() ==> !decides(
                classes,
                class,
                map,
                modules,
                r,
                prop,
                #[trigger] writes[i],
            ),
        settled(classes, class, map, modules, r, prop, writes, existing) matches Some(w)
            && worth_kind(w) == worth_kind(other),
    ensures
        settled(classes, class, map, modules, r, prop, writes, Some(other)) == settled(
            classes,
            class,
            map,
            modules,
            r,
            prop,
            writes,
            existing,
        ) || untouched(classes, class, map, modules, r, prop, writes),
    decreases writes.len(),
{
    if writes.len() > 0 {
        let front = writes.drop_last();
        let last = writes.last();
        assert(writes[writes.len() - 1] == last);
        assert forall|i: int| 0 <= i < front.len() implies !decides(
            classes,
            class,
            map,
            modules,
            r,
            prop,
            #[trigger] front[i],
        ) by {
            assert(front[i] == writes[i]);
        }
        let x = settled(classes, class, map, modules, r, prop, front, existing);
        let y = settled(classes, class, map, modules, r, prop, front, Some(other));
        if last.0 != r || !affects(classes, class, last.1, map, modules, prop) {
            lemma_kind_decides(
                classes,
                class,
                map,
                modules,
                r,
                prop,
                front,
                existing,
                other,
            );
            if untouched(classes, class, map, modules, r, prop, front) {
                assert forall|i: int| 0 <= i < writes.len() implies (#[trigger] writes[i]).0 != r
                    || !affects(classes, class, writes[i].1, map, modules, prop) by {
                    if i < front.len() {
                        assert(front[i] == writes[i]);
                    }
                }
            }
        } else {
            let value = resolved_property(last.1.1, map, modules)->Ok_0->Value_0;
            let w = settled(classes, class, map, modules, r, prop, writes, existing)->0;
            if x is Some && built(worth_kind(x->0), value) is Some {
                lemma_built_kind(worth_kind(x->0), value);
                lemma_kind_decides(
                    classes,
                    class,
                    map,
                    modules,
                    r,
                    prop,
                    front,
                    existing,
                    other,
                );
                if untouched(classes, class, map, modules, r, prop, front) {
                    lemma_untouched(
                        classes,
                        class,
                        map,
                        modules,
                        r,
                        prop,
                        front,
                        Some(other),
                    );
                }
            } else {
                lemma_kind_stays(classes, class, map, modules, r, prop, front, other);
            }
        }
    }
}

/// Whether no entry is for a property of an instance.
spec fn untouched(
    classes: Classes,
    class: Seq<char>,
    map: TextModel,
    modules: TextModel,
    r: Ref,
    prop: Seq<char>,
    writes: Seq<Write>,
) -> bool {
    forall|i: int|
        0 <= i < writes.len() ==> (#[trigger] writes[i]).0 != r || !affects(
            classes,
            class,
            writes[i].1,
            map,
            modules,
            prop,
        )
}

proof fn lemma_untouched(
    classes: Classes,
    class: Seq<char>,
    map: TextModel,
    modules: TextModel,
    r: Ref,
    prop: Seq<char>,
    writes: Seq<Write>,
    existing: Option<Worth>,
)
    requires
        untouched(classes, class, map, modules, r, prop, writes),
    ensures
        settled(classes, class, map, modules, r, prop, writes, existing) == existing,
    decreases writes.len(),
{
    if writes.len() > 0 {
        let front = writes.drop_last();
        assert(writes[writes.len() - 1] == writes.last());
        assert forall|i: int| 0 <= i < front.len() implies (#[trigger] front[i]).0 != r
            || !affects(classes, class, front[i].1, map, modules, prop) by {
            assert(front[i] == writes[i]);
        }
        lemma_untouched(classes, class, map, modules, r, prop, front, existing);
    }
}

/// Entries that are applied again settle on what they settled on, also where
/// several of them are for one property.
pub proof fn law_writes_settle(
    classes: Classes,
    class: Seq<char>,
    map: TextModel,
    modules: TextModel,
    r: Ref,
    prop: Seq<char>,
    writes: Seq<Write>,
    existing: Option<Worth>,
)
    ensures
        ({
            let once = settled(classes, class, map, modules, r, prop, writes, existing);
            settled(classes, class, map, modules, r, prop, writes, once) == once
        }),
{
    let once = settled(classes, class, map, modules, r, prop, writes, existing);
    if exists|i: int|
        0 <= i < writes.len() && decides(
            classes,
            class,
            map,
            modules,
            r,
            prop,
            #[trigger] writes[i],
        ) {
        lemma_decided(classes, class, map, modules, r, prop, writes, existing, once);
    } else if untouched(classes, class, map, modules, r, prop, writes) {
        lemma_untouched(classes, class, map, modules, r, prop, writes, existing);
        lemma_untouched(classes, class, map, modules, r, prop, writes, once);
    } else {
        lemma_touched_holds(classes, class, map, modules, r, prop, writes, existing);
        lemma_kind_decides(
            classes,
            class,
            map,
            modules,
            r,
            prop,
            writes,
            existing,
            once->0,
        );
    }
}

/// Where no entry decides and one is for the property, it holds something.
proof fn lemma_touched_holds(
    classes: Classes,
    class: Seq<char>,
    map: TextModel,
    modules: TextModel,
    r: Ref,
    prop: Seq<char>,
    writes: Seq<Write>,
    existing: Option<Worth>,
)
    requires
        forall|i: int|
            0 <= i < writes.len() ==> !decides(
                classes,
                class,
                map,
                modules,
                r,
                prop,
                #[trigger] writes[i],
            ),
        !untouched(classes, class, map, modules, r, prop, writes),
    ensures
        settled(classes, class, map, modules, r, prop, writes, existing) is Some,
    decreases writes.len(),
{
    let front = writes.drop_last();
    let last = writes.last();
    assert(writes[writes.len() - 1] == last);
    if last.0 != r || !affects(classes, class, last.1, map, modules, prop) {
        assert forall|i: int| 0 <= i < front.len() implies !decides(
            classes,
            class,
            map,
            modules,
            r,
            prop,
            #[trigger] front[i],
        ) by {
            assert(front[i] == writes[i]);
        }
        let i = choose|i: int|
            0 <= i < writes.len() && !((#[trigger] writes[i]).0 != r || !affects(
                classes,
                class,
                writes[i].1,
                map,
                modules,
                prop,
            ));
        assert(front[i] == writes[i]);
        lemma_touched_holds(classes, class, map, modules, r, prop, front, existing);
    }
}

/// The entries of a rule, each for its target.
pub open spec fn writes_of(target: Ref, entries: Pairs) -> Seq<Write> {
    Seq::new(entries.len(), |i: int| (target, entries[i]))
}

/// Whether a rule has a target in the place, one that is there or one that it
/// would create.
pub open spec fn targeted(s: Scene, rule: Rule, map: TextModel, modules: TextModel) -> bool {
    if asks_for_source(rule.properties) && obstacle(s, rule.path) is Some {
        false
    } else {
        fills(rule.properties, map, modules) || found(s, rule.path) is Some
    }
}

/// All entries of the rules that have a target in the place, each for its target.
pub open spec fn writes_in(
    s: Scene,
    rules: Seq<Rule>,
    map: TextModel,
    modules: TextModel,
) -> Seq<Write>
    decreases rules.len(),
{
    if rules.len() == 0 {
        Seq::empty()
    } else {
        writes_in(s, rules.drop_last(), map, modules) + own_writes(
            s,
            rules.last(),
            map,
            modules,
        )
    }
}

/// The entries of a rule that has a target in the place.
pub open spec fn own_writes(
    s: Scene,
    rule: Rule,
    map: TextModel,
    modules: TextModel,
) -> Seq<Write> {
    if targeted(s, rule, map, modules) {
        writes_of(found(s, rule.path)->0, rule.properties)
    } else {
        Seq::empty()
    }
}

/// Whether every rule with properties that has a target in the place `t` had one
/// when its turn came.
pub open spec fn steady(
    classes: Classes,
    rules: Seq<Rule>,
    map: TextModel,
    modules: TextModel,
    fresh: Seq<Seq<Ref>>,
    before: State,
    t: Scene,
) -> bool
    decreases rules.len(),
{
    rules.len() > 0 ==> {
        let front = rules.drop_last();
        let rule = rules.last();
        let between = properties_run(classes, front, map, modules, fresh, before);
        &&& steady(classes, front, map, modules, fresh, before, t)
        &&& rule.properties.len() > 0 && targeted(t, rule, map, modules) ==> targeted(
            between.scene,
            rule,
            map,
            modules,
        )
    }
}

/// Whether every rule with properties that has a target in the place finds it
/// there.
spec fn all_there(s: Scene, rules: Seq<Rule>, map: TextModel, modules: TextModel) -> bool {
    forall|i: int|
        0 <= i < rules.len() && (#[trigger] rules[i]).properties.len() > 0 && targeted(
            s,
            rules[i],
            map,
            modules,
        ) ==> found(s, rules[i].path) is Some
}

/// What the entries of a rule settle on.
proof fn lemma_entries_settle(
    classes: Classes,
    path: Seq<char>,
    target: Ref,
    entries: Pairs,
    map: TextModel,
    modules: TextModel,
    st: State,
    r: Ref,
    prop: Seq<char>,
)
    requires
        st.scene.nodes.contains_key(target),
        st.scene.nodes.contains_key(r),
    ensures
        held(
            entries_done(classes, path, target, entries, map, modules, st).scene,
            r,
            prop,
        ) == settled(
            classes,
            st.scene.nodes[r].class,
            map,
            modules,
            r,
            prop,
            writes_of(target, entries),
            held(st.scene, r, prop),
        ),
    decreases entries.len(),
{
    if entries.len() > 0 {
        let front = entries.drop_last();
        let between = entries_done(classes, path, target, front, map, modules, st);
        assert(writes_of(target, entries).drop_last() =~= writes_of(target, front));
        assert(writes_of(target, entries).last() == (target, entries.last()));
        lemma_entries_settle(classes, path, target, front, map, modules, st, r, prop);
        law_entries_keep_to_their_target(classes, path, target, front, map, modules, st);
        assert(between.scene.nodes.contains_key(target));
        assert(between.scene.nodes.contains_key(r));
        lemma_entry_effect(classes, path, target, entries.last(), map, modules, between, prop);
        law_what_an_entry_does(
            classes,
            path,
            target,
            entries.last(),
            map,
            modules,
            between,
        );
    }
}

/// The entries of a rule that are applied again change nothing more of the place.
pub proof fn law_entries_applied_twice(
    classes: Classes,
    path: Seq<char>,
    target: Ref,
    entries: Pairs,
    map: TextModel,
    modules: TextModel,
    st: State,
)
    requires
        st.scene.nodes.contains_key(target),
    ensures
        ({
            let once = entries_done(classes, path, target, entries, map, modules, st);
            entries_done(classes, path, target, entries, map, modules, once).scene == once.scene
        }),
{
    let once = entries_done(classes, path, target, entries, map, modules, st);
    let twice = entries_done(classes, path, target, entries, map, modules, once);
    law_entries_keep_to_their_target(classes, path, target, entries, map, modules, st);
    assert(once.scene.nodes.contains_key(target));
    law_entries_keep_to_their_target(classes, path, target, entries, map, modules, once);
    let a = once.scene.nodes[target].props;
    let b = twice.scene.nodes[target].props;
    assert forall|prop: Seq<char>| #[trigger] b.contains_key(prop) == a.contains_key(prop) && (
    a.contains_key(prop) ==> b[prop] == a[prop]) by {
        lemma_entries_settle(classes, path, target, entries, map, modules, st, target, prop);
        lemma_entries_settle(classes, path, target, entries, map, modules, once, target, prop);
        law_writes_settle(
            classes,
            st.scene.nodes[target].class,
            map,
            modules,
            target,
            prop,
            writes_of(target, entries),
            held(st.scene, target, prop),
        );
        assert(held(twice.scene, target, prop) == held(once.scene, target, prop));
    }
    assert(b =~= a);
    assert forall|r: Ref| once.scene.nodes.contains_key(r) implies twice.scene.nodes[r]
        == once.scene.nodes[r] by {}
    assert(twice.scene.nodes =~= once.scene.nodes);
}

/// Where a path leads somewhere, nothing is in its way.
proof fn lemma_no_obstacle(s: Scene, path: Seq<char>)
    requires
        found(s, path) is Some,
        !has_empty(split(path, '.')),
    ensures
        obstacle(s, path) is None,
{
    lemma_split_nonempty(path, '.');
    reveal_with_fuel(reached, 2);
}

/// What the properties of the rules settle on, where the place that they lead to
/// is part of `t`.
#[verifier::rlimit(40)]
#[verifier::spinoff_prover]
proof fn lemma_first_pass(
    classes: Classes,
    rules: Seq<Rule>,
    map: TextModel,
    modules: TextModel,
    fresh: Seq<Seq<Ref>>,
    before: State,
    t: Scene,
)
    requires
        all_equipped(classes, rules, map, modules, fresh, before),
        builds_on(properties_run(classes, rules, map, modules, fresh, before).scene, t),
        steady(classes, rules, map, modules, fresh, before, t),
    ensures
        all_there(t, rules, map, modules),
        ({
            let after = properties_run(classes, rules, map, modules, fresh, before).scene;
            let writes = writes_in(t, rules, map, modules);
            &&& forall|i: int|
                0 <= i < writes.len() ==> after.nodes.contains_key((#[trigger] writes[i]).0)
            &&& forall|r: Ref, prop: Seq<char>|
                after.nodes.contains_key(r) ==> #[trigger] held(after, r, prop) == settled(
                    classes,
                    after.nodes[r].class,
                    map,
                    modules,
                    r,
                    prop,
                    writes,
                    held_at_first(before.scene, r, prop),
                )
        }),
    decreases rules.len(),
{
    if rules.len() == 0 {
    } else {
        let front = rules.drop_last();
        let rule = rules.last();
        let own = fresh[rules.len() - 1];
        let st = properties_run(classes, front, map, modules, fresh, before);
        let after = properties_run(classes, rules, map, modules, fresh, before);
        let earlier = writes_in(t, front, map, modules);
        let later = own_writes(t, rule, map, modules);
        lemma_run_spares(classes, front, map, modules, fresh, before);
        lemma_properties_spare(classes, rule, map, modules, own, st);
        lemma_builds_on_chain(st.scene, after.scene, t);
        lemma_first_pass(classes, front, map, modules, fresh, before, t);
        lemma_one_rule(classes, rule, map, modules, own, st, t);
        assert(all_there(t, rules, map, modules)) by {
            assert forall|i: int|
                0 <= i < rules.len() && (#[trigger] rules[i]).properties.len() > 0 && targeted(
                    t,
                    rules[i],
                    map,
                    modules,
                ) implies found(t, rules[i].path) is Some by {
                if i < front.len() {
                    assert(front[i] == rules[i]);
                }
            }
        }
        let writes = writes_in(t, rules, map, modules);
        assert(writes == earlier + later);
        assert forall|i: int| 0 <= i < writes.len() implies after.scene.nodes.contains_key(
            (#[trigger] writes[i]).0,
        ) by {
            if i < earlier.len() {
                assert(writes[i] == earlier[i]);
                assert(st.scene.nodes.contains_key(earlier[i].0));
            } else {
                assert(writes[i] == later[i - earlier.len()]);
            }
        }
        assert forall|r: Ref, prop: Seq<char>|
            after.scene.nodes.contains_key(r) implies #[trigger] held(after.scene, r, prop)
            == settled(
            classes,
            after.scene.nodes[r].class,
            map,
            modules,
            r,
            prop,
            writes,
            held_at_first(before.scene, r, prop),
        ) by {
            let class = after.scene.nodes[r].class;
            let first = held_at_first(before.scene, r, prop);
            lemma_settled_in_turn(
                classes,
                class,
                map,
                modules,
                r,
                prop,
                earlier,
                later,
                first,
            );
            if st.scene.nodes.contains_key(r) {
                assert(held(st.scene, r, prop) == settled(
                    classes,
                    class,
                    map,
                    modules,
                    r,
                    prop,
                    earlier,
                    first,
                ));
            } else {
                assert(!before.scene.nodes.contains_key(r));
                assert(untouched(classes, class, map, modules, r, prop, earlier)) by {
                    assert forall|i: int| 0 <= i < earlier.len() implies (#[trigger] earlier[i]).0
                        != r by {
                        assert(st.scene.nodes.contains_key(earlier[i].0));
                    }
                }
                lemma_untouched(classes, class, map, modules, r, prop, earlier, first);
            }
            assert(held_at_first(st.scene, r, prop) == settled(
                classes,
                class,
                map,
                modules,
                r,
                prop,
                earlier,
                first,
            ));
        }
    }
}

/// What a property holds, nothing where the instance is not there.
spec fn held_at_first(s: Scene, r: Ref, prop: Seq<char>) -> Option<Worth> {
    if s.nodes.contains_key(r) {
        held(s, r, prop)
    } else {
        None
    }
}

/// What the properties of one rule settle on.
proof fn lemma_one_rule(
    classes: Classes,
    rule: Rule,
    map: TextModel,
    modules: TextModel,
    fresh: Seq<Ref>,
    st: State,
    t: Scene,
)
    requires
        equipped(rule, map, modules, fresh, st.scene),
        builds_on(properties_done(classes, rule, map, modules, fresh, st).scene, t),
        rule.properties.len() > 0 && targeted(t, rule, map, modules) ==> targeted(
            st.scene,
            rule,
            map,
            modules,
        ),
    ensures
        rule.properties.len() > 0 && targeted(t, rule, map, modules) ==> found(t, rule.path)
            is Some,
        ({
            let after = properties_done(classes, rule, map, modules, fresh, st).scene;
            let writes = own_writes(t, rule, map, modules);
            &&& forall|i: int|
                0 <= i < writes.len() ==> after.nodes.contains_key((#[trigger] writes[i]).0)
            &&& forall|r: Ref, prop: Seq<char>|
                after.nodes.contains_key(r) ==> #[trigger] held(after, r, prop) == settled(
                    classes,
                    after.nodes[r].class,
                    map,
                    modules,
                    r,
                    prop,
                    writes,
                    held_at_first(st.scene, r, prop),
                )
        }),
{
    let path = rule.path;
    let after = properties_done(classes, rule, map, modules, fresh, st);
    lemma_split_nonempty(path, '.');
    if rule.properties.len() == 0 {
        assert(own_writes(t, rule, map, modules) =~= Seq::empty());
    } else if !targeted(st.scene, rule, map, modules) {
        assert(own_writes(t, rule, map, modules) =~= Seq::empty());
    } else {
        let (there, target) = if fills(rule.properties, map, modules) {
            let g = grown(st.scene, path, "ModuleScript"@, fresh);
            law_grown_path_is_found(st.scene, path, "ModuleScript"@, fresh);
            let there = if g.created {
                st.at(g.scene).change(path + "  [created ModuleScript]"@)
            } else {
                st.at(g.scene)
            };
            (there, g.leaf)
        } else {
            (st, found(st.scene, path)->0)
        };
        lemma_reached(there.scene, there.scene.root, split(path, '.'));
        assert(after == entries_done(
            classes,
            path,
            target,
            rule.properties,
            map,
            modules,
            there,
        ));
        law_entries_keep_to_their_target(
            classes,
            path,
            target,
            rule.properties,
            map,
            modules,
            there,
        );
        lemma_properties_build_on(target, there.scene, after.scene);
        lemma_found_kept(there.scene, after.scene, there.scene.root, split(path, '.'));
        lemma_found_kept(after.scene, t, there.scene.root, split(path, '.'));
        if fills(rule.properties, map, modules) {
            lemma_no_obstacle(t, path);
        }
        assert(own_writes(t, rule, map, modules) == writes_of(target, rule.properties));
        assert forall|r: Ref, prop: Seq<char>|
            after.scene.nodes.contains_key(r) implies #[trigger] held(after.scene, r, prop)
            == settled(
            classes,
            after.scene.nodes[r].class,
            map,
            modules,
            r,
            prop,
            writes_of(target, rule.properties),
            held_at_first(st.scene, r, prop),
        ) by {
            assert(there.scene.nodes.contains_key(r)) by {
                assert(there.scene.nodes.dom() == after.scene.nodes.dom());
                assert(after.scene.nodes.dom().contains(r));
            }
            lemma_entries_settle(
                classes,
                path,
                target,
                rule.properties,
                map,
                modules,
                there,
                r,
                prop,
            );
            assert(held(there.scene, r, prop) == held_at_first(st.scene, r, prop));
        }
    }
}

/// Whether two places differ in the properties of instances at most.
spec fn same_build(s: Scene, t: Scene) -> bool {
    &&& builds_on(s, t)
    &&& builds_on(t, s)
    &&& forall|r: Ref| #[trigger]
        s.nodes.contains_key(r) ==> s.nodes[r].children == t.nodes[r].children
}

/// In places that differ in properties only, a rule has the same target.
proof fn lemma_same_target(
    s: Scene,
    t: Scene,
    rule: Rule,
    map: TextModel,
    modules: TextModel,
)
    requires
        same_build(s, t),
    ensures
        found(s, rule.path) == found(t, rule.path),
        obstacle(s, rule.path) is None == obstacle(t, rule.path) is None,
        targeted(s, rule, map, modules) == targeted(t, rule, map, modules),
{
    let parts = split(rule.path, '.');
    lemma_split_nonempty(rule.path, '.');
    if found(s, rule.path) is Some {
        lemma_found_kept(s, t, s.root, parts);
    }
    if found(t, rule.path) is Some {
        lemma_found_kept(t, s, s.root, parts);
    }
    let head = seq![parts[0]];
    reveal_with_fuel(reached, 2);
    if reached(s, s.root, head) is Some {
        lemma_found_kept(s, t, s.root, head);
    }
    if reached(t, s.root, head) is Some {
        lemma_found_kept(t, s, s.root, head);
    }
    assert(head.skip(1) =~= Seq::<Seq<char>>::empty());
}

/// What the properties of the rules settle on, where every target is there.
#[verifier::rlimit(40)]
#[verifier::spinoff_prover]
proof fn lemma_second_pass(
    classes: Classes,
    rules: Seq<Rule>,
    map: TextModel,
    modules: TextModel,
    once: State,
    again: State,
)
    requires
        properties_pass(classes, rules, map, modules, once, again),
        all_there(once.scene, rules, map, modules),
    ensures
        same_build(once.scene, again.scene),
        forall|r: Ref, prop: Seq<char>|
            once.scene.nodes.contains_key(r) ==> #[trigger] held(again.scene, r, prop) == settled(
                classes,
                once.scene.nodes[r].class,
                map,
                modules,
                r,
                prop,
                writes_in(once.scene, rules, map, modules),
                held(once.scene, r, prop),
            ),
    decreases rules.len(),
{
    if rules.len() == 0 {
        lemma_spared_itself(classes, rules, map, modules, once.scene);
    } else {
        let front = rules.drop_last();
        let rule = rules.last();
        let path = rule.path;
        let st = choose|st: State|
            {
                &&& properties_pass(classes, front, map, modules, once, st)
                &&& #[trigger] properties_step(classes, rule, map, modules, st, again)
            };
        let fresh = choose|fresh: Seq<Ref>|
            #[trigger] properties_done(classes, rule, map, modules, fresh, st) == again;
        assert(all_there(once.scene, front, map, modules)) by {
            assert forall|i: int|
                0 <= i < front.len() && (#[trigger] front[i]).properties.len() > 0 && targeted(
                    once.scene,
                    front[i],
                    map,
                    modules,
                ) implies found(once.scene, front[i].path) is Some by {
                assert(front[i] == rules[i]);
            }
        }
        lemma_second_pass(classes, front, map, modules, once, st);
        lemma_same_target(once.scene, st.scene, rule, map, modules);
        assert(rules[rules.len() - 1] == rule);
        let earlier = writes_in(once.scene, front, map, modules);
        let later = own_writes(once.scene, rule, map, modules);
        if rule.properties.len() == 0 || !targeted(once.scene, rule, map, modules) {
            assert(later =~= Seq::empty());
            assert(earlier + later =~= earlier);
            assert(again.scene == st.scene);
        } else {
            let target = found(st.scene, path)->0;
            law_growing_what_is_there(st.scene, path, "ModuleScript"@, fresh);
            let there = if fills(rule.properties, map, modules) {
                st.at(st.scene)
            } else {
                st
            };
            assert(again == entries_done(
                classes,
                path,
                target,
                rule.properties,
                map,
                modules,
                there,
            ));
            lemma_split_nonempty(path, '.');
            lemma_reached(st.scene, st.scene.root, split(path, '.'));
            law_entries_keep_to_their_target(
                classes,
                path,
                target,
                rule.properties,
                map,
                modules,
                there,
            );
            lemma_properties_build_on(target, st.scene, again.scene);
            lemma_builds_on_chain(once.scene, st.scene, again.scene);
            lemma_builds_on_chain(again.scene, st.scene, once.scene);
            assert forall|r: Ref| #[trigger]
                once.scene.nodes.contains_key(r) implies once.scene.nodes[r].children
                == again.scene.nodes[r].children by {
                assert(st.scene.nodes.contains_key(r));
            }
            assert forall|r: Ref, prop: Seq<char>|
                once.scene.nodes.contains_key(r) implies #[trigger] held(again.scene, r, prop)
                == settled(
                classes,
                once.scene.nodes[r].class,
                map,
                modules,
                r,
                prop,
                writes_in(once.scene, rules, map, modules),
                held(once.scene, r, prop),
            ) by {
                assert(st.scene.nodes.contains_key(r));
                lemma_entries_settle(
                    classes,
                    path,
                    target,
                    rule.properties,
                    map,
                    modules,
                    there,
                    r,
                    prop,
                );
                lemma_settled_in_turn(
                    classes,
                    once.scene.nodes[r].class,
                    map,
                    modules,
                    r,
                    prop,
                    earlier,
                    later,
                    held(once.scene, r, prop),
                );
                assert(held(st.scene, r, prop) == settled(
                    classes,
                    once.scene.nodes[r].class,
                    map,
                    modules,
                    r,
                    prop,
                    earlier,
                    held(once.scene, r, prop),
                ));
            }
        }
    }
}

/// The properties of all rules, applied again to the place that they led to, change
/// nothing more of it: a second deploy of the same values converges, also where
/// several rules are for one property, and whatever references it would choose.
/// That takes new references for what the first pass creates, instances to put it into
/// that point to something, and rules that keep to the order in which they build on
/// each other: a rule that finds no target at first, since only a later rule creates it,
/// has more to do the second time.
pub proof fn law_a_second_pass_changes_nothing(
    classes: Classes,
    rules: Seq<Rule>,
    map: TextModel,
    modules: TextModel,
    fresh: Seq<Seq<Ref>>,
    before: State,
    again: State,
)
    requires
        all_equipped(classes, rules, map, modules, fresh, before),
        steady(
            classes,
            rules,
            map,
            modules,
            fresh,
            before,
            properties_run(classes, rules, map, modules, fresh, before).scene,
        ),
        properties_pass(
            classes,
            rules,
            map,
            modules,
            properties_run(classes, rules, map, modules, fresh, before),
            again,
        ),
    ensures
        again.scene == properties_run(classes, rules, map, modules, fresh, before).scene,
{
    let once = properties_run(classes, rules, map, modules, fresh, before);
    lemma_spared_itself(classes, rules, map, modules, once.scene);
    lemma_first_pass(classes, rules, map, modules, fresh, before, once.scene);
    lemma_second_pass(classes, rules, map, modules, once, again);
    let writes = writes_in(once.scene, rules, map, modules);
    assert forall|r: Ref| #[trigger] once.scene.nodes.contains_key(r) implies again.scene.nodes[r]
        == once.scene.nodes[r] by {
        let a = once.scene.nodes[r].props;
        let b = again.scene.nodes[r].props;
        assert forall|prop: Seq<char>| #[trigger] b.contains_key(prop) == a.contains_key(prop)
            && (a.contains_key(prop) ==> b[prop] == a[prop]) by {
            law_writes_settle(
                classes,
                once.scene.nodes[r].class,
                map,
                modules,
                r,
                prop,
                writes,
                held_at_first(before.scene, r, prop),
            );
            assert(held(again.scene, r, prop) == held(once.scene, r, prop));
        }
        assert(b =~= a);
    }
    assert(again.scene.nodes =~= once.scene.nodes);
}

// ---------------------------------------------------------------------------
// What modules come to
// ---------------------------------------------------------------------------

/// The state that the keys of a rule lead to, where rewriting its module comes to `r`.
pub open spec fn keys_answered(r: Rewriting, rule: Rule, map: TextModel, before: State) -> State {
    let path = rule.path;
    if rule.keys.len() == 0 {
        before
    } else {
        match keys_target(before.scene, path) {
            Err(e) => before.warn(path + ": "@ + e),
            Ok((target, _)) => {
                let (reported, edits) = keys_resolved(path, rule.keys, map, before);
                if edits.len() == 0 {
                    reported
                } else {
                    keys_concluded(path, target, before, reported, r)
                }
            },
        }
    }
}

/// Whether rewriting the module of a rule, if there is something to rewrite, can come to
/// `r`.
pub open spec fn answerable(r: Rewriting, rule: Rule, map: TextModel, before: State) -> bool {
    rule.keys.len() > 0 ==> (keys_target(before.scene, rule.path) matches Ok((_, source)) ==> {
        let edits = keys_resolved(rule.path, rule.keys, map, before).1;
        edits.len() > 0 ==> may_rewrite(source, edits, r)
    })
}

/// The state that the keys of the rules lead to, one after the other, where rewriting the
/// module of rule `i` comes to `outcomes[i]`.
pub open spec fn keys_run(
    outcomes: Seq<Rewriting>,
    rules: Seq<Rule>,
    map: TextModel,
    before: State,
) -> State
    decreases rules.len(),
{
    if rules.len() == 0 {
        before
    } else {
        keys_answered(
            outcomes[rules.len() - 1],
            rules.last(),
            map,
            keys_run(outcomes, rules.drop_last(), map, before),
        )
    }
}

/// Whether rewriting each module can come to what it does in `outcomes` when the turn of
/// its rule comes.
pub open spec fn all_answerable(
    outcomes: Seq<Rewriting>,
    rules: Seq<Rule>,
    map: TextModel,
    before: State,
) -> bool
    decreases rules.len(),
{
    rules.len() > 0 ==> {
        let front = rules.drop_last();
        &&& all_answerable(outcomes, front, map, before)
        &&& answerable(
            outcomes[rules.len() - 1],
            rules.last(),
            map,
            keys_run(outcomes, front, map, before),
        )
    }
}

/// Only the outcomes for the rules themselves matter.
proof fn lemma_keys_by_their_own(
    outcomes: Seq<Rewriting>,
    more: Rewriting,
    rules: Seq<Rule>,
    map: TextModel,
    before: State,
)
    requires
        rules.len() <= outcomes.len(),
    ensures
        keys_run(outcomes.push(more), rules, map, before) == keys_run(outcomes, rules, map, before),
        all_answerable(outcomes.push(more), rules, map, before) == all_answerable(
            outcomes,
            rules,
            map,
            before,
        ),
    decreases rules.len(),
{
    if rules.len() > 0 {
        lemma_keys_by_their_own(outcomes, more, rules.drop_last(), map, before);
    }
}

/// The keys of a rule lead from one state to another just where some outcome does.
proof fn lemma_keys_step(rule: Rule, map: TextModel, before: State, after: State)
    ensures
        keys_step(rule, map, before, after) <==> exists|r: Rewriting|
            answerable(r, rule, map, before) && #[trigger] keys_answered(r, rule, map, before)
                == after,
{
    let any: Rewriting = Err(KeysError::NotATable);
    if keys_step(rule, map, before, after) {
        if rule.keys.len() > 0 && keys_target(before.scene, rule.path) is Ok && keys_resolved(
            rule.path,
            rule.keys,
            map,
            before,
        ).1.len() > 0 {
            let (target, source) = keys_target(before.scene, rule.path)->Ok_0;
            let (reported, edits) = keys_resolved(rule.path, rule.keys, map, before);
            let r = choose|r: Rewriting|
                {
                    &&& #[trigger] may_rewrite(source, edits, r)
                    &&& after == keys_concluded(rule.path, target, before, reported, r)
                };
            assert(answerable(r, rule, map, before));
            assert(keys_answered(r, rule, map, before) == after);
        } else {
            assert(answerable(any, rule, map, before));
            assert(keys_answered(any, rule, map, before) == after);
        }
    }
    if exists|r: Rewriting|
        answerable(r, rule, map, before) && #[trigger] keys_answered(r, rule, map, before)
            == after {
        let r = choose|r: Rewriting|
            answerable(r, rule, map, before) && #[trigger] keys_answered(r, rule, map, before)
                == after;
        if rule.keys.len() > 0 {
            if let Ok((target, source)) = keys_target(before.scene, rule.path) {
                let (reported, edits) = keys_resolved(rule.path, rule.keys, map, before);
                if edits.len() > 0 {
                    assert(may_rewrite(source, edits, r));
                    assert(module_rewritten(
                        rule.path,
                        target,
                        source,
                        edits,
                        before,
                        reported,
                        after,
                    ));
                }
            }
        }
    }
}

/// The keys of the rules lead from one state to another just where some choice of what
/// the modules come to does, out of what they can come to.
pub proof fn law_keys_are_a_choice_of_outcomes(
    rules: Seq<Rule>,
    map: TextModel,
    before: State,
    after: State,
)
    ensures
        keys_pass(rules, map, before, after) <==> exists|outcomes: Seq<Rewriting>|
            {
                &&& outcomes.len() == rules.len()
                &&& all_answerable(outcomes, rules, map, before)
                &&& #[trigger] keys_run(outcomes, rules, map, before) == after
            },
    decreases rules.len(),
{
    if rules.len() == 0 {
        let none = Seq::<Rewriting>::empty();
        assert(keys_run(none, rules, map, before) == before);
        assert(all_answerable(none, rules, map, before));
    } else {
        let front = rules.drop_last();
        let rule = rules.last();
        if keys_pass(rules, map, before, after) {
            let between = choose|between: State|
                {
                    &&& keys_pass(front, map, before, between)
                    &&& #[trigger] keys_step(rule, map, between, after)
                };
            law_keys_are_a_choice_of_outcomes(front, map, before, between);
            let fewer = choose|outcomes: Seq<Rewriting>|
                {
                    &&& outcomes.len() == front.len()
                    &&& all_answerable(outcomes, front, map, before)
                    &&& #[trigger] keys_run(outcomes, front, map, before) == between
                };
            lemma_keys_step(rule, map, between, after);
            let r = choose|r: Rewriting|
                answerable(r, rule, map, between) && #[trigger] keys_answered(
                    r,
                    rule,
                    map,
                    between,
                ) == after;
            let outcomes = fewer.push(r);
            lemma_keys_by_their_own(fewer, r, front, map, before);
            assert(outcomes[rules.len() - 1] == r);
            assert(keys_run(outcomes, rules, map, before) == after);
            assert(all_answerable(outcomes, rules, map, before));
        }
        if exists|outcomes: Seq<Rewriting>|
            {
                &&& outcomes.len() == rules.len()
                &&& all_answerable(outcomes, rules, map, before)
                &&& #[trigger] keys_run(outcomes, rules, map, before) == after
            } {
            let outcomes = choose|outcomes: Seq<Rewriting>|
                {
                    &&& outcomes.len() == rules.len()
                    &&& all_answerable(outcomes, rules, map, before)
                    &&& #[trigger] keys_run(outcomes, rules, map, before) == after
                };
            let fewer = outcomes.drop_last();
            let r = outcomes.last();
            let between = keys_run(outcomes, front, map, before);
            assert(fewer.push(r) =~= outcomes);
            lemma_keys_by_their_own(fewer, r, front, map, before);
            assert(keys_run(fewer, front, map, before) == between);
            law_keys_are_a_choice_of_outcomes(front, map, before, between);
            assert(keys_answered(r, rule, map, between) == after);
            lemma_keys_step(rule, map, between, after);
            assert(keys_step(rule, map, between, after));
        }
    }
}

/// The state that a run leads to, where the instances that the `i`-th rule with properties
/// creates get the references `fresh[i]` and rewriting the module of the `i`-th rule with
/// keys comes to `outcomes[i]`.
pub open spec fn run_by(
    classes: Classes,
    rules: Seq<Rule>,
    map: TextModel,
    modules: TextModel,
    fresh: Seq<Seq<Ref>>,
    outcomes: Seq<Rewriting>,
    before: State,
) -> State {
    keys_run(
        outcomes,
        keying(rules),
        map,
        properties_run(classes, setting(rules), map, modules, fresh, before),
    )
}

/// Whether the modules can come in a run to what they do in `outcomes`.
pub open spec fn can_run_by(
    classes: Classes,
    rules: Seq<Rule>,
    map: TextModel,
    modules: TextModel,
    fresh: Seq<Seq<Ref>>,
    outcomes: Seq<Rewriting>,
    before: State,
) -> bool {
    &&& fresh.len() == setting(rules).len()
    &&& outcomes.len() == keying(rules).len()
    &&& all_answerable(
        outcomes,
        keying(rules),
        map,
        properties_run(classes, setting(rules), map, modules, fresh, before),
    )
}

/// What the rules can come to is what they come to for some choice of references for the
/// new instances and of what the modules come to, out of what they can come to.
pub proof fn law_a_run_is_a_choice(
    classes: Classes,
    rules: Seq<Rule>,
    map: TextModel,
    modules: TextModel,
    before: State,
    after: State,
)
    ensures
        applied(classes, rules, map, modules, before, after) <==> exists|
            fresh: Seq<Seq<Ref>>,
            outcomes: Seq<Rewriting>,
        |
            {
                &&& can_run_by(classes, rules, map, modules, fresh, outcomes, before)
                &&& #[trigger] run_by(classes, rules, map, modules, fresh, outcomes, before)
                    == after
            },
{
    if applied(classes, rules, map, modules, before, after) {
        let between = choose|between: State|
            {
                &&& #[trigger] properties_pass(classes, rules, map, modules, before, between)
                &&& keys_pass(rules, map, between, after)
            };
        lemma_setting(classes, rules, map, modules, before, between);
        lemma_keying(rules, map, between, after);
        law_a_pass_is_a_choice_of_references(
            classes,
            setting(rules),
            map,
            modules,
            before,
            between,
        );
        law_keys_are_a_choice_of_outcomes(keying(rules), map, between, after);
        let fresh = choose|fresh: Seq<Seq<Ref>>|
            {
                &&& fresh.len() == setting(rules).len()
                &&& #[trigger] properties_run(classes, setting(rules), map, modules, fresh, before)
                    == between
            };
        let outcomes = choose|outcomes: Seq<Rewriting>|
            {
                &&& outcomes.len() == keying(rules).len()
                &&& all_answerable(outcomes, keying(rules), map, between)
                &&& #[trigger] keys_run(outcomes, keying(rules), map, between) == after
            };
        assert(can_run_by(classes, rules, map, modules, fresh, outcomes, before));
        assert(run_by(classes, rules, map, modules, fresh, outcomes, before) == after);
    }
    if exists|fresh: Seq<Seq<Ref>>, outcomes: Seq<Rewriting>|
        {
            &&& can_run_by(classes, rules, map, modules, fresh, outcomes, before)
            &&& #[trigger] run_by(classes, rules, map, modules, fresh, outcomes, before) == after
        } {
        let (fresh, outcomes) = choose|fresh: Seq<Seq<Ref>>, outcomes: Seq<Rewriting>|
            {
                &&& can_run_by(classes, rules, map, modules, fresh, outcomes, before)
                &&& #[trigger] run_by(classes, rules, map, modules, fresh, outcomes, before)
                    == after
            };
        let between = properties_run(classes, setting(rules), map, modules, fresh, before);
        law_a_pass_is_a_choice_of_references(
            classes,
            setting(rules),
            map,
            modules,
            before,
            between,
        );
        law_keys_are_a_choice_of_outcomes(keying(rules), map, between, after);
        assert(keys_run(outcomes, keying(rules), map, between) == after);
        lemma_setting(classes, rules, map, modules, before, between);
        lemma_keying(rules, map, between, after);
        assert(properties_pass(classes, rules, map, modules, before, between));
    }
}

} // verus!
