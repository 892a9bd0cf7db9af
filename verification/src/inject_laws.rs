//! What holds of applying rules as a whole.

use crate::config::Rule;
use crate::dom::{found, grown, grown_from, held_in, law_a_path_is_found_by_its_way};
use crate::dom::{law_growing_what_is_there, leads, obstacle, obstacle_text, typed, typed_over};
use crate::inject::{asks_for_source, lemma_filling_asks};
use crate::inject::{applied, cannot_hold, cleared, entries_done, entry_done, fills};
use crate::inject::{keys_concluded, keys_pass, keys_resolved, keys_step, keys_target};
use crate::inject::{properties_done, properties_pass, properties_step, written};
use crate::inject::{byte_count, property_label, state_of, unreported, Report, State};
use crate::luau::{keys_message, may_rewrite, KeysError, Rewriting};
use crate::luau_edit::Edit;
use crate::place::{scene, with_property, Node, Scene, Worth};
use crate::reflection::{moved_in, type_in, Classes};
use crate::resolve::{described, is_source, resolved_key, resolved_property, source_described};
use crate::resolve::{Resolution, TextModel};
use crate::text::{join, nat_text};
use crate::text_map::Pairs;
use rbx_dom_weak::types::Ref;
use rbx_dom_weak::WeakDom;
use vstd::prelude::*;

verus! {

/// Whether `after` tells all that happened since `before`: nothing that was
/// reported is taken back, and where no change was reported, the place is as it
/// was.
pub open spec fn told(before: State, after: State) -> bool {
    &&& before.changes.len() <= after.changes.len()
    &&& after.changes.take(before.changes.len() as int) == before.changes
    &&& before.warnings.len() <= after.warnings.len()
    &&& after.warnings.take(before.warnings.len() as int) == before.warnings
    &&& after.changes.len() == before.changes.len() ==> after.scene == before.scene
}

proof fn lemma_told_itself(st: State)
    ensures
        told(st, st),
{
    assert(st.changes.take(st.changes.len() as int) =~= st.changes);
    assert(st.warnings.take(st.warnings.len() as int) =~= st.warnings);
}

proof fn lemma_told_chain(a: State, b: State, c: State)
    requires
        told(a, b),
        told(b, c),
    ensures
        told(a, c),
{
    assert(c.changes.take(b.changes.len() as int).take(a.changes.len() as int) =~= c.changes.take(
        a.changes.len() as int,
    ));
    assert(c.warnings.take(b.warnings.len() as int).take(a.warnings.len() as int)
        =~= c.warnings.take(a.warnings.len() as int));
}

proof fn lemma_told_change(st: State, s: Scene, line: Seq<char>)
    ensures
        told(st, st.at(s).change(line)),
{
    let after = st.at(s).change(line);
    assert(after.changes.take(st.changes.len() as int) =~= st.changes);
    assert(after.warnings.take(st.warnings.len() as int) =~= st.warnings);
}

proof fn lemma_told_warn(st: State, line: Seq<char>)
    ensures
        told(st, st.warn(line)),
{
    let after = st.warn(line);
    assert(after.changes.take(st.changes.len() as int) =~= st.changes);
    assert(after.warnings.take(st.warnings.len() as int) =~= st.warnings);
}

proof fn lemma_told_entry(
    classes: Classes,
    path: Seq<char>,
    target: Ref,
    entry: (Seq<char>, Seq<char>),
    map: TextModel,
    modules: TextModel,
    st: State,
)
    ensures
        told(st, entry_done(classes, path, target, entry, map, modules, st)),
{
    let after = entry_done(classes, path, target, entry, map, modules, st);
    assert(after.changes.take(st.changes.len() as int) =~= st.changes);
    assert(after.warnings.take(st.warnings.len() as int) =~= st.warnings);
}

proof fn lemma_told_entries(
    classes: Classes,
    path: Seq<char>,
    target: Ref,
    entries: Pairs,
    map: TextModel,
    modules: TextModel,
    st: State,
)
    ensures
        told(st, entries_done(classes, path, target, entries, map, modules, st)),
    decreases entries.len(),
{
    if entries.len() == 0 {
        lemma_told_itself(st);
    } else {
        let front = entries.drop_last();
        let between = entries_done(classes, path, target, front, map, modules, st);
        lemma_told_entries(classes, path, target, front, map, modules, st);
        lemma_told_entry(classes, path, target, entries.last(), map, modules, between);
        lemma_told_chain(
            st,
            between,
            entries_done(classes, path, target, entries, map, modules, st),
        );
    }
}

/// Where nothing is created, the place is as it was.
proof fn lemma_nothing_grown(
    s: Scene,
    at: Ref,
    parts: Seq<Seq<char>>,
    leaf_class: Seq<char>,
    fresh: Seq<Ref>,
)
    requires
        !grown_from(s, at, parts, leaf_class, fresh).created,
    ensures
        grown_from(s, at, parts, leaf_class, fresh).scene == s,
    decreases parts.len(),
{
    if parts.len() > 0 {
        if let Some(next) = crate::dom::child_named(s, s.nodes[at].children, parts[0]) {
            lemma_nothing_grown(s, next, parts.skip(1), leaf_class, fresh);
        }
    }
}

proof fn lemma_told_properties(
    classes: Classes,
    rule: Rule,
    map: TextModel,
    modules: TextModel,
    fresh: Seq<Ref>,
    st: State,
)
    ensures
        told(st, properties_done(classes, rule, map, modules, fresh, st)),
{
    let path = rule.path;
    let entries = rule.properties;
    let after = properties_done(classes, rule, map, modules, fresh, st);
    lemma_told_itself(st);
    if entries.len() > 0 {
        if asks_for_source(entries) && obstacle(st.scene, path) is Some {
            let o = obstacle(st.scene, path)->0;
            lemma_told_warn(st, path + ": "@ + crate::dom::obstacle_text(path, o));
        } else if fills(entries, map, modules) {
            match obstacle(st.scene, path) {
                Some(_) => {
                    lemma_filling_asks(entries, map, modules);
                },
                None => {
                    let g = grown(st.scene, path, "ModuleScript"@, fresh);
                    let there = if g.created {
                        st.at(g.scene).change(path + "  [created ModuleScript]"@)
                    } else {
                        st.at(g.scene)
                    };
                    if g.created {
                        lemma_told_change(st, g.scene, path + "  [created ModuleScript]"@);
                    } else {
                        lemma_nothing_grown(
                            st.scene,
                            st.scene.root,
                            crate::text::split(path, '.'),
                            "ModuleScript"@,
                            fresh,
                        );
                        assert(there == st);
                    }
                    lemma_told_entries(classes, path, g.leaf, entries, map, modules, there);
                    lemma_told_chain(st, there, after);
                },
            }
        } else {
            match found(st.scene, path) {
                Some(target) => {
                    lemma_told_entries(classes, path, target, entries, map, modules, st);
                },
                None => {
                    assert(after.changes.take(st.changes.len() as int) =~= st.changes);
                    assert(after.warnings.take(st.warnings.len() as int) =~= st.warnings);
                },
            }
        }
    }
}

proof fn lemma_told_properties_pass(
    classes: Classes,
    rules: Seq<Rule>,
    map: TextModel,
    modules: TextModel,
    before: State,
    after: State,
)
    requires
        properties_pass(classes, rules, map, modules, before, after),
    ensures
        told(before, after),
    decreases rules.len(),
{
    if rules.len() == 0 {
        lemma_told_itself(before);
    } else {
        let front = rules.drop_last();
        let between = choose|between: State|
            {
                &&& properties_pass(classes, front, map, modules, before, between)
                &&& #[trigger] properties_step(
                    classes,
                    rules.last(),
                    map,
                    modules,
                    between,
                    after,
                )
            };
        lemma_told_properties_pass(classes, front, map, modules, before, between);
        let fresh = choose|fresh: Seq<Ref>|
            #[trigger] properties_done(classes, rules.last(), map, modules, fresh, between)
                == after;
        lemma_told_properties(classes, rules.last(), map, modules, fresh, between);
        lemma_told_chain(before, between, after);
    }
}

/// Resolving the keys of a rule only reports, one change for each edit.
proof fn lemma_keys_resolved(path: Seq<char>, keys: Pairs, map: TextModel, st: State)
    ensures
        keys_resolved(path, keys, map, st).0.scene == st.scene,
        keys_resolved(path, keys, map, st).0.changes.len() == st.changes.len() + keys_resolved(
            path,
            keys,
            map,
            st,
        ).1.len(),
        told(st, keys_resolved(path, keys, map, st).0),
    decreases keys.len(),
{
    if keys.len() == 0 {
        lemma_told_itself(st);
    } else {
        let front = keys.drop_last();
        lemma_keys_resolved(path, front, map, st);
        let between = keys_resolved(path, front, map, st).0;
        let after = keys_resolved(path, keys, map, st).0;
        assert(after.changes.take(between.changes.len() as int) =~= between.changes);
        assert(after.warnings.take(between.warnings.len() as int) =~= between.warnings);
        lemma_told_chain(st, between, after);
    }
}

/// A `keys` rule either leaves the place and the reported changes as they were, as
/// it does where the module could not be rewritten, or it changes the source of
/// the module that it targets, nothing else of the place, and reports it.
pub proof fn law_keys_change_one_source(rule: Rule, map: TextModel, before: State, after: State)
    requires
        keys_step(rule, map, before, after),
    ensures
        told(before, after),
        ({
            ||| after.scene == before.scene && after.changes == before.changes
            ||| {
                &&& keys_target(before.scene, rule.path) matches Ok((target, _))
                &&& after.changes.len() > before.changes.len()
                &&& exists|text: Seq<char>|
                    after.scene == #[trigger] with_property(
                        before.scene,
                        target,
                        "Source"@,
                        Worth::Text(text),
                    )
            }
        }),
{
    let path = rule.path;
    lemma_told_itself(before);
    if rule.keys.len() > 0 {
        match keys_target(before.scene, path) {
            Err(e) => {
                lemma_told_warn(before, path + ": "@ + e);
            },
            Ok((target, source)) => {
                let (reported, edits) = keys_resolved(path, rule.keys, map, before);
                lemma_keys_resolved(path, rule.keys, map, before);
                assert(reported.changes.take(reported.changes.len() as int) =~= reported.changes);
                if edits.len() > 0 {
                    let r = choose|r: Result<String, KeysError>|
                        {
                            &&& #[trigger] may_rewrite(source, edits, r)
                            &&& after == keys_concluded(path, target, before, reported, r)
                        };
                    match r {
                        Ok(text) => {
                            assert(after.scene == with_property(
                                before.scene,
                                target,
                                "Source"@,
                                Worth::Text(text@),
                            ));
                        },
                        Err(e) => {
                            assert(after.changes.take(before.changes.len() as int)
                                =~= before.changes);
                            assert(after.warnings.take(before.warnings.len() as int)
                                =~= reported.warnings.take(before.warnings.len() as int));
                        },
                    }
                }
            },
        }
    }
}

proof fn lemma_told_keys_pass(rules: Seq<Rule>, map: TextModel, before: State, after: State)
    requires
        keys_pass(rules, map, before, after),
    ensures
        told(before, after),
    decreases rules.len(),
{
    if rules.len() == 0 {
        lemma_told_itself(before);
    } else {
        let front = rules.drop_last();
        let between = choose|between: State|
            {
                &&& keys_pass(front, map, before, between)
                &&& #[trigger] keys_step(rules.last(), map, between, after)
            };
        lemma_told_keys_pass(front, map, before, between);
        law_keys_change_one_source(rules.last(), map, between, after);
        lemma_told_chain(before, between, after);
    }
}

/// A run tells all that it did: what was reported stays, and where no change was
/// reported, the place is as it was.
pub proof fn law_a_run_tells_all(
    classes: Classes,
    rules: Seq<Rule>,
    map: TextModel,
    modules: TextModel,
    before: State,
    after: State,
)
    requires
        applied(classes, rules, map, modules, before, after),
    ensures
        told(before, after),
{
    let between = choose|between: State|
        {
            &&& #[trigger] properties_pass(classes, rules, map, modules, before, between)
            &&& keys_pass(rules, map, between, after)
        };
    lemma_told_properties_pass(classes, rules, map, modules, before, between);
    lemma_told_keys_pass(rules, map, between, after);
    lemma_told_chain(before, between, after);
}

/// Without rules, a run does nothing.
pub proof fn law_no_rules_no_change(
    classes: Classes,
    map: TextModel,
    modules: TextModel,
    before: State,
    after: State,
)
    requires
        applied(classes, Seq::empty(), map, modules, before, after),
    ensures
        after == before,
{
}

// ---------------------------------------------------------------------------
// Order
// ---------------------------------------------------------------------------

/// The part of a rule that sets properties.
pub open spec fn setting_part(rule: Rule) -> Rule {
    Rule { keys: Seq::empty(), ..rule }
}

/// The part of a rule that sets keys.
pub open spec fn keying_part(rule: Rule) -> Rule {
    Rule { properties: Seq::empty(), ..rule }
}

/// What the rules set of properties, in order: of each rule that sets any, the part
/// that does.
pub open spec fn setting(rules: Seq<Rule>) -> Seq<Rule>
    decreases rules.len(),
{
    if rules.len() == 0 {
        Seq::empty()
    } else if rules.last().properties.len() > 0 {
        setting(rules.drop_last()).push(setting_part(rules.last()))
    } else {
        setting(rules.drop_last())
    }
}

/// What the rules set of keys, in order: of each rule that sets any, the part that does.
pub open spec fn keying(rules: Seq<Rule>) -> Seq<Rule>
    decreases rules.len(),
{
    if rules.len() == 0 {
        Seq::empty()
    } else if rules.last().keys.len() > 0 {
        keying(rules.drop_last()).push(keying_part(rules.last()))
    } else {
        keying(rules.drop_last())
    }
}

/// The first pass goes by the part of a rule that sets properties.
proof fn lemma_setting_part(
    classes: Classes,
    rule: Rule,
    map: TextModel,
    modules: TextModel,
    before: State,
    after: State,
)
    ensures
        properties_step(classes, rule, map, modules, before, after) == properties_step(
            classes,
            setting_part(rule),
            map,
            modules,
            before,
            after,
        ),
{
    let part = setting_part(rule);
    assert forall|fresh: Seq<Ref>| #[trigger]
        properties_done(classes, rule, map, modules, fresh, before) == properties_done(
            classes,
            part,
            map,
            modules,
            fresh,
            before,
        ) by {}
    if properties_step(classes, rule, map, modules, before, after) {
        let fresh = choose|fresh: Seq<Ref>|
            #[trigger] properties_done(classes, rule, map, modules, fresh, before) == after;
        assert(properties_done(classes, part, map, modules, fresh, before) == after);
    }
    if properties_step(classes, part, map, modules, before, after) {
        let fresh = choose|fresh: Seq<Ref>|
            #[trigger] properties_done(classes, part, map, modules, fresh, before) == after;
        assert(properties_done(classes, rule, map, modules, fresh, before) == after);
    }
}

/// A rule without properties does nothing in the first pass.
pub proof fn lemma_setting(
    classes: Classes,
    rules: Seq<Rule>,
    map: TextModel,
    modules: TextModel,
    before: State,
    after: State,
)
    ensures
        properties_pass(classes, rules, map, modules, before, after) == properties_pass(
            classes,
            setting(rules),
            map,
            modules,
            before,
            after,
        ),
    decreases rules.len(),
{
    if rules.len() > 0 {
        let front = rules.drop_last();
        let last = rules.last();
        let fewer = setting(rules);
        if last.properties.len() > 0 {
            assert(fewer.drop_last() =~= setting(front));
            assert forall|st: State, next: State| #[trigger]
                properties_step(classes, last, map, modules, st, next) == properties_step(
                    classes,
                    fewer.last(),
                    map,
                    modules,
                    st,
                    next,
                ) by {
                lemma_setting_part(classes, last, map, modules, st, next);
            }
            if properties_pass(classes, rules, map, modules, before, after) {
                let between = choose|between: State|
                    {
                        &&& properties_pass(classes, front, map, modules, before, between)
                        &&& #[trigger] properties_step(
                            classes,
                            last,
                            map,
                            modules,
                            between,
                            after,
                        )
                    };
                lemma_setting(classes, front, map, modules, before, between);
                assert(properties_step(classes, fewer.last(), map, modules, between, after));
            }
            if properties_pass(classes, fewer, map, modules, before, after) {
                let between = choose|between: State|
                    {
                        &&& properties_pass(
                            classes,
                            fewer.drop_last(),
                            map,
                            modules,
                            before,
                            between,
                        )
                        &&& #[trigger] properties_step(
                            classes,
                            fewer.last(),
                            map,
                            modules,
                            between,
                            after,
                        )
                    };
                lemma_setting(classes, front, map, modules, before, between);
                assert(properties_step(classes, last, map, modules, between, after));
            }
        } else {
            lemma_setting(classes, front, map, modules, before, after);
            if properties_pass(classes, rules, map, modules, before, after) {
                let between = choose|between: State|
                    {
                        &&& properties_pass(classes, front, map, modules, before, between)
                        &&& #[trigger] properties_step(
                            classes,
                            last,
                            map,
                            modules,
                            between,
                            after,
                        )
                    };
                assert(between == after);
            }
            if properties_pass(classes, front, map, modules, before, after) {
                assert(properties_done(classes, last, map, modules, Seq::empty(), after) == after);
                assert(properties_step(classes, last, map, modules, after, after));
            }
        }
    }
}

/// A rule without keys does nothing in the second pass.
pub proof fn lemma_keying(rules: Seq<Rule>, map: TextModel, before: State, after: State)
    ensures
        keys_pass(rules, map, before, after) == keys_pass(keying(rules), map, before, after),
    decreases rules.len(),
{
    if rules.len() > 0 {
        let front = rules.drop_last();
        let last = rules.last();
        let fewer = keying(rules);
        if last.keys.len() > 0 {
            assert(fewer.drop_last() =~= keying(front));
            assert forall|st: State, next: State| #[trigger]
                keys_step(last, map, st, next) == keys_step(fewer.last(), map, st, next) by {}
            if keys_pass(rules, map, before, after) {
                let between = choose|between: State|
                    {
                        &&& keys_pass(front, map, before, between)
                        &&& #[trigger] keys_step(last, map, between, after)
                    };
                lemma_keying(front, map, before, between);
                assert(keys_step(fewer.last(), map, between, after));
            }
            if keys_pass(fewer, map, before, after) {
                let between = choose|between: State|
                    {
                        &&& keys_pass(fewer.drop_last(), map, before, between)
                        &&& #[trigger] keys_step(fewer.last(), map, between, after)
                    };
                lemma_keying(front, map, before, between);
                assert(keys_step(last, map, between, after));
            }
        } else {
            lemma_keying(front, map, before, after);
            if keys_pass(rules, map, before, after) {
                let between = choose|between: State|
                    {
                        &&& keys_pass(front, map, before, between)
                        &&& #[trigger] keys_step(last, map, between, after)
                    };
                assert(between == after);
            }
            if keys_pass(front, map, before, after) {
                assert(keys_step(last, map, after, after));
            }
        }
    }
}

/// What a run comes to does not depend on where `keys` stand among `properties`, nor on
/// whether they stand in one rule or in two on the same path: only the order within
/// each of the two kinds counts.
pub proof fn law_properties_come_before_keys(
    classes: Classes,
    one: Seq<Rule>,
    other: Seq<Rule>,
    map: TextModel,
    modules: TextModel,
    before: State,
    after: State,
)
    requires
        setting(one) == setting(other),
        keying(one) == keying(other),
    ensures
        applied(classes, one, map, modules, before, after) == applied(
            classes,
            other,
            map,
            modules,
            before,
            after,
        ),
{
    if applied(classes, one, map, modules, before, after) {
        lemma_applied_too(classes, one, other, map, modules, before, after);
    }
    if applied(classes, other, map, modules, before, after) {
        lemma_applied_too(classes, other, one, map, modules, before, after);
    }
}

proof fn lemma_applied_too(
    classes: Classes,
    one: Seq<Rule>,
    other: Seq<Rule>,
    map: TextModel,
    modules: TextModel,
    before: State,
    after: State,
)
    requires
        setting(one) == setting(other),
        keying(one) == keying(other),
        applied(classes, one, map, modules, before, after),
    ensures
        applied(classes, other, map, modules, before, after),
{
    let between = choose|between: State|
        {
            &&& #[trigger] properties_pass(classes, one, map, modules, before, between)
            &&& keys_pass(one, map, between, after)
        };
    lemma_setting(classes, one, map, modules, before, between);
    lemma_setting(classes, other, map, modules, before, between);
    lemma_keying(one, map, between, after);
    lemma_keying(other, map, between, after);
    assert(properties_pass(classes, other, map, modules, before, between));
}

// ---------------------------------------------------------------------------
// Single entries
// ---------------------------------------------------------------------------

/// Whether two places differ in the properties of one instance at most.
pub open spec fn only_properties_of(target: Ref, s: Scene, t: Scene) -> bool {
    &&& s.root == t.root
    &&& s.nodes.dom() == t.nodes.dom()
    &&& forall|r: Ref| #[trigger]
        s.nodes.contains_key(r) ==> {
            &&& t.nodes[r].name == s.nodes[r].name
            &&& t.nodes[r].class == s.nodes[r].class
            &&& t.nodes[r].referent == s.nodes[r].referent
            &&& t.nodes[r].parent == s.nodes[r].parent
            &&& t.nodes[r].children == s.nodes[r].children
            &&& r != target ==> t.nodes[r].props == s.nodes[r].props
        }
}

/// Clearing takes the properties of that name away, and no others.
proof fn lemma_cleared(s: Scene, target: Ref, names: Seq<Seq<char>>)
    requires
        s.nodes.contains_key(target),
    ensures
        only_properties_of(target, s, cleared(s, target, names).0),
        forall|k: Seq<char>| #[trigger]
            cleared(s, target, names).0.nodes[target].props.contains_key(k) <==> (
            s.nodes[target].props.contains_key(k) && !names.contains(k)),
        forall|k: Seq<char>| #[trigger]
            cleared(s, target, names).0.nodes[target].props.contains_key(k) ==> cleared(
                s,
                target,
                names,
            ).0.nodes[target].props[k] == s.nodes[target].props[k],
    decreases names.len(),
{
    if names.len() > 0 {
        let front = names.drop_last();
        lemma_cleared(s, target, front);
        let before = cleared(s, target, front).0;
        let after = cleared(s, target, names).0;
        assert(before.nodes.contains_key(target));
        assert(after.nodes.dom() =~= before.nodes.dom());
        assert forall|k: Seq<char>| names.contains(k) <==> front.contains(k) || k
            == names.last() by {
            if names.contains(k) {
                let i = choose|i: int| 0 <= i < names.len() && names[i] == k;
                if i < front.len() {
                    assert(front[i] == k);
                }
            }
            if front.contains(k) {
                let i = choose|i: int| 0 <= i < front.len() && front[i] == k;
                assert(names[i] == k);
            }
            assert(names[names.len() - 1] == names.last());
        }
    }
}

/// A property that is written holds what was written. Of the properties that would
/// override it when the place is read, none is left, and every other property of
/// the instance and every other instance is as it was. One change is reported.
pub proof fn law_a_write_leaves_no_stale_twin(
    classes: Classes,
    target: Ref,
    prop: Seq<char>,
    value: Worth,
    line: Seq<char>,
    st: State,
)
    requires
        st.scene.nodes.contains_key(target),
    ensures
        only_properties_of(
            target,
            st.scene,
            written(classes, target, prop, value, line, st).scene,
        ),
        ({
            let node = st.scene.nodes[target];
            let twins = moved_in(classes, node.class, prop);
            let props = written(classes, target, prop, value, line, st).scene.nodes[target].props;
            &&& props.contains_key(prop) && props[prop] == value
            &&& forall|k: Seq<char>| k != prop && twins.contains(k) ==> !#[trigger] props.contains_key(
                k,
            )
            &&& forall|k: Seq<char>|
                k != prop && !twins.contains(k) ==> #[trigger] props.contains_key(k)
                    == node.props.contains_key(k)
            &&& forall|k: Seq<char>|
                k != prop && #[trigger] props.contains_key(k) ==> props[k] == node.props[k]
        }),
        written(classes, target, prop, value, line, st).changes.len() == st.changes.len() + 1,
        written(classes, target, prop, value, line, st).warnings == st.warnings,
{
    let node = st.scene.nodes[target];
    let twins = moved_in(classes, node.class, prop);
    lemma_cleared(st.scene, target, twins);
    let rest = cleared(st.scene, target, twins).0;
    let after = written(classes, target, prop, value, line, st).scene;
    assert(rest.nodes.contains_key(target));
    assert(after.nodes.dom() =~= rest.nodes.dom());
}

/// Which values are written, and which are refused: a value that is looked up is
/// typed and written whatever the class, the source of a module is written unless
/// the class is known and has no such property, and what does not resolve is not
/// written.
pub proof fn law_what_an_entry_does(
    classes: Classes,
    path: Seq<char>,
    target: Ref,
    entry: (Seq<char>, Seq<char>),
    map: TextModel,
    modules: TextModel,
    st: State,
)
    requires
        st.scene.nodes.contains_key(target),
    ensures
        ({
            let node = st.scene.nodes[target];
            let after = entry_done(classes, path, target, entry, map, modules, st);
            let props = after.scene.nodes[target].props;
            &&& only_properties_of(target, st.scene, after.scene)
            &&& match resolved_property(entry.1, map, modules) {
                Ok(Resolution::Value(value)) => props.contains_key(entry.0) && props[entry.0]
                    == typed(classes, node, entry.0, value),
                Ok(Resolution::Source(source)) => if cannot_hold(classes, node.class, entry.0) {
                    after.scene == st.scene && after.warnings.len() == st.warnings.len() + 1
                } else {
                    props.contains_key(entry.0) && props[entry.0] == Worth::Text(source)
                },
                Err(e) => after.scene == st.scene && after.warnings == st.warnings.push(
                    property_label(path, entry.0) + ": "@ + e,
                ),
            }
        }),
{
    let node = st.scene.nodes[target];
    let prop = entry.0;
    assert forall|value: Worth, line: Seq<char>| only_properties_of(
        target,
        st.scene,
        (#[trigger] written(classes, target, prop, value, line, st)).scene,
    ) && written(classes, target, prop, value, line, st).scene.nodes[target].props.contains_key(
        prop,
    ) && written(classes, target, prop, value, line, st).scene.nodes[target].props[prop]
        == value by {
        law_a_write_leaves_no_stale_twin(classes, target, prop, value, line, st);
    }
}

/// The entries of a rule change the properties of the instance that it targets,
/// and nothing else of the place.
pub proof fn law_entries_keep_to_their_target(
    classes: Classes,
    path: Seq<char>,
    target: Ref,
    entries: Pairs,
    map: TextModel,
    modules: TextModel,
    st: State,
)
    requires
        st.scene.nodes.contains_key(target),
    ensures
        only_properties_of(
            target,
            st.scene,
            entries_done(classes, path, target, entries, map, modules, st).scene,
        ),
    decreases entries.len(),
{
    if entries.len() > 0 {
        let front = entries.drop_last();
        law_entries_keep_to_their_target(classes, path, target, front, map, modules, st);
        let between = entries_done(classes, path, target, front, map, modules, st);
        assert(between.scene.nodes.contains_key(target));
        law_what_an_entry_does(classes, path, target, entries.last(), map, modules, between);
        let after = entries_done(classes, path, target, entries, map, modules, st);
        assert forall|r: Ref| #[trigger] st.scene.nodes.contains_key(r) implies {
            &&& after.scene.nodes[r].name == st.scene.nodes[r].name
            &&& after.scene.nodes[r].class == st.scene.nodes[r].class
            &&& after.scene.nodes[r].referent == st.scene.nodes[r].referent
            &&& after.scene.nodes[r].parent == st.scene.nodes[r].parent
            &&& after.scene.nodes[r].children == st.scene.nodes[r].children
            &&& r != target ==> after.scene.nodes[r].props == st.scene.nodes[r].props
        } by {
            assert(between.scene.nodes.contains_key(r));
        }
    }
}

/// Nothing is created unless there is a module source to fill it with, and never
/// where the first name of the path is not there.
pub proof fn law_nothing_is_created_in_vain(
    classes: Classes,
    rule: Rule,
    map: TextModel,
    modules: TextModel,
    fresh: Seq<Ref>,
    st: State,
)
    requires
        !fills(rule.properties, map, modules) || obstacle(st.scene, rule.path) is Some,
    ensures
        properties_done(classes, rule, map, modules, fresh, st).scene.nodes.dom()
            == st.scene.nodes.dom(),
{
    let path = rule.path;
    lemma_filling_asks(rule.properties, map, modules);
    if rule.properties.len() > 0 && !fills(rule.properties, map, modules) {
        if let Some(target) = found(st.scene, path) {
            crate::text::lemma_split_nonempty(path, '.');
            crate::dom::lemma_reached(st.scene, st.scene.root, crate::text::split(path, '.'));
            law_entries_keep_to_their_target(
                classes,
                path,
                target,
                rule.properties,
                map,
                modules,
                st,
            );
        }
    }
}

// ---------------------------------------------------------------------------
// What entries do to a property
// ---------------------------------------------------------------------------

/// What an entry writes, where the property holds `existing` before: nothing where
/// it does not resolve or is refused.
pub open spec fn entry_value(
    classes: Classes,
    class: Seq<char>,
    entry: (Seq<char>, Seq<char>),
    map: TextModel,
    modules: TextModel,
    existing: Option<Worth>,
) -> Option<Worth> {
    match resolved_property(entry.1, map, modules) {
        Ok(Resolution::Value(value)) => Some(
            typed_over(classes, class, existing, entry.0, value),
        ),
        Ok(Resolution::Source(source)) => if cannot_hold(classes, class, entry.0) {
            None
        } else {
            Some(Worth::Text(source))
        },
        Err(_) => None,
    }
}

/// What a property holds.
pub open spec fn held(s: Scene, target: Ref, prop: Seq<char>) -> Option<Worth> {
    held_in(s.nodes[target], prop)
}

/// Whether an entry writes anything. That does not depend on what is there.
pub open spec fn writes(
    classes: Classes,
    class: Seq<char>,
    entry: (Seq<char>, Seq<char>),
    map: TextModel,
    modules: TextModel,
) -> bool {
    entry_value(classes, class, entry, map, modules, None) is Some
}

/// Whether an entry sets or clears a property.
pub open spec fn affects(
    classes: Classes,
    class: Seq<char>,
    entry: (Seq<char>, Seq<char>),
    map: TextModel,
    modules: TextModel,
    prop: Seq<char>,
) -> bool {
    writes(classes, class, entry, map, modules) && (entry.0 == prop || moved_in(
        classes,
        class,
        entry.0,
    ).contains(prop))
}

/// What one entry does to a property.
pub proof fn lemma_entry_effect(
    classes: Classes,
    path: Seq<char>,
    target: Ref,
    entry: (Seq<char>, Seq<char>),
    map: TextModel,
    modules: TextModel,
    st: State,
    prop: Seq<char>,
)
    requires
        st.scene.nodes.contains_key(target),
    ensures
        ({
            let class = st.scene.nodes[target].class;
            let after = entry_done(classes, path, target, entry, map, modules, st);
            &&& after.scene.nodes.contains_key(target)
            &&& after.scene.nodes[target].class == class
            &&& !affects(classes, class, entry, map, modules, prop) ==> held(
                after.scene,
                target,
                prop,
            ) == held(st.scene, target, prop)
            &&& affects(classes, class, entry, map, modules, prop) && entry.0 != prop ==> held(
                after.scene,
                target,
                prop,
            ) is None
            &&& affects(classes, class, entry, map, modules, prop) && entry.0 == prop ==> held(
                after.scene,
                target,
                prop,
            ) == entry_value(classes, class, entry, map, modules, held(st.scene, target, prop))
        }),
{
    let node = st.scene.nodes[target];
    law_what_an_entry_does(classes, path, target, entry, map, modules, st);
    match resolved_property(entry.1, map, modules) {
        Ok(Resolution::Value(value)) => {
            law_a_write_leaves_no_stale_twin(
                classes,
                target,
                entry.0,
                typed(classes, node, entry.0, value),
                property_label(path, entry.0) + " = "@ + value,
                st,
            );
        },
        Ok(Resolution::Source(source)) => {
            law_a_write_leaves_no_stale_twin(
                classes,
                target,
                entry.0,
                Worth::Text(source),
                property_label(path, entry.0) + " = "@ + source_described(entry.1) + " ("@
                    + nat_text(byte_count(source)) + " bytes)"@,
                st,
            );
        },
        Err(_) => {},
    }
}

/// What a property holds after entries that do not affect it.
pub proof fn lemma_unaffected(
    classes: Classes,
    path: Seq<char>,
    target: Ref,
    entries: Pairs,
    map: TextModel,
    modules: TextModel,
    st: State,
    prop: Seq<char>,
)
    requires
        st.scene.nodes.contains_key(target),
    ensures
        ({
            let class = st.scene.nodes[target].class;
            let after = entries_done(classes, path, target, entries, map, modules, st);
            &&& after.scene.nodes.contains_key(target)
            &&& after.scene.nodes[target].class == class
            &&& (forall|i: int|
                0 <= i < entries.len() ==> !affects(
                    classes,
                    class,
                    #[trigger] entries[i],
                    map,
                    modules,
                    prop,
                )) ==> held(after.scene, target, prop) == held(st.scene, target, prop)
        }),
    decreases entries.len(),
{
    if entries.len() > 0 {
        let front = entries.drop_last();
        lemma_unaffected(classes, path, target, front, map, modules, st, prop);
        let between = entries_done(classes, path, target, front, map, modules, st);
        lemma_entry_effect(classes, path, target, entries.last(), map, modules, between, prop);
        let class = st.scene.nodes[target].class;
        if forall|i: int|
            0 <= i < entries.len() ==> !affects(
                classes,
                class,
                #[trigger] entries[i],
                map,
                modules,
                prop,
            ) {
            assert(entries[entries.len() - 1] == entries.last());
            assert forall|i: int| 0 <= i < front.len() implies !affects(
                classes,
                class,
                #[trigger] front[i],
                map,
                modules,
                prop,
            ) by {
                assert(front[i] == entries[i]);
            }
        }
    }
}

// ---------------------------------------------------------------------------
// What is done, and what is said of it
// ---------------------------------------------------------------------------

/// The entries of a rule are taken one after the other: more of them do what some do and then
/// the rest, and none do nothing.
pub proof fn law_entries_are_taken_in_order(
    classes: Classes,
    path: Seq<char>,
    target: Ref,
    some: Pairs,
    rest: Pairs,
    one: (Seq<char>, Seq<char>),
    map: TextModel,
    modules: TextModel,
    st: State,
)
    ensures
        entries_done(classes, path, target, some + rest, map, modules, st) == entries_done(
            classes,
            path,
            target,
            rest,
            map,
            modules,
            entries_done(classes, path, target, some, map, modules, st),
        ),
        entries_done(classes, path, target, seq![one], map, modules, st) == entry_done(
            classes,
            path,
            target,
            one,
            map,
            modules,
            st,
        ),
        entries_done(classes, path, target, Seq::empty(), map, modules, st) == st,
    decreases rest.len(),
{
    let all = some + rest;
    if rest.len() == 0 {
        assert(all =~= some);
    } else {
        law_entries_are_taken_in_order(
            classes,
            path,
            target,
            some,
            rest.drop_last(),
            one,
            map,
            modules,
            st,
        );
        assert(all.drop_last() =~= some + rest.drop_last());
    }
    reveal_with_fuel(entries_done, 2);
    assert(seq![one].drop_last() =~= Seq::<(Seq<char>, Seq<char>)>::empty());
}

/// Whether an instance has a property.
pub open spec fn has_property(node: Node) -> spec_fn(Seq<char>) -> bool {
    |name: Seq<char>| node.props.contains_key(name)
}

/// Which of the properties are taken away, in their order.
proof fn lemma_what_is_cleared(s: Scene, target: Ref, names: Seq<Seq<char>>)
    requires
        s.nodes.contains_key(target),
        names.no_duplicates(),
    ensures
        cleared(s, target, names).1 == names.filter(has_property(s.nodes[target])),
    decreases names.len(),
{
    reveal(Seq::filter);
    if names.len() > 0 {
        let front = names.drop_last();
        assert(front.no_duplicates()) by {
            assert forall|i: int, j: int|
                0 <= i < front.len() && 0 <= j < front.len() && i != j implies front[i]
                != front[j] by {
                assert(names[i] == front[i] && names[j] == front[j]);
            }
        }
        lemma_what_is_cleared(s, target, front);
        lemma_cleared(s, target, front);
        assert(!front.contains(names.last())) by {
            if front.contains(names.last()) {
                let i = choose|i: int| 0 <= i < front.len() && front[i] == names.last();
                assert(names[i] == names[names.len() - 1]);
            }
        }
        let before = cleared(s, target, front).0;
        assert(before.nodes[target].props.contains_key(names.last())
            == s.nodes[target].props.contains_key(names.last()));
    }
}

/// What an entry does to the report, and when it does nothing else. What does not resolve is
/// warned of, with the reason, and changes nothing. So is the source of a module for a
/// property that is not declared for a class that is known; for a class that is not known it
/// is written. All else is written, and reported as one change, which names the properties
/// that had to go, those that the instance had, in order. Of the other properties of the
/// instance none is left that would override what was written, and all the rest stay.
pub proof fn law_what_an_entry_reports(
    classes: Classes,
    path: Seq<char>,
    target: Ref,
    entry: (Seq<char>, Seq<char>),
    map: TextModel,
    modules: TextModel,
    st: State,
)
    requires
        st.scene.nodes.contains_key(target),
        moved_in(classes, st.scene.nodes[target].class, entry.0).no_duplicates(),
    ensures
        ({
            let after = entry_done(classes, path, target, entry, map, modules, st);
            let node = st.scene.nodes[target];
            let label = path + "."@ + entry.0;
            let gone = moved_in(classes, node.class, entry.0).filter(has_property(node));
            let stale = if gone.len() == 0 {
                Seq::empty()
            } else {
                " (replaced stale "@ + join(gone, ", "@) + ")"@
            };
            let props = after.scene.nodes[target].props;
            &&& after.changes.len() > st.changes.len() ==> forall|k: Seq<char>|
                k != entry.0 ==> {
                    &&& #[trigger] props.contains_key(k) == (node.props.contains_key(k) && !moved_in(
                        classes,
                        node.class,
                        entry.0,
                    ).contains(k))
                    &&& props.contains_key(k) ==> props[k] == node.props[k]
                }
            &&& only_properties_of(target, st.scene, after.scene)
            &&& match resolved_property(entry.1, map, modules) {
                Err(e) => {
                    &&& after.scene == st.scene && after.changes == st.changes
                    &&& after.warnings == st.warnings.push(label + ": "@ + e)
                },
                Ok(Resolution::Value(value)) => {
                    &&& after.warnings == st.warnings
                    &&& after.changes == st.changes.push(label + " = "@ + value + stale)
                    &&& after.scene.nodes[target].props[entry.0] == typed(
                        classes,
                        node,
                        entry.0,
                        value,
                    )
                },
                Ok(Resolution::Source(source)) => if classes.contains_key(node.class) && type_in(
                    classes,
                    node.class,
                    entry.0,
                ) is None {
                    &&& after.scene == st.scene && after.changes == st.changes
                    &&& after.warnings == st.warnings.push(
                        label + ": "@ + (node.class + " has no property '"@ + entry.0
                            + "' in the reflection database"@),
                    )
                } else {
                    &&& after.warnings == st.warnings
                    &&& vstd::utf8::encode_utf8(source).len() <= usize::MAX ==> after.changes
                        == st.changes.push(
                        label + " = "@ + source_described(entry.1) + " ("@ + nat_text(
                            vstd::utf8::encode_utf8(source).len(),
                        ) + " bytes)"@ + stale,
                    )
                    &&& after.scene.nodes[target].props[entry.0] == Worth::Text(source)
                },
            }
        }),
{
    let node = st.scene.nodes[target];
    let twins = moved_in(classes, node.class, entry.0);
    law_what_an_entry_does(classes, path, target, entry, map, modules, st);
    lemma_what_is_cleared(st.scene, target, twins);
    match resolved_property(entry.1, map, modules) {
        Ok(Resolution::Value(value)) => {
            law_a_write_leaves_no_stale_twin(
                classes,
                target,
                entry.0,
                typed(classes, node, entry.0, value),
                property_label(path, entry.0) + " = "@ + value,
                st,
            );
        },
        Ok(Resolution::Source(source)) => {
            law_a_write_leaves_no_stale_twin(
                classes,
                target,
                entry.0,
                Worth::Text(source),
                property_label(path, entry.0) + " = "@ + source_described(entry.1) + " ("@
                    + nat_text(byte_count(source)) + " bytes)"@,
                st,
            );
        },
        Err(_) => {},
    }
}

/// What the properties of a rule do, by what the path leads to. Where it leads to an instance
/// they are set on that; where it leads nowhere nothing changes, and it is said once that
/// there is no such instance.
pub proof fn law_a_rule_sets_its_target(
    classes: Classes,
    rule: Rule,
    map: TextModel,
    modules: TextModel,
    fresh: Seq<Ref>,
    st: State,
)
    requires
        rule.properties.len() > 0,
        forall|i: int| 0 <= i < rule.properties.len() ==> !is_source((#[trigger] rule.properties[i]).1),
    ensures
        forall|way: Seq<Ref>| #[trigger]
            leads(st.scene, rule.path, way) ==> properties_done(
                classes,
                rule,
                map,
                modules,
                fresh,
                st,
            ) == entries_done(
                classes,
                rule.path,
                way.last(),
                rule.properties,
                map,
                modules,
                st,
            ),
        (forall|way: Seq<Ref>| !#[trigger] leads(st.scene, rule.path, way)) ==> properties_done(
            classes,
            rule,
            map,
            modules,
            fresh,
            st,
        ) == (State {
            warnings: st.warnings.push(rule.path + ": "@ + "no such instance"@),
            ..st
        }),
{
    law_a_path_is_found_by_its_way(st.scene, rule.path);
    assert forall|way: Seq<Ref>| #[trigger] leads(st.scene, rule.path, way) implies found(
        st.scene,
        rule.path,
    ) == Some(way.last()) by {}
}

/// What a rule does that asks for the source of a module. Where something is in the way of its
/// path, it says so once and does nothing. Else, where the path leads to an instance, the
/// entries are set on that. Where it leads nowhere, the path is grown and the entries are set
/// on what was created, if one of the sources resolves; if none does, nothing is created and
/// each entry is warned of.
pub proof fn law_a_rule_creates_its_module(
    classes: Classes,
    rule: Rule,
    map: TextModel,
    modules: TextModel,
    fresh: Seq<Ref>,
    st: State,
    i: int,
)
    requires
        0 <= i < rule.properties.len(),
        is_source(rule.properties[i].1),
    ensures
        ({
            let after = properties_done(classes, rule, map, modules, fresh, st);
            let path = rule.path;
            let g = grown(st.scene, path, "ModuleScript"@, fresh);
            match obstacle(st.scene, path) {
                Some(o) => after == (State {
                    warnings: st.warnings.push(path + ": "@ + obstacle_text(path, o)),
                    ..st
                }),
                None => {
                    &&& forall|way: Seq<Ref>| #[trigger]
                        leads(st.scene, path, way) ==> after == entries_done(
                            classes,
                            path,
                            way.last(),
                            rule.properties,
                            map,
                            modules,
                            st,
                        )
                    &&& (forall|way: Seq<Ref>| !#[trigger] leads(st.scene, path, way)) && (forall|
                        k: int,
                    |
                        0 <= k < rule.properties.len() && is_source(
                            (#[trigger] rule.properties[k]).1,
                        ) ==> resolved_property(rule.properties[k].1, map, modules) is Err) ==> {
                        &&& after.scene == st.scene && after.changes == st.changes
                        &&& after.warnings.len() == st.warnings.len() + rule.properties.len()
                        &&& after.warnings.take(st.warnings.len() as int) == st.warnings
                        &&& forall|k: int|
                            0 <= k < rule.properties.len() ==> #[trigger] after.warnings[st.warnings.len()
                                + k] == path + "."@ + rule.properties[k].0 + ": "@ + match resolved_property(
                                rule.properties[k].1,
                                map,
                                modules,
                            ) {
                                Err(e) => e,
                                Ok(_) => "no such instance"@,
                            }
                    }
                    &&& (forall|way: Seq<Ref>| !#[trigger] leads(st.scene, path, way)) && g.created
                        && resolved_property(rule.properties[i].1, map, modules) is Ok ==> after
                        == entries_done(
                        classes,
                        path,
                        g.leaf,
                        rule.properties,
                        map,
                        modules,
                        State {
                            scene: g.scene,
                            changes: st.changes.push(path + "  [created ModuleScript]"@),
                            ..st
                        },
                    )
                },
            }
        }),
{
    let path = rule.path;
    let entries = rule.properties;
    assert(asks_for_source(entries));
    law_a_path_is_found_by_its_way(st.scene, path);
    assert forall|way: Seq<Ref>| #[trigger] leads(st.scene, path, way) implies found(
        st.scene,
        path,
    ) == Some(way.last()) by {}
    if found(st.scene, path) is Some {
        law_growing_what_is_there(st.scene, path, "ModuleScript"@, fresh);
        assert(st.at(st.scene) == st);
    }
    if resolved_property(entries[i].1, map, modules) is Ok {
        assert(fills(entries, map, modules));
    }
    let after = properties_done(classes, rule, map, modules, fresh, st);
    if obstacle(st.scene, path) is None && found(st.scene, path) is None && !fills(
        entries,
        map,
        modules,
    ) {
        assert(after.warnings.take(st.warnings.len() as int) =~= st.warnings);
    }
}

/// The properties of more rules do what those of some do and then those of the rest, and so do
/// the keys.
pub proof fn law_rules_are_taken_in_order(
    classes: Classes,
    some: Seq<Rule>,
    rest: Seq<Rule>,
    one: Rule,
    map: TextModel,
    modules: TextModel,
    before: State,
    after: State,
)
    ensures
        properties_pass(classes, some + rest, map, modules, before, after) <==> exists|
            between: State,
        |
            {
                &&& #[trigger] properties_pass(classes, some, map, modules, before, between)
                &&& properties_pass(classes, rest, map, modules, between, after)
            },
        keys_pass(some + rest, map, before, after) <==> exists|between: State|
            {
                &&& #[trigger] keys_pass(some, map, before, between)
                &&& keys_pass(rest, map, between, after)
            },
        properties_pass(classes, seq![one], map, modules, before, after) <==> exists|
            fresh: Seq<Ref>,
        | #[trigger] properties_done(classes, one, map, modules, fresh, before) == after,
        keys_pass(seq![one], map, before, after) <==> keys_step(one, map, before, after),
        applied(classes, some, map, modules, before, after) <==> exists|between: State|
            {
                &&& #[trigger] properties_pass(classes, some, map, modules, before, between)
                &&& keys_pass(some, map, between, after)
            },
{
    lemma_properties_in_order(classes, some, rest, map, modules, before, after);
    lemma_keys_in_order(some, rest, map, before, after);
    let single = seq![one];
    assert(single.drop_last() =~= Seq::<Rule>::empty());
    assert(single.last() == one);
    if exists|fresh: Seq<Ref>| #[trigger]
        properties_done(classes, one, map, modules, fresh, before) == after {
        assert(properties_step(classes, one, map, modules, before, after));
        assert(properties_pass(classes, single.drop_last(), map, modules, before, before));
        assert(properties_step(classes, single.last(), map, modules, before, after));
    }
    if keys_step(one, map, before, after) {
        assert(keys_pass(single.drop_last(), map, before, before));
        assert(keys_step(single.last(), map, before, after));
    }
    if properties_pass(classes, single, map, modules, before, after) {
        let between = choose|between: State|
            {
                &&& properties_pass(classes, single.drop_last(), map, modules, before, between)
                &&& #[trigger] properties_step(
                    classes,
                    single.last(),
                    map,
                    modules,
                    between,
                    after,
                )
            };
        assert(between == before);
    }
    if keys_pass(single, map, before, after) {
        let between = choose|between: State|
            {
                &&& keys_pass(single.drop_last(), map, before, between)
                &&& #[trigger] keys_step(single.last(), map, between, after)
            };
        assert(between == before);
    }
}

proof fn lemma_properties_in_order(
    classes: Classes,
    some: Seq<Rule>,
    rest: Seq<Rule>,
    map: TextModel,
    modules: TextModel,
    before: State,
    after: State,
)
    ensures
        properties_pass(classes, some + rest, map, modules, before, after) <==> exists|
            between: State,
        |
            {
                &&& #[trigger] properties_pass(classes, some, map, modules, before, between)
                &&& properties_pass(classes, rest, map, modules, between, after)
            },
    decreases rest.len(),
{
    let all = some + rest;
    if rest.len() == 0 {
        assert(all =~= some);
        if properties_pass(classes, all, map, modules, before, after) {
            assert(properties_pass(classes, some, map, modules, before, after));
        }
    } else {
        let less = rest.drop_last();
        assert(all.drop_last() =~= some + less);
        assert(all.last() == rest.last());
        if properties_pass(classes, all, map, modules, before, after) {
            let last = choose|last: State|
                {
                    &&& properties_pass(classes, all.drop_last(), map, modules, before, last)
                    &&& #[trigger] properties_step(classes, all.last(), map, modules, last, after)
                };
            lemma_properties_in_order(classes, some, less, map, modules, before, last);
            let between = choose|between: State|
                {
                    &&& #[trigger] properties_pass(classes, some, map, modules, before, between)
                    &&& properties_pass(classes, less, map, modules, between, last)
                };
            assert(properties_step(classes, rest.last(), map, modules, last, after));
            assert(properties_pass(classes, rest, map, modules, between, after));
        }
        if exists|between: State|
            {
                &&& #[trigger] properties_pass(classes, some, map, modules, before, between)
                &&& properties_pass(classes, rest, map, modules, between, after)
            } {
            let between = choose|between: State|
                {
                    &&& #[trigger] properties_pass(classes, some, map, modules, before, between)
                    &&& properties_pass(classes, rest, map, modules, between, after)
                };
            let last = choose|last: State|
                {
                    &&& properties_pass(classes, rest.drop_last(), map, modules, between, last)
                    &&& #[trigger] properties_step(classes, rest.last(), map, modules, last, after)
                };
            lemma_properties_in_order(classes, some, less, map, modules, before, last);
            assert(properties_pass(classes, all.drop_last(), map, modules, before, last));
            assert(properties_step(classes, all.last(), map, modules, last, after));
        }
    }
}

proof fn lemma_keys_in_order(
    some: Seq<Rule>,
    rest: Seq<Rule>,
    map: TextModel,
    before: State,
    after: State,
)
    ensures
        keys_pass(some + rest, map, before, after) <==> exists|between: State|
            {
                &&& #[trigger] keys_pass(some, map, before, between)
                &&& keys_pass(rest, map, between, after)
            },
    decreases rest.len(),
{
    let all = some + rest;
    if rest.len() == 0 {
        assert(all =~= some);
        if keys_pass(all, map, before, after) {
            assert(keys_pass(some, map, before, after));
        }
    } else {
        let less = rest.drop_last();
        assert(all.drop_last() =~= some + less);
        assert(all.last() == rest.last());
        if keys_pass(all, map, before, after) {
            let last = choose|last: State|
                {
                    &&& keys_pass(all.drop_last(), map, before, last)
                    &&& #[trigger] keys_step(all.last(), map, last, after)
                };
            lemma_keys_in_order(some, less, map, before, last);
            let between = choose|between: State|
                {
                    &&& #[trigger] keys_pass(some, map, before, between)
                    &&& keys_pass(less, map, between, last)
                };
            assert(keys_step(rest.last(), map, last, after));
            assert(keys_pass(rest, map, between, after));
        }
        if exists|between: State|
            {
                &&& #[trigger] keys_pass(some, map, before, between)
                &&& keys_pass(rest, map, between, after)
            } {
            let between = choose|between: State|
                {
                    &&& #[trigger] keys_pass(some, map, before, between)
                    &&& keys_pass(rest, map, between, after)
                };
            let last = choose|last: State|
                {
                    &&& keys_pass(rest.drop_last(), map, between, last)
                    &&& #[trigger] keys_step(rest.last(), map, last, after)
                };
            lemma_keys_in_order(some, less, map, before, last);
            assert(keys_pass(all.drop_last(), map, before, last));
            assert(keys_step(all.last(), map, last, after));
        }
    }
}

/// What is made of the keys of a rule: each that resolves is an edit at its own path and a
/// change that shows the value, and each that does not is a warning with the reason, in
/// order. More of them are what some are and then the rest.
pub proof fn law_each_key_is_an_edit(
    path: Seq<char>,
    some: Pairs,
    rest: Pairs,
    key: Seq<char>,
    value: Seq<char>,
    map: TextModel,
    st: State,
)
    ensures
        ({
            let (between, edits) = keys_resolved(path, some, map, st);
            let (after, more) = keys_resolved(path, rest, map, between);
            keys_resolved(path, some + rest, map, st) == (after, edits + more)
        }),
        keys_resolved(path, seq![(key, value)], map, st) == match resolved_key(value, map) {
            Ok(v) => (
                State {
                    changes: st.changes.push(path + "["@ + key + "]"@ + " = "@ + described(v)),
                    ..st
                },
                seq![(key, v)],
            ),
            Err(e) => (
                State { warnings: st.warnings.push(path + "["@ + key + "]"@ + ": "@ + e), ..st },
                Seq::empty(),
            ),
        },
    decreases rest.len(),
{
    let all = some + rest;
    let none = Seq::<Edit>::empty();
    if rest.len() == 0 {
        assert(all =~= some);
        let edits = keys_resolved(path, some, map, st).1;
        assert(edits + none =~= edits);
    } else {
        let less = rest.drop_last();
        law_each_key_is_an_edit(path, some, less, key, value, map, st);
        assert(all.drop_last() =~= some + less);
        assert(all.last() == rest.last());
        let (between, edits) = keys_resolved(path, some, map, st);
        let more = keys_resolved(path, less, map, between).1;
        if let Ok(v) = resolved_key(rest.last().1, map) {
            let edit = (rest.last().0, v);
            assert((edits + more).push(edit) =~= edits + more.push(edit));
        }
    }
    let one = seq![(key, value)];
    assert(one.drop_last() =~= Seq::<(Seq<char>, Seq<char>)>::empty());
    reveal_with_fuel(keys_resolved, 2);
    assert(forall|edit: Edit| none.push(edit) =~= seq![edit]);
}

/// What the keys of a rule do, by where its path leads. A path that leads nowhere, an instance
/// that is no ModuleScript and one without a source are warned of, and nothing changes. Else
/// the edits are made in the source: where that can be done the source is what rewriting it
/// gave, and else it is as it was, no change is reported, and it is said why.
pub proof fn law_what_keys_do(rule: Rule, map: TextModel, before: State, after: State)
    requires
        rule.keys.len() > 0,
        keys_step(rule, map, before, after),
    ensures
        (forall|way: Seq<Ref>| !#[trigger] leads(before.scene, rule.path, way)) ==> after == (
        State {
            warnings: before.warnings.push(rule.path + ": "@ + "no such instance"@),
            ..before
        }),
        forall|way: Seq<Ref>| #[trigger]
            leads(before.scene, rule.path, way) ==> {
                let target = way.last();
                let node = before.scene.nodes[target];
                let (reported, edits) = keys_resolved(rule.path, rule.keys, map, before);
                if node.class != "ModuleScript"@ {
                    after == (State {
                        warnings: before.warnings.push(
                            rule.path + ": "@ + ("'keys' needs a ModuleScript, found a "@
                                + node.class),
                        ),
                        ..before
                    })
                } else if !node.props.contains_key("Source"@) || !(node.props["Source"@] is Text) {
                    after == (State {
                        warnings: before.warnings.push(
                            rule.path + ": "@ + "ModuleScript has no Source"@,
                        ),
                        ..before
                    })
                } else if edits.len() == 0 {
                    after == reported
                } else {
                    exists|r: Rewriting|
                        {
                            &&& #[trigger] may_rewrite(node.props["Source"@]->Text_0, edits, r)
                            &&& match r {
                                Ok(text) => {
                                    &&& after.changes == reported.changes
                                    &&& after.warnings == reported.warnings
                                    &&& only_properties_of(target, before.scene, after.scene)
                                    &&& after.scene.nodes[target].props == node.props.insert(
                                        "Source"@,
                                        Worth::Text(text@),
                                    )
                                },
                                Err(e) => {
                                    &&& after.scene == before.scene
                                    &&& after.changes == before.changes
                                    &&& after.warnings == reported.warnings.push(
                                        rule.path + ": "@ + keys_message(e),
                                    )
                                },
                            }
                        }
                }
            },
{
    law_a_path_is_found_by_its_way(before.scene, rule.path);
    lemma_keys_resolved(rule.path, rule.keys, map, before);
    crate::text::lemma_split_nonempty(rule.path, '.');
    crate::dom::lemma_reached(
        before.scene,
        before.scene.root,
        crate::text::split(rule.path, '.'),
    );
    assert forall|way: Seq<Ref>| #[trigger] leads(before.scene, rule.path, way) implies found(
        before.scene,
        rule.path,
    ) == Some(way.last()) by {}
    if let Ok((target, source)) = keys_target(before.scene, rule.path) {
        let (reported, edits) = keys_resolved(rule.path, rule.keys, map, before);
        if edits.len() > 0 {
            let r = choose|r: Rewriting|
                {
                    &&& #[trigger] may_rewrite(source, edits, r)
                    &&& after == keys_concluded(rule.path, target, before, reported, r)
                };
            assert(may_rewrite(source, edits, r));
            assert(reported.scene == before.scene);
            if r is Ok {
                assert(after.scene.nodes.dom() =~= before.scene.nodes.dom());
            }
        }
    }
}

/// A report tells of a place what stands in it, line by line, and a run begins with the place as it
/// is and nothing reported.
pub proof fn law_a_report_is_read_line_by_line(dom: WeakDom, report: Report, i: int)
    ensures
        state_of(dom, report).scene == scene(dom),
        state_of(dom, report).changes.len() == report.changes@.len(),
        state_of(dom, report).warnings.len() == report.warnings@.len(),
        0 <= i < report.changes@.len() ==> state_of(dom, report).changes[i] == report.changes@[i]@,
        0 <= i < report.warnings@.len() ==> state_of(dom, report).warnings[i]
            == report.warnings@[i]@,
        unreported(scene(dom)).scene == scene(dom),
        unreported(scene(dom)).changes.len() == 0,
        unreported(scene(dom)).warnings.len() == 0,
{
}

} // verus!
