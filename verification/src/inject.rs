//! Applying rules to a place.
//!
//! Properties are set for every rule before any `keys` rule runs: a rule can
//! replace the whole source of a ModuleScript, and a `keys` rule elsewhere may
//! edit a value inside that new source. In one pass the result would depend on the
//! order in which rules happen to stand.

use crate::config::{rules_in, Config, Injection, Rule};
use crate::dom::{blocked, ensure, find, found, grown, obstacle, obstacle_text, typed, variant_for_in};
use crate::dom::Grown;
use crate::luau::{apply_keys, keys_message, may_rewrite, KeysError};
use crate::luau_edit::{edits_model, Edit, KeyValue};
use crate::place::{instance_class, property_text, remove_property, scene, set_property};
use crate::place::{text_variant, with_property, without_property, worth, Scene, Worth};
use crate::reflection::{at_hand, class_is_known_in, declared_type_in, known_classes, moved_in};
use crate::reflection::{overriding_properties_in, reflection, type_in, Classes, Reflection};
use crate::resolve::{describe, describe_source, described, is_source, resolve_key};
use crate::resolve::{resolve_property, resolved_key, resolved_property, source_described};
use crate::resolve::{stands_for_source, Resolution, Resolved, TextModel};
use crate::sources::Sources;
use crate::text::{append_nat, join, join_with, nat_text, same, texts};
use crate::text_map::Pairs;
use rbx_dom_weak::types::{Ref, Variant};
use rbx_dom_weak::WeakDom;
use vstd::prelude::*;
use vstd::string::*;

verus! {

/// A place and what was reported of it so far.
#[verifier::ext_equal]
pub struct State {
    pub scene: Scene,
    pub changes: Seq<Seq<char>>,
    pub warnings: Seq<Seq<char>>,
}

impl State {
    /// With one more change reported.
    pub open spec fn change(self, line: Seq<char>) -> State {
        State { changes: self.changes.push(line), ..self }
    }

    /// With one more warning.
    pub open spec fn warn(self, line: Seq<char>) -> State {
        State { warnings: self.warnings.push(line), ..self }
    }

    /// With another place.
    pub open spec fn at(self, scene: Scene) -> State {
        State { scene, ..self }
    }
}

// ---------------------------------------------------------------------------
// Properties
// ---------------------------------------------------------------------------

/// How many bytes a text has. No text has more than can be counted.
pub open spec fn byte_count(s: Seq<char>) -> nat {
    vstd::utf8::encode_utf8(s).len() as usize as nat
}

/// How a property of the instance at a path is called in a report.
pub open spec fn property_label(path: Seq<char>, prop: Seq<char>) -> Seq<char> {
    path + "."@ + prop
}

/// How a key inside the module at a path is called in a report.
pub open spec fn key_label(path: Seq<char>, key: Seq<char>) -> Seq<char> {
    path + "["@ + key + "]"@
}

/// The place without those properties of an instance, and which of them it had.
pub open spec fn cleared(s: Scene, target: Ref, names: Seq<Seq<char>>) -> (Scene, Seq<Seq<char>>)
    decreases names.len(),
{
    if names.len() == 0 {
        (s, Seq::empty())
    } else {
        let (before, gone) = cleared(s, target, names.drop_last());
        if before.nodes[target].props.contains_key(names.last()) {
            (without_property(before, target, names.last()), gone.push(names.last()))
        } else {
            (before, gone)
        }
    }
}

/// What a report adds where properties had to go.
pub open spec fn stale_note(gone: Seq<Seq<char>>) -> Seq<char> {
    if gone.len() == 0 {
        Seq::empty()
    } else {
        " (replaced stale "@ + join(gone, ", "@) + ")"@
    }
}

/// A property set, the properties that would override it taken away, and both
/// reported.
pub open spec fn written(
    classes: Classes,
    target: Ref,
    prop: Seq<char>,
    value: Worth,
    line: Seq<char>,
    st: State,
) -> State {
    let class = st.scene.nodes[target].class;
    let (rest, gone) = cleared(st.scene, target, moved_in(classes, class, prop));
    st.at(with_property(rest, target, prop, value)).change(line + stale_note(gone))
}

/// Whether a class is known and has no such property.
pub open spec fn cannot_hold(classes: Classes, class: Seq<char>, prop: Seq<char>) -> bool {
    classes.contains_key(class) && type_in(classes, class, prop) is None
}

/// What is said of a property that a class does not have.
pub open spec fn no_such_property(class: Seq<char>, prop: Seq<char>) -> Seq<char> {
    class + " has no property '"@ + prop + "' in the reflection database"@
}

/// One entry of a `properties` rule, on the instance that it targets.
pub open spec fn entry_done(
    classes: Classes,
    path: Seq<char>,
    target: Ref,
    entry: (Seq<char>, Seq<char>),
    map: TextModel,
    modules: TextModel,
    st: State,
) -> State {
    let prop = entry.0;
    let label = property_label(path, prop);
    let node = st.scene.nodes[target];
    match resolved_property(entry.1, map, modules) {
        Err(e) => st.warn(label + ": "@ + e),
        Ok(Resolution::Source(source)) => if cannot_hold(classes, node.class, prop) {
            st.warn(label + ": "@ + no_such_property(node.class, prop))
        } else {
            written(
                classes,
                target,
                prop,
                Worth::Text(source),
                label + " = "@ + source_described(entry.1) + " ("@ + nat_text(byte_count(source))
                    + " bytes)"@,
                st,
            )
        },
        Ok(Resolution::Value(value)) => written(
            classes,
            target,
            prop,
            typed(classes, node, prop, value),
            label + " = "@ + value,
            st,
        ),
    }
}

/// The entries of a `properties` rule, one after the other.
pub open spec fn entries_done(
    classes: Classes,
    path: Seq<char>,
    target: Ref,
    entries: Pairs,
    map: TextModel,
    modules: TextModel,
    st: State,
) -> State
    decreases entries.len(),
{
    if entries.len() == 0 {
        st
    } else {
        entry_done(
            classes,
            path,
            target,
            entries.last(),
            map,
            modules,
            entries_done(classes, path, target, entries.drop_last(), map, modules, st),
        )
    }
}

/// Whether a rule has a module source to write. Only then is its target created:
/// until a value has resolved there is nothing to fill it with.
pub open spec fn fills(entries: Pairs, map: TextModel, modules: TextModel) -> bool {
    exists|i: int|
        0 <= i < entries.len() && is_source((#[trigger] entries[i]).1) && resolved_property(
            entries[i].1,
            map,
            modules,
        ) is Ok
}

/// Whether a rule asks for a module source.
pub open spec fn asks_for_source(entries: Pairs) -> bool {
    exists|i: int| 0 <= i < entries.len() && is_source((#[trigger] entries[i]).1)
}

/// A rule that has a module source to write asks for one.
pub proof fn lemma_filling_asks(entries: Pairs, map: TextModel, modules: TextModel)
    ensures
        fills(entries, map, modules) ==> asks_for_source(entries),
{
}

/// What is said of each entry of a rule that asks for a module source, where the
/// target is not there.
pub open spec fn absent_lines(
    path: Seq<char>,
    entries: Pairs,
    map: TextModel,
    modules: TextModel,
) -> Seq<Seq<char>> {
    Seq::new(
        entries.len(),
        |i: int|
            property_label(path, entries[i].0) + ": "@ + match resolved_property(
                entries[i].1,
                map,
                modules,
            ) {
                Err(e) => e,
                Ok(_) => "no such instance"@,
            },
    )
}

/// The properties of one rule. Instances that are created get the references
/// `fresh`, in order.
pub open spec fn properties_done(
    classes: Classes,
    rule: Rule,
    map: TextModel,
    modules: TextModel,
    fresh: Seq<Ref>,
    st: State,
) -> State {
    let path = rule.path;
    let entries = rule.properties;
    if entries.len() == 0 {
        st
    } else if asks_for_source(entries) && obstacle(st.scene, path) is Some {
        st.warn(path + ": "@ + obstacle_text(path, obstacle(st.scene, path)->0))
    } else if fills(entries, map, modules) {
        let g = grown(st.scene, path, "ModuleScript"@, fresh);
        let there = if g.created {
            st.at(g.scene).change(path + "  [created ModuleScript]"@)
        } else {
            st.at(g.scene)
        };
        entries_done(classes, path, g.leaf, entries, map, modules, there)
    } else {
        match found(st.scene, path) {
            Some(target) => entries_done(classes, path, target, entries, map, modules, st),
            None => if asks_for_source(entries) {
                State {
                    warnings: st.warnings + absent_lines(path, entries, map, modules),
                    ..st
                }
            } else {
                st.warn(path + ": "@ + "no such instance"@)
            },
        }
    }
}

/// Whether the properties of one rule lead from one state to the next. The
/// references of new instances are random, so there are many next states.
pub open spec fn properties_step(
    classes: Classes,
    rule: Rule,
    map: TextModel,
    modules: TextModel,
    before: State,
    after: State,
) -> bool {
    exists|fresh: Seq<Ref>|
        #[trigger] properties_done(classes, rule, map, modules, fresh, before) == after
}

/// Whether the properties of the rules, one after the other, lead from one state
/// to another.
pub open spec fn properties_pass(
    classes: Classes,
    rules: Seq<Rule>,
    map: TextModel,
    modules: TextModel,
    before: State,
    after: State,
) -> bool
    decreases rules.len(),
{
    if rules.len() == 0 {
        before == after
    } else {
        exists|between: State|
            {
                &&& properties_pass(classes, rules.drop_last(), map, modules, before, between)
                &&& #[trigger] properties_step(
                    classes,
                    rules.last(),
                    map,
                    modules,
                    between,
                    after,
                )
            }
    }
}

// ---------------------------------------------------------------------------
// Keys
// ---------------------------------------------------------------------------

/// The keys of a rule, resolved one after the other: the edits to make, and what
/// is reported of them.
pub open spec fn keys_resolved(path: Seq<char>, keys: Pairs, map: TextModel, st: State) -> (
    State,
    Seq<Edit>,
)
    decreases keys.len(),
{
    if keys.len() == 0 {
        (st, Seq::empty())
    } else {
        let (before, edits) = keys_resolved(path, keys.drop_last(), map, st);
        let key = keys.last().0;
        let label = key_label(path, key);
        match resolved_key(keys.last().1, map) {
            Ok(value) => (
                before.change(label + " = "@ + described(value)),
                edits.push((key, value)),
            ),
            Err(e) => (before.warn(label + ": "@ + e), edits),
        }
    }
}

/// The module that a rule edits, with its source, or what is said where there is
/// none.
pub open spec fn keys_target(s: Scene, path: Seq<char>) -> Result<(Ref, Seq<char>), Seq<char>> {
    match found(s, path) {
        None => Err("no such instance"@),
        Some(target) => {
            let node = s.nodes[target];
            if node.class != "ModuleScript"@ {
                Err("'keys' needs a ModuleScript, found a "@ + node.class)
            } else if !(node.props.contains_key("Source"@) && node.props["Source"@] is Text) {
                Err("ModuleScript has no Source"@)
            } else {
                Ok((target, node.props["Source"@]->Text_0))
            }
        },
    }
}

/// Whether the keys of one rule lead from one state to the next. Evaluating the
/// module can come to many outcomes; each leads to one next state. A failure takes
/// back what was reported of the edits, since nothing was written.
pub open spec fn keys_step(rule: Rule, map: TextModel, before: State, after: State) -> bool {
    let path = rule.path;
    if rule.keys.len() == 0 {
        after == before
    } else {
        match keys_target(before.scene, path) {
            Err(e) => after == before.warn(path + ": "@ + e),
            Ok((target, source)) => {
                let (reported, edits) = keys_resolved(path, rule.keys, map, before);
                if edits.len() == 0 {
                    after == reported
                } else {
                    module_rewritten(path, target, source, edits, before, reported, after)
                }
            },
        }
    }
}

/// Whether rewriting the module at a path leads to a state.
pub open spec fn module_rewritten(
    path: Seq<char>,
    target: Ref,
    source: Seq<char>,
    edits: Seq<Edit>,
    before: State,
    reported: State,
    after: State,
) -> bool {
    exists|r: Result<String, KeysError>|
        {
            &&& #[trigger] may_rewrite(source, edits, r)
            &&& after == keys_concluded(path, target, before, reported, r)
        }
}

/// The state after the module at a path was rewritten, or could not be.
pub open spec fn keys_concluded(
    path: Seq<char>,
    target: Ref,
    before: State,
    reported: State,
    r: Result<String, KeysError>,
) -> State {
    match r {
        Ok(text) => reported.at(
            with_property(reported.scene, target, "Source"@, Worth::Text(text@)),
        ),
        Err(e) => State { changes: before.changes, ..reported }.warn(
            path + ": "@ + keys_message(e),
        ),
    }
}

/// Whether the keys of the rules, one after the other, lead from one state to
/// another.
pub open spec fn keys_pass(rules: Seq<Rule>, map: TextModel, before: State, after: State) -> bool
    decreases rules.len(),
{
    if rules.len() == 0 {
        before == after
    } else {
        exists|between: State|
            {
                &&& keys_pass(rules.drop_last(), map, before, between)
                &&& #[trigger] keys_step(rules.last(), map, between, after)
            }
    }
}

/// Whether applying the rules leads from one state to another: the properties of
/// every rule first, then the keys of every rule.
pub open spec fn applied(
    classes: Classes,
    rules: Seq<Rule>,
    map: TextModel,
    modules: TextModel,
    before: State,
    after: State,
) -> bool {
    exists|between: State|
        {
            &&& #[trigger] properties_pass(classes, rules, map, modules, before, between)
            &&& keys_pass(rules, map, between, after)
        }
}

/// A place of which nothing was reported yet.
pub open spec fn unreported(s: Scene) -> State {
    State { scene: s, changes: Seq::empty(), warnings: Seq::empty() }
}

// ---------------------------------------------------------------------------
// Applying
// ---------------------------------------------------------------------------

/// What a run did, and what it could not do.
#[derive(Debug)]
pub struct Report {
    /// One line for each change, in the order of the rules.
    pub changes: Vec<String>,
    /// What resolved to nothing. That is no error by itself: a place often lags its
    /// config while something is being built.
    pub warnings: Vec<String>,
}

impl Default for Report {
    /// Nothing happened.
    fn default() -> (r: Report)
        ensures
            r.changes@.len() == 0,
            r.warnings@.len() == 0,
    {
        Report { changes: Vec::new(), warnings: Vec::new() }
    }
}

/// A place and a report of it.
pub open spec fn state_of(dom: WeakDom, report: Report) -> State {
    State {
        scene: scene(dom),
        changes: texts(report.changes@),
        warnings: texts(report.warnings@),
    }
}

impl Report {
    /// Whether anything was changed.
    pub fn changed(&self) -> (r: bool)
        ensures
            r == (self.changes@.len() > 0),
    {
        self.changes.len() > 0
    }

    /// Report a change.
    fn change(&mut self, line: String)
        ensures
            texts(final(self).changes@) == texts(old(self).changes@).push(line@),
            final(self).warnings == old(self).warnings,
    {
        let ghost before = self.changes@;
        let ghost text = line@;
        self.changes.push(line);
        assert(texts(self.changes@) =~= texts(before).push(text));
    }

    /// Warn.
    fn warn(&mut self, line: String)
        ensures
            texts(final(self).warnings@) == texts(old(self).warnings@).push(line@),
            final(self).changes == old(self).changes,
    {
        let ghost before = self.warnings@;
        let ghost text = line@;
        self.warnings.push(line);
        assert(texts(self.warnings@) =~= texts(before).push(text));
    }
}

/// Two texts with a third between them.
pub(crate) fn joined(a: &str, between: &str, b: &str) -> (r: String)
    ensures
        r@ == a@ + between@ + b@,
{
    let mut out: String = a.to_owned();
    out.append(between);
    out.append(b);
    out
}

/// How a key inside the module at a path is called in a report.
pub(crate) fn label_of_key(path: &str, key: &str) -> (r: String)
    ensures
        r@ == key_label(path@, key@),
{
    let mut out: String = joined(path, "[", key);
    out.append("]");
    out
}

/// What is said of a property that a class does not have.
pub(crate) fn missing_property(class: &str, prop: &str) -> (r: String)
    ensures
        r@ == no_such_property(class@, prop@),
{
    let mut out: String = joined(class, " has no property '", prop);
    out.append("' in the reflection database");
    out
}

/// Take properties of an instance away, and say which of them it had.
fn clear(dom: &mut WeakDom, target: Ref, names: &Vec<String>) -> (gone: Vec<String>)
    requires
        scene(*old(dom)).nodes.contains_key(target),
    ensures
        (scene(*final(dom)), texts(gone@)) == cleared(scene(*old(dom)), target, texts(names@)),
        scene(*final(dom)).nodes.contains_key(target),
{
    let ghost all = texts(names@);
    let ghost before = scene(*dom);
    let mut gone: Vec<String> = Vec::new();
    let mut i: usize = 0;
    assert(texts(gone@) =~= Seq::<Seq<char>>::empty());
    assert(all.take(0) =~= Seq::<Seq<char>>::empty());
    while i < names.len()
        invariant
            i <= names@.len(),
            all == texts(names@),
            before == scene(*old(dom)),
            scene(*dom).nodes.contains_key(target),
            (scene(*dom), texts(gone@)) == cleared(before, target, all.take(i as int)),
        decreases names@.len() - i,
    {
        let ghost upto = all.take(i as int + 1);
        assert(upto.drop_last() =~= all.take(i as int));
        assert(upto.last() == names@[i as int]@);
        if remove_property(dom, target, names[i].as_str()) {
            let ghost so_far = gone@;
            gone.push(names[i].as_str().to_owned());
            assert(texts(gone@) =~= texts(so_far).push(names@[i as int]@));
        }
        i = i + 1;
    }
    assert(all.take(all.len() as int) =~= all);
    gone
}

/// Set a property, take away what would override it, and report both.
fn write_property(
    refl: Reflection,
    dom: &mut WeakDom,
    target: Ref,
    class: &str,
    prop: &str,
    value: Variant,
    line: String,
    report: &mut Report,
)
    requires
        scene(*old(dom)).nodes.contains_key(target),
        class@ == scene(*old(dom)).nodes[target].class,
    ensures
        state_of(*final(dom), *final(report)) == written(
            known_classes(refl),
            target,
            prop@,
            worth(value),
            line@,
            state_of(*old(dom), *old(report)),
        ),
        scene(*final(dom)).nodes.contains_key(target),
{
    let names: Vec<String> = overriding_properties_in(refl, class, prop);
    let gone: Vec<String> = clear(dom, target, &names);
    let _ = set_property(dom, target, prop, value);
    let mut line: String = line;
    let ghost start = line@;
    if gone.len() > 0 {
        let list: String = join_with(&gone, ", ");
        line.append(" (replaced stale ");
        line.append(list.as_str());
        line.append(")");
    }
    assert(line@ =~= start + stale_note(texts(gone@)));
    report.change(line);
}

/// Whether a class is known and has no such property.
fn is_known_not_to_hold(refl: Reflection, class: &str, prop: &str) -> (r: bool)
    ensures
        r == cannot_hold(known_classes(refl), class@, prop@),
{
    class_is_known_in(refl, class) && declared_type_in(refl, class, prop).is_none()
}

/// One entry of a `properties` rule, on the instance that it targets.
fn apply_entry<S: Sources>(
    refl: Reflection,
    dom: &mut WeakDom,
    path: &str,
    target: Ref,
    prop: &str,
    value_key: &str,
    sources: &S,
    report: &mut Report,
)
    requires
        scene(*old(dom)).nodes.contains_key(target),
    ensures
        state_of(*final(dom), *final(report)) == entry_done(
            known_classes(refl),
            path@,
            target,
            (prop@, value_key@),
            sources.map(),
            sources.modules(),
            state_of(*old(dom), *old(report)),
        ),
        scene(*final(dom)).nodes.contains_key(target),
{
    let label: String = joined(path, ".", prop);
    let resolved: Resolved = match resolve_property(value_key, sources) {
        Ok(resolved) => resolved,
        Err(e) => {
            report.warn(joined(label.as_str(), ": ", e.as_str()));
            return;
        },
    };
    let (class, typed_value): (String, Variant) = match dom.get_by_ref(target) {
        Some(inst) => {
            let class: String = instance_class(inst).to_owned();
            match &resolved {
                Resolved::Source(source) => (class, text_variant(source.as_str())),
                Resolved::Value(value) => (class, variant_for_in(refl, inst, prop, value.as_str())),
            }
        },
        None => {
            return;
        },
    };
    match resolved {
        Resolved::Source(source) => {
            if is_known_not_to_hold(refl, class.as_str(), prop) {
                let why: String = missing_property(class.as_str(), prop);
                report.warn(joined(label.as_str(), ": ", why.as_str()));
                return;
            }
            let what: String = describe_source(value_key);
            let mut line: String = joined(label.as_str(), " = ", what.as_str());
            line.append(" (");
            append_nat(&mut line, source.as_str().len() as u64);
            line.append(" bytes)");
            write_property(refl, dom, target, class.as_str(), prop, typed_value, line, report);
        },
        Resolved::Value(value) => {
            let line: String = joined(label.as_str(), " = ", value.as_str());
            write_property(refl, dom, target, class.as_str(), prop, typed_value, line, report);
        },
    }
}

/// The entries of a `properties` rule, on the instance that they target.
fn apply_entries<S: Sources>(
    refl: Reflection,
    dom: &mut WeakDom,
    injection: &Injection,
    target: Ref,
    sources: &S,
    report: &mut Report,
)
    requires
        scene(*old(dom)).nodes.contains_key(target),
    ensures
        state_of(*final(dom), *final(report)) == entries_done(
            known_classes(refl),
            injection.rule().path,
            target,
            injection.rule().properties,
            sources.map(),
            sources.modules(),
            state_of(*old(dom), *old(report)),
        ),
{
    let ghost all = injection.rule().properties;
    let mut i: usize = 0;
    assert(all.take(0) =~= Seq::empty());
    while i < injection.properties.len()
        invariant
            i <= all.len(),
            all == injection.properties.pairs(),
            scene(*dom).nodes.contains_key(target),
            state_of(*dom, *report) == entries_done(
                known_classes(refl),
                injection.rule().path,
                target,
                all.take(i as int),
                sources.map(),
                sources.modules(),
                state_of(*old(dom), *old(report)),
            ),
        decreases all.len() - i,
    {
        let ghost upto = all.take(i as int + 1);
        assert(upto.drop_last() =~= all.take(i as int));
        assert(upto.last() == all[i as int]);
        apply_entry(
            refl,
            dom,
            injection.roblox_path.as_str(),
            target,
            injection.properties.key(i),
            injection.properties.value(i),
            sources,
            report,
        );
        i = i + 1;
    }
    assert(all.take(all.len() as int) =~= all);
}

/// Whether a rule asks for a module source, and whether it has one to write.
fn source_entries<S: Sources>(injection: &Injection, sources: &S) -> (r: (bool, bool))
    ensures
        r.0 == asks_for_source(injection.rule().properties),
        r.1 == fills(injection.rule().properties, sources.map(), sources.modules()),
{
    let ghost all = injection.rule().properties;
    let mut asks: bool = false;
    let mut i: usize = 0;
    while i < injection.properties.len()
        invariant
            i <= all.len(),
            all == injection.rule().properties,
            all == injection.properties.pairs(),
            asks == exists|k: int| 0 <= k < i && is_source((#[trigger] all[k]).1),
            forall|k: int|
                0 <= k < i && is_source((#[trigger] all[k]).1) ==> resolved_property(
                    all[k].1,
                    sources.map(),
                    sources.modules(),
                ) is Err,
        decreases all.len() - i,
    {
        let value: &str = injection.properties.value(i);
        assert(value@ == all[i as int].1);
        if stands_for_source(value) {
            asks = true;
            if resolve_property(value, sources).is_ok() {
                assert(fills(all, sources.map(), sources.modules()));
                return (true, true);
            }
        }
        i = i + 1;
    }
    (asks, false)
}

/// What is said of each entry of a rule that asks for a module source, where the
/// target is not there.
fn warn_of_entries<S: Sources>(injection: &Injection, sources: &S, report: &mut Report)
    ensures
        final(report).changes == old(report).changes,
        texts(final(report).warnings@) == texts(old(report).warnings@) + absent_lines(
            injection.rule().path,
            injection.rule().properties,
            sources.map(),
            sources.modules(),
        ),
{
    let ghost all = injection.rule().properties;
    let ghost lines = absent_lines(injection.rule().path, all, sources.map(), sources.modules());
    let mut i: usize = 0;
    assert(texts(report.warnings@) =~= texts(old(report).warnings@) + lines.take(0));
    while i < injection.properties.len()
        invariant
            i <= all.len(),
            all == injection.properties.pairs(),
            lines == absent_lines(
                injection.rule().path,
                all,
                sources.map(),
                sources.modules(),
            ),
            report.changes == old(report).changes,
            texts(report.warnings@) == texts(old(report).warnings@) + lines.take(i as int),
        decreases all.len() - i,
    {
        let label: String = joined(
            injection.roblox_path.as_str(),
            ".",
            injection.properties.key(i),
        );
        match resolve_property(injection.properties.value(i), sources) {
            Ok(_) => report.warn(joined(label.as_str(), ": ", "no such instance")),
            Err(e) => report.warn(joined(label.as_str(), ": ", e.as_str())),
        }
        assert(lines.take(i as int + 1) =~= lines.take(i as int).push(lines[i as int]));
        assert(texts(report.warnings@) =~= texts(old(report).warnings@) + lines.take(i as int + 1));
        i = i + 1;
    }
    assert(lines.take(lines.len() as int) =~= lines);
}

/// The properties of one rule.
///
/// A rule that writes the source of a module can create the module: the file is
/// generated, so it need not be in the place already. Any other rule targets
/// something that has to be there.
fn apply_properties<S: Sources>(
    refl: Reflection,
    dom: &mut WeakDom,
    injection: &Injection,
    sources: &S,
    report: &mut Report,
)
    ensures
        properties_step(
            known_classes(refl),
            injection.rule(),
            sources.map(),
            sources.modules(),
            state_of(*old(dom), *old(report)),
            state_of(*final(dom), *final(report)),
        ),
{
    let ghost classes = known_classes(refl);
    let ghost rule = injection.rule();
    let ghost map = sources.map();
    let ghost modules = sources.modules();
    let ghost before = state_of(*dom, *report);
    let ghost mut fresh = Seq::<Ref>::empty();
    if injection.properties.is_empty() {
        assert(properties_done(classes, rule, map, modules, fresh, before) == before);
        return;
    }
    let path: &str = injection.roblox_path.as_str();
    let (asks, filled): (bool, bool) = source_entries(injection, sources);
    proof {
        lemma_filling_asks(rule.properties, map, modules);
    }
    if asks {
        if let Some(e) = blocked(dom, path) {
            report.warn(joined(path, ": ", e.as_str()));
            assert(properties_done(classes, rule, map, modules, fresh, before) == state_of(
                *dom,
                *report,
            ));
            return;
        }
    }
    let target: Ref = if filled {
        match ensure(dom, path, "ModuleScript") {
            Ok((leaf, created)) => {
                proof {
                    fresh = choose|fresh: Seq<Ref>|
                        (#[trigger] grown(before.scene, path@, "ModuleScript"@, fresh)) == (Grown {
                            leaf,
                            created,
                            scene: scene(*dom),
                        });
                }
                if created {
                    let mut line: String = path.to_owned();
                    line.append("  [created ModuleScript]");
                    report.change(line);
                }
                leaf
            },
            Err(e) => {
                report.warn(joined(path, ": ", e.as_str()));
                return;
            },
        }
    } else {
        match find(dom, path) {
            Some(target) => target,
            None => {
                if asks {
                    warn_of_entries(injection, sources, report);
                } else {
                    report.warn(joined(path, ": ", "no such instance"));
                }
                assert(properties_done(classes, rule, map, modules, fresh, before) == state_of(
                    *dom,
                    *report,
                ));
                return;
            },
        }
    };
    apply_entries(refl, dom, injection, target, sources, report);
    assert(properties_done(classes, rule, map, modules, fresh, before) == state_of(*dom, *report));
}

/// The instance at a path, with the source of the module that it is, or what is
/// said where it is none.
pub(crate) fn find_module(dom: &WeakDom, path: &str) -> (r: Result<(Ref, String), String>)
    ensures
        match r {
            Ok((target, source)) => {
                &&& keys_target(scene(*dom), path@) == Ok::<(Ref, Seq<char>), Seq<char>>(
                    (target, source@),
                )
                &&& scene(*dom).nodes.contains_key(target)
            },
            Err(e) => keys_target(scene(*dom), path@) == Err::<(Ref, Seq<char>), Seq<char>>(e@),
        },
{
    let target: Ref = match find(dom, path) {
        Some(target) => target,
        None => {
            return Err("no such instance".to_owned());
        },
    };
    match dom.get_by_ref(target) {
        Some(inst) => {
            let class: &str = instance_class(inst);
            if !same(class, "ModuleScript") {
                let mut e: String = "'keys' needs a ModuleScript, found a ".to_owned();
                e.append(class);
                return Err(e);
            }
            match property_text(inst, "Source") {
                Some(source) => Ok((target, source)),
                None => Err("ModuleScript has no Source".to_owned()),
            }
        },
        None => Err("dangling reference".to_owned()),
    }
}

/// The keys of a rule, resolved one after the other: the edits to make, and what
/// is reported of them.
fn resolve_keys<S: Sources>(
    dom: &WeakDom,
    injection: &Injection,
    sources: &S,
    report: &mut Report,
) -> (edits: Vec<(String, KeyValue)>)
    ensures
        (state_of(*dom, *final(report)), edits_model(edits@)) == keys_resolved(
            injection.rule().path,
            injection.rule().keys,
            sources.map(),
            state_of(*dom, *old(report)),
        ),
        texts(final(report).changes@).len() == texts(old(report).changes@).len() + edits@.len(),
        texts(final(report).changes@).take(old(report).changes@.len() as int) == texts(
            old(report).changes@,
        ),
{
    let ghost all = injection.rule().keys;
    let ghost path = injection.rule().path;
    let ghost before = state_of(*dom, *report);
    let mut edits: Vec<(String, KeyValue)> = Vec::new();
    let mut i: usize = 0;
    assert(all.take(0) =~= Seq::empty());
    assert(edits_model(edits@) =~= Seq::empty());
    assert(before.changes.take(before.changes.len() as int) =~= before.changes);
    while i < injection.keys.len()
        invariant
            i <= all.len(),
            all == injection.keys.pairs(),
            path == injection.roblox_path@,
            before == state_of(*dom, *old(report)),
            (state_of(*dom, *report), edits_model(edits@)) == keys_resolved(
                path,
                all.take(i as int),
                sources.map(),
                before,
            ),
            texts(report.changes@).len() == before.changes.len() + edits@.len(),
            texts(report.changes@).take(before.changes.len() as int) == before.changes,
        decreases all.len() - i,
    {
        let ghost upto = all.take(i as int + 1);
        assert(upto.drop_last() =~= all.take(i as int));
        assert(upto.last() == all[i as int]);
        let key: &str = injection.keys.key(i);
        let label: String = label_of_key(injection.roblox_path.as_str(), key);
        let ghost so_far = edits@;
        let ghost changes = texts(report.changes@);
        match resolve_key(injection.keys.value(i), sources) {
            Ok(value) => {
                let what: String = describe(&value);
                report.change(joined(label.as_str(), " = ", what.as_str()));
                let ghost model = value@;
                edits.push((key.to_owned(), value));
                assert(edits_model(edits@) =~= edits_model(so_far).push((key@, model)));
                assert(texts(report.changes@).take(before.changes.len() as int) =~= changes.take(
                    before.changes.len() as int,
                ));
            },
            Err(e) => report.warn(joined(label.as_str(), ": ", e.as_str())),
        }
        i = i + 1;
    }
    assert(all.take(all.len() as int) =~= all);
    edits
}

/// The keys of one rule.
fn apply_module_keys<S: Sources>(
    dom: &mut WeakDom,
    injection: &Injection,
    sources: &S,
    report: &mut Report,
)
    ensures
        keys_step(
            injection.rule(),
            sources.map(),
            state_of(*old(dom), *old(report)),
            state_of(*final(dom), *final(report)),
        ),
{
    let ghost before = state_of(*dom, *report);
    if injection.keys.is_empty() {
        return;
    }
    let path: &str = injection.roblox_path.as_str();
    let (target, source): (Ref, String) = match find_module(dom, path) {
        Ok(both) => both,
        Err(e) => {
            report.warn(joined(path, ": ", e.as_str()));
            return;
        },
    };
    let kept: usize = report.changes.len();
    let edits: Vec<(String, KeyValue)> = resolve_keys(dom, injection, sources, report);
    if edits.len() == 0 {
        return;
    }
    let ghost reported = state_of(*dom, *report);
    let r: Result<String, KeysError> = apply_keys(source.as_str(), edits.as_slice());
    let ghost outcome = r;
    match r {
        Ok(text) => {
            let _ = set_property(dom, target, "Source", text_variant(text.as_str()));
        },
        Err(e) => {
            let ghost changes = report.changes@;
            report.changes.truncate(kept);
            assert(texts(report.changes@) =~= texts(changes).take(kept as int));
            let why: String = e.message();
            report.warn(joined(path, ": ", why.as_str()));
        },
    }
    assert(state_of(*dom, *report) =~= keys_concluded(path@, target, before, reported, outcome));
    assert(may_rewrite(source@, edits_model(edits@), outcome));
    assert(module_rewritten(
        path@,
        target,
        source@,
        edits_model(edits@),
        before,
        reported,
        state_of(*dom, *report),
    ));
}

/// Apply every rule to a place, with the database at hand.
pub fn apply_in<S: Sources>(refl: Reflection, dom: &mut WeakDom, config: &Config, sources: &S) -> (r:
    Report)
    ensures
        applied(
            known_classes(refl),
            config.active_rules(),
            sources.map(),
            sources.modules(),
            unreported(scene(*old(dom))),
            state_of(*final(dom), r),
        ),
{
    let active: Vec<&Injection> = config.active();
    let ghost classes = known_classes(refl);
    let ghost rules = config.active_rules();
    let ghost map = sources.map();
    let ghost modules = sources.modules();
    let ghost before = unreported(scene(*dom));
    let mut report: Report = Report::default();
    assert(state_of(*dom, report) =~= before);
    let mut i: usize = 0;
    assert(rules.take(0) =~= Seq::<Rule>::empty());
    while i < active.len()
        invariant
            i <= active@.len(),
            rules == rules_in(active@),
            classes == known_classes(refl),
            map == sources.map(),
            modules == sources.modules(),
            properties_pass(
                classes,
                rules.take(i as int),
                map,
                modules,
                before,
                state_of(*dom, report),
            ),
        decreases active@.len() - i,
    {
        let ghost upto = rules.take(i as int + 1);
        let ghost between = state_of(*dom, report);
        assert(upto.drop_last() =~= rules.take(i as int));
        assert(upto.last() == active@[i as int].rule());
        apply_properties(refl, dom, active[i], sources, &mut report);
        assert(properties_step(
            classes,
            upto.last(),
            map,
            modules,
            between,
            state_of(*dom, report),
        ));
        i = i + 1;
    }
    let ghost middle = state_of(*dom, report);
    assert(rules.take(rules.len() as int) =~= rules);
    let mut j: usize = 0;
    while j < active.len()
        invariant
            j <= active@.len(),
            rules == rules_in(active@),
            map == sources.map(),
            keys_pass(rules.take(j as int), map, middle, state_of(*dom, report)),
        decreases active@.len() - j,
    {
        let ghost upto = rules.take(j as int + 1);
        let ghost between = state_of(*dom, report);
        assert(upto.drop_last() =~= rules.take(j as int));
        assert(upto.last() == active@[j as int].rule());
        apply_module_keys(dom, active[j], sources, &mut report);
        assert(keys_step(upto.last(), map, between, state_of(*dom, report)));
        j = j + 1;
    }
    report
}

/// Apply every rule to a place.
pub fn apply<S: Sources>(dom: &mut WeakDom, config: &Config, sources: &S) -> (r: Report)
    ensures
        exists|refl: Reflection| #[trigger]
            at_hand(refl) && applied(
                known_classes(refl),
                config.active_rules(),
                sources.map(),
                sources.modules(),
                unreported(scene(*old(dom))),
                state_of(*final(dom), r),
            ),
{
    let refl: Reflection = reflection();
    assert(at_hand(refl));
    apply_in(refl, dom, config, sources)
}

} // verus!
