//! Holding rules against a place, without changing anything.
//!
//! A path is a string that nobody knows they are breaking: rename an instance, and
//! every rule below it resolves to nothing. Checking is that failure, moved
//! earlier. It needs no asset map, so it can run before anything was uploaded.

use crate::config::{rules_in, Config, Injection, Rule};
use crate::dom::{find, first_child, found, has_empty, law_a_path_is_found_by_its_way};
use crate::dom::{law_growing_what_is_there, leads, lemma_reached};
use crate::inject::{asks_for_source, entries_done, find_module, joined, key_label};
use crate::inject::{keys_target, label_of_key, missing_property, no_such_property};
use crate::inject::{properties_done, property_label, State};
use crate::inject_laws::law_entries_keep_to_their_target;
use crate::luau::{apply_keys, keys_message, may_rewrite, KeysError, Rewriting};
use crate::luau_edit::{edits_model, Edit, KeyValue};
use crate::place::{instance_class, scene, Scene};
use crate::reflection::{at_hand, declared_type_in, known_classes, reflection, type_in, Classes};
use crate::reflection::Reflection;
use crate::resolve::{is_source, missing_key, module_named, module_reference, not_in_map};
use crate::resolve::{law_a_bare_value_is_looked_up, law_a_stub_requires_the_id, resolved_key};
use crate::resolve::{resolved_property, stands_for_source, Resolution, TextModel};
use crate::sources::Sources;
use crate::text::{after, begins, lemma_split_nonempty, split, split_at_each, starts_with};
use crate::text::{law_a_prefix_can_be_told, law_join_then_split, law_joining};
use crate::text::{law_split_then_join, strip_prefix, texts};
use crate::text_map::Pairs;
use rbx_dom_weak::types::Ref;
use rbx_dom_weak::WeakDom;
use vstd::prelude::*;
use vstd::string::*;

verus! {

/// How bad a finding is.
#[derive(Debug, Clone, Copy, PartialEq, Eq, PartialOrd, Ord, Structural)]
pub enum Severity {
    /// The rule cannot apply. Something is wrong with the place or the config.
    Error,
    /// The rule will apply, but probably not as intended.
    Warning,
}

/// What a severity is called.
pub open spec fn severity_text(severity: Severity) -> Seq<char> {
    match severity {
        Severity::Error => "error"@,
        Severity::Warning => "warning"@,
    }
}

impl Severity {
    /// What the severity is called.
    pub fn text(&self) -> (r: String)
        ensures
            r@ == severity_text(*self),
    {
        match self {
            Severity::Error => "error".to_owned(),
            Severity::Warning => "warning".to_owned(),
        }
    }
}

/// Something that checking found.
#[derive(Debug)]
pub struct Finding {
    pub severity: Severity,
    pub target: String,
    pub message: String,
}

impl Clone for Finding {
    fn clone(&self) -> (r: Finding)
        ensures
            r.note() == self.note(),
    {
        Finding {
            severity: self.severity,
            target: self.target.as_str().to_owned(),
            message: self.message.as_str().to_owned(),
        }
    }
}

/// What a finding says.
pub struct Note {
    pub severity: Severity,
    pub target: Seq<char>,
    pub message: Seq<char>,
}

impl Finding {
    /// What the finding says.
    pub open spec fn note(&self) -> Note {
        Note { severity: self.severity, target: self.target@, message: self.message@ }
    }

    /// The finding in one line.
    pub fn text(&self) -> (r: String)
        ensures
            r@ == severity_text(self.severity) + ": "@ + self.target@ + ": "@ + self.message@,
    {
        let mut out: String = self.severity.text();
        out.append(": ");
        out.append(self.target.as_str());
        out.append(": ");
        out.append(self.message.as_str());
        out
    }
}

/// What a list of findings says.
pub open spec fn notes(findings: Seq<Finding>) -> Seq<Note> {
    Seq::new(findings.len(), |i: int| findings[i].note())
}

/// A finding that is an error.
pub open spec fn error(target: Seq<char>, message: Seq<char>) -> Note {
    Note { severity: Severity::Error, target, message }
}

/// The key that a value is looked up by, if it is looked up. A module reference
/// names a file, and everything else with a `$` in front is a literal.
pub open spec fn lookup_key(value: Seq<char>) -> Option<Seq<char>> {
    if module_named(value) is Some {
        None
    } else if begins(value, "$require:"@) {
        Some(after(value, "$require:"@))
    } else if begins(value, "$"@) {
        None
    } else {
        Some(value)
    }
}

/// What is found of a value: a lookup that fails, where there is a map.
pub open spec fn value_notes(map: Option<TextModel>, value: Seq<char>, target: Seq<char>) -> Seq<
    Note,
> {
    match (map, lookup_key(value)) {
        (Some(map), Some(key)) => if map.contains_key(key) {
            Seq::empty()
        } else {
            seq![error(target, not_in_map(key))]
        },
        _ => Seq::empty(),
    }
}

/// What is found of the entries of a rule whose target is there. A name that the
/// class does not have is a warning only: the database lags Roblox.
pub open spec fn entry_notes(
    classes: Classes,
    path: Seq<char>,
    class: Seq<char>,
    entries: Pairs,
    map: Option<TextModel>,
) -> Seq<Note>
    decreases entries.len(),
{
    if entries.len() == 0 {
        Seq::empty()
    } else {
        let before = entry_notes(classes, path, class, entries.drop_last(), map);
        let (prop, value) = entries.last();
        let label = property_label(path, prop);
        let unknown = if type_in(classes, class, prop) is None {
            seq![
                Note {
                    severity: Severity::Warning,
                    target: label,
                    message: no_such_property(class, prop),
                },
            ]
        } else {
            Seq::empty()
        };
        before + unknown + value_notes(map, value, label)
    }
}

/// What is found of the properties of a rule. A rule that writes the source of a
/// module creates what it targets, so the target need not be there as long as the
/// service is that it hangs off.
pub open spec fn property_notes(
    classes: Classes,
    s: Scene,
    rule: Rule,
    map: Option<TextModel>,
) -> Seq<Note> {
    let path = rule.path;
    if rule.properties.len() == 0 {
        Seq::empty()
    } else {
        match found(s, path) {
            Some(target) => entry_notes(
                classes,
                path,
                s.nodes[target].class,
                rule.properties,
                map,
            ),
            None => if asks_for_source(rule.properties) {
                let service = split(path, '.')[0];
                if found(s, service) is None {
                    seq![error(path, "'"@ + service + "' is not a service of this place"@)]
                } else {
                    Seq::empty()
                }
            } else {
                seq![error(path, "no such instance"@)]
            },
        }
    }
}

/// What is found of the values of keys.
pub open spec fn key_value_notes(path: Seq<char>, keys: Pairs, map: Option<TextModel>) -> Seq<Note>
    decreases keys.len(),
{
    if keys.len() == 0 {
        Seq::empty()
    } else {
        key_value_notes(path, keys.drop_last(), map) + value_notes(
            map,
            keys.last().1,
            key_label(path, keys.last().0),
        )
    }
}

/// What is found of the keys of a rule, once its module was evaluated.
pub open spec fn evaluated_notes(
    path: Seq<char>,
    keys: Pairs,
    map: Option<TextModel>,
    r: Result<String, KeysError>,
) -> Seq<Note> {
    match r {
        Ok(_) => key_value_notes(path, keys, map),
        Err(e) => seq![error(path, keys_message(e))],
    }
}

/// Whether `found_notes` can be found of the keys of a rule in a module with this
/// source.
pub open spec fn module_checked(
    path: Seq<char>,
    source: Seq<char>,
    keys: Pairs,
    map: Option<TextModel>,
    found_notes: Seq<Note>,
) -> bool {
    exists|r: Result<String, KeysError>|
        {
            &&& #[trigger] may_rewrite(source, Seq::empty(), r)
            &&& found_notes == evaluated_notes(path, keys, map, r)
        }
}

/// Whether `found_notes` can be found of the keys of a rule. The module is
/// evaluated, since there is no other way to know that it can be rewritten.
pub open spec fn keys_checked(
    s: Scene,
    rule: Rule,
    map: Option<TextModel>,
    found_notes: Seq<Note>,
) -> bool {
    let path = rule.path;
    if rule.keys.len() == 0 {
        found_notes == Seq::<Note>::empty()
    } else {
        match keys_target(s, path) {
            Err(e) => found_notes == seq![error(path, e)],
            Ok((_, source)) => module_checked(path, source, rule.keys, map, found_notes),
        }
    }
}

/// Whether `all` can be found of the rules: of each its properties first, then its
/// keys.
pub open spec fn checked(
    classes: Classes,
    s: Scene,
    rules: Seq<Rule>,
    map: Option<TextModel>,
    all: Seq<Note>,
) -> bool
    decreases rules.len(),
{
    if rules.len() == 0 {
        all == Seq::<Note>::empty()
    } else {
        exists|before: Seq<Note>, last: Seq<Note>|
            {
                &&& checked(classes, s, rules.drop_last(), map, before)
                &&& #[trigger] keys_checked(s, rules.last(), map, last)
                &&& all == #[trigger] (before + property_notes(classes, s, rules.last(), map)) + last
            }
    }
}

/// The map that lookups are checked against, where there is one.
pub open spec fn map_in<S: Sources>(sources: Option<&S>) -> Option<TextModel> {
    match sources {
        Some(sources) => Some(sources.map()),
        None => None,
    }
}

// ---------------------------------------------------------------------------
// Checking
// ---------------------------------------------------------------------------

/// Add a finding.
fn push(findings: &mut Vec<Finding>, severity: Severity, target: &str, message: String)
    ensures
        notes(final(findings)@) == notes(old(findings)@).push(
            Note { severity, target: target@, message: message@ },
        ),
{
    let ghost before = findings@;
    let ghost note = Note { severity, target: target@, message: message@ };
    findings.push(Finding { severity, target: target.to_owned(), message });
    assert(notes(findings@) =~= notes(before).push(note));
}

/// Look a value up, where there is a map.
fn check_value<S: Sources>(
    sources: Option<&S>,
    value_key: &str,
    target: &str,
    findings: &mut Vec<Finding>,
)
    ensures
        notes(final(findings)@) == notes(old(findings)@) + value_notes(
            map_in(sources),
            value_key@,
            target@,
        ),
{
    assert(notes(findings@) =~= notes(findings@) + Seq::<Note>::empty());
    let sources: &S = match sources {
        Some(sources) => sources,
        None => {
            return;
        },
    };
    if module_reference(value_key).is_some() {
        return;
    }
    let key: String = match strip_prefix(value_key, "$require:") {
        Some(key) => key,
        None => {
            if starts_with(value_key, "$") {
                return;
            }
            value_key.to_owned()
        },
    };
    if sources.mapped(key.as_str()).is_none() {
        let message: String = missing_key(key.as_str());
        push(findings, Severity::Error, target, message);
        assert(notes(findings@) =~= notes(old(findings)@) + seq![
            error(target@, not_in_map(key@)),
        ]);
    }
}

/// Whether a rule asks for a module source.
fn creates(injection: &Injection) -> (r: bool)
    ensures
        r == asks_for_source(injection.rule().properties),
{
    let ghost all = injection.rule().properties;
    let mut i: usize = 0;
    while i < injection.properties.len()
        invariant
            i <= all.len(),
            all == injection.properties.pairs(),
            all == injection.rule().properties,
            forall|k: int| 0 <= k < i ==> !is_source((#[trigger] all[k]).1),
        decreases all.len() - i,
    {
        let value: &str = injection.properties.value(i);
        assert(value@ == all[i as int].1);
        if stands_for_source(value) {
            return true;
        }
        i = i + 1;
    }
    false
}

/// The properties of one rule.
pub fn check_properties<S: Sources>(
    refl: Reflection,
    dom: &WeakDom,
    injection: &Injection,
    sources: Option<&S>,
    findings: &mut Vec<Finding>,
)
    ensures
        notes(final(findings)@) == notes(old(findings)@) + property_notes(
            known_classes(refl),
            scene(*dom),
            injection.rule(),
            map_in(sources),
        ),
{
    let ghost before = notes(findings@);
    let ghost s = scene(*dom);
    let ghost rule = injection.rule();
    let ghost classes = known_classes(refl);
    assert(before =~= before + Seq::<Note>::empty());
    if injection.properties.is_empty() {
        return;
    }
    let path: &str = injection.roblox_path.as_str();
    let target: Ref = match find(dom, path) {
        Some(target) => target,
        None => {
            if creates(injection) {
                let parts: Vec<String> = split_at_each(path, '.');
                let service: &str = parts[0].as_str();
                assert(texts(parts@)[0] == service@);
                if find(dom, service).is_none() {
                    let mut message: String = "'".to_owned();
                    message.append(service);
                    message.append("' is not a service of this place");
                    push(findings, Severity::Error, path, message);
                    assert(notes(findings@) =~= before + seq![
                        error(path@, "'"@ + service@ + "' is not a service of this place"@),
                    ]);
                }
            } else {
                push(findings, Severity::Error, path, "no such instance".to_owned());
                assert(notes(findings@) =~= before + seq![error(path@, "no such instance"@)]);
            }
            return;
        },
    };
    let class: String = match dom.get_by_ref(target) {
        Some(inst) => instance_class(inst).to_owned(),
        None => String::new(),
    };
    let ghost all = rule.properties;
    let ghost map = map_in(sources);
    let mut i: usize = 0;
    assert(all.take(0) =~= Seq::empty());
    while i < injection.properties.len()
        invariant
            i <= all.len(),
            all == injection.properties.pairs(),
            classes == known_classes(refl),
            map == map_in(sources),
            path@ == injection.roblox_path@,
            notes(findings@) == before + entry_notes(
                classes,
                path@,
                class@,
                all.take(i as int),
                map,
            ),
        decreases all.len() - i,
    {
        let ghost upto = all.take(i as int + 1);
        assert(upto.drop_last() =~= all.take(i as int));
        assert(upto.last() == all[i as int]);
        let ghost so_far = notes(findings@);
        let prop: &str = injection.properties.key(i);
        let label: String = joined(path, ".", prop);
        let known: bool = declared_type_in(refl, class.as_str(), prop).is_some();
        if !known {
            let message: String = missing_property(class.as_str(), prop);
            push(findings, Severity::Warning, label.as_str(), message);
        }
        let ghost unknown = if type_in(classes, class@, prop@) is None {
            seq![
                Note {
                    severity: Severity::Warning,
                    target: label@,
                    message: no_such_property(class@, prop@),
                },
            ]
        } else {
            Seq::empty()
        };
        assert(notes(findings@) =~= so_far + unknown);
        let value: &str = injection.properties.value(i);
        check_value(sources, value, label.as_str(), findings);
        assert(notes(findings@) =~= before + entry_notes(classes, path@, class@, upto, map));
        i = i + 1;
    }
    assert(all.take(all.len() as int) =~= all);
}

/// The keys of one rule.
pub fn check_keys<S: Sources>(
    dom: &WeakDom,
    injection: &Injection,
    sources: Option<&S>,
    findings: &mut Vec<Finding>,
)
    ensures
        exists|last: Seq<Note>|
            {
                &&& #[trigger] keys_checked(scene(*dom), injection.rule(), map_in(sources), last)
                &&& notes(final(findings)@) == notes(old(findings)@) + last
            },
{
    let ghost before = notes(findings@);
    let ghost s = scene(*dom);
    let ghost rule = injection.rule();
    let ghost map = map_in(sources);
    if injection.keys.is_empty() {
        assert(keys_checked(s, rule, map, Seq::empty()));
        assert(before =~= before + Seq::<Note>::empty());
        return;
    }
    let path: &str = injection.roblox_path.as_str();
    let source: String = match find_module(dom, path) {
        Ok((_, source)) => source,
        Err(e) => {
            let ghost message = e@;
            push(findings, Severity::Error, path, e);
            assert(keys_checked(s, rule, map, seq![error(path@, message)]));
            assert(notes(findings@) =~= before + seq![error(path@, message)]);
            return;
        },
    };
    let nothing: Vec<(String, KeyValue)> = Vec::new();
    let r: Result<String, KeysError> = apply_keys(source.as_str(), nothing.as_slice());
    assert(edits_model(nothing@) =~= Seq::<Edit>::empty());
    let ghost outcome = r;
    assert(may_rewrite(source@, Seq::empty(), outcome));
    assert(module_checked(
        path@,
        source@,
        rule.keys,
        map,
        evaluated_notes(path@, rule.keys, map, outcome),
    ));
    assert(keys_checked(s, rule, map, evaluated_notes(path@, rule.keys, map, outcome)));
    if let Err(e) = r {
        let message: String = e.message();
        push(findings, Severity::Error, path, message);
        assert(notes(findings@) =~= before + seq![error(path@, keys_message(e))]);
        return;
    }
    let ghost all = rule.keys;
    let mut i: usize = 0;
    assert(all.take(0) =~= Seq::empty());
    assert(notes(findings@) =~= before + Seq::<Note>::empty());
    while i < injection.keys.len()
        invariant
            i <= all.len(),
            all == injection.keys.pairs(),
            map == map_in(sources),
            path@ == injection.roblox_path@,
            notes(findings@) == before + key_value_notes(path@, all.take(i as int), map),
        decreases all.len() - i,
    {
        let ghost upto = all.take(i as int + 1);
        assert(upto.drop_last() =~= all.take(i as int));
        assert(upto.last() == all[i as int]);
        let label: String = label_of_key(path, injection.keys.key(i));
        check_value(sources, injection.keys.value(i), label.as_str(), findings);
        assert(notes(findings@) =~= before + key_value_notes(path@, upto, map));
        i = i + 1;
    }
    assert(all.take(all.len() as int) =~= all);
}

/// Hold every rule against a place, with the database at hand.
pub fn check_in<S: Sources>(
    refl: Reflection,
    dom: &WeakDom,
    config: &Config,
    sources: Option<&S>,
) -> (r: Vec<Finding>)
    ensures
        checked(
            known_classes(refl),
            scene(*dom),
            config.active_rules(),
            map_in(sources),
            notes(r@),
        ),
{
    let active: Vec<&Injection> = config.active();
    let ghost classes = known_classes(refl);
    let ghost s = scene(*dom);
    let ghost rules = config.active_rules();
    let ghost map = map_in(sources);
    let mut findings: Vec<Finding> = Vec::new();
    let mut i: usize = 0;
    assert(rules.take(0) =~= Seq::<Rule>::empty());
    assert(notes(findings@) =~= Seq::<Note>::empty());
    while i < active.len()
        invariant
            i <= active@.len(),
            rules == rules_in(active@),
            classes == known_classes(refl),
            s == scene(*dom),
            map == map_in(sources),
            checked(classes, s, rules.take(i as int), map, notes(findings@)),
        decreases active@.len() - i,
    {
        let ghost upto = rules.take(i as int + 1);
        let ghost before = notes(findings@);
        assert(upto.drop_last() =~= rules.take(i as int));
        assert(upto.last() == active@[i as int].rule());
        check_properties(refl, dom, active[i], sources, &mut findings);
        let ghost middle = notes(findings@);
        check_keys(dom, active[i], sources, &mut findings);
        proof {
            let last = choose|last: Seq<Note>|
                {
                    &&& #[trigger] keys_checked(s, upto.last(), map, last)
                    &&& notes(findings@) == middle + last
                };
            assert(keys_checked(s, upto.last(), map, last));
            assert(notes(findings@) == (before + property_notes(classes, s, upto.last(), map))
                + last);
            assert(checked(classes, s, upto, map, notes(findings@)));
        }
        i = i + 1;
    }
    assert(rules.take(rules.len() as int) =~= rules);
    findings
}

/// Hold every rule against a place. Without sources, lookups are not checked: that
/// is what lets this run before anything was uploaded.
pub fn check<S: Sources>(dom: &WeakDom, config: &Config, sources: Option<&S>) -> (r: Vec<Finding>)
    ensures
        exists|refl: Reflection| #[trigger]
            at_hand(refl) && checked(
                known_classes(refl),
                scene(*dom),
                config.active_rules(),
                map_in(sources),
                notes(r@),
            ),
{
    let refl: Reflection = reflection();
    assert(at_hand(refl));
    check_in(refl, dom, config, sources)
}

// ---------------------------------------------------------------------------
// Laws
// ---------------------------------------------------------------------------

/// Whether a finding is a lookup that fails.
pub open spec fn failed_lookup(note: Note) -> bool {
    note.severity == Severity::Error && exists|key: Seq<char>|
        note.message == #[trigger] not_in_map(key)
}

/// The findings that are no lookups that fail.
pub open spec fn other_findings(all: Seq<Note>) -> Seq<Note> {
    all.filter(|note: Note| !failed_lookup(note))
}

/// Whether `all` is `plain`, in its order, with lookups that fail put in between.
pub open spec fn supplemented(plain: Seq<Note>, all: Seq<Note>) -> bool
    decreases all.len(),
{
    if all.len() == 0 {
        plain.len() == 0
    } else {
        ||| failed_lookup(all.last()) && supplemented(plain, all.drop_last())
        ||| {
            &&& plain.len() > 0
            &&& plain.last() == all.last()
            &&& supplemented(plain.drop_last(), all.drop_last())
        }
    }
}

proof fn lemma_supplemented_itself(plain: Seq<Note>)
    ensures
        supplemented(plain, plain),
    decreases plain.len(),
{
    if plain.len() > 0 {
        lemma_supplemented_itself(plain.drop_last());
    }
}

proof fn lemma_supplemented_joined(a: Seq<Note>, b: Seq<Note>, c: Seq<Note>, d: Seq<Note>)
    requires
        supplemented(a, b),
        supplemented(c, d),
    ensures
        supplemented(a + c, b + d),
    decreases d.len(),
{
    if d.len() == 0 {
        assert(a + c =~= a);
        assert(b + d =~= b);
    } else {
        let joined = b + d;
        assert(joined.drop_last() =~= b + d.drop_last());
        assert(joined.last() == d.last());
        if failed_lookup(d.last()) && supplemented(c, d.drop_last()) {
            lemma_supplemented_joined(a, b, c, d.drop_last());
        } else {
            lemma_supplemented_joined(a, b, c.drop_last(), d.drop_last());
            assert((a + c).drop_last() =~= a + c.drop_last());
            assert((a + c).last() == c.last());
        }
    }
}

proof fn lemma_other_findings(plain: Seq<Note>, all: Seq<Note>)
    requires
        supplemented(plain, all),
    ensures
        other_findings(plain) == other_findings(all),
    decreases all.len(),
{
    reveal(Seq::filter);
    if all.len() > 0 {
        if failed_lookup(all.last()) && supplemented(plain, all.drop_last()) {
            lemma_other_findings(plain, all.drop_last());
        } else {
            lemma_other_findings(plain.drop_last(), all.drop_last());
        }
    }
}

proof fn lemma_value_supplemented(map: TextModel, value: Seq<char>, target: Seq<char>)
    ensures
        value_notes(None, value, target) == Seq::<Note>::empty(),
        supplemented(Seq::empty(), value_notes(Some(map), value, target)),
{
    let found_notes = value_notes(Some(map), value, target);
    if found_notes.len() > 0 {
        assert(found_notes.drop_last() =~= Seq::<Note>::empty());
        assert(supplemented(Seq::empty(), Seq::empty()));
        assert(found_notes.last().message == not_in_map(lookup_key(value)->0));
        assert(failed_lookup(found_notes.last()));
    }
}

proof fn lemma_entries_supplemented(
    classes: Classes,
    path: Seq<char>,
    class: Seq<char>,
    entries: Pairs,
    map: TextModel,
)
    ensures
        supplemented(
            entry_notes(classes, path, class, entries, None),
            entry_notes(classes, path, class, entries, Some(map)),
        ),
    decreases entries.len(),
{
    if entries.len() > 0 {
        let front = entries.drop_last();
        let (prop, value) = entries.last();
        let label = property_label(path, prop);
        let a = entry_notes(classes, path, class, front, None);
        let b = entry_notes(classes, path, class, front, Some(map));
        let unknown = if type_in(classes, class, prop) is None {
            seq![
                Note {
                    severity: Severity::Warning,
                    target: label,
                    message: no_such_property(class, prop),
                },
            ]
        } else {
            Seq::empty()
        };
        lemma_entries_supplemented(classes, path, class, front, map);
        lemma_supplemented_itself(unknown);
        lemma_supplemented_joined(a, b, unknown, unknown);
        lemma_value_supplemented(map, value, label);
        lemma_supplemented_joined(
            a + unknown,
            b + unknown,
            Seq::empty(),
            value_notes(Some(map), value, label),
        );
    } else {
        lemma_supplemented_itself(Seq::empty());
    }
}

proof fn lemma_keys_supplemented(path: Seq<char>, keys: Pairs, map: TextModel)
    ensures
        key_value_notes(path, keys, None) == Seq::<Note>::empty(),
        supplemented(Seq::empty(), key_value_notes(path, keys, Some(map))),
    decreases keys.len(),
{
    if keys.len() > 0 {
        let front = keys.drop_last();
        let label = key_label(path, keys.last().0);
        lemma_keys_supplemented(path, front, map);
        lemma_value_supplemented(map, keys.last().1, label);
        lemma_supplemented_joined(
            Seq::empty(),
            key_value_notes(path, front, Some(map)),
            Seq::empty(),
            value_notes(Some(map), keys.last().1, label),
        );
        assert(Seq::<Note>::empty() + Seq::<Note>::empty() =~= Seq::<Note>::empty());
    }
}

proof fn lemma_properties_supplemented(classes: Classes, s: Scene, rule: Rule, map: TextModel)
    ensures
        supplemented(
            property_notes(classes, s, rule, None),
            property_notes(classes, s, rule, Some(map)),
        ),
{
    lemma_supplemented_itself(property_notes(classes, s, rule, None));
    if rule.properties.len() > 0 {
        if let Some(target) = found(s, rule.path) {
            lemma_entries_supplemented(
                classes,
                rule.path,
                s.nodes[target].class,
                rule.properties,
                map,
            );
        }
    }
}

/// What comes of one evaluation, with the map and without one.
proof fn lemma_evaluated_supplemented(
    path: Seq<char>,
    keys: Pairs,
    map: TextModel,
    r: Result<String, KeysError>,
)
    ensures
        supplemented(
            evaluated_notes(path, keys, None, r),
            evaluated_notes(path, keys, Some(map), r),
        ),
{
    lemma_keys_supplemented(path, keys, map);
    lemma_supplemented_itself(evaluated_notes(path, keys, None, r));
}

/// What is found of the keys of a rule, where rewriting its module comes to `r`.
pub open spec fn keys_checked_by(
    r: Rewriting,
    s: Scene,
    rule: Rule,
    map: Option<TextModel>,
) -> Seq<Note> {
    if rule.keys.len() == 0 {
        Seq::empty()
    } else {
        match keys_target(s, rule.path) {
            Err(e) => seq![error(rule.path, e)],
            Ok((_, _)) => evaluated_notes(rule.path, rule.keys, map, r),
        }
    }
}

/// What is found of the rules, where rewriting the module of rule `i` comes to
/// `outcomes[i]`.
pub open spec fn checked_by(
    outcomes: Seq<Rewriting>,
    classes: Classes,
    s: Scene,
    rules: Seq<Rule>,
    map: Option<TextModel>,
) -> Seq<Note>
    decreases rules.len(),
{
    if rules.len() == 0 {
        Seq::empty()
    } else {
        (checked_by(outcomes, classes, s, rules.drop_last(), map) + property_notes(
            classes,
            s,
            rules.last(),
            map,
        )) + keys_checked_by(outcomes[rules.len() - 1], s, rules.last(), map)
    }
}

/// Whether rewriting the module of a rule, if it has one, can come to `r`.
pub open spec fn can_come_to(r: Rewriting, s: Scene, rule: Rule) -> bool {
    rule.keys.len() > 0 ==> (keys_target(s, rule.path) matches Ok((_, source)) ==> may_rewrite(
        source,
        Seq::empty(),
        r,
    ))
}

/// Whether rewriting the module of each rule can come to what it does in `outcomes`.
pub open spec fn all_can_come_to(outcomes: Seq<Rewriting>, s: Scene, rules: Seq<Rule>) -> bool {
    &&& outcomes.len() == rules.len()
    &&& forall|i: int|
        0 <= i < rules.len() ==> can_come_to(#[trigger] outcomes[i], s, rules[i])
}

/// Only the outcomes for the rules themselves matter.
proof fn lemma_checked_by_its_own(
    outcomes: Seq<Rewriting>,
    more: Rewriting,
    classes: Classes,
    s: Scene,
    rules: Seq<Rule>,
    map: Option<TextModel>,
)
    requires
        rules.len() <= outcomes.len(),
    ensures
        checked_by(outcomes.push(more), classes, s, rules, map) == checked_by(
            outcomes,
            classes,
            s,
            rules,
            map,
        ),
    decreases rules.len(),
{
    if rules.len() > 0 {
        lemma_checked_by_its_own(outcomes, more, classes, s, rules.drop_last(), map);
    }
}

/// What can be found of the rules is what is found where the modules come to something
/// that they can come to.
pub proof fn law_a_check_is_a_choice_of_outcomes(
    classes: Classes,
    s: Scene,
    rules: Seq<Rule>,
    map: Option<TextModel>,
    all: Seq<Note>,
)
    ensures
        checked(classes, s, rules, map, all) <==> exists|outcomes: Seq<Rewriting>|
            {
                &&& all_can_come_to(outcomes, s, rules)
                &&& #[trigger] checked_by(outcomes, classes, s, rules, map) == all
            },
    decreases rules.len(),
{
    if rules.len() == 0 {
        let none = Seq::<Rewriting>::empty();
        assert(all_can_come_to(none, s, rules));
        assert(checked_by(none, classes, s, rules, map) == Seq::<Note>::empty());
    } else {
        let front = rules.drop_last();
        let rule = rules.last();
        let props = property_notes(classes, s, rule, map);
        if checked(classes, s, rules, map, all) {
            let (before, last) = choose|before: Seq<Note>, last: Seq<Note>|
                {
                    &&& checked(classes, s, front, map, before)
                    &&& #[trigger] keys_checked(s, rule, map, last)
                    &&& all == #[trigger] (before + property_notes(classes, s, rule, map)) + last
                };
            law_a_check_is_a_choice_of_outcomes(classes, s, front, map, before);
            let fewer = choose|outcomes: Seq<Rewriting>|
                {
                    &&& all_can_come_to(outcomes, s, front)
                    &&& #[trigger] checked_by(outcomes, classes, s, front, map) == before
                };
            let r: Rewriting = if rule.keys.len() > 0 && keys_target(s, rule.path) is Ok {
                choose|r: Rewriting|
                    {
                        &&& #[trigger] may_rewrite(
                            keys_target(s, rule.path)->Ok_0.1,
                            Seq::empty(),
                            r,
                        )
                        &&& last == evaluated_notes(rule.path, rule.keys, map, r)
                    }
            } else {
                Err(KeysError::NotATable)
            };
            let outcomes = fewer.push(r);
            lemma_checked_by_its_own(fewer, r, classes, s, front, map);
            assert(all_can_come_to(outcomes, s, rules)) by {
                assert forall|i: int| 0 <= i < rules.len() implies can_come_to(
                    #[trigger] outcomes[i],
                    s,
                    rules[i],
                ) by {
                    if i < front.len() {
                        assert(outcomes[i] == fewer[i] && rules[i] == front[i]);
                    }
                }
            }
            assert(outcomes[rules.len() - 1] == r);
            assert(checked_by(outcomes, classes, s, rules, map) == all);
        }
        if exists|outcomes: Seq<Rewriting>|
            {
                &&& all_can_come_to(outcomes, s, rules)
                &&& #[trigger] checked_by(outcomes, classes, s, rules, map) == all
            } {
            let outcomes = choose|outcomes: Seq<Rewriting>|
                {
                    &&& all_can_come_to(outcomes, s, rules)
                    &&& #[trigger] checked_by(outcomes, classes, s, rules, map) == all
                };
            let fewer = outcomes.drop_last();
            let r = outcomes.last();
            let before = checked_by(outcomes, classes, s, front, map);
            let last = keys_checked_by(r, s, rule, map);
            assert(fewer.push(r) =~= outcomes);
            lemma_checked_by_its_own(fewer, r, classes, s, front, map);
            assert(all_can_come_to(fewer, s, front)) by {
                assert forall|i: int| 0 <= i < front.len() implies can_come_to(
                    #[trigger] fewer[i],
                    s,
                    front[i],
                ) by {
                    assert(can_come_to(outcomes[i], s, rules[i]));
                }
            }
            law_a_check_is_a_choice_of_outcomes(classes, s, front, map, before);
            assert(checked(classes, s, front, map, before));
            assert(can_come_to(outcomes[rules.len() - 1], s, rules[rules.len() - 1]));
            assert(keys_checked(s, rule, map, last));
            assert(all == (before + props) + last);
        }
    }
}

/// Two checks of one place in which the modules come to the same, one with a map and one
/// without: the first finds what the second does, in the same order, with the lookups that
/// fail in between.
pub proof fn law_two_checks_agree(
    outcomes: Seq<Rewriting>,
    classes: Classes,
    s: Scene,
    rules: Seq<Rule>,
    map: TextModel,
)
    ensures
        supplemented(
            checked_by(outcomes, classes, s, rules, None),
            checked_by(outcomes, classes, s, rules, Some(map)),
        ),
        other_findings(checked_by(outcomes, classes, s, rules, None)) == other_findings(
            checked_by(outcomes, classes, s, rules, Some(map)),
        ),
    decreases rules.len(),
{
    let plain = checked_by(outcomes, classes, s, rules, None);
    let all = checked_by(outcomes, classes, s, rules, Some(map));
    if rules.len() == 0 {
        lemma_supplemented_itself(all);
    } else {
        let front = rules.drop_last();
        let rule = rules.last();
        let r = outcomes[rules.len() - 1];
        law_two_checks_agree(outcomes, classes, s, front, map);
        let plain_props = property_notes(classes, s, rule, None);
        let props = property_notes(classes, s, rule, Some(map));
        let plain_before = checked_by(outcomes, classes, s, front, None);
        let before = checked_by(outcomes, classes, s, front, Some(map));
        lemma_properties_supplemented(classes, s, rule, map);
        lemma_supplemented_joined(plain_before, before, plain_props, props);
        let plain_last = keys_checked_by(r, s, rule, None);
        let last = keys_checked_by(r, s, rule, Some(map));
        lemma_supplemented_itself(plain_last);
        if rule.keys.len() > 0 && keys_target(s, rule.path) is Ok {
            lemma_evaluated_supplemented(rule.path, rule.keys, map, r);
        }
        lemma_supplemented_joined(plain_before + plain_props, before + props, plain_last, last);
    }
    lemma_other_findings(plain, all);
}

/// A map adds the lookups that fail to what is found, and nothing else: to every check
/// with the map there is one without that finds the same, in the same order, but for such
/// lookups.
pub proof fn law_a_map_adds_failed_lookups_only(
    classes: Classes,
    s: Scene,
    rules: Seq<Rule>,
    map: TextModel,
    all: Seq<Note>,
) -> (plain: Seq<Note>)
    requires
        checked(classes, s, rules, Some(map), all),
    ensures
        checked(classes, s, rules, None, plain),
        supplemented(plain, all),
        other_findings(plain) == other_findings(all),
{
    law_a_check_is_a_choice_of_outcomes(classes, s, rules, Some(map), all);
    let outcomes = choose|outcomes: Seq<Rewriting>|
        {
            &&& all_can_come_to(outcomes, s, rules)
            &&& #[trigger] checked_by(outcomes, classes, s, rules, Some(map)) == all
        };
    let plain = checked_by(outcomes, classes, s, rules, None);
    law_a_check_is_a_choice_of_outcomes(classes, s, rules, None, plain);
    law_two_checks_agree(outcomes, classes, s, rules, map);
    plain
}

/// The other way round: to every check without a map there is one with it that finds the
/// same, in the same order, with the lookups that fail put in between.
pub proof fn law_a_map_takes_nothing_away(
    classes: Classes,
    s: Scene,
    rules: Seq<Rule>,
    map: TextModel,
    plain: Seq<Note>,
) -> (all: Seq<Note>)
    requires
        checked(classes, s, rules, None, plain),
    ensures
        checked(classes, s, rules, Some(map), all),
        supplemented(plain, all),
        other_findings(plain) == other_findings(all),
{
    law_a_check_is_a_choice_of_outcomes(classes, s, rules, None, plain);
    let outcomes = choose|outcomes: Seq<Rewriting>|
        {
            &&& all_can_come_to(outcomes, s, rules)
            &&& #[trigger] checked_by(outcomes, classes, s, rules, None) == plain
        };
    let all = checked_by(outcomes, classes, s, rules, Some(map));
    law_a_check_is_a_choice_of_outcomes(classes, s, rules, Some(map), all);
    law_two_checks_agree(outcomes, classes, s, rules, map);
    all
}

/// Without a map the keys of a rule come to nothing or to one error at its path.
/// Nothing can be found if and only if the path leads to a module whose source can be
/// rewritten, and an error if and only if it does not or its source can fail to be.
pub proof fn law_keys_without_a_map(s: Scene, rule: Rule, found_notes: Seq<Note>)
    requires
        rule.keys.len() > 0,
        keys_checked(s, rule, None, found_notes),
    ensures
        found_notes.len() <= 1,
        found_notes.len() == 1 ==> found_notes[0].severity == Severity::Error
            && found_notes[0].target == rule.path,
        keys_checked(s, rule, None, Seq::empty()) == (keys_target(s, rule.path) matches Ok((_, source))
            && exists|text: String| #[trigger]
            may_rewrite(source, Seq::empty(), Ok(text))),
        found_notes.len() == 1 ==> match keys_target(s, rule.path) {
            Err(e) => found_notes[0].message == e,
            Ok((_, source)) => exists|e: KeysError|
                {
                    &&& #[trigger] may_rewrite(source, Seq::empty(), Err(e))
                    &&& found_notes[0].message == keys_message(e)
                },
        },
{
    lemma_keys_supplemented(rule.path, rule.keys, Map::empty());
    if let Ok((_, source)) = keys_target(s, rule.path) {
        let r = choose|r: Result<String, KeysError>|
            {
                &&& #[trigger] may_rewrite(source, Seq::empty(), r)
                &&& found_notes == evaluated_notes(rule.path, rule.keys, None, r)
            };
        assert(may_rewrite(source, Seq::empty(), r));
        if exists|text: String| #[trigger] may_rewrite(source, Seq::empty(), Ok(text)) {
            let text = choose|text: String| #[trigger] may_rewrite(source, Seq::empty(), Ok(text));
            assert(Seq::<Note>::empty() == evaluated_notes(rule.path, rule.keys, None, Ok(text)));
            assert(module_checked(rule.path, source, rule.keys, None, Seq::empty()));
        }
        if module_checked(rule.path, source, rule.keys, None, Seq::empty()) {
            let q = choose|q: Result<String, KeysError>|
                {
                    &&& #[trigger] may_rewrite(source, Seq::empty(), q)
                    &&& Seq::<Note>::empty() == evaluated_notes(rule.path, rule.keys, None, q)
                };
            assert(may_rewrite(source, Seq::empty(), q));
            if let Err(e) = q {
                assert(seq![error(rule.path, keys_message(e))].len() == 1);
            }
            assert(q is Ok);
            assert(may_rewrite(source, Seq::empty(), Ok(q->Ok_0)));
        }
    } else {
        assert(seq![error(rule.path, keys_target(s, rule.path)->Err_0)].len() == 1);
    }
}

/// Where nothing is found of the entries, the class has each of the properties.
proof fn lemma_clean_entries(
    classes: Classes,
    path: Seq<char>,
    class: Seq<char>,
    entries: Pairs,
    map: Option<TextModel>,
)
    requires
        entry_notes(classes, path, class, entries, map).len() == 0,
    ensures
        forall|i: int|
            0 <= i < entries.len() ==> type_in(classes, class, (#[trigger] entries[i]).0) is Some,
    decreases entries.len(),
{
    if entries.len() > 0 {
        let front = entries.drop_last();
        lemma_clean_entries(classes, path, class, front, map);
        assert forall|i: int| 0 <= i < entries.len() implies type_in(
            classes,
            class,
            (#[trigger] entries[i]).0,
        ) is Some by {
            if i < front.len() {
                assert(front[i] == entries[i]);
            }
        }
    }
}

proof fn lemma_clean_entries_apply(
    classes: Classes,
    path: Seq<char>,
    target: Ref,
    entries: Pairs,
    map: TextModel,
    modules: TextModel,
    st: State,
)
    requires
        st.scene.nodes.contains_key(target),
        forall|i: int|
            0 <= i < entries.len() ==> type_in(
                classes,
                st.scene.nodes[target].class,
                (#[trigger] entries[i]).0,
            ) is Some && resolved_property(entries[i].1, map, modules) is Ok,
    ensures
        entries_done(classes, path, target, entries, map, modules, st).warnings == st.warnings,
        entries_done(classes, path, target, entries, map, modules, st).changes.len()
            == st.changes.len() + entries.len(),
    decreases entries.len(),
{
    if entries.len() > 0 {
        let front = entries.drop_last();
        assert forall|i: int| 0 <= i < front.len() implies type_in(
            classes,
            st.scene.nodes[target].class,
            (#[trigger] front[i]).0,
        ) is Some && resolved_property(front[i].1, map, modules) is Ok by {
            assert(front[i] == entries[i]);
        }
        lemma_clean_entries_apply(classes, path, target, front, map, modules, st);
        law_entries_keep_to_their_target(classes, path, target, front, map, modules, st);
        assert(entries[entries.len() - 1] == entries.last());
    }
}

/// A rule of whose properties nothing is found applies in full: where its target
/// is there and its values resolve, every property is set and reported, and
/// nothing is warned of. Left out are paths with an empty name, which checking
/// does not look for and which no module is written to.
pub proof fn law_a_clean_check_applies(
    classes: Classes,
    rule: Rule,
    map: TextModel,
    modules: TextModel,
    fresh: Seq<Ref>,
    st: State,
)
    requires
        found(st.scene, rule.path) is Some,
        !has_empty(split(rule.path, '.')),
        property_notes(classes, st.scene, rule, None).len() == 0,
        forall|i: int|
            0 <= i < rule.properties.len() ==> resolved_property(
                (#[trigger] rule.properties[i]).1,
                map,
                modules,
            ) is Ok,
    ensures
        properties_done(classes, rule, map, modules, fresh, st).warnings == st.warnings,
        properties_done(classes, rule, map, modules, fresh, st).changes.len() == st.changes.len()
            + rule.properties.len(),
{
    if rule.properties.len() > 0 {
        let path = rule.path;
        let target = found(st.scene, path)->0;
        lemma_split_nonempty(path, '.');
        lemma_reached(st.scene, st.scene.root, split(path, '.'));
        lemma_clean_entries(
            classes,
            path,
            st.scene.nodes[target].class,
            rule.properties,
            None,
        );
        law_growing_what_is_there(st.scene, path, "ModuleScript"@, fresh);
        assert(st.at(st.scene) == st);
        lemma_clean_entries_apply(classes, path, target, rule.properties, map, modules, st);
    }
}

// ---------------------------------------------------------------------------
// What is found
// ---------------------------------------------------------------------------

/// A rule that sets properties, none of which is the source of a module, needs its target:
/// where there is no way for its path, that is found, and found as an error at the path,
/// however much of the path is there. Where nothing is found of it, its path leads to an
/// instance.
pub proof fn law_a_lost_target_is_found_out(
    classes: Classes,
    s: Scene,
    rule: Rule,
    map: Option<TextModel>,
)
    requires
        rule.properties.len() > 0,
        forall|i: int| 0 <= i < rule.properties.len() ==> !is_source((#[trigger] rule.properties[i]).1),
    ensures
        (forall|way: Seq<Ref>| !#[trigger] leads(s, rule.path, way)) ==> property_notes(
            classes,
            s,
            rule,
            map,
        ) == seq![
            Note { severity: Severity::Error, target: rule.path, message: "no such instance"@ },
        ],
        property_notes(classes, s, rule, map).len() == 0 ==> exists|way: Seq<Ref>|
            #[trigger] leads(s, rule.path, way) && s.nodes.contains_key(way.last()),
{
    law_a_path_is_found_by_its_way(s, rule.path);
    lemma_split_nonempty(rule.path, '.');
    lemma_reached(s, s.root, split(rule.path, '.'));
    if let Some(r) = found(s, rule.path) {
        let way = choose|way: Seq<Ref>| #[trigger] leads(s, rule.path, way) && way.last() == r;
        assert(leads(s, rule.path, way) && s.nodes.contains_key(way.last()));
    }
}

/// A rule that sets the source of a module creates its target, so a path that leads nowhere
/// is no finding, as long as its first name leads from the root to an instance. Where it does
/// not, that is found as an error at the path.
pub proof fn law_a_missing_module_needs_its_service(
    classes: Classes,
    s: Scene,
    rule: Rule,
    map: Option<TextModel>,
    i: int,
)
    requires
        0 <= i < rule.properties.len(),
        is_source(rule.properties[i].1),
        forall|way: Seq<Ref>| !#[trigger] leads(s, rule.path, way),
    ensures
        (exists|r: Ref| #[trigger] first_child(s, s.root, split(rule.path, '.')[0], r))
            ==> property_notes(classes, s, rule, map).len() == 0,
        (forall|r: Ref| !#[trigger] first_child(s, s.root, split(rule.path, '.')[0], r))
            ==> property_notes(classes, s, rule, map) == seq![
            Note {
                severity: Severity::Error,
                target: rule.path,
                message: "'"@ + split(rule.path, '.')[0] + "' is not a service of this place"@,
            },
        ],
{
    let names = split(rule.path, '.');
    let service = names[0];
    law_a_path_is_found_by_its_way(s, rule.path);
    lemma_split_nonempty(rule.path, '.');
    law_split_then_join(rule.path, '.');
    assert(asks_for_source(rule.properties));
    law_join_then_split(seq![service], '.');
    law_joining(seq![service], seq![service], service, seq!['.']);
    assert(split(service, '.') == seq![service]);
    law_a_path_is_found_by_its_way(s, service);
    assert forall|r: Ref| #[trigger] first_child(s, s.root, service, r) implies leads(
        s,
        service,
        seq![s.root, r],
    ) by {
        let way = seq![s.root, r];
        assert forall|k: int| 0 <= k < seq![service].len() implies first_child(
            s,
            way[k],
            #[trigger] seq![service][k],
            way[k + 1],
        ) by {}
    }
    if exists|r: Ref| #[trigger] first_child(s, s.root, service, r) {
        let r = choose|r: Ref| #[trigger] first_child(s, s.root, service, r);
        assert(leads(s, service, seq![s.root, r]));
    }
    if let Some(r) = found(s, service) {
        let way = choose|way: Seq<Ref>| #[trigger] leads(s, service, way) && way.last() == r;
        assert(first_child(s, way[0], seq![service][0], way[1]));
        assert(first_child(s, s.root, service, way[1]));
    }
}

/// The same rule with other properties.
pub open spec fn with_properties(rule: Rule, properties: Pairs) -> Rule {
    Rule { properties, ..rule }
}

/// Where the path of a rule leads to an instance, each of its properties is looked at by
/// itself, in order: what is found of more of them is what is found of some and then of the
/// rest.
pub proof fn law_every_property_is_looked_at(
    classes: Classes,
    s: Scene,
    rule: Rule,
    some: Pairs,
    rest: Pairs,
    map: Option<TextModel>,
    way: Seq<Ref>,
)
    requires
        leads(s, rule.path, way),
    ensures
        property_notes(classes, s, with_properties(rule, some + rest), map) == property_notes(
            classes,
            s,
            with_properties(rule, some),
            map,
        ) + property_notes(classes, s, with_properties(rule, rest), map),
    decreases rest.len(),
{
    law_a_path_is_found_by_its_way(s, rule.path);
    let class = s.nodes[found(s, rule.path)->0].class;
    lemma_entry_notes_joined(classes, rule.path, class, some, rest, map);
    assert(entry_notes(classes, rule.path, class, Seq::empty(), map) =~= Seq::<Note>::empty());
    if some.len() == 0 {
        assert(some + rest =~= rest);
        assert(Seq::<Note>::empty() + property_notes(
            classes,
            s,
            with_properties(rule, rest),
            map,
        ) =~= property_notes(classes, s, with_properties(rule, rest), map));
    }
    if rest.len() == 0 {
        assert(some + rest =~= some);
        let notes = property_notes(classes, s, with_properties(rule, some), map);
        assert(notes + Seq::<Note>::empty() =~= notes);
    }
}

proof fn lemma_entry_notes_joined(
    classes: Classes,
    path: Seq<char>,
    class: Seq<char>,
    some: Pairs,
    rest: Pairs,
    map: Option<TextModel>,
)
    ensures
        entry_notes(classes, path, class, some + rest, map) == entry_notes(
            classes,
            path,
            class,
            some,
            map,
        ) + entry_notes(classes, path, class, rest, map),
    decreases rest.len(),
{
    if rest.len() == 0 {
        assert(some + rest =~= some);
        assert(entry_notes(classes, path, class, some + rest, map) =~= entry_notes(
            classes,
            path,
            class,
            some,
            map,
        ) + entry_notes(classes, path, class, rest, map));
    } else {
        let all = some + rest;
        lemma_entry_notes_joined(classes, path, class, some, rest.drop_last(), map);
        assert(all.drop_last() =~= some + rest.drop_last());
        assert(all.last() == rest.last());
        assert(entry_notes(classes, path, class, all, map) =~= entry_notes(
            classes,
            path,
            class,
            some,
            map,
        ) + entry_notes(classes, path, class, rest, map));
    }
}

/// What is found of one property of an instance. A warning, just where nothing is declared
/// for it; and where there is a map, an error, just where its value is looked up and the map
/// does not hold it: that is what resolving the value fails with. Of a value with a `$` in
/// front that is no stub nothing is found.
pub proof fn law_what_is_found_of_a_property(
    classes: Classes,
    s: Scene,
    rule: Rule,
    prop: Seq<char>,
    value: Seq<char>,
    map: TextModel,
    modules: TextModel,
    way: Seq<Ref>,
)
    requires
        leads(s, rule.path, way),
    ensures
        ({
            let one = with_properties(rule, seq![(prop, value)]);
            let plain = property_notes(classes, s, one, None);
            let all = property_notes(classes, s, one, Some(map));
            let class = s.nodes[way.last()].class;
            let label = rule.path + "."@ + prop;
            let stub = exists|key: Seq<char>| value == #[trigger] ("$require:"@ + key);
            let bare = value.len() == 0 || value[0] != '$';
            let failed = |message: Seq<char>|
                seq![Note { severity: Severity::Error, target: label, message }];
            &&& type_in(classes, class, prop) is Some ==> plain.len() == 0
            &&& type_in(classes, class, prop) is None ==> plain == seq![
                Note {
                    severity: Severity::Warning,
                    target: label,
                    message: class + " has no property '"@ + prop
                        + "' in the reflection database"@,
                },
            ]
            &&& !bare && !stub ==> all == plain
            &&& bare ==> match resolved_property(value, map, modules) {
                Ok(_) => all == plain,
                Err(e) => all == plain + failed(e),
            }
            &&& forall|key: Seq<char>|
                value == #[trigger] ("$require:"@ + key) ==> if map.contains_key(key) {
                    all == plain
                } else {
                    &&& resolved_property(value, map, modules) is Err
                    &&& all == plain + failed(resolved_property(value, map, modules)->Err_0)
                }
        }),
{
    law_a_path_is_found_by_its_way(s, rule.path);
    let class = s.nodes[way.last()].class;
    let entries = seq![(prop, value)];
    let label = rule.path + "."@ + prop;
    assert(entries.drop_last() =~= Seq::<(Seq<char>, Seq<char>)>::empty());
    let none = Seq::<Note>::empty();
    let one = with_properties(rule, entries);
    let plain = property_notes(classes, s, one, None);
    let all = property_notes(classes, s, one, Some(map));
    let unknown = if type_in(classes, class, prop) is None {
        seq![
            Note {
                severity: Severity::Warning,
                target: label,
                message: class + " has no property '"@ + prop + "' in the reflection database"@,
            },
        ]
    } else {
        none
    };
    reveal_with_fuel(entry_notes, 2);
    assert(plain =~= unknown);
    assert(all =~= plain + value_notes(Some(map), value, label));
    lemma_what_is_looked_up(map, modules, value, label);
    assert(plain + none =~= plain);
}

/// What is found of a value, told by how it resolves.
proof fn lemma_what_is_looked_up(
    map: TextModel,
    modules: TextModel,
    value: Seq<char>,
    target: Seq<char>,
)
    ensures
        ({
            let bare = value.len() == 0 || value[0] != '$';
            let stub = exists|key: Seq<char>| value == #[trigger] ("$require:"@ + key);
            let found_notes = value_notes(Some(map), value, target);
            let failed = |message: Seq<char>|
                seq![Note { severity: Severity::Error, target, message }];
            &&& !bare && !stub ==> found_notes.len() == 0
            &&& bare ==> match resolved_property(value, map, modules) {
                Ok(_) => map.contains_key(value) && found_notes.len() == 0,
                Err(e) => !map.contains_key(value) && found_notes == failed(e),
            }
            &&& forall|key: Seq<char>|
                value == #[trigger] ("$require:"@ + key) ==> if map.contains_key(key) {
                    found_notes.len() == 0
                } else {
                    &&& resolved_property(value, map, modules) is Err
                    &&& found_notes == failed(resolved_property(value, map, modules)->Err_0)
                }
        }),
{
    reveal_strlit("$");
    law_a_prefix_can_be_told("$require:"@, value);
    law_a_prefix_can_be_told("$"@, value);
    if value.len() == 0 || value[0] != '$' {
        law_a_bare_value_is_looked_up(value, map, modules);
        assert(!begins(value, "$"@)) by {
            if begins(value, "$"@) {
                assert(value.take(1)[0] == value[0]);
            }
        }
        assert(!begins(value, "$require:"@)) by {
            if begins(value, "$require:"@) {
                reveal_strlit("$require:");
                assert(value.take(9)[0] == value[0]);
            }
        }
    } else {
        assert(value.take(1) =~= "$"@);
    }
    assert forall|key: Seq<char>|
        value == #[trigger] ("$require:"@ + key) implies module_named(value) is None && after(
        value,
        "$require:"@,
    ) == key && (!map.contains_key(key) ==> resolved_property(value, map, modules) == Err::<
        Resolution,
        Seq<char>,
    >(not_in_map(key))) && begins(value, "$require:"@) by {
        law_a_stub_requires_the_id(key, key, map, modules);
        law_a_prefix_can_be_told("$require:"@, key);
    }
}

/// What is found of the values of keys, once their module was evaluated: each is looked at
/// by itself, in order, and of one there is an error just where there is a map, the value is
/// looked up and the map does not hold it.
pub proof fn law_every_key_is_looked_at(
    path: Seq<char>,
    some: Pairs,
    rest: Pairs,
    key: Seq<char>,
    value: Seq<char>,
    map: TextModel,
    text: String,
)
    ensures
        ({
            let r = Ok::<String, KeysError>(text);
            let one = evaluated_notes(path, seq![(key, value)], Some(map), r);
            let bare = value.len() == 0 || value[0] != '$';
            let stub = exists|k: Seq<char>| value == #[trigger] ("$require:"@ + k);
            &&& forall|m: Option<TextModel>| #[trigger]
                evaluated_notes(path, some + rest, m, r) == evaluated_notes(path, some, m, r)
                    + evaluated_notes(path, rest, m, r)
            &&& evaluated_notes(path, some, None, r).len() == 0
            &&& bare ==> match resolved_key(value, map) {
                Ok(_) => one.len() == 0,
                Err(e) => one == seq![
                    Note {
                        severity: Severity::Error,
                        target: path + "["@ + key + "]"@,
                        message: e,
                    },
                ],
            }
            &&& !bare && !stub ==> one.len() == 0
            &&& forall|k: Seq<char>|
                value == #[trigger] ("$require:"@ + k) ==> if map.contains_key(k) {
                    one.len() == 0
                } else {
                    one == seq![
                        Note {
                            severity: Severity::Error,
                            target: path + "["@ + key + "]"@,
                            message: "'"@ + k + "' is not in the asset map"@,
                        },
                    ]
                }
        }),
{
    let r = Ok::<String, KeysError>(text);
    let label = path + "["@ + key + "]"@;
    assert forall|m: Option<TextModel>| #[trigger]
        evaluated_notes(path, some + rest, m, r) == evaluated_notes(path, some, m, r)
            + evaluated_notes(path, rest, m, r) by {
        lemma_key_notes_joined(path, some, rest, m);
    }
    lemma_no_map_no_key_notes(path, some);
    reveal_with_fuel(key_value_notes, 2);
    let entries = seq![(key, value)];
    assert(entries.drop_last() =~= Seq::<(Seq<char>, Seq<char>)>::empty());
    assert(evaluated_notes(path, entries, Some(map), r) =~= value_notes(Some(map), value, label));
    lemma_what_is_looked_up(map, map, value, label);
    if value.len() == 0 || value[0] != '$' {
        law_a_bare_value_is_looked_up(value, map, map);
    }
    assert forall|k: Seq<char>|
        value == #[trigger] ("$require:"@ + k) && !map.contains_key(k) implies resolved_property(
        value,
        map,
        map,
    ) == Err::<Resolution, Seq<char>>("'"@ + k + "' is not in the asset map"@) by {
        law_a_stub_requires_the_id(k, k, map, map);
    }
}

proof fn lemma_key_notes_joined(path: Seq<char>, some: Pairs, rest: Pairs, map: Option<TextModel>)
    ensures
        key_value_notes(path, some + rest, map) == key_value_notes(path, some, map)
            + key_value_notes(path, rest, map),
    decreases rest.len(),
{
    if rest.len() == 0 {
        assert(some + rest =~= some);
        assert(key_value_notes(path, some, map) + Seq::<Note>::empty() =~= key_value_notes(
            path,
            some,
            map,
        ));
    } else {
        let all = some + rest;
        lemma_key_notes_joined(path, some, rest.drop_last(), map);
        assert(all.drop_last() =~= some + rest.drop_last());
        assert(key_value_notes(path, all, map) =~= key_value_notes(path, some, map)
            + key_value_notes(path, rest, map));
    }
}

proof fn lemma_no_map_no_key_notes(path: Seq<char>, keys: Pairs)
    ensures
        key_value_notes(path, keys, None).len() == 0,
    decreases keys.len(),
{
    if keys.len() > 0 {
        lemma_no_map_no_key_notes(path, keys.drop_last());
    }
}

/// What is found of the keys of a rule, by where its path leads. A path that leads nowhere,
/// an instance that is no ModuleScript and one without a source are errors at the path. A
/// module that cannot be rewritten is one too, with what rewriting it fails with, and of one
/// that can be only the values are looked at.
pub proof fn law_what_is_found_of_keys(
    s: Scene,
    rule: Rule,
    map: Option<TextModel>,
    found_notes: Seq<Note>,
)
    requires
        rule.keys.len() > 0,
        keys_checked(s, rule, map, found_notes),
    ensures
        (forall|way: Seq<Ref>| !#[trigger] leads(s, rule.path, way)) ==> found_notes == seq![
            Note { severity: Severity::Error, target: rule.path, message: "no such instance"@ },
        ],
        forall|way: Seq<Ref>| #[trigger]
            leads(s, rule.path, way) ==> {
                let node = s.nodes[way.last()];
                if node.class != "ModuleScript"@ {
                    found_notes == seq![
                        Note {
                            severity: Severity::Error,
                            target: rule.path,
                            message: "'keys' needs a ModuleScript, found a "@ + node.class,
                        },
                    ]
                } else if !node.props.contains_key("Source"@) || !(node.props["Source"@] is Text) {
                    found_notes == seq![
                        Note {
                            severity: Severity::Error,
                            target: rule.path,
                            message: "ModuleScript has no Source"@,
                        },
                    ]
                } else {
                    exists|r: Rewriting|
                        {
                            &&& #[trigger] may_rewrite(
                                node.props["Source"@]->Text_0,
                                Seq::empty(),
                                r,
                            )
                            &&& match r {
                                Ok(_) => found_notes == key_value_notes(rule.path, rule.keys, map),
                                Err(e) => found_notes == seq![
                                    Note {
                                        severity: Severity::Error,
                                        target: rule.path,
                                        message: keys_message(e),
                                    },
                                ],
                            }
                        }
                }
            },
{
    law_a_path_is_found_by_its_way(s, rule.path);
    assert forall|way: Seq<Ref>| #[trigger] leads(s, rule.path, way) implies found(s, rule.path)
        == Some(way.last()) by {}
    if let Ok((_, source)) = keys_target(s, rule.path) {
        let r = choose|r: Rewriting|
            {
                &&& #[trigger] may_rewrite(source, Seq::empty(), r)
                &&& found_notes == evaluated_notes(rule.path, rule.keys, map, r)
            };
        assert(may_rewrite(source, Seq::empty(), r));
    }
}

/// Every rule is checked, by itself and in order: what can be found of more rules is what can
/// be found of some and then of the rest, and of one rule it is what is found of its
/// properties and then of its keys.
pub proof fn law_every_rule_is_checked(
    classes: Classes,
    s: Scene,
    some: Seq<Rule>,
    rest: Seq<Rule>,
    rule: Rule,
    map: Option<TextModel>,
    all: Seq<Note>,
)
    ensures
        checked(classes, s, some + rest, map, all) <==> exists|x: Seq<Note>, y: Seq<Note>|
            {
                &&& #[trigger] checked(classes, s, some, map, x)
                &&& #[trigger] checked(classes, s, rest, map, y)
                &&& all == x + y
            },
        checked(classes, s, seq![rule], map, all) <==> exists|last: Seq<Note>|
            {
                &&& #[trigger] keys_checked(s, rule, map, last)
                &&& all == property_notes(classes, s, rule, map) + last
            },
{
    if checked(classes, s, some + rest, map, all) {
        lemma_check_parted(classes, s, some, rest, map, all);
    }
    if exists|x: Seq<Note>, y: Seq<Note>|
        {
            &&& #[trigger] checked(classes, s, some, map, x)
            &&& #[trigger] checked(classes, s, rest, map, y)
            &&& all == x + y
        } {
        let (x, y) = choose|x: Seq<Note>, y: Seq<Note>|
            {
                &&& #[trigger] checked(classes, s, some, map, x)
                &&& #[trigger] checked(classes, s, rest, map, y)
                &&& all == x + y
            };
        lemma_check_joined(classes, s, some, rest, map, x, y);
    }
    let one = seq![rule];
    let props = property_notes(classes, s, rule, map);
    let none = Seq::<Note>::empty();
    assert(one.drop_last() =~= Seq::<Rule>::empty());
    assert(none + props =~= props);
    if checked(classes, s, one, map, all) {
        let (before, last) = choose|before: Seq<Note>, last: Seq<Note>|
            {
                &&& checked(classes, s, one.drop_last(), map, before)
                &&& #[trigger] keys_checked(s, one.last(), map, last)
                &&& all == #[trigger] (before + property_notes(classes, s, one.last(), map)) + last
            };
        assert(keys_checked(s, rule, map, last));
        assert(before =~= none);
    }
    if exists|last: Seq<Note>|
        {
            &&& #[trigger] keys_checked(s, rule, map, last)
            &&& all == property_notes(classes, s, rule, map) + last
        } {
        let last = choose|last: Seq<Note>|
            {
                &&& #[trigger] keys_checked(s, rule, map, last)
                &&& all == property_notes(classes, s, rule, map) + last
            };
        assert(checked(classes, s, one.drop_last(), map, none));
        assert(keys_checked(s, one.last(), map, last));
        assert(all == (none + property_notes(classes, s, one.last(), map)) + last);
    }
}

proof fn lemma_check_parted(
    classes: Classes,
    s: Scene,
    some: Seq<Rule>,
    rest: Seq<Rule>,
    map: Option<TextModel>,
    all: Seq<Note>,
) -> (parts: (Seq<Note>, Seq<Note>))
    requires
        checked(classes, s, some + rest, map, all),
    ensures
        checked(classes, s, some, map, parts.0),
        checked(classes, s, rest, map, parts.1),
        all == parts.0 + parts.1,
    decreases rest.len(),
{
    let none = Seq::<Note>::empty();
    if rest.len() == 0 {
        assert(some + rest =~= some);
        assert(all + none =~= all);
        (all, none)
    } else {
        let rules = some + rest;
        let (before, last) = choose|before: Seq<Note>, last: Seq<Note>|
            {
                &&& checked(classes, s, rules.drop_last(), map, before)
                &&& #[trigger] keys_checked(s, rules.last(), map, last)
                &&& all == #[trigger] (before + property_notes(classes, s, rules.last(), map)) + last
            };
        assert(rules.drop_last() =~= some + rest.drop_last());
        assert(rules.last() == rest.last());
        let props = property_notes(classes, s, rest.last(), map);
        let (x, y) = lemma_check_parted(classes, s, some, rest.drop_last(), map, before);
        let z = (y + props) + last;
        assert(keys_checked(s, rest.last(), map, last));
        assert(checked(classes, s, rest, map, z));
        assert(all =~= x + z);
        (x, z)
    }
}

proof fn lemma_check_joined(
    classes: Classes,
    s: Scene,
    some: Seq<Rule>,
    rest: Seq<Rule>,
    map: Option<TextModel>,
    x: Seq<Note>,
    y: Seq<Note>,
)
    requires
        checked(classes, s, some, map, x),
        checked(classes, s, rest, map, y),
    ensures
        checked(classes, s, some + rest, map, x + y),
    decreases rest.len(),
{
    if rest.len() == 0 {
        assert(some + rest =~= some);
        assert(x + y =~= x);
    } else {
        let rules = some + rest;
        let (before, last) = choose|before: Seq<Note>, last: Seq<Note>|
            {
                &&& checked(classes, s, rest.drop_last(), map, before)
                &&& #[trigger] keys_checked(s, rest.last(), map, last)
                &&& y == #[trigger] (before + property_notes(classes, s, rest.last(), map)) + last
            };
        lemma_check_joined(classes, s, some, rest.drop_last(), map, x, before);
        assert(rules.drop_last() =~= some + rest.drop_last());
        assert(rules.last() == rest.last());
        let props = property_notes(classes, s, rest.last(), map);
        assert(keys_checked(s, rules.last(), map, last));
        assert(x + y =~= ((x + before) + props) + last);
    }
}

/// What is found of one of the rules is among what is found of all of them.
proof fn lemma_findings_of_one_rule(
    classes: Classes,
    s: Scene,
    rules: Seq<Rule>,
    map: Option<TextModel>,
    all: Seq<Note>,
    i: int,
) -> (last: Seq<Note>)
    requires
        checked(classes, s, rules, map, all),
        0 <= i < rules.len(),
    ensures
        keys_checked(s, rules[i], map, last),
        forall|note: Note| #[trigger]
            property_notes(classes, s, rules[i], map).contains(note) ==> all.contains(note),
        forall|note: Note| #[trigger] last.contains(note) ==> all.contains(note),
    decreases rules.len(),
{
    let (before, last) = choose|before: Seq<Note>, last: Seq<Note>|
        {
            &&& checked(classes, s, rules.drop_last(), map, before)
            &&& #[trigger] keys_checked(s, rules.last(), map, last)
            &&& all == #[trigger] (before + property_notes(classes, s, rules.last(), map)) + last
        };
    let props = property_notes(classes, s, rules.last(), map);
    assert forall|note: Note| before.contains(note) || props.contains(note) || last.contains(
        note,
    ) implies #[trigger] all.contains(note) by {
        if before.contains(note) {
            let k = choose|k: int| 0 <= k < before.len() && before[k] == note;
            assert(all[k] == note);
        } else if props.contains(note) {
            let k = choose|k: int| 0 <= k < props.len() && props[k] == note;
            assert(all[before.len() + k] == note);
        } else {
            let k = choose|k: int| 0 <= k < last.len() && last[k] == note;
            assert(all[before.len() + props.len() + k] == note);
        }
    }
    if i == rules.len() - 1 {
        last
    } else {
        assert(rules.drop_last()[i] == rules[i]);
        lemma_findings_of_one_rule(classes, s, rules.drop_last(), map, before, i)
    }
}

/// A place in which an instance was renamed does not pass: where there is no way for the path
/// of one of the rules, and the rule is not one that creates its target, an error at that
/// path is among the findings, whatever else is found.
pub proof fn law_a_renamed_instance_is_found_out(
    classes: Classes,
    s: Scene,
    rules: Seq<Rule>,
    map: Option<TextModel>,
    all: Seq<Note>,
    i: int,
)
    requires
        checked(classes, s, rules, map, all),
        0 <= i < rules.len(),
        forall|way: Seq<Ref>| !#[trigger] leads(s, rules[i].path, way),
        rules[i].keys.len() > 0 || (rules[i].properties.len() > 0 && forall|k: int|
            0 <= k < rules[i].properties.len() ==> !is_source(
                (#[trigger] rules[i].properties[k]).1,
            )),
    ensures
        all.contains(
            Note {
                severity: Severity::Error,
                target: rules[i].path,
                message: "no such instance"@,
            },
        ),
{
    let rule = rules[i];
    let note = Note {
        severity: Severity::Error,
        target: rule.path,
        message: "no such instance"@,
    };
    let last = lemma_findings_of_one_rule(classes, s, rules, map, all, i);
    assert(seq![note][0] == note);
    if rule.keys.len() > 0 {
        law_what_is_found_of_keys(s, rule, map, last);
        assert(last.contains(note));
    } else {
        law_a_lost_target_is_found_out(classes, s, rule, map);
        assert(property_notes(classes, s, rule, map).contains(note));
    }
}

/// What a finding says is what stands in it, and what sources hold is what is checked against:
/// with sources, their map, even an empty one, and without them none.
pub proof fn law_what_is_checked_against<S: Sources>(sources: &S, findings: Seq<Finding>, i: int)
    ensures
        map_in(Some(sources)) == Some(sources.map()),
        map_in(None::<&S>) is None,
        notes(findings).len() == findings.len(),
        0 <= i < findings.len() ==> {
            let note = notes(findings)[i];
            &&& note.severity == findings[i].severity
            &&& note.target == findings[i].target@
            &&& note.message == findings[i].message@
        },
        severity_text(Severity::Error) == "error"@,
        severity_text(Severity::Warning) == "warning"@,
{
}

} // verus!
