//! The injection rules: what to change, and where.

use crate::resolve::{law_a_bare_value_is_looked_up, law_a_module_is_known_by_name};
use crate::resolve::{law_a_stub_requires_the_id, law_no_other_value_names_a_module};
use crate::resolve::{module_named, module_reference, resolved_key, resolved_property};
use crate::text::{begins, chars_of, law_a_prefix_can_be_told, starts_with};
use crate::text_map::{Pairs, TextMap, TextSet};
use vstd::prelude::*;

verus! {

/// A whole set of rules.
#[derive(Debug)]
pub struct Config {
    pub injections: Vec<Injection>,
}

/// One rule, targeting one instance.
#[derive(Debug)]
pub struct Injection {
    /// Dot-separated path from the root of the place, such as
    /// `ReplicatedStorage.Assets`.
    pub roblox_path: String,
    /// Properties to set on that instance, such as `Image` to `ui.ShopIcon`. They
    /// are taken in the order of their names, so that two runs can be compared.
    pub properties: TextMap,
    /// Keys to set inside the table that a ModuleScript returns, such as
    /// `Sounds.Bang` to `audio.Bang`.
    pub keys: TextMap,
}

/// What a rule says.
pub struct Rule {
    pub path: Seq<char>,
    pub properties: Pairs,
    pub keys: Pairs,
}

impl Injection {
    /// What the rule says.
    pub open spec fn rule(self) -> Rule {
        Rule {
            path: self.roblox_path@,
            properties: self.properties.pairs(),
            keys: self.keys.pairs(),
        }
    }
}

/// What a list of rules says.
pub open spec fn rules_of(injections: Seq<Injection>) -> Seq<Rule> {
    Seq::new(injections.len(), |i: int| injections[i].rule())
}

/// Whether a rule would change something.
pub open spec fn acts(rule: Rule) -> bool {
    rule.properties.len() > 0 || rule.keys.len() > 0
}

/// The rules that would change something, in order.
pub open spec fn acting(rules: Seq<Rule>) -> Seq<Rule>
    decreases rules.len(),
{
    if rules.len() == 0 {
        Seq::empty()
    } else if acts(rules.last()) {
        acting(rules.drop_last()).push(rules.last())
    } else {
        acting(rules.drop_last())
    }
}

impl Config {
    /// The rules that would change something, in order.
    pub open spec fn active_rules(self) -> Seq<Rule> {
        acting(rules_of(self.injections@))
    }
}

/// What rules that are held by reference say.
pub open spec fn rules_in(injections: Seq<&Injection>) -> Seq<Rule> {
    Seq::new(injections.len(), |i: int| injections[i].rule())
}

/// Whether the value of a property is looked up in the map.
pub open spec fn looks_up_property(value: Seq<char>) -> bool {
    module_named(value) is None && (!begins(value, "$"@) || begins(value, "$require:"@))
}

/// Whether the value of a key is looked up in the map: all that begins with a `$`
/// is a literal.
pub open spec fn looks_up_key(value: Seq<char>) -> bool {
    !begins(value, "$"@)
}

/// Whether a rule looks something up in the map.
pub open spec fn rule_looks_up(rule: Rule) -> bool {
    ||| exists|i: int|
        0 <= i < rule.properties.len() && looks_up_property((#[trigger] rule.properties[i]).1)
    ||| exists|i: int| 0 <= i < rule.keys.len() && looks_up_key((#[trigger] rule.keys[i]).1)
}

/// Whether a rule asks for the source of a module.
pub open spec fn rule_asks_for(rule: Rule, name: Seq<char>) -> bool {
    exists|i: int|
        0 <= i < rule.properties.len() && module_named((#[trigger] rule.properties[i]).1) == Some(
            name,
        )
}

/// Whether one of the rules looks something up in the map.
pub open spec fn some_look_up(rules: Seq<Rule>) -> bool {
    exists|i: int| 0 <= i < rules.len() && rule_looks_up(#[trigger] rules[i])
}

/// The modules that the rules ask for.
pub open spec fn asked_for(rules: Seq<Rule>) -> Set<Seq<char>> {
    Set::new(
        |name: Seq<char>|
            exists|i: int| 0 <= i < rules.len() && rule_asks_for(#[trigger] rules[i], name),
    )
}

/// What a config cannot be applied without.
#[derive(Debug, PartialEq, Eq)]
pub struct Needs {
    /// A rule looks a key up in the map.
    pub asset_map: bool,
    /// The names of the modules that rules ask for, such as `assets`.
    pub modules: TextSet,
}

impl Default for Needs {
    /// Nothing.
    fn default() -> (r: Needs)
        ensures
            !r.asset_map,
            r.modules@ == Set::<Seq<char>>::empty(),
    {
        Needs { asset_map: false, modules: TextSet::new() }
    }
}

impl Clone for Needs {
    fn clone(&self) -> (r: Needs)
        ensures
            r.asset_map == self.asset_map,
            r.modules@ == self.modules@,
    {
        Needs { asset_map: self.asset_map, modules: self.modules.clone() }
    }
}

impl Default for Config {
    /// No rules.
    fn default() -> (r: Config)
        ensures
            r.injections@.len() == 0,
    {
        Config { injections: Vec::new() }
    }
}

impl Config {
    /// The rules that would change something. One with neither properties nor keys
    /// is a leftover, not an error.
    pub fn active(&self) -> (r: Vec<&Injection>)
        ensures
            rules_in(r@) == self.active_rules(),
    {
        let ghost all = rules_of(self.injections@);
        let mut r: Vec<&Injection> = Vec::new();
        let mut i: usize = 0;
        assert(rules_in(r@) =~= acting(all.take(0)));
        while i < self.injections.len()
            invariant
                i <= self.injections@.len(),
                all == rules_of(self.injections@),
                rules_in(r@) == acting(all.take(i as int)),
            decreases self.injections@.len() - i,
        {
            let ghost upto = all.take(i as int + 1);
            assert(upto.drop_last() =~= all.take(i as int));
            assert(upto.last() == self.injections@[i as int].rule());
            let injection: &Injection = &self.injections[i];
            if !injection.properties.is_empty() || !injection.keys.is_empty() {
                let ghost before = r@;
                r.push(injection);
                assert(rules_in(r@) =~= rules_in(before).push(injection.rule()));
            }
            i = i + 1;
        }
        assert(all.take(all.len() as int) =~= all);
        r
    }

    /// What this config needs to be applied at all. Asked before the place is
    /// touched, so that a flag that was forgotten fails at once and by name.
    pub fn needs(&self) -> (r: Needs)
        ensures
            r.asset_map == some_look_up(self.active_rules()),
            r.modules@ == asked_for(self.active_rules()),
    {
        let active: Vec<&Injection> = self.active();
        let ghost rules = self.active_rules();
        let mut needs: Needs = Needs::default();
        let mut i: usize = 0;
        assert(needs.modules@ =~= asked_for(rules.take(0)));
        while i < active.len()
            invariant
                i <= active@.len(),
                rules == rules_in(active@),
                needs.asset_map == some_look_up(rules.take(i as int)),
                needs.modules@ == asked_for(rules.take(i as int)),
            decreases active@.len() - i,
        {
            let ghost rule = rules[i as int];
            let ghost before = needs;
            assert(rule == active@[i as int].rule());
            let lookup: bool = active[i].looks_up();
            let mut modules: TextSet = needs.modules;
            active[i].collect_modules(&mut modules);
            needs = Needs { asset_map: needs.asset_map || lookup, modules };
            proof {
                let upto = rules.take(i as int + 1);
                let less = rules.take(i as int);
                assert(upto =~= less.push(rule));
                assert(upto[i as int] == rule);
                assert forall|k: int| 0 <= k < i implies upto[k] == less[k] by {}
                if some_look_up(less) {
                    let k = choose|k: int| 0 <= k < less.len() && rule_looks_up(
                        #[trigger] less[k],
                    );
                    assert(rule_looks_up(upto[k]));
                }
                if some_look_up(upto) && !rule_looks_up(rule) {
                    let k = choose|k: int| 0 <= k < upto.len() && rule_looks_up(
                        #[trigger] upto[k],
                    );
                    assert(rule_looks_up(less[k]));
                }
                assert forall|name: Seq<char>| #[trigger]
                    asked_for(upto).contains(name) == (asked_for(less).contains(name)
                        || rule_asks_for(rule, name)) by {
                    if asked_for(upto).contains(name) {
                        let k = choose|k: int| 0 <= k < upto.len() && rule_asks_for(
                            #[trigger] upto[k],
                            name,
                        );
                        if k < i {
                            assert(rule_asks_for(less[k], name));
                        }
                    }
                    if asked_for(less).contains(name) {
                        let k = choose|k: int| 0 <= k < less.len() && rule_asks_for(
                            #[trigger] less[k],
                            name,
                        );
                        assert(rule_asks_for(upto[k], name));
                    }
                    if rule_asks_for(rule, name) {
                        assert(rule_asks_for(upto[i as int], name));
                    }
                }
                assert(needs.modules@ =~= asked_for(upto));
            }
            i = i + 1;
        }
        assert(rules.take(rules.len() as int) =~= rules);
        needs
    }
}

impl Injection {
    /// Whether the rule looks something up in the map.
    fn looks_up(&self) -> (r: bool)
        ensures
            r == rule_looks_up(self.rule()),
    {
        let ghost rule = self.rule();
        let mut i: usize = 0;
        while i < self.properties.len()
            invariant
                i <= self.properties.pairs().len(),
                rule == self.rule(),
                forall|k: int|
                    0 <= k < i ==> !looks_up_property((#[trigger] rule.properties[k]).1),
            decreases self.properties.pairs().len() - i,
        {
            let value: &str = self.properties.value(i);
            assert(value@ == rule.properties[i as int].1);
            if module_reference(value).is_none() && (!starts_with(value, "$") || starts_with(
                value,
                "$require:",
            )) {
                return true;
            }
            i = i + 1;
        }
        let mut j: usize = 0;
        while j < self.keys.len()
            invariant
                j <= self.keys.pairs().len(),
                rule == self.rule(),
                forall|k: int| 0 <= k < j ==> !looks_up_key((#[trigger] rule.keys[k]).1),
            decreases self.keys.pairs().len() - j,
        {
            let value: &str = self.keys.value(j);
            assert(value@ == rule.keys[j as int].1);
            if !starts_with(value, "$") {
                return true;
            }
            j = j + 1;
        }
        false
    }

    /// Add the modules that the rule asks for.
    fn collect_modules(&self, modules: &mut TextSet)
        ensures
            forall|name: Seq<char>| #[trigger]
                final(modules)@.contains(name) == (old(modules)@.contains(name) || rule_asks_for(
                    self.rule(),
                    name,
                )),
    {
        let ghost rule = self.rule();
        let mut i: usize = 0;
        while i < self.properties.len()
            invariant
                i <= self.properties.pairs().len(),
                rule == self.rule(),
                forall|name: Seq<char>| #[trigger]
                    modules@.contains(name) == (old(modules)@.contains(name) || exists|k: int|
                        0 <= k < i && module_named((#[trigger] rule.properties[k]).1) == Some(
                            name,
                        )),
            decreases self.properties.pairs().len() - i,
        {
            let value: &str = self.properties.value(i);
            assert(value@ == rule.properties[i as int].1);
            if let Some(name) = module_reference(value) {
                modules.insert(name);
            }
            i = i + 1;
        }
    }
}

/// A config whose needs are met asks for no module that is not there, and where it
/// needs no map, no key of it depends on one.
pub proof fn law_needs_that_are_met(
    rules: Seq<Rule>,
    map: Map<Seq<char>, Seq<char>>,
    modules: Map<Seq<char>, Seq<char>>,
)
    requires
        asked_for(rules).subset_of(modules.dom()),
    ensures
        forall|i: int, k: int|
            0 <= i < rules.len() && 0 <= k < rules[i].properties.len() && module_named(
                (#[trigger] rules[i].properties[k]).1,
            ) is Some ==> resolved_property(rules[i].properties[k].1, map, modules) is Ok,
        !some_look_up(rules) ==> forall|i: int, k: int|
            0 <= i < rules.len() && 0 <= k < rules[i].keys.len() ==> resolved_key(
                (#[trigger] rules[i].keys[k]).1,
                map,
            ) is Ok,
{
    assert forall|i: int, k: int|
        0 <= i < rules.len() && 0 <= k < rules[i].properties.len() && module_named(
            (#[trigger] rules[i].properties[k]).1,
        ) is Some implies resolved_property(rules[i].properties[k].1, map, modules) is Ok by {
        let name = module_named(rules[i].properties[k].1)->0;
        assert(rule_asks_for(rules[i], name));
        assert(asked_for(rules).contains(name));
    }
    if !some_look_up(rules) {
        assert forall|i: int, k: int|
            0 <= i < rules.len() && 0 <= k < rules[i].keys.len() implies resolved_key(
            (#[trigger] rules[i].keys[k]).1,
            map,
        ) is Ok by {
            assert(!rule_looks_up(rules[i]));
            assert(!looks_up_key(rules[i].keys[k].1));
        }
    }
}

/// `c` in lower case, where it is an ASCII letter.
pub open spec fn ascii_lower(c: char) -> char {
    if 'A' <= c && c <= 'Z' {
        ((c as u32) + 32) as char
    } else {
        c
    }
}

/// A text in lower case, as far as it is ASCII letters.
pub open spec fn lowered(s: Seq<char>) -> Seq<char> {
    Seq::new(s.len(), |i: int| ascii_lower(s[i]))
}

/// Whether a file with this extension holds TOML, in whatever case it is spelled.
/// Every other file holds JSON.
pub fn is_toml(extension: &str) -> (r: bool)
    ensures
        r == (lowered(extension@) == "toml"@),
{
    let chars: Vec<char> = chars_of(extension);
    proof {
        reveal_strlit("toml");
    }
    let ghost lower = lowered(extension@);
    let r: bool = chars.len() == 4 && (chars[0] == 't' || chars[0] == 'T') && (chars[1] == 'o'
        || chars[1] == 'O') && (chars[2] == 'm' || chars[2] == 'M') && (chars[3] == 'l' || chars[3]
        == 'L');
    proof {
        let toml = "toml"@;
        assert(toml.len() == 4 && toml[0] == 't' && toml[1] == 'o' && toml[2] == 'm' && toml[3]
            == 'l');
        assert(lower.len() == extension@.len());
        if extension@.len() == 4 {
            lemma_lower(extension@[0], 't', 'T');
            lemma_lower(extension@[1], 'o', 'O');
            lemma_lower(extension@[2], 'm', 'M');
            lemma_lower(extension@[3], 'l', 'L');
            if r {
                assert(lower =~= toml);
            } else {
                assert(lower[0] != toml[0] || lower[1] != toml[1] || lower[2] != toml[2] || lower[3]
                    != toml[3]);
            }
        }
    }
    r
}

/// What has a letter for its lower case is that letter in either case.
proof fn lemma_lower(c: char, small: char, large: char)
    requires
        'a' <= small && small <= 'z',
        large as u32 + 32 == small as u32,
    ensures
        (ascii_lower(c) == small) == (c == small || c == large),
{
}

/// A rule says what stands in it: its path, and its properties and keys in the order of their
/// names, none of them left out and each with its own value.
pub proof fn law_a_rule_says_what_it_holds(injection: Injection)
    ensures
        injection.rule().path == injection.roblox_path@,
        injection.rule().properties == injection.properties.pairs(),
        injection.rule().keys == injection.keys.pairs(),
{
}

/// Which rules are active: each rule that has a property or a key, and no other, in the order
/// in which they stand. What is active of more rules is what is active of some and then of the
/// rest.
pub proof fn law_which_rules_are_active(
    some: Seq<Injection>,
    rest: Seq<Injection>,
    one: Injection,
    config: Config,
)
    ensures
        acting(rules_of(some + rest)) == acting(rules_of(some)) + acting(rules_of(rest)),
        acting(rules_of(seq![one])) == if one.properties.pairs().len() > 0
            || one.keys.pairs().len() > 0 {
            seq![one.rule()]
        } else {
            Seq::empty()
        },
        config.active_rules() == acting(rules_of(config.injections@)),
        forall|i: int|
            0 <= i < config.injections@.len() && (config.injections@[i].properties.pairs().len() > 0
                || config.injections@[i].keys.pairs().len() > 0) ==> config.active_rules().contains(
                (#[trigger] config.injections@[i]).rule(),
            ),
{
    assert(rules_of(some + rest) =~= rules_of(some) + rules_of(rest));
    lemma_acting_joined(rules_of(some), rules_of(rest));
    let single = rules_of(seq![one]);
    assert(single.drop_last() =~= Seq::<Rule>::empty());
    assert(single.last() == one.rule());
    reveal_with_fuel(acting, 2);
    assert(acting(single) =~= if acts(one.rule()) {
        seq![one.rule()]
    } else {
        Seq::empty()
    });
    let all = rules_of(config.injections@);
    assert forall|i: int|
        0 <= i < config.injections@.len() && acts((#[trigger] config.injections@[i]).rule()) implies acting(
        all,
    ).contains(config.injections@[i].rule()) by {
        assert(all[i] == config.injections@[i].rule());
        lemma_acting_keeps(all, i);
    }
}

proof fn lemma_acting_joined(some: Seq<Rule>, rest: Seq<Rule>)
    ensures
        acting(some + rest) == acting(some) + acting(rest),
    decreases rest.len(),
{
    let all = some + rest;
    if rest.len() == 0 {
        assert(all =~= some);
        assert(acting(some) + Seq::empty() =~= acting(some));
    } else {
        lemma_acting_joined(some, rest.drop_last());
        assert(all.drop_last() =~= some + rest.drop_last());
        assert(acting(all) =~= acting(some) + acting(rest));
    }
}

proof fn lemma_acting_keeps(rules: Seq<Rule>, i: int)
    requires
        0 <= i < rules.len(),
        acts(rules[i]),
    ensures
        acting(rules).contains(rules[i]),
    decreases rules.len(),
{
    let front = rules.drop_last();
    if i < front.len() {
        lemma_acting_keeps(front, i);
        assert(front[i] == rules[i]);
        let k = choose|k: int| 0 <= k < acting(front).len() && acting(front)[k] == rules[i];
        assert(acting(rules)[k] == rules[i]);
    } else {
        assert(acting(rules)[acting(rules).len() - 1] == rules[i]);
    }
}

/// What a config needs. The map, just where a value that is looked up stands in it: one
/// without a `$` in front, or among the properties a stub. A module, just where a property
/// asks for its source by that name.
pub proof fn law_what_is_needed(rules: Seq<Rule>, i: int, k: int, name: Seq<char>)
    ensures
        0 <= i < rules.len() && 0 <= k < rules[i].properties.len() ==> {
            let value = rules[i].properties[k].1;
            &&& value.len() == 0 || value[0] != '$' ==> some_look_up(rules)
            &&& forall|key: Seq<char>|
                value == #[trigger] ("$require:"@ + key) ==> some_look_up(rules)
            &&& value == "$module:"@ + name ==> asked_for(rules).contains(name)
            &&& value == "$module"@ ==> asked_for(rules).contains("assets"@)
            &&& value == "$rbxsync_module"@ ==> asked_for(rules).contains("ids"@)
        },
        0 <= i < rules.len() && 0 <= k < rules[i].keys.len() ==> {
            let value = rules[i].keys[k].1;
            value.len() == 0 || value[0] != '$' ==> some_look_up(rules)
        },
        some_look_up(rules) ==> {
            ||| exists|n: int, m: int|
                {
                    &&& 0 <= n < rules.len() && 0 <= m < rules[n].properties.len()
                    &&& {
                        let value = (#[trigger] rules[n].properties[m]).1;
                        value.len() == 0 || value[0] != '$' || begins(value, "$require:"@)
                    }
                }
            ||| exists|n: int, m: int|
                {
                    &&& 0 <= n < rules.len() && 0 <= m < rules[n].keys.len()
                    &&& {
                        let value = (#[trigger] rules[n].keys[m]).1;
                        value.len() == 0 || value[0] != '$'
                    }
                }
        },
        asked_for(rules).contains(name) ==> exists|n: int, m: int|
            {
                &&& 0 <= n < rules.len() && 0 <= m < rules[n].properties.len()
                &&& {
                    let value = (#[trigger] rules[n].properties[m]).1;
                    ||| value == "$module:"@ + name
                    ||| value == "$module"@ && name == "assets"@
                    ||| value == "$rbxsync_module"@ && name == "ids"@
                }
            },
{
    if 0 <= i < rules.len() && 0 <= k < rules[i].properties.len() {
        let value = rules[i].properties[k].1;
        lemma_dollar_in_front(value);
        if value.len() == 0 || value[0] != '$' {
            law_a_bare_value_is_looked_up(value, Map::empty(), Map::empty());
            assert(looks_up_property(value));
            assert(rule_looks_up(rules[i]));
        }
        assert forall|key: Seq<char>| value == #[trigger] ("$require:"@ + key) implies some_look_up(
            rules,
        ) by {
            law_a_stub_requires_the_id(key, key, Map::empty(), Map::empty());
            law_a_prefix_can_be_told("$require:"@, key);
            assert(looks_up_property(value));
            assert(rule_looks_up(rules[i]));
        }
        law_a_module_is_known_by_name(name, Map::empty(), Map::empty());
        if let Some(asked) = module_named(value) {
            assert(rule_asks_for(rules[i], asked));
            assert(asked_for(rules).contains(asked));
        }
    }
    if 0 <= i < rules.len() && 0 <= k < rules[i].keys.len() {
        let value = rules[i].keys[k].1;
        lemma_dollar_in_front(value);
        if value.len() == 0 || value[0] != '$' {
            assert(looks_up_key(value));
            assert(rule_looks_up(rules[i]));
        }
    }
    if some_look_up(rules) {
        let n = choose|n: int| 0 <= n < rules.len() && rule_looks_up(#[trigger] rules[n]);
        if exists|m: int|
            0 <= m < rules[n].properties.len() && looks_up_property(
                (#[trigger] rules[n].properties[m]).1,
            ) {
            let m = choose|m: int|
                0 <= m < rules[n].properties.len() && looks_up_property(
                    (#[trigger] rules[n].properties[m]).1,
                );
            lemma_dollar_in_front(rules[n].properties[m].1);
        } else {
            let m = choose|m: int|
                0 <= m < rules[n].keys.len() && looks_up_key((#[trigger] rules[n].keys[m]).1);
            lemma_dollar_in_front(rules[n].keys[m].1);
        }
    }
    if asked_for(rules).contains(name) {
        let n = choose|n: int| 0 <= n < rules.len() && rule_asks_for(#[trigger] rules[n], name);
        let m = choose|m: int|
            0 <= m < rules[n].properties.len() && module_named(
                (#[trigger] rules[n].properties[m]).1,
            ) == Some(name);
        law_no_other_value_names_a_module(rules[n].properties[m].1);
        law_a_module_is_known_by_name(name, Map::empty(), Map::empty());
    }
}

proof fn lemma_dollar_in_front(value: Seq<char>)
    ensures
        begins(value, "$"@) == (value.len() > 0 && value[0] == '$'),
{
    reveal_strlit("$");
    if value.len() > 0 {
        assert(value.take(1)[0] == value[0]);
        if value[0] == '$' {
            assert(value.take(1) =~= "$"@);
        }
    }
}

/// An extension is that of a TOML file in whatever case its letters are, and no other is.
pub proof fn law_an_extension_in_any_case(extension: Seq<char>)
    ensures
        lowered(extension) == "toml"@ <==> {
            &&& extension.len() == 4
            &&& extension[0] == 't' || extension[0] == 'T'
            &&& extension[1] == 'o' || extension[1] == 'O'
            &&& extension[2] == 'm' || extension[2] == 'M'
            &&& extension[3] == 'l' || extension[3] == 'L'
        },
{
    reveal_strlit("toml");
    let lower = lowered(extension);
    if extension.len() == 4 {
        lemma_lower(extension[0], 't', 'T');
        lemma_lower(extension[1], 'o', 'O');
        lemma_lower(extension[2], 'm', 'M');
        lemma_lower(extension[3], 'l', 'L');
        let toml = "toml"@;
        assert(toml[0] == 't' && toml[1] == 'o' && toml[2] == 'm' && toml[3] == 'l');
        assert(lower[0] == ascii_lower(extension[0]) && lower[1] == ascii_lower(extension[1]));
        assert(lower[2] == ascii_lower(extension[2]) && lower[3] == ascii_lower(extension[3]));
        if lower[0] == 't' && lower[1] == 'o' && lower[2] == 'm' && lower[3] == 'l' {
            assert(lower =~= toml);
        }
    } else {
        assert(lower.len() == extension.len());
    }
}

} // verus!
