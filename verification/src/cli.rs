//! What the command line decides, apart from reading and writing.

use crate::check::{checked, law_a_renamed_instance_is_found_out, notes, Finding, Note, Severity};
use crate::config::{asked_for, some_look_up, Config, Needs, Rule};
use crate::dom::leads;
use crate::inject::Report;
use crate::inputs::Inputs;
use crate::place::Scene;
use crate::reflection::Classes;
use crate::resolve::{is_source, TextModel};
use crate::sources::{Sources, ASSETS};
use crate::text::{append_nat, chars_of, join, join_with, nat_text};
use crate::text::{precedes, same, text_of, texts};
use crate::text_map::{ascending_texts, Pairs};
use rbx_dom_weak::types::Ref;
use vstd::prelude::*;
use vstd::string::*;

verus! {

// ---------------------------------------------------------------------------
// Arguments
// ---------------------------------------------------------------------------

/// What stands before and after the first `c` of a text.
pub open spec fn halves(s: Seq<char>, c: char) -> Option<(Seq<char>, Seq<char>)>
    decreases s.len(),
{
    if s.len() == 0 {
        None
    } else if s[0] == c {
        Some((Seq::empty(), s.skip(1)))
    } else {
        match halves(s.skip(1), c) {
            Some((before, after)) => Some((seq![s[0]] + before, after)),
            None => None,
        }
    }
}

/// The two halves with the separator between them are the text, and the first one
/// does not hold the separator. There are none only where nothing separates.
pub proof fn law_halves(s: Seq<char>, c: char)
    ensures
        match halves(s, c) {
            Some((before, after)) => s == before + seq![c] + after && !before.contains(c),
            None => !s.contains(c),
        },
    decreases s.len(),
{
    if s.len() > 0 {
        law_halves(s.skip(1), c);
        assert(s =~= seq![s[0]] + s.skip(1));
        if s[0] == c {
            assert(s =~= Seq::<char>::empty() + seq![c] + s.skip(1));
        } else {
            match halves(s.skip(1), c) {
                Some((before, after)) => {
                    assert(s =~= (seq![s[0]] + before) + seq![c] + after);
                    if (seq![s[0]] + before).contains(c) {
                        let i = choose|i: int|
                            0 <= i < (seq![s[0]] + before).len() && (seq![s[0]] + before)[i] == c;
                        assert(before[i - 1] == c);
                    }
                },
                None => {
                    if s.contains(c) {
                        let i = choose|i: int| 0 <= i < s.len() && s[i] == c;
                        assert(s.skip(1)[i - 1] == c);
                    }
                },
            }
        }
    }
}

/// `NAME=PATH`, the shape of a `--module` argument.
pub open spec fn module_arg(arg: Seq<char>) -> Result<(Seq<char>, Seq<char>), Seq<char>> {
    match halves(arg, '=') {
        None => Err("--module wants NAME=PATH, got '"@ + arg + "'"@),
        Some((name, path)) => if name.len() == 0 {
            Err("--module wants a name before the '=', got '"@ + arg + "'"@)
        } else {
            Ok((name, path))
        },
    }
}

/// The place of the first `c`, if there is one.
fn first(chars: &Vec<char>, c: char) -> (r: Option<usize>)
    ensures
        match r {
            Some(i) => {
                &&& i < chars@.len()
                &&& halves(chars@, c) == Some((chars@.take(i as int), chars@.skip(i as int + 1)))
            },
            None => halves(chars@, c) is None,
        },
{
    let ghost all = chars@;
    let mut i: usize = 0;
    assert(all.skip(0) =~= all);
    assert(all.take(0) =~= Seq::<char>::empty());
    proof {
        if let Some((before, after)) = halves(all, c) {
            assert(all.take(0) + before =~= before);
        }
    }
    while i < chars.len()
        invariant
            i <= chars@.len(),
            all == chars@,
            match halves(all.skip(i as int), c) {
                Some((before, after)) => halves(all, c) == Some(
                    (all.take(i as int) + before, after),
                ),
                None => halves(all, c) is None,
            },
        decreases chars@.len() - i,
    {
        let ghost rest = all.skip(i as int);
        assert(rest[0] == all[i as int]);
        assert(rest.skip(1) =~= all.skip(i as int + 1));
        if chars[i] == c {
            assert(all.take(i as int) + Seq::<char>::empty() =~= all.take(i as int));
            return Some(i);
        }
        proof {
            if let Some((before, after)) = halves(rest.skip(1), c) {
                assert(all.take(i as int) + (seq![rest[0]] + before) =~= all.take(i as int + 1)
                    + before);
            }
        }
        i = i + 1;
    }
    None
}

/// Take a `--module` argument apart.
pub fn parse_module_arg(arg: &str) -> (r: Result<(String, String), String>)
    ensures
        match r {
            Ok((name, path)) => module_arg(arg@) == Ok::<(Seq<char>, Seq<char>), Seq<char>>(
                (name@, path@),
            ),
            Err(e) => module_arg(arg@) == Err::<(Seq<char>, Seq<char>), Seq<char>>(e@),
        },
{
    let chars: Vec<char> = chars_of(arg);
    match first(&chars, '=') {
        None => {
            let mut e: String = "--module wants NAME=PATH, got '".to_owned();
            e.append(arg);
            e.append("'");
            Err(e)
        },
        Some(i) => {
            let end: usize = chars.len();
            let name: String = text_of(&chars, 0, i);
            let path: String = text_of(&chars, i + 1, end);
            assert(name@ =~= arg@.take(i as int));
            assert(path@ =~= arg@.skip(i as int + 1));
            if i == 0 {
                let mut e: String = "--module wants a name before the '=', got '".to_owned();
                e.append(arg);
                e.append("'");
                Err(e)
            } else {
                Ok((name, path))
            }
        },
    }
}

// ---------------------------------------------------------------------------
// What a config needs
// ---------------------------------------------------------------------------

/// Whether `name` is the first, in the order of names, that is asked for and not
/// given.
pub open spec fn first_missing(
    asked: Set<Seq<char>>,
    given: Map<Seq<char>, Seq<char>>,
    name: Seq<char>,
) -> bool {
    &&& asked.contains(name)
    &&& !given.contains_key(name)
    &&& forall|other: Seq<char>| #[trigger]
        asked.contains(other) && !given.contains_key(other) ==> other == name || precedes(
            name,
            other,
        )
}

/// The names of what is given.
pub open spec fn names_of(pairs: Pairs) -> Seq<Seq<char>> {
    Seq::new(pairs.len(), |i: int| pairs[i].0)
}

/// What is said of a module that was not given.
pub open spec fn not_given(name: Seq<char>, given: Pairs) -> Seq<char> {
    let hint = if name == "assets"@ {
        "--assets <path>"@
    } else {
        "--module "@ + name + "=<path>"@
    };
    let known = if given.len() == 0 {
        Seq::empty()
    } else {
        " (given: "@ + join(names_of(given), ", "@) + ")"@
    };
    "this config injects the module '"@ + name + "', which was not given; pass "@ + hint + known
}

/// What is said where the map was not given.
pub open spec fn map_not_given() -> Seq<char> {
    "this config looks keys up in the asset map; pass --assets <asphalt's Assets.luau>"@
}

/// What is said of a module that was not given.
fn tell_not_given(name: &str, inputs: &Inputs) -> (r: String)
    ensures
        r@ == not_given(name@, inputs.module_pairs()),
{
    let mut out: String = "this config injects the module '".to_owned();
    out.append(name);
    out.append("', which was not given; pass ");
    let ghost start = out@;
    if same(name, ASSETS) {
        out.append("--assets <path>");
    } else {
        out.append("--module ");
        out.append(name);
        out.append("=<path>");
    }
    let ghost hint = if name@ == "assets"@ {
        "--assets <path>"@
    } else {
        "--module "@ + name@ + "=<path>"@
    };
    assert(out@ =~= start + hint);
    let known: Vec<&str> = inputs.module_names();
    if known.len() > 0 {
        let mut names: Vec<String> = Vec::new();
        let mut i: usize = 0;
        while i < known.len()
            invariant
                i <= known@.len(),
                names@.len() == i,
                known@.len() == inputs.module_pairs().len(),
                forall|k: int|
                    0 <= k < known@.len() ==> (#[trigger] known@[k])@ == inputs.module_pairs()[k].0,
                forall|k: int| 0 <= k < i ==> (#[trigger] names@[k])@ == inputs.module_pairs()[k].0,
            decreases known@.len() - i,
        {
            names.push(known[i].to_owned());
            i = i + 1;
        }
        assert(texts(names@) =~= names_of(inputs.module_pairs()));
        let list: String = join_with(&names, ", ");
        out.append(" (given: ");
        out.append(list.as_str());
        out.append(")");
        assert(out@ =~= start + hint + (" (given: "@ + join(
            names_of(inputs.module_pairs()),
            ", "@,
        ) + ")"@));
    } else {
        assert(out@ =~= start + hint + Seq::<char>::empty());
    }
    out
}

/// Refuse before the place is touched where something that the config needs is
/// missing. Without this, a flag that was forgotten resolves nothing and reads like
/// a place that has drifted away from its rules.
pub fn require_inputs(config: &Config, inputs: &Inputs) -> (r: Result<(), String>)
    ensures
        ({
            let rules = config.active_rules();
            let no_map = some_look_up(rules) && inputs.map() == Map::<
                Seq<char>,
                Seq<char>,
            >::empty();
            match r {
                Ok(_) => !no_map && asked_for(rules).subset_of(inputs.modules().dom()),
                Err(e) => if no_map {
                    e@ == map_not_given()
                } else {
                    exists|name: Seq<char>|
                        {
                            &&& #[trigger] first_missing(asked_for(rules), inputs.modules(), name)
                            &&& e@ == not_given(name, inputs.module_pairs())
                        }
                },
            }
        }),
{
    let needs: Needs = config.needs();
    let ghost asked = asked_for(config.active_rules());
    let ghost turn = needs.modules.in_turn();
    if needs.asset_map && !inputs.has_map() {
        return Err(
            "this config looks keys up in the asset map; pass --assets <asphalt's Assets.luau>".to_owned(),
        );
    }
    let count: usize = needs.modules.len();
    let mut i: usize = 0;
    while i < count
        invariant
            i <= count,
            count == turn.len(),
            ascending_texts(turn),
            turn == needs.modules.in_turn(),
            turn.to_set() == asked,
            asked == asked_for(config.active_rules()),
            !(some_look_up(config.active_rules()) && inputs.map() == Map::<
                Seq<char>,
                Seq<char>,
            >::empty()),
            forall|k: int| 0 <= k < i ==> inputs.modules().contains_key(#[trigger] turn[k]),
        decreases turn.len() - i,
    {
        let name: &str = needs.modules.item(i);
        if inputs.module(name).is_none() {
            proof {
                assert(turn.contains(name@));
                assert forall|other: Seq<char>| #[trigger]
                    asked.contains(other) && !inputs.modules().contains_key(other) implies other
                    == name@ || precedes(name@, other) by {
                    let k = choose|k: int| 0 <= k < turn.len() && turn[k] == other;
                    assert(k >= i);
                    if k > i {
                        assert(precedes(turn[i as int], turn[k]));
                    }
                }
                assert(first_missing(asked, inputs.modules(), name@));
            }
            return Err(tell_not_given(name, inputs));
        }
        i = i + 1;
    }
    assert(asked.subset_of(inputs.modules().dom())) by {
        assert forall|name: Seq<char>| asked.contains(name) implies inputs.modules().contains_key(
            name,
        ) by {
            let k = choose|k: int| 0 <= k < turn.len() && turn[k] == name;
            assert(inputs.modules().contains_key(turn[k]));
        }
    }
    Ok(())
}

// ---------------------------------------------------------------------------
// What a run comes to
// ---------------------------------------------------------------------------

/// What is left to do once the rules were applied.
#[derive(Debug)]
pub enum Verdict {
    /// Fail with a message, and write nothing.
    Refuse(String),
    /// Say that this was a dry run, and write nothing.
    DryRun,
    /// Write nothing, there is nothing to write.
    Unchanged,
    /// Write the place.
    Write,
}

/// What is said of rules that did not resolve.
pub open spec fn unresolved(count: nat) -> Seq<char> {
    nat_text(count) + " rule(s) did not resolve, and --strict was given"@
}

/// What is left to do once the rules were applied. Warnings refuse a strict run,
/// a dry run writes nothing, and neither does one that changed nothing.
pub fn verdict(report: &Report, strict: bool, dry_run: bool) -> (r: Verdict)
    ensures
        match r {
            Verdict::Refuse(message) => strict && report.warnings@.len() > 0 && message@
                == unresolved(report.warnings@.len()),
            Verdict::DryRun => !(strict && report.warnings@.len() > 0) && dry_run,
            Verdict::Unchanged => !(strict && report.warnings@.len() > 0) && !dry_run
                && report.changes@.len() == 0,
            Verdict::Write => !(strict && report.warnings@.len() > 0) && !dry_run
                && report.changes@.len() > 0,
        },
{
    if strict && report.warnings.len() > 0 {
        let mut message: String = String::new();
        append_nat(&mut message, report.warnings.len() as u64);
        message.append(" rule(s) did not resolve, and --strict was given");
        assert(message@ =~= unresolved(report.warnings@.len()));
        Verdict::Refuse(message)
    } else if dry_run {
        Verdict::DryRun
    } else if report.changed() {
        Verdict::Write
    } else {
        Verdict::Unchanged
    }
}

/// How many of the findings are errors.
pub open spec fn error_count(found: Seq<Note>) -> nat
    decreases found.len(),
{
    if found.len() == 0 {
        0
    } else if found.last().severity == Severity::Error {
        error_count(found.drop_last()) + 1
    } else {
        error_count(found.drop_last())
    }
}

/// The last line of a check, and whether it fails.
#[derive(Debug)]
pub struct Summary {
    pub line: String,
    pub fails: bool,
}

/// The last line of a check.
pub open spec fn summary_line(rules: nat, found: Seq<Note>) -> Seq<char> {
    if found.len() == 0 {
        nat_text(rules) + " rule(s), all resolve."@
    } else {
        nat_text(rules) + " rule(s): "@ + nat_text(error_count(found)) + " error(s), "@ + nat_text(
            (found.len() - error_count(found)) as nat,
        ) + " warning(s)."@
    }
}

/// Whether a check fails: on any error, and when strict on any warning too.
pub open spec fn check_fails(found: Seq<Note>, strict: bool) -> bool {
    error_count(found) > 0 || (strict && found.len() > error_count(found))
}

/// The last line of a check, and whether it fails.
pub fn summarize(rules: usize, findings: &Vec<Finding>, strict: bool) -> (r: Summary)
    ensures
        r.line@ == summary_line(rules as nat, notes(findings@)),
        r.fails == check_fails(notes(findings@), strict),
{
    let ghost all = notes(findings@);
    let mut errors: usize = 0;
    let mut i: usize = 0;
    assert(all.take(0) =~= Seq::<Note>::empty());
    while i < findings.len()
        invariant
            i <= findings@.len(),
            all == notes(findings@),
            errors == error_count(all.take(i as int)),
            errors <= i,
        decreases findings@.len() - i,
    {
        let ghost upto = all.take(i as int + 1);
        assert(upto.drop_last() =~= all.take(i as int));
        assert(upto.last() == findings@[i as int].note());
        if findings[i].severity == Severity::Error {
            errors = errors + 1;
        }
        i = i + 1;
    }
    assert(all.take(all.len() as int) =~= all);
    let warnings: usize = findings.len() - errors;
    let mut line: String = String::new();
    append_nat(&mut line, rules as u64);
    if findings.len() == 0 {
        line.append(" rule(s), all resolve.");
        assert(line@ =~= summary_line(rules as nat, all));
        return Summary { line, fails: false };
    }
    line.append(" rule(s): ");
    append_nat(&mut line, errors as u64);
    line.append(" error(s), ");
    append_nat(&mut line, warnings as u64);
    line.append(" warning(s).");
    assert(line@ =~= summary_line(rules as nat, all));
    Summary { line, fails: errors > 0 || (strict && warnings > 0) }
}

/// What is said of a place that was written.
pub fn wrote_place(output: &str, changes: usize) -> (r: String)
    ensures
        r@ == "Wrote "@ + output@ + " ("@ + nat_text(changes as nat) + " change(s))."@,
{
    let mut out: String = "Wrote ".to_owned();
    out.append(output);
    out.append(" (");
    append_nat(&mut out, changes as u64);
    out.append(" change(s)).");
    out
}

/// What is said of a config that was rewritten.
pub fn wrote_config(output: &str, rules: usize) -> (r: String)
    ensures
        r@ == "Wrote "@ + output@ + " ("@ + nat_text(rules as nat)
            + " rule(s)). The original is untouched."@,
{
    let mut out: String = "Wrote ".to_owned();
    out.append(output);
    out.append(" (");
    append_nat(&mut out, rules as u64);
    out.append(" rule(s)). The original is untouched.");
    out
}

// ---------------------------------------------------------------------------
// Laws
// ---------------------------------------------------------------------------

/// A name and a path with `=` between them are taken apart again, at the first `=`: a path
/// can hold more of them, and it can be empty. Without an `=`, or without a name before it,
/// there is an error that shows the argument.
pub proof fn law_a_module_argument(name: Seq<char>, path: Seq<char>)
    ensures
        name.len() > 0 && !name.contains('=') ==> module_arg(name + "="@ + path) == Ok::<
            (Seq<char>, Seq<char>),
            Seq<char>,
        >((name, path)),
        module_arg("="@ + path) == Err::<(Seq<char>, Seq<char>), Seq<char>>(
            "--module wants a name before the '=', got '"@ + ("="@ + path) + "'"@,
        ),
        !name.contains('=') ==> module_arg(name) == Err::<(Seq<char>, Seq<char>), Seq<char>>(
            "--module wants NAME=PATH, got '"@ + name + "'"@,
        ),
{
    reveal_strlit("=");
    let bare = "="@ + path;
    assert(bare.skip(1) =~= path);
    law_halves(name, '=');
    if !name.contains('=') {
        if let Some((before, after)) = halves(name, '=') {
            assert(name[before.len() as int] == '=');
        }
        lemma_halves_of(name, path);
    }
}

proof fn lemma_halves_of(name: Seq<char>, path: Seq<char>)
    requires
        !name.contains('='),
    ensures
        halves(name + "="@ + path, '=') == Some((name, path)),
    decreases name.len(),
{
    reveal_strlit("=");
    let all = name + "="@ + path;
    if name.len() == 0 {
        assert(all.skip(1) =~= path);
        assert(name =~= Seq::<char>::empty());
    } else {
        let less = name.skip(1);
        assert(!less.contains('=')) by {
            if less.contains('=') {
                let i = choose|i: int| 0 <= i < less.len() && less[i] == '=';
                assert(name[i + 1] == '=');
            }
        }
        lemma_halves_of(less, path);
        assert(all.skip(1) =~= less + "="@ + path);
        assert(name.contains(name[0]));
        assert(seq![name[0]] + less =~= name);
    }
}

/// A check fails on any error, and when it is strict on anything that is found. Without
/// findings it passes.
pub proof fn law_when_a_check_fails(found: Seq<Note>, strict: bool)
    ensures
        check_fails(found, strict) <==> {
            ||| exists|i: int|
                0 <= i < found.len() && (#[trigger] found[i]).severity == Severity::Error
            ||| strict && found.len() > 0
        },
{
    lemma_errors_counted(found);
}

proof fn lemma_errors_counted(found: Seq<Note>)
    ensures
        error_count(found) <= found.len(),
        error_count(found) > 0 <==> exists|i: int|
            0 <= i < found.len() && (#[trigger] found[i]).severity == Severity::Error,
    decreases found.len(),
{
    if found.len() > 0 {
        let front = found.drop_last();
        lemma_errors_counted(front);
        if error_count(front) > 0 {
            let i = choose|i: int|
                0 <= i < front.len() && (#[trigger] front[i]).severity == Severity::Error;
            assert(found[i].severity == Severity::Error);
        }
        if found.last().severity == Severity::Error {
            assert(found[found.len() - 1].severity == Severity::Error);
        }
        if exists|i: int|
            0 <= i < found.len() && (#[trigger] found[i]).severity == Severity::Error {
            let i = choose|i: int|
                0 <= i < found.len() && (#[trigger] found[i]).severity == Severity::Error;
            if i < front.len() {
                assert(front[i].severity == Severity::Error);
            }
        }
    }
}

/// How many errors there are among findings: those of some and those of the rest, and each
/// finding that is one counts once. What is no error is a warning, so the last line of a check
/// that found something tells how many of each there are.
pub proof fn law_errors_and_warnings_are_counted(
    rules: nat,
    some: Seq<Note>,
    rest: Seq<Note>,
    one: Note,
)
    ensures
        error_count(some + rest) == error_count(some) + error_count(rest),
        error_count(seq![one]) == if one.severity == Severity::Error {
            1nat
        } else {
            0
        },
        summary_line(rules, Seq::empty()) == nat_text(rules) + " rule(s), all resolve."@,
        some.len() > 0 ==> summary_line(rules, some) == nat_text(rules) + " rule(s): "@ + nat_text(
            error_count(some),
        ) + " error(s), "@ + nat_text((some.len() - error_count(some)) as nat)
            + " warning(s)."@,
        unresolved(rules) == nat_text(rules) + " rule(s) did not resolve, and --strict was given"@,
    decreases rest.len(),
{
    let all = some + rest;
    if rest.len() == 0 {
        assert(all =~= some);
    } else {
        law_errors_and_warnings_are_counted(rules, some, rest.drop_last(), one);
        assert(all.drop_last() =~= some + rest.drop_last());
    }
    reveal_with_fuel(error_count, 2);
    assert(seq![one].drop_last() =~= Seq::<Note>::empty());
}

/// What is said of a module that was not given names it, the flag that gives it, and what was
/// given, if anything.
pub proof fn law_a_missing_module_is_named(name: Seq<char>, given: Pairs)
    ensures
        ({
            let flag = if name == "assets"@ {
                "--assets <path>"@
            } else {
                "--module "@ + name + "=<path>"@
            };
            let said = "this config injects the module '"@ + name
                + "', which was not given; pass "@ + flag;
            &&& given.len() == 0 ==> not_given(name, given) == said
            &&& given.len() > 0 ==> not_given(name, given) == said + (" (given: "@ + join(
                Seq::new(given.len(), |i: int| given[i].0),
                ", "@,
            ) + ")"@)
        }),
{
    assert(names_of(given) =~= Seq::new(given.len(), |i: int| given[i].0));
    if given.len() == 0 {
        assert(not_given(name, given) =~= "this config injects the module '"@ + name
            + "', which was not given; pass "@ + if name == "assets"@ {
            "--assets <path>"@
        } else {
            "--module "@ + name + "=<path>"@
        });
    }
}

/// The module that is named where several are missing is one that is asked for and not given, and
/// comes before all others of these. Where the map is missing, that is said first.
pub proof fn law_the_first_missing_module_is_named(
    asked: Set<Seq<char>>,
    given: Map<Seq<char>, Seq<char>>,
    name: Seq<char>,
    other: Seq<char>,
)
    requires
        first_missing(asked, given, name),
    ensures
        asked.contains(name) && !given.contains_key(name),
        asked.contains(other) && !given.contains_key(other) && other != name ==> precedes(
            name,
            other,
        ),
        map_not_given()
            == "this config looks keys up in the asset map; pass --assets <asphalt's Assets.luau>"@,
{
}

/// A check does not pass where an instance was lost that one of the rules is for: where there is no
/// way for the path of a rule that sets keys, or properties none of which is the source of a module,
/// the check fails, strict or not, and its last line does not say that all resolve.
pub proof fn law_a_lost_instance_fails_the_check(
    classes: Classes,
    s: Scene,
    rules: Seq<Rule>,
    map: Option<TextModel>,
    all: Seq<Note>,
    i: int,
    strict: bool,
)
    requires
        checked(classes, s, rules, map, all),
        0 <= i < rules.len(),
        forall|way: Seq<Ref>| !#[trigger] leads(s, rules[i].path, way),
        rules[i].keys.len() > 0 || (rules[i].properties.len() > 0 && forall|k: int|
            0 <= k < rules[i].properties.len() ==> !is_source(
                (#[trigger] rules[i].properties[k]).1,
            )),
    ensures
        check_fails(all, strict),
        all.len() > 0,
{
    law_a_renamed_instance_is_found_out(classes, s, rules, map, all, i);
    let note = Note {
        severity: Severity::Error,
        target: rules[i].path,
        message: "no such instance"@,
    };
    let k = choose|k: int| 0 <= k < all.len() && all[k] == note;
    assert(all[k].severity == Severity::Error);
    law_when_a_check_fails(all, strict);
}

} // verus!
