//! What the right-hand side of a rule stands for.

use crate::lua::{number_parsed, LuaValue};
use crate::luau_edit::{KeyValue, Number};
use crate::sources::{Sources, ASSETS, IDS};
use crate::text::{after, begins, parse_int, parsed_int, same, starts_with, strip_prefix};
use crate::text::{law_a_prefix_can_be_told, law_decimal_numbers, law_trimming_takes_all_copies};
use crate::text::{repeated, stripped, trim_prefixes, trimmed};
use vstd::prelude::*;
use vstd::string::*;

verus! {

/// What looks up by a key.
pub type TextModel = Map<Seq<char>, Seq<char>>;

/// The name of the module whose source a value stands for, if it stands for one:
/// `$module:name`, or one of the two modules that have a spelling of their own.
pub open spec fn module_named(value: Seq<char>) -> Option<Seq<char>> {
    if value == "$module"@ {
        Some("assets"@)
    } else if value == "$rbxsync_module"@ {
        Some("ids"@)
    } else {
        stripped(value, "$module:"@)
    }
}

/// Whether a value stands for the whole source of a module.
pub open spec fn is_source(value: Seq<char>) -> bool {
    module_named(value) is Some || begins(value, "$require:"@)
}

/// The name of the module whose source a value stands for, if it stands for one.
pub fn module_reference(value: &str) -> (r: Option<String>)
    ensures
        match r {
            Some(name) => module_named(value@) == Some(name@),
            None => module_named(value@) is None,
        },
{
    if same(value, "$module") {
        Some(ASSETS.to_owned())
    } else if same(value, "$rbxsync_module") {
        Some(IDS.to_owned())
    } else {
        strip_prefix(value, "$module:")
    }
}

/// Whether a value stands for the whole source of a module.
pub fn stands_for_source(value: &str) -> (r: bool)
    ensures
        r == is_source(value@),
{
    module_reference(value).is_some() || starts_with(value, "$require:")
}

/// What the value of a property stands for.
pub enum Resolution {
    /// The whole source of a module, written as it is.
    Source(Seq<char>),
    /// A single value, typed where it is written.
    Value(Seq<char>),
}

/// An asset id without the scheme in front of it.
pub open spec fn bare_id(text: Seq<char>) -> Seq<char> {
    trimmed(trimmed(text, "rbxassetid://"@), "rbxasset://"@)
}

/// Which flag gives the module that a value asks for.
pub open spec fn module_missing(value: Seq<char>, name: Seq<char>) -> Seq<char> {
    if value == "$module"@ {
        "$module needs --assets"@
    } else if value == "$rbxsync_module"@ {
        "$rbxsync_module needs --ids-module"@
    } else {
        value + " needs --module "@ + name + "=<path>"@
    }
}

/// What is said of a key that the map does not hold.
pub open spec fn not_in_map(key: Seq<char>) -> Seq<char> {
    "'"@ + key + "' is not in the asset map"@
}

/// What the value of a property stands for, or why it stands for nothing.
pub open spec fn resolved_property(value: Seq<char>, map: TextModel, modules: TextModel) -> Result<
    Resolution,
    Seq<char>,
> {
    if let Some(name) = module_named(value) {
        if modules.contains_key(name) {
            Ok(Resolution::Source(modules[name]))
        } else {
            Err(module_missing(value, name))
        }
    } else if begins(value, "$require:"@) {
        let key = after(value, "$require:"@);
        if !map.contains_key(key) {
            Err(not_in_map(key))
        } else if parsed_int(bare_id(map[key]), 0, u64::MAX as int) is None {
            Err("'"@ + key + "' is '"@ + map[key] + "', not a numeric asset id"@)
        } else {
            Ok(Resolution::Source("return require("@ + bare_id(map[key]) + ")\n"@))
        }
    } else if map.contains_key(value) {
        Ok(Resolution::Value(map[value]))
    } else {
        Err(not_in_map(value))
    }
}

/// What the value of a key stands for, or why it stands for nothing. A bare value
/// is looked up; what follows a `$` is a literal, and what follows `$$` is a text
/// whatever it looks like.
pub open spec fn resolved_key(value: Seq<char>, map: TextModel) -> Result<LuaValue, Seq<char>> {
    if begins(value, "$$"@) {
        Ok(LuaValue::Text(after(value, "$$"@)))
    } else if begins(value, "$"@) {
        let raw = after(value, "$"@);
        if raw == "true"@ {
            Ok(LuaValue::Boolean(true))
        } else if raw == "false"@ {
            Ok(LuaValue::Boolean(false))
        } else if raw == "nil"@ {
            Ok(LuaValue::Nil)
        } else {
            match number_parsed(raw) {
                Some(text) => Ok(LuaValue::Number(text)),
                None => Ok(LuaValue::Text(raw)),
            }
        }
    } else if map.contains_key(value) {
        Ok(LuaValue::Text(map[value]))
    } else {
        Err(not_in_map(value))
    }
}

/// What the value of a property stands for.
#[derive(Debug)]
pub enum Resolved {
    /// The whole source of a module, written as it is.
    Source(String),
    /// A single value, typed where it is written.
    Value(String),
}

impl View for Resolved {
    type V = Resolution;

    open spec fn view(&self) -> Resolution {
        match *self {
            Resolved::Source(s) => Resolution::Source(s@),
            Resolved::Value(s) => Resolution::Value(s@),
        }
    }
}

/// What is said of a key that the map does not hold.
pub(crate) fn missing_key(key: &str) -> (r: String)
    ensures
        r@ == not_in_map(key@),
{
    let mut out: String = "'".to_owned();
    out.append(key);
    out.append("' is not in the asset map");
    out
}

/// Which flag gives the module that a value asks for.
fn missing_module(value: &str, name: &str) -> (r: String)
    ensures
        r@ == module_missing(value@, name@),
{
    if same(value, "$module") {
        "$module needs --assets".to_owned()
    } else if same(value, "$rbxsync_module") {
        "$rbxsync_module needs --ids-module".to_owned()
    } else {
        let mut out: String = value.to_owned();
        out.append(" needs --module ");
        out.append(name);
        out.append("=<path>");
        out
    }
}

/// What the right-hand side of a `properties` entry stands for.
pub fn resolve_property<S: Sources>(value_key: &str, sources: &S) -> (r: Result<Resolved, String>)
    ensures
        match r {
            Ok(v) => resolved_property(value_key@, sources.map(), sources.modules()) == Ok::<
                Resolution,
                Seq<char>,
            >(v@),
            Err(e) => resolved_property(value_key@, sources.map(), sources.modules()) == Err::<
                Resolution,
                Seq<char>,
            >(e@),
        },
{
    if let Some(name) = module_reference(value_key) {
        return match sources.source_of(name.as_str()) {
            Some(source) => Ok(Resolved::Source(source.to_owned())),
            None => Err(missing_module(value_key, name.as_str())),
        };
    }
    if let Some(key) = strip_prefix(value_key, "$require:") {
        let resolved: &str = match sources.mapped(key.as_str()) {
            Some(resolved) => resolved,
            None => {
                return Err(missing_key(key.as_str()));
            },
        };
        proof {
            reveal_strlit("rbxassetid://");
            reveal_strlit("rbxasset://");
        }
        let half: String = trim_prefixes(resolved, "rbxassetid://");
        let id: String = trim_prefixes(half.as_str(), "rbxasset://");
        if parse_int(id.as_str(), 0, u64::MAX as i128).is_none() {
            let mut e: String = "'".to_owned();
            e.append(key.as_str());
            e.append("' is '");
            e.append(resolved);
            e.append("', not a numeric asset id");
            return Err(e);
        }
        let mut source: String = "return require(".to_owned();
        source.append(id.as_str());
        source.append(")\n");
        return Ok(Resolved::Source(source));
    }
    match sources.mapped(value_key) {
        Some(v) => Ok(Resolved::Value(v.to_owned())),
        None => Err(missing_key(value_key)),
    }
}

/// What the right-hand side of a `keys` entry stands for.
pub fn resolve_key<S: Sources>(value_key: &str, sources: &S) -> (r: Result<KeyValue, String>)
    ensures
        match r {
            Ok(v) => resolved_key(value_key@, sources.map()) == Ok::<LuaValue, Seq<char>>(v@),
            Err(e) => resolved_key(value_key@, sources.map()) == Err::<LuaValue, Seq<char>>(e@),
        },
{
    if let Some(literal) = strip_prefix(value_key, "$$") {
        return Ok(KeyValue::Str(literal));
    }
    if let Some(raw) = strip_prefix(value_key, "$") {
        if same(raw.as_str(), "true") {
            return Ok(KeyValue::Bool(true));
        }
        if same(raw.as_str(), "false") {
            return Ok(KeyValue::Bool(false));
        }
        if same(raw.as_str(), "nil") {
            return Ok(KeyValue::Nil);
        }
        return match Number::parse(raw.as_str()) {
            Some(n) => Ok(KeyValue::Num(n)),
            None => Ok(KeyValue::Str(raw)),
        };
    }
    match sources.mapped(value_key) {
        Some(v) => Ok(KeyValue::Str(v.to_owned())),
        None => Err(missing_key(value_key)),
    }
}

// ---------------------------------------------------------------------------
// Descriptions
// ---------------------------------------------------------------------------

/// A text in quotes, as `Debug` writes it.
pub uninterp spec fn debug_quoted(s: Seq<char>) -> Seq<char>;

/// `Debug` of a `str`: the text in double quotes, with what cannot be printed as
/// it is written as an escape.
#[verifier::external_body]
fn debug_text(s: &str) -> (r: String)
    ensures
        r@ == debug_quoted(s@),
{
    format!("{s:?}")
}

/// How a value reads in a report.
pub open spec fn described(value: LuaValue) -> Seq<char> {
    match value {
        LuaValue::Text(s) => debug_quoted(s),
        LuaValue::Number(text) => text,
        LuaValue::Boolean(true) => "true"@,
        LuaValue::Boolean(false) => "false"@,
        _ => "nil (removed)"@,
    }
}

/// How the source that a value stands for reads in a report.
pub open spec fn source_described(value: Seq<char>) -> Seq<char> {
    match module_named(value) {
        Some(name) => if name == "assets"@ {
            "[asset module]"@
        } else {
            "["@ + name + " module]"@
        },
        None => "[require stub]"@,
    }
}

/// How a value reads in a report.
pub fn describe(value: &KeyValue) -> (r: String)
    ensures
        r@ == described(value@),
{
    match value {
        KeyValue::Str(s) => debug_text(s.as_str()),
        KeyValue::Num(n) => n.text().to_owned(),
        KeyValue::Bool(b) => if *b {
            "true".to_owned()
        } else {
            "false".to_owned()
        },
        KeyValue::Nil => "nil (removed)".to_owned(),
    }
}

/// How the source that a value stands for reads in a report.
pub fn describe_source(value_key: &str) -> (r: String)
    ensures
        r@ == source_described(value_key@),
{
    match module_reference(value_key) {
        Some(name) => {
            if same(name.as_str(), ASSETS) {
                "[asset module]".to_owned()
            } else {
                let mut out: String = "[".to_owned();
                out.append(name.as_str());
                out.append(" module]");
                out
            }
        },
        None => "[require stub]".to_owned(),
    }
}

// ---------------------------------------------------------------------------
// Laws
// ---------------------------------------------------------------------------

/// What follows a `$` is a literal, whatever the map holds: `true` and `false` are truth
/// values, `nil` is `nil`, what is a number is that number, whatever its sign, and what is
/// none of these is a text. Nothing but being a number makes a number of it.
pub proof fn law_a_literal_is_what_it_says(raw: Seq<char>, map: TextModel)
    ensures
        resolved_key("$"@ + "true"@, map) == Ok::<LuaValue, Seq<char>>(LuaValue::Boolean(true)),
        resolved_key("$"@ + "false"@, map) == Ok::<LuaValue, Seq<char>>(LuaValue::Boolean(false)),
        resolved_key("$"@ + "nil"@, map) == Ok::<LuaValue, Seq<char>>(LuaValue::Nil),
        raw != "true"@ && raw != "false"@ && raw != "nil"@ && !(raw.len() > 0 && raw[0] == '$')
            ==> match number_parsed(raw) {
            Some(number) => resolved_key("$"@ + raw, map) == Ok::<LuaValue, Seq<char>>(
                LuaValue::Number(number),
            ),
            None => resolved_key("$"@ + raw, map) == Ok::<LuaValue, Seq<char>>(
                LuaValue::Text(raw),
            ),
        },
{
    lemma_one_dollar(raw);
    reveal_strlit("true");
    reveal_strlit("false");
    reveal_strlit("nil");
    lemma_one_dollar("true"@);
    lemma_one_dollar("false"@);
    lemma_one_dollar("nil"@);
    assert("true"@[0] == 't' && "false"@[0] == 'f' && "nil"@[0] == 'n');
    assert("true"@.len() == 4 && "false"@.len() == 5 && "nil"@.len() == 3);
}

/// What one dollar sign in front does.
proof fn lemma_one_dollar(raw: Seq<char>)
    ensures
        begins("$"@ + raw, "$"@),
        after("$"@ + raw, "$"@) == raw,
        begins("$"@ + raw, "$$"@) == (raw.len() > 0 && raw[0] == '$'),
{
    reveal_strlit("$");
    reveal_strlit("$$");
    law_a_prefix_can_be_told("$"@, raw);
    let s = "$"@ + raw;
    if raw.len() > 0 {
        assert(s[0] == '$' && s[1] == raw[0]);
        assert(s.take(2)[1] == s[1]);
        if raw[0] == '$' {
            assert(s.take(2) =~= "$$"@);
        }
    }
}

/// What follows `$$` is a text as it stands, whatever it looks like and whatever the map
/// holds.
pub proof fn law_two_dollars_make_a_text(text: Seq<char>, map: TextModel)
    ensures
        resolved_key("$$"@ + text, map) == Ok::<LuaValue, Seq<char>>(LuaValue::Text(text)),
{
    law_a_prefix_can_be_told("$$"@, text);
}

/// A value without a `$` in front is looked up, and stands for the text that the map holds
/// under it, whatever that looks like. It stands for nothing just where the map does not
/// hold it, and then it is named.
pub proof fn law_a_bare_value_is_looked_up(value: Seq<char>, map: TextModel, modules: TextModel)
    requires
        value.len() > 0 ==> value[0] != '$',
    ensures
        map.contains_key(value) ==> resolved_key(value, map) == Ok::<LuaValue, Seq<char>>(
            LuaValue::Text(map[value]),
        ),
        !map.contains_key(value) ==> resolved_key(value, map) == Err::<LuaValue, Seq<char>>(
            "'"@ + value + "' is not in the asset map"@,
        ),
        map.contains_key(value) ==> resolved_property(value, map, modules) == Ok::<
            Resolution,
            Seq<char>,
        >(Resolution::Value(map[value])),
        !map.contains_key(value) ==> resolved_property(value, map, modules) == Err::<
            Resolution,
            Seq<char>,
        >("'"@ + value + "' is not in the asset map"@),
        !is_source(value),
        module_named(value) is None,
{
    reveal_strlit("$");
    reveal_strlit("$$");
    reveal_strlit("$module");
    reveal_strlit("$rbxsync_module");
    reveal_strlit("$module:");
    reveal_strlit("$require:");
    if value.len() > 0 {
        assert(forall|n: int| 0 < n <= value.len() ==> #[trigger] value.take(n)[0] == value[0]);
        assert("$"@[0] == '$' && "$$"@[0] == '$' && "$module"@[0] == '$');
        assert("$rbxsync_module"@[0] == '$' && "$module:"@[0] == '$' && "$require:"@[0] == '$');
    }
}

/// `$module:` and a name stand for the source of the module of that name, as it is, and for
/// nothing just where there is none; `$module` and `$rbxsync_module` do so for the modules
/// `assets` and `ids`. The map has no part in it.
pub proof fn law_a_module_is_known_by_name(name: Seq<char>, map: TextModel, modules: TextModel)
    ensures
        module_named("$module:"@ + name) == Some(name),
        module_named("$module"@) == Some("assets"@),
        module_named("$rbxsync_module"@) == Some("ids"@),
        is_source("$module:"@ + name) && is_source("$module"@) && is_source("$rbxsync_module"@),
        modules.contains_key(name) ==> resolved_property("$module:"@ + name, map, modules) == Ok::<
            Resolution,
            Seq<char>,
        >(Resolution::Source(modules[name])),
        !modules.contains_key(name) ==> resolved_property("$module:"@ + name, map, modules)
            == Err::<Resolution, Seq<char>>(
            "$module:"@ + name + " needs --module "@ + name + "=<path>"@,
        ),
        modules.contains_key("assets"@) ==> resolved_property("$module"@, map, modules) == Ok::<
            Resolution,
            Seq<char>,
        >(Resolution::Source(modules["assets"@])),
        !modules.contains_key("assets"@) ==> resolved_property("$module"@, map, modules) == Err::<
            Resolution,
            Seq<char>,
        >("$module needs --assets"@),
        modules.contains_key("ids"@) ==> resolved_property("$rbxsync_module"@, map, modules)
            == Ok::<Resolution, Seq<char>>(Resolution::Source(modules["ids"@])),
        !modules.contains_key("ids"@) ==> resolved_property("$rbxsync_module"@, map, modules)
            == Err::<Resolution, Seq<char>>("$rbxsync_module needs --ids-module"@),
{
    reveal_strlit("$module");
    reveal_strlit("$rbxsync_module");
    reveal_strlit("$module:");
    law_a_prefix_can_be_told("$module:"@, name);
    let value = "$module:"@ + name;
    assert(value[7] == ':' && value[1] == 'm');
    assert("$module"@.len() == 7 && "$rbxsync_module"@[1] == 'r');
}

/// No other value stands for the source of a module of a name: only those do that are
/// `$module:` and the name, or one of the two that have a spelling of their own.
pub proof fn law_no_other_value_names_a_module(value: Seq<char>)
    ensures
        module_named(value) is Some ==> {
            ||| value == "$module"@
            ||| value == "$rbxsync_module"@
            ||| value == "$module:"@ + module_named(value)->0
        },
        is_source(value) && module_named(value) is None ==> exists|key: Seq<char>|
            value == #[trigger] ("$require:"@ + key),
{
    law_a_prefix_can_be_told("$module:"@, value);
    law_a_prefix_can_be_told("$require:"@, value);
}

/// Whether an asset id is written as `text`: after any number of schemes, which are
/// `rbxassetid://` and then `rbxasset://`.
pub open spec fn writes_id(text: Seq<char>, id: Seq<char>) -> bool {
    exists|m: nat, n: nat|
        text == #[trigger] repeated("rbxassetid://"@, m) + (#[trigger] repeated("rbxasset://"@, n)
            + id)
}

/// `$require:` and a key stand for a module that requires the asset id that the map holds
/// under the key, without its scheme. They stand for nothing just where the map does not
/// hold the key, or holds something else there than a number of 64 bits after its scheme.
pub proof fn law_a_stub_requires_the_id(
    key: Seq<char>,
    id: Seq<char>,
    map: TextModel,
    modules: TextModel,
)
    ensures
        is_source("$require:"@ + key),
        module_named("$require:"@ + key) is None,
        !map.contains_key(key) ==> resolved_property("$require:"@ + key, map, modules) == Err::<
            Resolution,
            Seq<char>,
        >("'"@ + key + "' is not in the asset map"@),
        map.contains_key(key) && writes_id(map[key], id) && parsed_int(
            id,
            0,
            u64::MAX as int,
        ) is Some ==> resolved_property("$require:"@ + key, map, modules) == Ok::<
            Resolution,
            Seq<char>,
        >(Resolution::Source("return require("@ + id + ")\n"@)),
        map.contains_key(key) && (forall|other: Seq<char>| #[trigger]
            writes_id(map[key], other) ==> parsed_int(other, 0, u64::MAX as int) is None)
            ==> resolved_property("$require:"@ + key, map, modules) == Err::<Resolution, Seq<char>>(
            "'"@ + key + "' is '"@ + map[key] + "', not a numeric asset id"@,
        ),
{
    reveal_strlit("$module");
    reveal_strlit("$rbxsync_module");
    reveal_strlit("$module:");
    reveal_strlit("$require:");
    reveal_strlit("rbxassetid://");
    reveal_strlit("rbxasset://");
    let value = "$require:"@ + key;
    law_a_prefix_can_be_told("$require:"@, key);
    assert(value[1] == 'r' && value[2] == 'e');
    assert("$rbxsync_module"@[2] == 'b' && "$module"@[1] == 'm');
    if begins(value, "$module:"@) {
        assert(value.take(8)[1] == "$module:"@[1]);
    }
    let long = "rbxassetid://"@;
    let short = "rbxasset://"@;
    if map.contains_key(key) {
        let text = map[key];
        if writes_id(text, id) && parsed_int(id, 0, u64::MAX as int) is Some {
            let (m, n) = choose|m: nat, n: nat|
                text == #[trigger] repeated(long, m) + (#[trigger] repeated(short, n) + id);
            let rest = repeated(short, n) + id;
            law_decimal_numbers(id, '0', 0, u64::MAX as int);
            assert(id[0] != 'r');
            assert(!begins(id, short)) by {
                if begins(id, short) {
                    assert(id.take(short.len() as int)[0] == short[0]);
                }
            }
            assert(!begins(rest, long)) by {
                if begins(rest, long) {
                    assert(rest.take(long.len() as int)[0] == long[0]);
                    assert(rest.take(long.len() as int)[8] == long[8]);
                    if n == 0 {
                        assert(rest =~= id);
                    } else {
                        assert(rest =~= short + (repeated(short, (n - 1) as nat) + id));
                        assert(rest[8] == short[8]);
                    }
                }
            }
            law_trimming_takes_all_copies(rest, long);
            law_trimming_takes_all_copies(id, short);
            assert(bare_id(text) == id);
        }
        law_trimming_takes_all_copies(text, long);
        let half = trimmed(text, long);
        law_trimming_takes_all_copies(half, short);
        let m = choose|m: nat| text == #[trigger] repeated(long, m) + half;
        let n = choose|n: nat| half == #[trigger] repeated(short, n) + trimmed(half, short);
        assert(text == repeated(long, m) + (repeated(short, n) + bare_id(text)));
        assert(writes_id(text, bare_id(text)));
    }
}

/// A literal reads in a report as it was written: a truth value as its word, a number as
/// its shortest text, and `nil` as what it does.
pub proof fn law_a_report_shows_what_was_written(raw: Seq<char>, map: TextModel)
    ensures
        raw == "true"@ || raw == "false"@ ==> described(resolved_key("$"@ + raw, map)->Ok_0) == raw,
        raw == "nil"@ ==> described(resolved_key("$"@ + raw, map)->Ok_0) == raw + " (removed)"@,
        forall|number: Seq<char>| #[trigger] described(LuaValue::Number(number)) == number,
        forall|text: Seq<char>| #[trigger] described(LuaValue::Text(text)) == debug_quoted(text),
        forall|name: Seq<char>|
            name != "assets"@ ==> #[trigger] source_described("$module:"@ + name) == "["@ + name
                + " module]"@,
        source_described("$module:"@ + "assets"@) == "[asset module]"@,
        source_described("$module"@) == "[asset module]"@,
        source_described("$rbxsync_module"@) == "["@ + "ids"@ + " module]"@,
        forall|key: Seq<char>| #[trigger]
            source_described("$require:"@ + key) == "[require stub]"@,
{
    law_a_literal_is_what_it_says(raw, map);
    assert("nil (removed)"@ =~= "nil"@ + " (removed)"@) by {
        reveal_strlit("nil (removed)");
        reveal_strlit("nil");
        reveal_strlit(" (removed)");
    }
    assert forall|name: Seq<char>|
        name != "assets"@ implies #[trigger] source_described("$module:"@ + name) == "["@ + name
        + " module]"@ by {
        law_a_module_is_known_by_name(name, map, map);
    }
    law_a_module_is_known_by_name("assets"@, map, map);
    assert("ids"@ != "assets"@) by {
        reveal_strlit("ids");
        reveal_strlit("assets");
    }
    assert forall|key: Seq<char>| #[trigger]
        source_described("$require:"@ + key) == "[require stub]"@ by {
        law_a_stub_requires_the_id(key, key, map, map);
    }
}

/// A property value that stands for no source is looked up, even one with a `$` in front:
/// there are no literals among them.
pub proof fn law_every_other_property_value_is_looked_up(
    value: Seq<char>,
    map: TextModel,
    modules: TextModel,
)
    requires
        value != "$module"@,
        value != "$rbxsync_module"@,
        forall|rest: Seq<char>| value != #[trigger] ("$module:"@ + rest),
        forall|rest: Seq<char>| value != #[trigger] ("$require:"@ + rest),
    ensures
        !is_source(value),
        map.contains_key(value) ==> resolved_property(value, map, modules) == Ok::<
            Resolution,
            Seq<char>,
        >(Resolution::Value(map[value])),
        !map.contains_key(value) ==> resolved_property(value, map, modules) == Err::<
            Resolution,
            Seq<char>,
        >("'"@ + value + "' is not in the asset map"@),
{
    law_no_other_value_names_a_module(value);
    law_a_prefix_can_be_told("$require:"@, value);
}

} // verus!
