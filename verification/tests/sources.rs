//! What rules are resolved against, and what their values stand for.

use rbx_inject::asset_map::{read_asset_map, AssetMapError};
use rbx_inject::assets::Assets;
use rbx_inject::config::{is_toml, Config, Injection, Needs};
use rbx_inject::inputs::{Inputs, ASSETS, IDS};
use rbx_inject::luau::{KeyValue, Number};
use rbx_inject::module_reference;
use rbx_inject::resolve::{describe, describe_source, resolve_key, resolve_property, Resolved};
use rbx_inject::resolve::stands_for_source;
use rbx_inject::sources::Sources;
use rbx_inject::text_map::{TextMap, TextSet};

fn rule(path: &str, properties: &[(&str, &str)], keys: &[(&str, &str)]) -> Injection {
    Injection {
        roblox_path: path.to_string(),
        properties: TextMap::from_pairs(properties),
        keys: TextMap::from_pairs(keys),
    }
}

const MAP: &str = "return {
    ui = { ShopIcon = 'rbxassetid://1', icons = { shop = { Cart = 'rbxassetid://2' } } },
    audio = { 'first', 'second' },
    ['with space'] = 'x',
    [1.5] = 'skipped', [true] = 'skipped',
    count = 3, flag = true, f = function() end,
}";

#[test]
fn nested_tables_become_dotted_keys() {
    let inputs = Inputs::default().with_asphalt("Assets.luau", MAP).unwrap();
    assert_eq!(inputs.get("ui.ShopIcon"), Some("rbxassetid://1"));
    assert_eq!(inputs.get("ui.icons.shop.Cart"), Some("rbxassetid://2"));
    assert_eq!(inputs.get("audio.1"), Some("first"));
    assert_eq!(inputs.get("audio.2"), Some("second"));
    assert_eq!(inputs.get("with space"), Some("x"));
    assert_eq!(inputs.get("1.5"), None);
    assert_eq!(inputs.get("count"), None);
    assert_eq!(inputs.module(ASSETS), Some(MAP));
    assert_eq!(inputs.module(IDS), None);
    assert!(inputs.has_map());

    let assets = Assets::from_asphalt("Assets.luau", MAP).unwrap();
    assert_eq!(
        assets.keys(),
        ["audio.1", "audio.2", "ui.ShopIcon", "ui.icons.shop.Cart", "with space"]
    );
    assert_eq!(assets.module_source(), Some(MAP));
    assert_eq!(assets.ids_module_source(), None);
}

#[test]
fn a_map_that_does_not_run_says_which_file() {
    let e = Inputs::default().with_asphalt("out/Assets.luau", "return {").unwrap_err();
    assert!(matches!(e, AssetMapError::Evaluate(_)));
    let said = e.message("out/Assets.luau");
    assert!(said.starts_with("evaluating asphalt output out/Assets.luau: "), "{said}");
    assert!(said.contains("out/Assets.luau"), "{said}");
}

#[test]
fn a_map_has_to_be_a_table() {
    let e = Assets::from_asphalt("a.luau", "return 5").unwrap_err();
    assert_eq!(e.message("a.luau"), "asphalt output a.luau did not return a table");
}

#[test]
fn a_map_that_holds_itself_is_refused() {
    let e = Assets::from_asphalt("a.luau", "local t = {} t.t = { t } return t").unwrap_err();
    assert!(matches!(e, AssetMapError::Cyclic));
    assert_eq!(e.message("a.luau"), "asphalt output a.luau holds a table that holds itself");
}

#[test]
fn a_map_is_text() {
    for source in ["return { a = '\\255' }", "return { ['\\255'] = 1 }"] {
        let e = Assets::from_asphalt("a.luau", source).unwrap_err();
        assert!(matches!(e, AssetMapError::BadText(_)), "{source}");
        assert!(e.message("a.luau").contains("utf-8"));
    }
}

/// A map is read whatever the number of its tables.
#[test]
fn a_large_map_is_read() {
    let source = "local t = {} for i = 1, 1000100 do t[i] = {} end t[7].x = 'here' return t";
    let inputs = Inputs::default().with_asphalt("a.luau", source).unwrap();
    assert_eq!(inputs.get("7.x"), Some("here"));
}

/// A key that reads as zero and is another number is called zero, and what lies under it
/// is read.
#[test]
fn keys_that_read_as_zero() {
    let inputs =
        Inputs::default().with_asphalt("a.luau", "return { [0] = { x = 'zero' } }").unwrap();
    assert_eq!(inputs.get("0.x"), Some("zero"));
    let one = Assets::from_asphalt("a.luau", "return { [1e-300] = { x = 'y' } }").unwrap();
    assert_eq!(one.get("0.x"), Some("y"));
    let source = "return { [0] = { x = 'y' }, [1e-300] = { z = 'w' }, [-1e-20] = { q = { r = 's' } } }";
    let more = Assets::from_asphalt("a.luau", source).unwrap();
    assert_eq!(more.get("0.x"), Some("y"));
    assert_eq!(more.get("0.z"), Some("w"));
    assert_eq!(more.get("0.q.r"), Some("s"));
    let text = "return { [0] = 'a', [1e-300] = { x = 'b' } }";
    let mixed = Assets::from_asphalt("a.luau", text).unwrap();
    assert_eq!(mixed.get("0"), Some("a"));
    assert_eq!(mixed.get("0.x"), Some("b"));
}

/// Telling such keys apart takes a handle for every table beside them.
#[test]
fn too_many_tables_beside_a_key_that_reads_as_zero() {
    let source = "local t = { [1e-300] = { x = 'y' } } for i = 1, 999000 do t[i] = {} end return t";
    let e = Assets::from_asphalt("a.luau", source).unwrap_err();
    assert!(matches!(e, AssetMapError::Crowded));
    assert_eq!(e.message("a.luau"), "asphalt output a.luau holds too many tables");
}

#[test]
fn a_failed_run_can_be_handed_in() {
    let mut map = TextMap::new();
    let r = read_asset_map(Err("no".to_string()), &mut map);
    assert!(matches!(r, Err(AssetMapError::Evaluate(reason)) if reason == "no"));
    assert!(Inputs::default().with_evaluated("x", Err("no".to_string())).is_err());
    assert!(Assets::from_evaluated("x", Err("no".to_string())).is_err());
}

#[test]
fn a_second_map_is_laid_over_the_first() {
    let inputs = Inputs::from_pairs(&[("a", "old"), ("b", "kept")])
        .with_asphalt("m", "return { a = 'new', c = 'added' }")
        .unwrap();
    assert_eq!(inputs.get("a"), Some("new"));
    assert_eq!(inputs.get("b"), Some("kept"));
    assert_eq!(inputs.get("c"), Some("added"));
}

#[test]
fn modules_are_known_by_name() {
    let inputs = Inputs::default()
        .with_module("ids", "return 1")
        .with_module_source("env", "return 2")
        .with_module("ids", "return 3");
    assert_eq!(inputs.module_names(), ["env", "ids"]);
    assert_eq!(inputs.module("ids"), Some("return 3"));
    assert_eq!(inputs.source_of("env"), Some("return 2"));
    assert!(!inputs.has_map());

    let assets = Assets::from_pairs(&[("k", "v")])
        .with_module_source("return 'm'")
        .with_ids_module("return 'i'");
    assert_eq!(assets.source_of("assets"), Some("return 'm'"));
    assert_eq!(assets.source_of("ids"), Some("return 'i'"));
    assert_eq!(assets.source_of("env"), None);
    assert_eq!(assets.mapped("k"), Some("v"));
    assert_eq!(assets.get("x"), None);
    assert_eq!(Assets::default().source_of("assets"), None);
}

#[test]
fn module_references() {
    assert_eq!(module_reference("$module").as_deref(), Some("assets"));
    assert_eq!(module_reference("$rbxsync_module").as_deref(), Some("ids"));
    assert_eq!(module_reference("$module:env").as_deref(), Some("env"));
    assert_eq!(module_reference("$module:").as_deref(), Some(""));
    assert_eq!(module_reference("$modules"), None);
    assert_eq!(module_reference("ui.ShopIcon"), None);
    assert!(stands_for_source("$require:x") && stands_for_source("$module"));
    assert!(!stands_for_source("$requires") && !stands_for_source("x"));
}

fn property(value: &str, inputs: &Inputs) -> Result<String, String> {
    resolve_property(value, inputs).map(|r| match r {
        Resolved::Source(s) => format!("source {s}"),
        Resolved::Value(s) => format!("value {s}"),
    })
}

#[test]
fn values_of_properties() {
    let inputs = Inputs::from_pairs(&[
        ("ui.Icon", "rbxassetid://11"),
        ("twice", "rbxassetid://rbxassetid://rbxasset://12"),
        ("word", "rbxassetid://abc"),
        ("minus", "-1"),
        ("huge", "18446744073709551616"),
        ("edge", "18446744073709551615"),
        ("$odd", "found"),
    ])
    .with_module("assets", "A")
    .with_module("ids", "I")
    .with_module("env", "E");

    assert_eq!(property("ui.Icon", &inputs).unwrap(), "value rbxassetid://11");
    assert_eq!(property("$module", &inputs).unwrap(), "source A");
    assert_eq!(property("$rbxsync_module", &inputs).unwrap(), "source I");
    assert_eq!(property("$module:env", &inputs).unwrap(), "source E");
    assert_eq!(property("$odd", &inputs).unwrap(), "value found");
    assert_eq!(property("$require:ui.Icon", &inputs).unwrap(), "source return require(11)\n");
    assert_eq!(property("$require:twice", &inputs).unwrap(), "source return require(12)\n");
    assert_eq!(
        property("$require:edge", &inputs).unwrap(),
        "source return require(18446744073709551615)\n"
    );
    assert_eq!(property("nope", &inputs).unwrap_err(), "'nope' is not in the asset map");
    assert_eq!(property("$require:nope", &inputs).unwrap_err(), "'nope' is not in the asset map");
    assert_eq!(
        property("$require:word", &inputs).unwrap_err(),
        "'word' is 'rbxassetid://abc', not a numeric asset id"
    );
    assert!(property("$require:minus", &inputs).is_err());
    assert!(property("$require:huge", &inputs).is_err());
}

#[test]
fn missing_modules_name_their_flag() {
    let none = Inputs::default();
    assert_eq!(property("$module", &none).unwrap_err(), "$module needs --assets");
    assert_eq!(
        property("$rbxsync_module", &none).unwrap_err(),
        "$rbxsync_module needs --ids-module"
    );
    assert_eq!(
        property("$module:env", &none).unwrap_err(),
        "$module:env needs --module env=<path>"
    );
}

#[test]
fn values_of_keys() {
    let inputs = Inputs::from_pairs(&[("audio.Bang", "rbxassetid://2")]);
    let key = |value: &str| resolve_key(value, &inputs);
    assert_eq!(key("audio.Bang").unwrap(), KeyValue::Str("rbxassetid://2".to_string()));
    assert_eq!(key("$true").unwrap(), KeyValue::Bool(true));
    assert_eq!(key("$false").unwrap(), KeyValue::Bool(false));
    assert_eq!(key("$nil").unwrap(), KeyValue::Nil);
    assert_eq!(key("$0.5").unwrap(), KeyValue::Num(Number::parse("0.5").unwrap()));
    assert_eq!(key("$1234").unwrap(), KeyValue::Num(Number::parse("1234").unwrap()));
    assert_eq!(key("$word").unwrap(), KeyValue::Str("word".to_string()));
    assert_eq!(key("$$My Game").unwrap(), KeyValue::Str("My Game".to_string()));
    assert_eq!(key("$$true").unwrap(), KeyValue::Str("true".to_string()));
    assert_eq!(key("$").unwrap(), KeyValue::Str(String::new()));
    assert_eq!(key("nope").unwrap_err(), "'nope' is not in the asset map");
}

#[test]
fn descriptions() {
    assert_eq!(describe(&KeyValue::Str("a\"b\n".to_string())), "\"a\\\"b\\n\"");
    assert_eq!(describe(&KeyValue::Num(Number::parse("1e2").unwrap())), "100");
    assert_eq!(describe(&KeyValue::Bool(true)), "true");
    assert_eq!(describe(&KeyValue::Bool(false)), "false");
    assert_eq!(describe(&KeyValue::Nil), "nil (removed)");
    assert_eq!(describe_source("$module"), "[asset module]");
    assert_eq!(describe_source("$module:assets"), "[asset module]");
    assert_eq!(describe_source("$rbxsync_module"), "[ids module]");
    assert_eq!(describe_source("$module:env"), "[env module]");
    assert_eq!(describe_source("$require:models.main"), "[require stub]");
}

#[test]
fn a_rule_without_entries_is_a_leftover() {
    let config = Config {
        injections: vec![
            rule("A", &[], &[]),
            rule("B", &[("Image", "x")], &[]),
            rule("C", &[], &[("k", "$1")]),
        ],
    };
    let paths: Vec<&str> = config.active().iter().map(|i| i.roblox_path.as_str()).collect();
    assert_eq!(paths, ["B", "C"]);
    assert_eq!(Config::default().active().len(), 0);
}

#[test]
fn what_a_config_needs() {
    let needs = |properties: &[(&str, &str)], keys: &[(&str, &str)]| {
        Config { injections: vec![rule("P", properties, keys)] }.needs()
    };
    assert_eq!(needs(&[], &[]), Needs::default());
    assert!(needs(&[("Image", "ui.Icon")], &[]).asset_map);
    assert!(needs(&[("Source", "$require:m")], &[]).asset_map);
    assert!(!needs(&[("Source", "$module")], &[]).asset_map);
    assert!(!needs(&[("Source", "$other")], &[]).asset_map);
    assert!(needs(&[], &[("k", "audio.Bang")]).asset_map);
    assert!(!needs(&[], &[("k", "$$x"), ("l", "$1"), ("m", "$require:x")]).asset_map);

    let all = needs(
        &[("A", "$module"), ("B", "$rbxsync_module"), ("C", "$module:env"), ("D", "$module:env")],
        &[],
    );
    let mut names = TextSet::new();
    for name in ["ids", "assets", "env"] {
        names.insert(name.to_string());
    }
    assert_eq!(all.modules, names);
    assert_eq!(all.clone(), all);
    assert_eq!((all.modules.len(), all.modules.item(0)), (3, "assets"));
    assert!(all.modules.contains("env") && !all.modules.contains("x"));
}

#[test]
fn the_extension_picks_the_format() {
    for toml in ["toml", "TOML", "ToMl"] {
        assert!(is_toml(toml), "{toml}");
    }
    for json in ["json", "tom", "tomll", "", "tоml"] {
        assert!(!is_toml(json), "{json}");
    }
}
