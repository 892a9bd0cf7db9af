//! Paths, types and reports.

use rbx_dom_weak::types::{Content, ContentId, Ref, Variant, VariantType};
use rbx_dom_weak::{ustr, Instance, InstanceBuilder, WeakDom};
use rbx_inject::apply;
use rbx_inject::assets::Assets;
use rbx_inject::check::{check, check_in, check_keys};
use rbx_inject::config::{Config, Injection};
use rbx_inject::dom::{class_is_known, declared_type, ensure, find, overriding_properties};
use rbx_inject::dom::variant_for;
use rbx_inject::inject::apply_in;
use rbx_inject::inputs::Inputs;
use rbx_inject::place_file::place_bytes;
use rbx_inject::text_map::TextMap;

fn place() -> WeakDom {
    WeakDom::new(
        InstanceBuilder::new("DataModel")
            .with_child(
                InstanceBuilder::new("ReplicatedStorage")
                    .with_child(InstanceBuilder::new("Folder").with_name("Dir"))
                    .with_child(
                        InstanceBuilder::new("ModuleScript")
                            .with_name("Mod")
                            .with_property("Source", "return { a = 1 }"),
                    )
                    .with_child(InstanceBuilder::new("ModuleScript").with_name("Bare"))
                    .with_child(
                        InstanceBuilder::new("BrandNewThing")
                            .with_name("New")
                            .with_property("Speed", Variant::Int32(1))
                            .with_property("Ratio", Variant::Float64(1.5))
                            .with_property("On", Variant::Bool(false)),
                    ),
            )
            .with_child(
                InstanceBuilder::new("StarterGui")
                    .with_child(InstanceBuilder::new("ImageLabel").with_name("Icon")),
            ),
    )
}

fn rules(list: &[(&str, &[(&str, &str)], &[(&str, &str)])]) -> Config {
    Config {
        injections: list
            .iter()
            .map(|(path, properties, keys)| Injection {
                roblox_path: path.to_string(),
                properties: TextMap::from_pairs(properties),
                keys: TextMap::from_pairs(keys),
            })
            .collect(),
    }
}

fn at<'a>(dom: &'a WeakDom, path: &str) -> &'a Instance {
    dom.get_by_ref(find(dom, path).expect("the path is there")).unwrap()
}

fn value(dom: &WeakDom, path: &str, prop: &str) -> Option<Variant> {
    at(dom, path).properties.get(&ustr(prop)).cloned()
}

#[test]
fn finding_by_name() {
    let dom = place();
    assert_eq!(at(&dom, "ReplicatedStorage.Dir").name, "Dir");
    assert_eq!(find(&dom, "ReplicatedStorage.Nope"), None);
    assert_eq!(find(&dom, "ReplicatedStorage.Dir.Deeper"), None);
    assert_eq!(find(&dom, ""), None);
    assert_eq!(find(&dom, "ReplicatedStorage."), None);
}

/// The first child of a name is the one that is found.
#[test]
fn the_first_of_two_children_is_found() {
    let mut dom = place();
    let service = find(&dom, "ReplicatedStorage").unwrap();
    let first = find(&dom, "ReplicatedStorage.Dir").unwrap();
    dom.insert(service, InstanceBuilder::new("Part").with_name("Dir"));
    assert_eq!(find(&dom, "ReplicatedStorage.Dir"), Some(first));
}

#[test]
fn growing_a_path() {
    let mut dom = place();
    let count = |dom: &WeakDom| dom.descendants().count();
    let before = count(&dom);
    let (leaf, created) = ensure(&mut dom, "ReplicatedStorage.Dir.A.B", "ModuleScript").unwrap();
    assert!(created);
    assert_eq!(find(&dom, "ReplicatedStorage.Dir.A.B"), Some(leaf));
    assert_eq!(at(&dom, "ReplicatedStorage.Dir.A").class, "Folder");
    assert_eq!(at(&dom, "ReplicatedStorage.Dir.A.B").class, "ModuleScript");
    assert_eq!(at(&dom, "ReplicatedStorage.Dir.A.B").properties.len(), 0);
    assert_eq!(count(&dom), before + 2);

    assert_eq!(
        ensure(&mut dom, "ReplicatedStorage.Dir.A.B", "Part"),
        Ok((leaf, false)),
        "what is there is left alone"
    );
    assert_eq!(count(&dom), before + 2);
}

#[test]
fn obstacles() {
    let mut dom = place();
    let before = dom.descendants().count();
    assert_eq!(
        ensure(&mut dom, "ReplicatedStorage..X", "Folder").unwrap_err(),
        "path 'ReplicatedStorage..X' has an empty segment"
    );
    assert_eq!(
        ensure(&mut dom, "", "Folder").unwrap_err(),
        "path '' has an empty segment"
    );
    assert_eq!(
        ensure(&mut dom, "ReplicatedStorge.X", "Folder").unwrap_err(),
        "'ReplicatedStorge' is not a service of this place"
    );
    assert_eq!(dom.descendants().count(), before);
}

#[test]
fn the_database_knows_classes_and_their_descent() {
    assert!(class_is_known("ImageLabel") && !class_is_known("BrandNewThing"));
    assert_eq!(declared_type("ImageLabel", "Image"), Some(VariantType::ContentId));
    assert_eq!(declared_type("ImageLabel", "ImageContent"), Some(VariantType::Content));
    assert_eq!(declared_type("ImageLabel", "Visible"), Some(VariantType::Bool));
    assert_eq!(declared_type("ImageLabel", "Imagee"), None);
    assert_eq!(declared_type("BrandNewThing", "Image"), None);
    assert_eq!(overriding_properties("ImageLabel", "Image"), ["ImageContent"]);
    assert!(overriding_properties("ImageLabel", "Visible").is_empty());
    assert!(overriding_properties("BrandNewThing", "Image").is_empty());
}

fn typed(class: &str, prop: &str, text: &str) -> Variant {
    let dom = WeakDom::new(InstanceBuilder::new(class));
    variant_for(dom.root(), prop, text)
}

#[test]
fn a_text_is_typed_as_declared() {
    let id = "rbxassetid://1";
    assert_eq!(typed("ImageLabel", "Image", id), Variant::ContentId(ContentId::from(id)));
    assert_eq!(
        typed("ImageLabel", "ImageContent", id),
        Variant::Content(Content::from_uri(id))
    );
    assert_eq!(typed("TextLabel", "Text", id), Variant::String(id.to_string()));
    assert_eq!(typed("ImageLabel", "Visible", "true"), Variant::Bool(true));
    assert_eq!(typed("ImageLabel", "Visible", "yes"), Variant::Bool(false));
    assert_eq!(typed("ImageLabel", "ZIndex", "-7"), Variant::Int32(-7));
    assert_eq!(typed("IntValue", "Value", "9000000000"), Variant::Int64(9_000_000_000));
    assert_eq!(typed("Sound", "Volume", "0.25"), Variant::Float32(0.25));
    assert_eq!(typed("NumberValue", "Value", "2.5"), Variant::Float64(2.5));
}

/// What the declared type cannot take falls back to a content id or a text.
#[test]
fn a_text_that_does_not_fit_its_type() {
    assert_eq!(typed("ImageLabel", "ZIndex", "x"), Variant::String("x".to_string()));
    assert_eq!(typed("ImageLabel", "ZIndex", "2147483648"), {
        Variant::String("2147483648".to_string())
    });
    assert_eq!(typed("Sound", "Volume", "loud"), Variant::String("loud".to_string()));
    assert_eq!(typed("NumberValue", "Value", "x"), Variant::String("x".to_string()));
    assert_eq!(
        typed("Part", "Position", "rbxasset://x"),
        Variant::ContentId(ContentId::from("rbxasset://x"))
    );
    assert_eq!(typed("BrandNewThing", "Icon", "rbxassetid://2"), {
        Variant::ContentId(ContentId::from("rbxassetid://2"))
    });
}

/// Where the database knows nothing, the type that is there already decides.
#[test]
fn the_type_that_is_there_decides_next() {
    let dom = place();
    let new = at(&dom, "ReplicatedStorage.New");
    assert_eq!(variant_for(new, "Speed", "12"), Variant::Int32(12));
    assert_eq!(variant_for(new, "Speed", "fast"), Variant::String("fast".to_string()));
    assert_eq!(variant_for(new, "Ratio", "0.5"), Variant::Float64(0.5));
    assert_eq!(variant_for(new, "On", "true"), Variant::Bool(true));
    let empty = WeakDom::new(
        InstanceBuilder::new("BrandNewThing").with_property("C", Content::none()),
    );
    assert_eq!(
        variant_for(empty.root(), "C", "rbxassetid://3"),
        Variant::Content(Content::from_uri("rbxassetid://3"))
    );
}

#[test]
fn a_created_module_is_reported() {
    let mut dom = place();
    let inputs = Inputs::default().with_module("env", "return 'ü'");
    let report = apply(
        &mut dom,
        &rules(&[("ReplicatedStorage.Gen.Env", &[("Source", "$module:env")], &[])]),
        &inputs,
    );
    assert_eq!(
        report.changes,
        [
            "ReplicatedStorage.Gen.Env  [created ModuleScript]",
            "ReplicatedStorage.Gen.Env.Source = [env module] (11 bytes)",
        ]
    );
    assert!(report.warnings.is_empty());
    assert_eq!(
        value(&dom, "ReplicatedStorage.Gen.Env", "Source"),
        Some(Variant::String("return 'ü'".to_string()))
    );
}

/// Nothing is created until the value that would fill it has resolved.
#[test]
fn a_missing_module_creates_nothing() {
    let mut dom = place();
    let before = dom.descendants().count();
    let report = apply(
        &mut dom,
        &rules(&[(
            "ReplicatedStorage.Gen.Env",
            &[("Name", "k"), ("Source", "$module:env")],
            &[],
        )]),
        &Inputs::from_pairs(&[("k", "v")]),
    );
    assert_eq!(
        report.warnings,
        [
            "ReplicatedStorage.Gen.Env.Name: no such instance",
            "ReplicatedStorage.Gen.Env.Source: $module:env needs --module env=<path>",
        ]
    );
    assert!(!report.changed());
    assert_eq!(dom.descendants().count(), before);
}

/// A folder has no source; writing one would be dropped when the place is loaded.
#[test]
fn a_target_that_cannot_hold_the_source_is_refused() {
    let mut dom = place();
    let report = apply(
        &mut dom,
        &rules(&[("ReplicatedStorage.Dir", &[("Source", "$module")], &[])]),
        &Assets::default().with_module_source("return {}"),
    );
    assert_eq!(
        report.warnings,
        ["ReplicatedStorage.Dir.Source: Folder has no property 'Source' in the reflection database"]
    );
    assert!(!report.changed());
    assert_eq!(value(&dom, "ReplicatedStorage.Dir", "Source"), None);
}

/// A class that the database has not caught up with is written to all the same.
#[test]
fn an_unknown_class_takes_a_source() {
    let mut dom = place();
    let report = apply(
        &mut dom,
        &rules(&[("ReplicatedStorage.New", &[("Source", "$module")], &[])]),
        &Assets::default().with_module_source("return {}"),
    );
    assert_eq!(report.changes, ["ReplicatedStorage.New.Source = [asset module] (9 bytes)"]);
    assert_eq!(
        value(&dom, "ReplicatedStorage.New", "Source"),
        Some(Variant::String("return {}".to_string()))
    );
}

#[test]
fn a_stale_twin_is_named() {
    let mut dom = place();
    let icon = find(&dom, "StarterGui.Icon").unwrap();
    dom.get_by_ref_mut(icon)
        .unwrap()
        .properties
        .insert(ustr("ImageContent"), Variant::Content(Content::from_uri("rbxassetid://1")));
    let config = rules(&[("StarterGui.Icon", &[("Image", "ui.Icon")], &[])]);
    let inputs = Inputs::from_pairs(&[("ui.Icon", "rbxassetid://2")]);

    let report = apply(&mut dom, &config, &inputs);
    assert_eq!(
        report.changes,
        ["StarterGui.Icon.Image = rbxassetid://2 (replaced stale ImageContent)"]
    );
    assert_eq!(value(&dom, "StarterGui.Icon", "ImageContent"), None);

    // Once more, and nothing is left to replace.
    let again = apply(&mut dom, &config, &inputs);
    assert_eq!(again.changes, ["StarterGui.Icon.Image = rbxassetid://2"]);
    assert_eq!(at(&dom, "StarterGui.Icon").properties.len(), 1);
}

#[test]
fn keys_are_reported_and_taken_back() {
    let mut dom = place();
    let inputs = Inputs::from_pairs(&[("k", "v")]);
    let report = apply(
        &mut dom,
        &rules(&[(
            "ReplicatedStorage.Mod",
            &[],
            &[("b", "k"), ("c.$2", "$0.5"), ("a", "$nil"), ("d", "nope")],
        )]),
        &inputs,
    );
    assert_eq!(
        report.changes,
        [
            "ReplicatedStorage.Mod[a] = nil (removed)",
            "ReplicatedStorage.Mod[b] = \"v\"",
            "ReplicatedStorage.Mod[c.$2] = 0.5",
        ]
    );
    assert_eq!(report.warnings, ["ReplicatedStorage.Mod[d]: 'nope' is not in the asset map"]);
    assert_eq!(
        value(&dom, "ReplicatedStorage.Mod", "Source"),
        Some(Variant::String("return {\n\tb = \"v\",\n\tc = {\n\t\t[2] = 0.5,\n\t},\n}\n".to_string()))
    );

    let module = find(&dom, "ReplicatedStorage.Mod").unwrap();
    let broken = Variant::String("return 5".to_string());
    dom.get_by_ref_mut(module).unwrap().properties.insert(ustr("Source"), broken.clone());
    let report = apply(
        &mut dom,
        &rules(&[
            ("StarterGui.Icon", &[("Image", "k")], &[]),
            ("ReplicatedStorage.Mod", &[], &[("b", "k"), ("d", "nope")]),
        ]),
        &inputs,
    );
    assert_eq!(report.changes, ["StarterGui.Icon.Image = v"]);
    assert_eq!(
        report.warnings,
        [
            "ReplicatedStorage.Mod[d]: 'nope' is not in the asset map",
            "ReplicatedStorage.Mod: the ModuleScript does not return a table",
        ]
    );
    assert_eq!(value(&dom, "ReplicatedStorage.Mod", "Source"), Some(broken));
}

#[test]
fn keys_that_have_no_module() {
    let mut dom = place();
    let report = apply(
        &mut dom,
        &rules(&[
            ("Nowhere", &[], &[("a", "$1")]),
            ("StarterGui.Icon", &[], &[("a", "$1")]),
            ("ReplicatedStorage.Bare", &[], &[("a", "$1")]),
            ("ReplicatedStorage.Mod", &[], &[("a", "nope")]),
        ]),
        &Inputs::default(),
    );
    assert_eq!(
        report.warnings,
        [
            "Nowhere: no such instance",
            "StarterGui.Icon: 'keys' needs a ModuleScript, found a ImageLabel",
            "ReplicatedStorage.Bare: ModuleScript has no Source",
            "ReplicatedStorage.Mod[a]: 'nope' is not in the asset map",
        ]
    );
    assert!(!report.changed());
    assert_eq!(
        value(&dom, "ReplicatedStorage.Mod", "Source"),
        Some(Variant::String("return { a = 1 }".to_string()))
    );
}

#[test]
fn other_instances_are_left_alone() {
    let mut dom = place();
    let refs: Vec<Ref> = dom.descendants().map(|i| i.referent()).collect();
    apply(
        &mut dom,
        &rules(&[("ReplicatedStorage.Mod", &[("Source", "$module")], &[("x", "$1")])]),
        &Assets::default().with_module_source("return {}"),
    );
    assert_eq!(dom.descendants().map(|i| i.referent()).collect::<Vec<_>>(), refs);
    assert_eq!(value(&dom, "ReplicatedStorage.New", "Speed"), Some(Variant::Int32(1)));
    assert_eq!(at(&dom, "StarterGui.Icon").properties.len(), 0);
}

fn found(config: &Config, inputs: Option<&Inputs>) -> Vec<String> {
    check(&place(), config, inputs).iter().map(|f| f.text()).collect()
}

#[test]
fn findings_in_full() {
    let config = rules(&[
        ("StarterGui.Icon", &[("Imagee", "ui.A"), ("Image", "$require:ui.B")], &[]),
        ("ReplicatedStorage.Gone", &[("Image", "ui.A")], &[("k", "$1")]),
        ("Nowhere.X", &[("Source", "$module")], &[]),
        ("ReplicatedStorage.Bare", &[], &[("k", "ui.A")]),
        ("ReplicatedStorage.Mod", &[], &[("k", "ui.A"), ("l", "$x")]),
        ("ReplicatedStorage.New.Deep", &[("Source", "$module:x")], &[]),
    ]);
    let always = [
        "warning: StarterGui.Icon.Imagee: ImageLabel has no property 'Imagee' in the reflection database",
        "error: ReplicatedStorage.Gone: no such instance",
        "error: ReplicatedStorage.Gone: no such instance",
        "error: Nowhere.X: 'Nowhere' is not a service of this place",
        "error: ReplicatedStorage.Bare: ModuleScript has no Source",
    ];
    assert_eq!(found(&config, None), always);
    assert_eq!(
        found(&config, Some(&Inputs::from_pairs(&[("ui.A", "x"), ("ui.B", "1")]))),
        always,
        "a map in which every lookup succeeds adds nothing"
    );
    assert_eq!(
        found(&config, Some(&Inputs::from_pairs(&[("other", "x")]))),
        [
            "error: StarterGui.Icon.Image: 'ui.B' is not in the asset map",
            always[0],
            "error: StarterGui.Icon.Imagee: 'ui.A' is not in the asset map",
            always[1],
            always[2],
            always[3],
            always[4],
            "error: ReplicatedStorage.Mod[k]: 'ui.A' is not in the asset map",
        ]
    );
}

/// Where a `keys` rule stands among `properties` rules makes no difference.
#[test]
fn keys_wait_for_all_properties() {
    let source: (&str, &[(&str, &str)], &[(&str, &str)]) =
        ("ReplicatedStorage.Mod", &[("Source", "$module")], &[]);
    let key: (&str, &[(&str, &str)], &[(&str, &str)]) =
        ("ReplicatedStorage.Mod", &[], &[("name", "$$fresh")]);
    let assets = || Assets::default().with_module_source("return { name = 'stale', n = 1 }");

    let mut first = place();
    let mut second = place();
    let a = apply(&mut first, &rules(&[source, key]), &assets());
    let b = apply(&mut second, &rules(&[key, source]), &assets());
    assert_eq!(a.changes, b.changes);
    let expected = Some(Variant::String("return {\n\tn = 1,\n\tname = \"fresh\",\n}\n".to_string()));
    assert_eq!(value(&first, "ReplicatedStorage.Mod", "Source"), expected);
    assert_eq!(value(&second, "ReplicatedStorage.Mod", "Source"), expected);
}

/// Without a database, the value itself decides on its type, and nothing is refused.
#[test]
fn a_run_without_a_database() {
    let mut dom = place();
    let report = apply_in(
        None,
        &mut dom,
        &rules(&[
            ("StarterGui.Icon", &[("Image", "k"), ("ZIndex", "n")], &[]),
            ("ReplicatedStorage.Dir", &[("Source", "$module")], &[]),
        ]),
        &Assets::from_pairs(&[("k", "rbxassetid://4"), ("n", "3")]).with_module_source("x"),
    );
    assert!(report.warnings.is_empty(), "{:?}", report.warnings);
    assert_eq!(
        value(&dom, "StarterGui.Icon", "Image"),
        Some(Variant::ContentId(ContentId::from("rbxassetid://4")))
    );
    assert_eq!(
        value(&dom, "StarterGui.Icon", "ZIndex"),
        Some(Variant::String("3".to_string()))
    );
    assert_eq!(
        value(&dom, "ReplicatedStorage.Dir", "Source"),
        Some(Variant::String("x".to_string()))
    );
    assert!(check_in(None, &dom, &Config::default(), None::<&Assets>).is_empty());
}

/// An instance as a test compares it: what it is called, what it is, its children
/// and its properties in the order of their names.
type Record = (Ref, String, String, Vec<Ref>, Vec<(String, Variant)>);

fn records(dom: &WeakDom) -> Vec<Record> {
    dom.descendants()
        .map(|inst| {
            let mut props: Vec<(String, Variant)> =
                inst.properties.iter().map(|(k, v)| (k.to_string(), v.clone())).collect();
            props.sort_by(|a, b| a.0.cmp(&b.0));
            let children: Vec<Ref> = inst.children().to_vec();
            (inst.referent(), inst.name.clone(), inst.class.to_string(), children, props)
        })
        .collect()
}

/// What was there stays as it was, but for what the rules ask for and for children
/// that were added.
#[test]
fn a_run_spares_the_rest() {
    let mut dom = place();
    let before = records(&dom);
    let icon = find(&dom, "StarterGui.Icon").unwrap();
    let module = find(&dom, "ReplicatedStorage.Mod").unwrap();
    let dir = find(&dom, "ReplicatedStorage.Dir").unwrap();
    let report = apply(
        &mut dom,
        &rules(&[
            ("StarterGui.Icon", &[("Image", "k")], &[]),
            ("ReplicatedStorage.Dir.Made.Here", &[("Source", "$module")], &[]),
            ("ReplicatedStorage.Mod", &[], &[("b", "$2")]),
        ]),
        &Assets::from_pairs(&[("k", "rbxassetid://4")]).with_module_source("return {}"),
    );
    assert!(report.warnings.is_empty(), "{:?}", report.warnings);
    let after = records(&dom);
    for old in &before {
        let new = after.iter().find(|r| r.0 == old.0).expect("the instance is still there");
        assert_eq!((&new.1, &new.2), (&old.1, &old.2));
        if old.0 == dir {
            assert_eq!(new.3[..old.3.len()], old.3[..]);
            assert_eq!(new.3.len(), old.3.len() + 1);
        } else {
            assert_eq!(new.3, old.3);
        }
        let named = if old.0 == icon {
            "Image"
        } else if old.0 == module {
            "Source"
        } else {
            ""
        };
        let rest = |r: &Record| -> Vec<(String, Variant)> {
            r.4.iter().filter(|p| p.0 != named).cloned().collect()
        };
        assert_eq!(rest(new), rest(old));
    }
    assert_eq!(after.len(), before.len() + 2);
}

/// A second run over what the first one made changes nothing more, also where two
/// rules are for one property and the first of them does not fit its type.
#[test]
fn a_second_pass_changes_nothing() {
    let config = rules(&[
        ("ReplicatedStorage.Dir.Made", &[("Source", "$module")], &[]),
        ("ReplicatedStorage.New", &[("Speed", "n"), ("Extra", "k")], &[]),
        ("ReplicatedStorage.New", &[("Speed", "t"), ("Extra", "t")], &[]),
        ("StarterGui.Icon", &[("Image", "k"), ("ImageContent", "k")], &[]),
        ("ReplicatedStorage.Gone", &[("Image", "k")], &[]),
    ]);
    let assets = Assets::from_pairs(&[("k", "rbxassetid://4"), ("n", "7"), ("t", "fast")])
        .with_module_source("return {}");
    let mut dom = place();
    apply(&mut dom, &config, &assets);
    assert_eq!(
        value(&dom, "ReplicatedStorage.New", "Speed"),
        Some(Variant::String("fast".to_string()))
    );
    assert_eq!(
        value(&dom, "ReplicatedStorage.New", "Extra"),
        Some(Variant::ContentId(ContentId::from("fast")))
    );
    let once = records(&dom);
    apply(&mut dom, &config, &assets);
    assert_eq!(records(&dom), once);
}

/// A rule for what only a later rule creates has nothing to do at first.
#[test]
fn a_rule_before_the_one_that_creates_its_target() {
    let config = rules(&[
        ("ReplicatedStorage.Late", &[("Extra", "k")], &[]),
        ("ReplicatedStorage.Late", &[("Source", "$module")], &[]),
    ]);
    let assets = Assets::from_pairs(&[("k", "v")]).with_module_source("return {}");
    let mut dom = place();
    let first = apply(&mut dom, &config, &assets);
    assert_eq!(first.warnings, ["ReplicatedStorage.Late: no such instance"]);
    assert_eq!(value(&dom, "ReplicatedStorage.Late", "Extra"), None);
    let second = apply(&mut dom, &config, &assets);
    assert!(second.warnings.is_empty(), "{:?}", second.warnings);
    assert_eq!(
        value(&dom, "ReplicatedStorage.Late", "Extra"),
        Some(Variant::String("v".to_string()))
    );
}

/// A rule with properties and keys is as good as one rule for each.
#[test]
fn a_rule_can_be_split() {
    let properties: &[(&str, &str)] = &[("Source", "$module")];
    let keys: &[(&str, &str)] = &[("n", "$2"), ("name", "k")];
    let path = "ReplicatedStorage.Mod";
    let assets =
        Assets::from_pairs(&[("k", "v")]).with_module_source("return { name = 'x', n = 1 }");
    let mut whole = place();
    let mut split = place();
    let a = apply(&mut whole, &rules(&[(path, properties, keys)]), &assets);
    let b = apply(&mut split, &rules(&[(path, &[], keys), (path, properties, &[])]), &assets);
    assert_eq!(a.changes, b.changes);
    assert_eq!(a.warnings, b.warnings);
    let expected = Some(Variant::String("return {\n\tn = 2,\n\tname = \"v\",\n}\n".to_string()));
    assert_eq!(value(&whole, path, "Source"), expected);
    assert_eq!(value(&split, path, "Source"), expected);
}

/// What a place holds, but for references: each instance with its depth, from the top on.
fn outline(dom: &WeakDom) -> Vec<(usize, String, String, Vec<String>)> {
    let mut lines = Vec::new();
    let mut todo = vec![(0, dom.root_ref())];
    while let Some((depth, r)) = todo.pop() {
        let inst = dom.get_by_ref(r).unwrap();
        let mut props: Vec<String> =
            inst.properties.iter().map(|(name, value)| format!("{name}: {value:?}")).collect();
        props.sort();
        lines.push((depth, inst.name.clone(), inst.class.to_string(), props));
        todo.extend(inst.children().iter().rev().map(|child| (depth + 1, *child)));
    }
    lines
}

/// Two runs that create instances differ in their references only.
#[test]
fn two_runs_agree_but_for_references() {
    let properties: &[(&str, &str)] = &[("Source", "$module")];
    let keys: &[(&str, &str)] = &[("n", "$0.25")];
    let path = "ReplicatedStorage.Dir.A.B";
    let other = "ReplicatedStorage.Z";
    let assets = Assets::default().with_module_source("return { n = 1 }");
    let mut whole = place();
    let mut split = place();
    let a = apply(
        &mut whole,
        &rules(&[(path, properties, keys), (other, properties, &[])]),
        &assets,
    );
    let b = apply(
        &mut split,
        &rules(&[(path, &[], keys), (path, properties, &[]), (other, properties, &[])]),
        &assets,
    );
    assert_eq!(a.changes, b.changes);
    assert_eq!(a.warnings, b.warnings);
    assert_eq!(outline(&whole), outline(&split));
    assert_ne!(outline(&whole), outline(&place()));
    assert_ne!(find(&whole, path), find(&split, path));
}

/// What is in the way of a path is said once, whether the module source resolves or not.
#[test]
fn an_obstacle_is_said_once() {
    for path in ["Nowhere.X", "ReplicatedStorage..X"] {
        let mut dom = place();
        let before = records(&dom);
        let config = rules(&[(path, &[("Source", "$module"), ("Other", "gone")], &[])]);
        let report = apply(&mut dom, &config, &Assets::default());
        let said = ensure(&mut place(), path, "ModuleScript").unwrap_err();
        assert_eq!(report.warnings, [format!("{path}: {said}")]);
        assert!(report.changes.is_empty());
        assert_eq!(records(&dom), before);
    }
}

/// A path of any length can be grown, and the place can be written.
#[test]
fn a_long_path_is_grown() {
    let mut dom = place();
    let path = format!("ReplicatedStorage{}", ".X".repeat(20_000));
    let (leaf, created) = ensure(&mut dom, &path, "ModuleScript").unwrap();
    assert!(created);
    assert_eq!(find(&dom, &path), Some(leaf));
    assert_eq!(ensure(&mut dom, &path, "ModuleScript"), Ok((leaf, false)));
    assert!(place_bytes(&dom).is_ok());
}

/// The keys of one rule, without a map and with one.
#[test]
fn keys_are_checked_by_themselves() {
    let config = rules(&[
        ("ReplicatedStorage.Mod", &[], &[("k", "gone")]),
        ("ReplicatedStorage.Bare", &[], &[("k", "gone")]),
    ]);
    let dom = place();
    let mut findings = Vec::new();
    for rule in &config.injections {
        check_keys(&dom, rule, None::<&Inputs>, &mut findings);
    }
    let said: Vec<String> = findings.iter().map(|f| f.text()).collect();
    assert_eq!(said, ["error: ReplicatedStorage.Bare: ModuleScript has no Source"]);
    let inputs = Inputs::from_pairs(&[("a", "b")]);
    check_keys(&dom, &config.injections[0], Some(&inputs), &mut findings);
    assert_eq!(
        findings[1].text(),
        "error: ReplicatedStorage.Mod[k]: 'gone' is not in the asset map"
    );
}
