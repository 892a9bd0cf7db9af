//! What the command line decides, and places as bytes.

use rbx_dom_weak::types::Variant;
use rbx_dom_weak::{ustr, InstanceBuilder, WeakDom};
use rbx_inject::check::{Finding, Severity};
use rbx_inject::cli::{parse_module_arg, require_inputs, summarize, verdict, Verdict};
use rbx_inject::cli::{wrote_config, wrote_place};
use rbx_inject::config::{Config, Injection};
use rbx_inject::inputs::Inputs;
use rbx_inject::chunks::is_presentable;
use rbx_inject::place_file::{place_bytes, place_bytes_in, read_place, read_place_in};
use rbx_inject::text_map::TextMap;
use rbx_inject::Report;
use rbx_reflection::{ClassDescriptor, DataType, PropertyDescriptor, PropertyKind};
use rbx_reflection::{PropertySerialization, ReflectionDatabase};

fn config(properties: &[(&str, &str)]) -> Config {
    Config {
        injections: vec![Injection {
            roblox_path: "P".to_string(),
            properties: TextMap::from_pairs(properties),
            keys: TextMap::new(),
        }],
    }
}

#[test]
fn module_arguments() {
    assert_eq!(
        parse_module_arg("ids=src/Ids.luau").unwrap(),
        ("ids".to_string(), "src/Ids.luau".to_string())
    );
    assert_eq!(parse_module_arg("a=b=c").unwrap(), ("a".to_string(), "b=c".to_string()));
    assert_eq!(parse_module_arg("a=").unwrap(), ("a".to_string(), String::new()));
    assert_eq!(parse_module_arg("ids").unwrap_err(), "--module wants NAME=PATH, got 'ids'");
    assert_eq!(
        parse_module_arg("=x").unwrap_err(),
        "--module wants a name before the '=', got '=x'"
    );
}

#[test]
fn a_forgotten_flag_fails_by_name() {
    let given = Inputs::default().with_module("assets", "return {}");
    assert_eq!(
        require_inputs(&config(&[("Source", "$rbxsync_module")]), &given).unwrap_err(),
        "this config injects the module 'ids', which was not given; pass --module ids=<path> (given: assets)"
    );
    let two = Inputs::default().with_module("b", "x").with_module("a", "y");
    assert_eq!(
        require_inputs(&config(&[("Source", "$module"), ("Z", "$module:zzz")]), &two).unwrap_err(),
        "this config injects the module 'assets', which was not given; pass --assets <path> (given: a, b)"
    );
    assert_eq!(
        require_inputs(&config(&[("Source", "$module:env")]), &Inputs::default()).unwrap_err(),
        "this config injects the module 'env', which was not given; pass --module env=<path>"
    );
    assert_eq!(
        require_inputs(&config(&[("Image", "ui.Icon")]), &given).unwrap_err(),
        "this config looks keys up in the asset map; pass --assets <asphalt's Assets.luau>"
    );
}

#[test]
fn needs_that_are_met() {
    let inputs = Inputs::from_pairs(&[("k", "v")]).with_module("env", "x");
    assert!(require_inputs(&config(&[("A", "missing.key"), ("B", "$module:env")]), &inputs).is_ok());
    assert!(require_inputs(&config(&[]), &Inputs::default()).is_ok());
}

fn report(changes: usize, warnings: usize) -> Report {
    let lines = |n: usize| (0..n).map(|i| format!("line {i}")).collect();
    Report { changes: lines(changes), warnings: lines(warnings) }
}

#[test]
fn what_a_run_comes_to() {
    assert!(matches!(verdict(&report(1, 0), true, false), Verdict::Write));
    assert!(matches!(verdict(&report(1, 5), false, false), Verdict::Write));
    assert!(matches!(verdict(&report(0, 5), false, false), Verdict::Unchanged));
    assert!(matches!(verdict(&report(1, 0), false, true), Verdict::DryRun));
    assert!(matches!(verdict(&report(0, 0), true, true), Verdict::DryRun));
    match verdict(&report(3, 12), true, true) {
        Verdict::Refuse(message) => {
            assert_eq!(message, "12 rule(s) did not resolve, and --strict was given")
        }
        other => panic!("{other:?}"),
    }
    assert!(report(1, 0).changed() && !report(0, 1).changed() && !Report::default().changed());
}

fn finding(severity: Severity) -> Finding {
    Finding { severity, target: "T".to_string(), message: "m".to_string() }
}

#[test]
fn what_a_check_comes_to() {
    let s = summarize(4, &vec![], true);
    assert_eq!((s.line.as_str(), s.fails), ("4 rule(s), all resolve.", false));

    let warned = vec![finding(Severity::Warning)];
    let s = summarize(2, &warned, false);
    assert_eq!((s.line.as_str(), s.fails), ("2 rule(s): 0 error(s), 1 warning(s).", false));
    assert!(summarize(2, &warned, true).fails);

    let mixed = vec![finding(Severity::Warning), finding(Severity::Error), finding(Severity::Error)];
    let s = summarize(10, &mixed, false);
    assert_eq!((s.line.as_str(), s.fails), ("10 rule(s): 2 error(s), 1 warning(s).", true));
    assert_eq!(mixed[0].clone().text(), "warning: T: m");
    assert_eq!(mixed[1].text(), "error: T: m");
    assert_eq!(Severity::Error.text(), "error");
}

#[test]
fn closing_lines() {
    assert_eq!(wrote_place("out.rbxl", 3), "Wrote out.rbxl (3 change(s)).");
    assert_eq!(
        wrote_config("i.toml", 1),
        "Wrote i.toml (1 rule(s)). The original is untouched."
    );
}

#[test]
fn a_place_survives_its_bytes() {
    let dom = WeakDom::new(
        InstanceBuilder::new("DataModel").with_child(
            InstanceBuilder::new("ReplicatedStorage").with_child(
                InstanceBuilder::new("ModuleScript")
                    .with_name("M")
                    .with_property("Source", "return 1"),
            ),
        ),
    );
    let bytes = place_bytes(&dom).unwrap();
    let reread = read_place("game.rbxl", &bytes).unwrap();
    let m = rbx_inject::dom::find(&reread, "ReplicatedStorage.M").unwrap();
    assert_eq!(
        reread.get_by_ref(m).unwrap().properties.get(&ustr("Source")),
        Some(&Variant::String("return 1".to_string()))
    );
}

#[test]
fn bytes_that_are_no_place() {
    let e = read_place("game.rbxl", b"nonsense").unwrap_err();
    assert!(e.starts_with("parsing game.rbxl: "), "{e}");
}

/// A file that was cut short, or whose chunks are not what they say, is an error.
#[test]
fn a_file_that_was_cut_short() {
    let dom = WeakDom::new(
        InstanceBuilder::new("DataModel").with_child(InstanceBuilder::new("Folder")),
    );
    let bytes = place_bytes(&dom).unwrap();
    assert!(presentable(&bytes) && presentable(b"") && presentable(&[0u8; 99]));

    let broken = format!("parsing p: {BROKEN}");
    assert_eq!(read_place("p", &bytes[..bytes.len() - 1]).unwrap_err(), broken);
    // What is left of a compressed chunk cannot be unpacked, and the reader says so.
    let e = read_place("p", &bytes[..60]).unwrap_err();
    assert!(e.starts_with("parsing p: ") && e != broken, "{e}");
    let mut reserved = bytes.clone();
    reserved[32 + 12] = 1;
    assert!(!presentable(&reserved));
    assert_eq!(read_place("p", &reserved).unwrap_err(), broken);

    // Cut between two chunks it is whole as far as it goes, and still no place.
    let e = read_place("p", &bytes[..32]).unwrap_err();
    assert!(e.starts_with("parsing p: ") && e != broken, "{e}");
}

/// What is said of bytes that cannot be handed over.
const BROKEN: &str = "the chunks of the file are not what they announce, or the reflection \
    database is not in order for what they hold";

/// What is said of a place that cannot be written.
const STUCK: &str = "an instance is not in its place, or the reflection database is not in \
    order for what it is";

/// Whether bytes can be handed over, with a database that knows one class.
fn presentable(bytes: &[u8]) -> bool {
    is_presentable(database(ClassDescriptor::new("C")).unwrap(), bytes)
}

fn header() -> Vec<u8> {
    let mut bytes = b"<roblox!\x89\xff\x0d\x0a\x1a\x0a\0\0".to_vec();
    bytes.extend([0u8; 16]);
    bytes
}

fn number(n: u32) -> [u8; 4] {
    n.to_le_bytes()
}

/// A chunk that is not compressed.
fn chunk(name: &[u8; 4], data: &[u8]) -> Vec<u8> {
    [&name[..], &number(0), &number(data.len() as u32), &number(0), data].concat()
}

/// A chunk that is compressed, and says that it has `size` bytes.
fn packed(name: &[u8; 4], packed: &[u8], size: usize) -> Vec<u8> {
    [&name[..], &number(packed.len() as u32), &number(size as u32), &number(0), packed].concat()
}

fn text(s: &str) -> Vec<u8> {
    [&number(s.len() as u32)[..], s.as_bytes()].concat()
}

/// References, each written by how much it differs from the one before.
fn references(refs: &[i64]) -> Vec<u8> {
    let mut last = 0i64;
    let mut words: Vec<[u8; 4]> = Vec::new();
    for r in refs {
        let d = r - last;
        last = *r;
        words.push((((d << 1) ^ (d >> 63)) as u32).to_be_bytes());
    }
    (0..4).flat_map(|k| words.iter().map(move |w| w[k]).collect::<Vec<u8>>()).collect()
}

fn instances(id: u32, class: &str, refs: &[i64]) -> Vec<u8> {
    [&number(id)[..], &text(class), &[0], &number(refs.len() as u32), &references(refs)].concat()
}

fn parents(children: &[i64], parents: &[i64]) -> Vec<u8> {
    [&[0u8][..], &number(children.len() as u32), &references(children), &references(parents)].concat()
}

fn values(id: u32, name: &str, kind: u8, data: &[u8]) -> Vec<u8> {
    [&number(id)[..], &text(name), &[kind], data].concat()
}

fn file(chunks: &[Vec<u8>]) -> Vec<u8> {
    let mut bytes = header();
    for c in chunks {
        bytes.extend(c);
    }
    bytes.extend(chunk(b"END\0", b"</roblox>"));
    bytes
}

fn announces(chunks: &[Vec<u8>]) -> bool {
    let bytes = file(chunks);
    let fine = presentable(&bytes);
    let broken = format!("parsing p: {BROKEN}");
    match read_place("p", &bytes) {
        Ok(_) => assert!(fine),
        Err(e) => assert_eq!(fine, e != broken, "{e}"),
    }
    fine
}

/// What a file says of its tree has to hold.
#[test]
fn a_tree_that_does_not_hold() {
    let two = chunk(b"INST", &instances(0, "Folder", &[1, 2]));
    let good = [two.clone(), chunk(b"PRNT", &parents(&[2, 1], &[1, -1]))];
    assert!(announces(&good));
    assert_eq!(read_place("p", &file(&good)).unwrap().descendants().count(), 3);

    let tree = |c: &[i64], p: &[i64]| announces(&[two.clone(), chunk(b"PRNT", &parents(c, p))]);
    assert!(tree(&[1], &[-1]));
    assert!(!tree(&[1, 2], &[-1, 7]), "a parent that is not there");
    assert!(!tree(&[1, 7], &[-1, 1]), "a child that is not there");
    assert!(!tree(&[1, 1], &[-1, -1]), "a child that comes twice");
    assert!(!tree(&[1, 2, 1], &[-1, 1, 2]), "a child below itself");
    assert!(tree(&[7], &[1]), "a child of what is nowhere in the tree");
    assert!(!tree(&[1 << 31], &[-1]), "a reference that is too large");
    assert!(announces(&[two.clone(), two.clone()]), "the reader names what is declared twice");
    assert!(announces(&[chunk(b"PRNT", &[1])]), "the reader names what it does not know");
}

/// What a file says of contents has to hold.
#[test]
fn contents_that_do_not_hold() {
    let one = chunk(b"INST", &instances(0, "ImageLabel", &[1]));
    let kind = |k: i64| references(&[k]);
    let content = |data: &[u8]| {
        let prop = chunk(b"PROP", &values(0, "ImageContent", 0x22, data));
        announces(&[one.clone(), prop, chunk(b"PRNT", &parents(&[1], &[-1]))])
    };
    let uri = text("rbxassetid://1");
    let n = |n: u32| number(n).to_vec();
    assert!(content(&[kind(1), n(1), uri.clone(), n(0), n(0)].concat()));
    assert!(content(&[kind(0), n(0), n(0), n(0)].concat()));
    assert!(content(&[kind(2), n(0), n(1), references(&[1]), n(0)].concat()));
    assert!(!content(&[kind(1), n(0), n(0), n(0)].concat()), "no URI");
    assert!(!content(&[kind(2), n(0), n(0), n(0)].concat()), "no object");
    assert!(!content(&[kind(1), n(1), uri.clone(), n(0)].concat()), "cut short");
    assert!(!content(&[kind(1), n(9), uri.clone()].concat()), "more than there can be");
    assert!(content(&[kind(1), n(1)].concat()[..6].to_vec()), "the reader says what is missing");
    // A name has values of its own form.
    let named = chunk(b"PROP", &values(0, "Name", 0x22, &text("N")));
    assert!(announces(&[one, named, chunk(b"PRNT", &parents(&[1], &[-1]))]));
}

/// A compressed chunk unpacks to the length that it announces.
#[test]
fn chunks_that_are_compressed() {
    let data = instances(0, "Folder", &[1, 2, 3, 4, 5, 6, 7, 8]);
    let lz4 = lz4_flex::block::compress(&data);
    let zstd = zstd::bulk::compress(&data, 0).unwrap();
    let tops = chunk(b"PRNT", &parents(&[8], &[-1]));
    for block in [&lz4, &zstd] {
        let good = [packed(b"INST", block, data.len()), tops.clone()];
        assert!(announces(&good));
        assert_eq!(read_place("p", &file(&good)).unwrap().descendants().count(), 2);
        assert!(!announces(&[packed(b"INST", block, data.len() + 1), tops.clone()]));
        assert!(announces(&[packed(b"INST", block, 3), tops.clone()]), "the reader refuses it");
    }
    assert!(!announces(&[packed(b"INST", &[1, 2, 3], 3)]));

    // The last chunk may announce more than is there, if what is there is enough.
    let mut bytes = header();
    bytes.extend(packed(b"END\0", &lz4_flex::block::compress(b"</roblox>"), 9));
    bytes[36] += 100;
    assert!(presentable(&bytes));
    assert!(read_place("p", &bytes).is_ok());
}

/// The reader's own words come first where the header is wrong.
#[test]
fn a_header_that_is_wrong() {
    let mut bytes = file(&[chunk(b"PRNT", &parents(&[1], &[7]))]);
    assert!(!presentable(&bytes));
    bytes[14] = 1;
    assert!(presentable(&bytes));
    let e = read_place("p", &bytes).unwrap_err();
    assert!(e.contains("version"), "{e}");
}

fn database(
    class: ClassDescriptor<'static>,
) -> Option<&'static ReflectionDatabase<'static>> {
    let mut db = ReflectionDatabase::new();
    db.classes.insert(class.name, class);
    Some(Box::leak(Box::new(db)))
}

/// A database whose names lead nowhere is not asked about the class.
#[test]
fn a_database_that_is_not_in_order() {
    let place = |class: &str| {
        WeakDom::new(InstanceBuilder::new("DataModel").with_child(InstanceBuilder::new(class)))
    };
    let said = format!("serializing the place: {STUCK}");
    let value = DataType::Value(rbx_dom_weak::types::VariantType::Bool);
    let bytes = file(&[
        chunk(b"INST", &instances(0, "C", &[1])),
        chunk(b"PRNT", &parents(&[1], &[-1])),
    ]);

    let fine = database(ClassDescriptor::new("C"));
    assert!(place_bytes_in(fine, &place("C")).is_ok());
    assert!(read_place_in(fine, "p", &bytes).is_ok());

    let mut child = ClassDescriptor::new("C");
    child.superclass = Some("Missing");
    let mut own = ClassDescriptor::new("C");
    own.superclass = Some("C");
    let mut filed = ClassDescriptor::new("C");
    filed.properties.insert("other", PropertyDescriptor::new("p", value.clone()));
    let mut broken = vec![child, own, filed];
    for kind in [
        PropertyKind::Alias { alias_for: "Missing" },
        PropertyKind::Canonical { serialization: PropertySerialization::SerializesAs("Missing") },
    ] {
        let mut class = ClassDescriptor::new("C");
        let mut prop = PropertyDescriptor::new("p", value.clone());
        prop.kind = kind;
        class.properties.insert("p", prop);
        broken.push(class);
    }
    for class in broken {
        let db = database(class);
        assert_eq!(place_bytes_in(db, &place("C")).unwrap_err(), said);
        // It is not asked about a class of which no property is read.
        assert!(read_place_in(db, "p", &bytes).is_ok());
        // What it says of other classes does not matter.
        let other = place_bytes_in(db, &place("Folder")).unwrap();
        assert!(read_place_in(db, "p", &other).is_ok());
    }
}

/// A database is asked about the properties that are read, and only has to be in order for
/// these.
#[test]
fn a_property_that_cannot_be_read() {
    let with = |name: &str, ty: u8| {
        file(&[
            chunk(b"INST", &instances(0, "C", &[1])),
            chunk(b"PROP", &values(0, name, ty, &[1])),
            chunk(b"PRNT", &parents(&[1], &[-1])),
        ])
    };
    let value = DataType::Value(rbx_dom_weak::types::VariantType::Bool);
    let declaring = |kind: PropertyKind<'static>| {
        let mut class = ClassDescriptor::new("C");
        let mut prop = PropertyDescriptor::new("p", value.clone());
        prop.kind = kind;
        class.properties.insert("p", prop);
        class
    };
    let mut orphan = ClassDescriptor::new("C");
    orphan.superclass = Some("Missing");
    let mut looping = ClassDescriptor::new("C");
    looping.superclass = Some("C");
    let alias = declaring(PropertyKind::Alias { alias_for: "Missing" });
    let renamed = declaring(PropertyKind::Canonical {
        serialization: PropertySerialization::SerializesAs("Missing"),
    });
    let broken = format!("parsing p: {BROKEN}");
    for (class, p_is_read, q_is_read) in
        [(orphan, true, true), (looping, false, false), (alias, false, true), (renamed, false, true)]
    {
        let db = database(class);
        for (name, is_read) in [("p", p_is_read), ("q", q_is_read), ("Name", true)] {
            // A name has another form, so the values of one are cut short here.
            let r = read_place_in(db, "p", &with(name, 0x02));
            assert_eq!(r.as_ref().err() == Some(&broken), !is_read, "{name}");
            // Values of a type that is not known are passed over.
            assert!(read_place_in(db, "p", &with(name, 0x7f)).is_ok() || name == "Name");
        }
    }
}

/// Values of a property that is not written are not looked at.
#[test]
fn values_that_are_skipped() {
    let mut class = ClassDescriptor::new("C");
    for (name, serialization) in [
        ("Seen", PropertySerialization::Serializes),
        ("Unseen", PropertySerialization::DoesNotSerialize),
    ] {
        let ty = DataType::Value(rbx_dom_weak::types::VariantType::Ref);
        let mut prop = PropertyDescriptor::new(name, ty);
        prop.kind = PropertyKind::Canonical { serialization };
        class.properties.insert(name, prop);
    }
    let db = database(class).unwrap();
    let with = |name: &str| {
        file(&[
            chunk(b"INST", &instances(0, "C", &[1, 2])),
            chunk(b"PROP", &values(0, name, 0x13, &references(&[(1 << 31) - 1, 1 << 31]))),
            chunk(b"PRNT", &parents(&[1, 2], &[-1, -1])),
        ])
    };
    assert!(!is_presentable(db, &with("Seen")));
    assert!(is_presentable(db, &with("Unseen")));
    assert!(read_place_in(Some(db), "p", &with("Unseen")).is_ok());
}

/// An instance has to be filed under its own reference, and lie where it says.
#[test]
fn an_instance_that_is_not_in_its_place() {
    let place = || {
        WeakDom::new(
            InstanceBuilder::new("DataModel").with_child(
                InstanceBuilder::new("Folder")
                    .with_name("A")
                    .with_child(InstanceBuilder::new("Folder").with_name("B")),
            ),
        )
    };
    let stuck = Err(format!("serializing the place: {STUCK}"));
    let find = rbx_inject::dom::find;

    let dom = place();
    let a = find(&dom, "A").unwrap();
    let (root, mut map) = dom.into_raw();
    let (_, mut others) = place().into_raw();
    let stranger = *others.keys().next().unwrap();
    map.insert(a, others.remove(&stranger).unwrap());
    assert_eq!(place_bytes(&WeakDom::from_raw(root, map)), stuck, "another reference");

    let dom = place();
    let a = find(&dom, "A").unwrap();
    let (_, map) = dom.into_raw();
    let inner = WeakDom::from_raw(a, map);
    assert_eq!(place_bytes(&inner), stuck, "the root lies in an instance");
    let (_, mut map) = inner.into_raw();
    let outer = map.values().find(|i| i.children().contains(&a)).unwrap().referent();
    map.remove(&outer);
    assert!(place_bytes(&WeakDom::from_raw(a, map)).is_ok(), "it lies in none that is there");

    let mut dom = place();
    let (b, root) = (find(&dom, "A.B").unwrap(), dom.root_ref());
    dom.transfer_within(b, root);
    assert!(place_bytes(&dom).is_ok());
}

/// A property that is moved to one that is not written cannot be written.
#[test]
fn a_property_that_cannot_be_moved() {
    let place = |class: &str, prop: &str, value: Variant| {
        let inst = InstanceBuilder::new(class).with_property(prop, value);
        let top = InstanceBuilder::new("Folder").with_child(inst);
        place_bytes(&WeakDom::new(InstanceBuilder::new("DataModel").with_child(top)))
    };
    let id = || Variant::ContentId("rbxassetid://1".into());
    assert!(place("ImageLabel", "Image", id()).is_ok());
    assert!(place("Decal", "Nonsense", id()).is_ok());
    assert_eq!(
        place("Decal", "ColorMap", id()).unwrap_err(),
        format!("serializing the place: {STUCK}")
    );
}

/// Without a reflection database nothing is read or written.
#[test]
fn no_database_no_place() {
    let dom = WeakDom::new(InstanceBuilder::new("DataModel"));
    assert_eq!(
        place_bytes_in(None, &dom).unwrap_err(),
        "serializing the place: the reflection database cannot be read"
    );
    assert_eq!(
        read_place_in(None, "p", b"").unwrap_err(),
        "parsing p: the reflection database cannot be read"
    );
}

/// A value of the wrong type is refused when the place is written.
#[test]
fn a_place_that_cannot_be_written() {
    let dom = WeakDom::new(
        InstanceBuilder::new("DataModel").with_child(
            InstanceBuilder::new("ImageLabel").with_property("Image", Variant::Bool(true)),
        ),
    );
    let e = place_bytes(&dom).unwrap_err();
    assert!(e.starts_with("serializing the place: "), "{e}");
}
