//! Rewriting modules: what is printed, and what is refused.

use rbx_inject::lua::{run, Datum};
use rbx_inject::luau::{apply_keys, rewrite, KeyValue, KeysError, Number};
use rbx_inject::luau_edit::parse_key;
use rbx_inject::luau_print::{module_source, PrintError};
use rbx_inject::luau_text::{is_identifier, is_keyword, quote};

fn plain(source: &str) -> String {
    apply_keys(source, &[]).expect("the module should print")
}

fn num(raw: &str) -> KeyValue {
    KeyValue::Num(Number::parse(raw).expect("a number"))
}

fn text(s: &str) -> KeyValue {
    KeyValue::Str(s.to_string())
}

fn edit(source: &str, edits: Vec<(&str, KeyValue)>) -> String {
    let edits: Vec<(String, KeyValue)> =
        edits.into_iter().map(|(k, v)| (k.to_string(), v)).collect();
    apply_keys(source, &edits).expect("the module should be rewritten")
}

/// A state with the table that the source returns.
fn state(source: &str) -> (mlua::Lua, mlua::Table) {
    match run("module", source) {
        Ok((lua, Datum::Table(table))) => (lua, table),
        other => panic!("{other:?}"),
    }
}

fn message(source: &str) -> String {
    apply_keys(source, &[]).expect_err("should fail").message()
}

#[test]
fn keys_are_sorted_and_indented() {
    assert_eq!(
        plain("return { b = 1, a = { y = true, x = 'q' }, _c = false }"),
        "return {\n\t_c = false,\n\ta = {\n\t\tx = \"q\",\n\t\ty = true,\n\t},\n\tb = 1,\n}\n"
    );
}

#[test]
fn an_empty_table_is_two_braces() {
    assert_eq!(plain("return {}"), "return {}\n");
    assert_eq!(plain("return { a = {} }"), "return {\n\ta = {},\n}\n");
}

#[test]
fn a_list_has_no_keys() {
    assert_eq!(
        plain("return { 'x', { 1, 2 }, false }"),
        "return {\n\t\"x\",\n\t{\n\t\t1,\n\t\t2,\n\t},\n\tfalse,\n}\n"
    );
}

#[test]
fn a_list_that_was_filled_backwards_is_still_a_list() {
    assert_eq!(
        plain("local t = {} for i = 5, 1, -1 do t[i] = i * 10 end return t"),
        "return {\n\t10,\n\t20,\n\t30,\n\t40,\n\t50,\n}\n"
    );
}

#[test]
fn a_gap_is_no_list() {
    assert_eq!(
        plain("return { [1] = 'a', [3] = 'b' }"),
        "return {\n\t[1] = \"a\",\n\t[3] = \"b\",\n}\n"
    );
    assert_eq!(plain("return { [0] = 'a' }"), "return {\n\t[0] = \"a\",\n}\n");
    assert_eq!(plain("return { [-1] = 'a' }"), "return {\n\t[-1] = \"a\",\n}\n");
}

/// Sorted by the text of the key: 10 comes before 9.
#[test]
fn integer_keys_are_sorted_as_text() {
    assert_eq!(
        plain("return { [9] = 1, [10] = 2, [2.5] = 3 }"),
        "return {\n\t[10] = 2,\n\t[2.5] = 3,\n\t[9] = 1,\n}\n"
    );
}

#[test]
fn truth_values_and_tables_can_be_keys() {
    assert_eq!(
        plain("return { [true] = 1, [false] = 2, a = 3 }"),
        "return {\n\t[false] = 2,\n\t[true] = 1,\n\ta = 3,\n}\n"
    );
    assert_eq!(
        plain("return { [{ 7 }] = 'x', A = 1, z = 2 }"),
        "return {\n\tA = 1,\n\t[{\n\t\t7,\n\t}] = \"x\",\n\tz = 2,\n}\n"
    );
}

#[test]
fn numbers_are_printed_whole_where_they_are() {
    assert_eq!(plain("return { 0.5, 1e15, 3000000000, -0.0, 1e300 }"), {
        let big = format!("1{}", "0".repeat(300));
        format!("return {{\n\t0.5,\n\t1000000000000000,\n\t3000000000,\n\t0,\n\t{big},\n}}\n")
    });
    assert_eq!(plain("return { math.huge, 2^31 - 1, -2^31 }"), {
        "return {\n\tinf,\n\t2147483647,\n\t-2147483648,\n}\n"
    });
}

#[test]
fn strings_are_escaped() {
    assert_eq!(quote("a\"b\\c\n\r\t\0\u{1}\u{1f}é"), "\"a\\\"b\\\\c\\n\\r\\t\\0\\1\\31é\"");
    assert_eq!(quote(""), "\"\"");
    let once = plain("return { s = 'tab\\tquote\"back\\\\nul\\0end' }");
    assert_eq!(once, "return {\n\ts = \"tab\\tquote\\\"back\\\\nul\\0end\",\n}\n");
    assert_eq!(plain(&once), once);
}

#[test]
fn names_that_need_brackets() {
    for bare in ["a", "_", "a1", "Z_9", "self"] {
        assert!(is_identifier(bare), "{bare}");
    }
    for not_bare in ["", "1a", "a b", "a-b", "é", "end", "continue", "export", "type", "nil"] {
        assert!(!is_identifier(not_bare), "{not_bare}");
    }
    assert!(is_keyword("until") && !is_keyword("goto"));
}

#[test]
fn an_edit_can_be_read_back_and_keeps_the_rest() {
    assert_eq!(
        edit(
            "return { a = { b = 1, keep = 2 }, other = 'x' }",
            vec![("a.b", num("0.5")), ("new.deep.leaf", KeyValue::Bool(true))]
        ),
        "return {\n\ta = {\n\t\tb = 0.5,\n\t\tkeep = 2,\n\t},\n\tnew = {\n\t\tdeep = {\n\t\t\tleaf = true,\n\t\t},\n\t},\n\tother = \"x\",\n}\n"
    );
}

#[test]
fn what_is_no_table_gives_way_to_one() {
    assert_eq!(
        edit("return { a = 5 }", vec![("a.b", text("x"))]),
        "return {\n\ta = {\n\t\tb = \"x\",\n\t},\n}\n"
    );
}

#[test]
fn nil_takes_a_key_away() {
    assert_eq!(
        edit("return { a = 1, b = 2 }", vec![("a", KeyValue::Nil)]),
        "return {\n\tb = 2,\n}\n"
    );
    assert_eq!(
        edit("return {}", vec![("x.y", KeyValue::Nil)]),
        "return {\n\tx = {},\n}\n"
    );
}

/// `$4` is the integer, `4` is the text.
#[test]
fn a_dollar_addresses_an_integer() {
    let both = edit("return {}", vec![("$4", text("int")), ("4", text("str"))]);
    assert!(both.contains("\t[4] = \"int\",\n"), "{both}");
    assert!(both.contains("\t[\"4\"] = \"str\",\n"), "{both}");
    assert_eq!(
        edit("return {}", vec![("$0", text("zero")), ("$-3", text("less"))]),
        "return {\n\t[-3] = \"less\",\n\t[0] = \"zero\",\n}\n"
    );
    assert_eq!(
        edit("return {}", vec![("$2147483648", text("too big"))]),
        "return {\n\t[\"2147483648\"] = \"too big\",\n}\n"
    );
    assert_eq!(format!("{:?}", parse_key("$+7")), "Integer(7)");
    assert_eq!(format!("{:?}", parse_key("$x")), "Text(\"x\")");
}

#[test]
fn a_number_that_is_whole_reads_as_an_integer() {
    assert_eq!(
        edit("return {}", vec![("a", num("1e3")), ("b", num("-0")), ("c", num("1.50"))]),
        "return {\n\ta = 1000,\n\tb = 0,\n\tc = 1.5,\n}\n"
    );
}

#[test]
fn number_texts() {
    assert_eq!(Number::parse("0.50").unwrap().text(), "0.5");
    assert_eq!(Number::parse("1e2").unwrap().text(), "100");
    assert_eq!(Number::parse("-0").unwrap().text(), "-0");
    assert_eq!(Number::parse("inf").unwrap().text(), "inf");
    assert!(Number::parse("x").is_none());
    assert!(Number::parse("").is_none());
    let n = Number::parse("2.5").unwrap();
    assert_eq!(n.clone(), n);
    assert_eq!(KeyValue::Num(n.clone()).clone(), KeyValue::Num(n));
}

/// The same edits once more give the same text, and so does a run on the result.
#[test]
fn edits_made_again_change_nothing() {
    let source = "return { z = 1, list = { 3, 2, 1 }, [7] = 'q', sub = { b = {}, a = 0.25 } }";
    let edits = || vec![("sub.a", num("0.75")), ("sub.c.d", text("n")), ("z", KeyValue::Nil)];
    let once = edit(source, edits());
    assert_eq!(edit(source, edits()), once);
    assert_eq!(edit(&once, edits()), once);
    assert_eq!(plain(&once), once);
}

#[test]
fn a_source_that_does_not_run_is_an_error() {
    assert!(message("return {").starts_with("evaluating the ModuleScript source: "));
    assert!(message("error('boom')").contains("boom"));
    assert!(matches!(apply_keys("x x", &[]), Err(KeysError::Evaluate(_))));
}

#[test]
fn a_module_has_to_return_a_table() {
    for source in ["return 1", "return nil", "return", "return function() end", "return 'x'"] {
        assert_eq!(message(source), "the ModuleScript does not return a table", "{source}");
    }
}

#[test]
fn what_has_no_source_form_is_refused() {
    for (source, kind) in [
        ("return { f = function() end }", "function"),
        ("return { f = coroutine.create(function() end) }", "thread"),
        ("return { f = buffer.create(3) }", "buffer"),
        ("return { f = newproxy() }", "userdata"),
        ("return { f = vector.create(1, 2, 3) }", "vector"),
        ("return { [function() end] = 1 }", "function"),
    ] {
        assert_eq!(message(source), format!("cannot write a {kind} back to source"), "{source}");
    }
}

/// The first entry in the order of the keys decides what is said.
#[test]
fn the_first_failure_decides() {
    assert_eq!(
        message("return { a = { ok = 1 }, c = function() end, b = coroutine.create(print) }"),
        "cannot write a thread back to source"
    );
}

#[test]
fn text_that_is_not_utf8_is_refused() {
    let said = message("return { s = '\\255' }");
    assert!(said.contains("utf-8"), "{said}");
    assert!(matches!(
        apply_keys("return { ['\\255'] = 1 }", &[]),
        Err(KeysError::Print(PrintError::BadText(_)))
    ));
}

#[test]
fn a_table_that_holds_itself_is_refused() {
    assert_eq!(
        message("local t = {} t.a = { t } return t"),
        "cannot write a table that holds itself back to source"
    );
    assert_eq!(
        plain("local s = { 1 } return { a = s, b = s }"),
        "return {\n\ta = {\n\t\t1,\n\t},\n\tb = {\n\t\t1,\n\t},\n}\n"
    );
}

#[test]
fn a_frozen_table_cannot_be_edited() {
    let said = apply_keys("return table.freeze({ a = 1 })", &[("a".to_string(), num("2"))])
        .expect_err("frozen")
        .message();
    assert!(said.starts_with("setting key 'a': "), "{said}");
    assert!(said.contains("readonly"), "{said}");
}

/// What was done before the runtime refused stays, and the refused step leaves nothing.
#[test]
fn an_edit_that_is_stopped_leaves_what_was_made() {
    let (mut lua, root) = state("return { frozen = table.freeze({ kept = 1 }) }");
    let edits = [
        ("new.deep".to_string(), num("2")),
        ("frozen.sub.leaf".to_string(), num("3")),
        ("never".to_string(), num("4")),
    ];
    match rewrite(&mut lua, &root, &edits) {
        Err(KeysError::Setting(path, reason)) => {
            assert_eq!(path, "frozen.sub.leaf");
            assert!(reason.contains("readonly"), "{reason}");
        }
        other => panic!("{other:?}"),
    }
    assert_eq!(
        module_source(&lua, &root).unwrap(),
        "return {\n\tfrozen = {\n\t\tkept = 1,\n\t},\n\tnew = {\n\t\tdeep = 2,\n\t},\n}\n"
    );
}

/// What a metatable raises when a key is looked up is what is said.
#[test]
fn a_lookup_that_raises_stops_the_edit() {
    let source =
        "return setmetatable({}, { __index = function(_, k) error('no ' .. k .. ' here') end })";
    match apply_keys(source, &[("a.b".to_string(), num("1"))]) {
        Err(KeysError::Setting(path, reason)) => {
            assert_eq!(path, "a.b");
            assert!(reason.contains("no a here"), "{reason}");
        }
        other => panic!("{other:?}"),
    }
}

/// A metatable decides what is under a key that the table does not hold.
#[test]
fn a_metatable_is_asked() {
    assert_eq!(
        edit(
            "local d = { b = 1 } return setmetatable({}, { __index = { a = d }, __metatable = false })",
            vec![("x", num("3"))]
        ),
        "return {\n\tx = 3,\n}\n"
    );
}

#[test]
fn a_state_can_be_rewritten_directly() {
    let (mut lua, table) = state("return { a = 1 }");
    let edits = [("b".to_string(), text("two"))];
    assert_eq!(
        rewrite(&mut lua, &table, &edits).unwrap(),
        "return {\n\ta = 1,\n\tb = \"two\",\n}\n"
    );
    assert_eq!(module_source(&lua, &table).unwrap(), "return {\n\ta = 1,\n\tb = \"two\",\n}\n");
}


/// Tables that hold the same print the same, whatever the order they were filled in.
#[test]
fn the_order_of_filling_does_not_show() {
    let mut texts = Vec::new();
    for order in ["1, 60, 1", "60, 1, -1"] {
        texts.push(plain(&format!(
            "local t = {{ sub = {{}} }} for i = {order} do t['k' .. i] = i t.sub[i * 2] = 'v' .. i end return t"
        )));
    }
    assert_eq!(texts[0], texts[1]);
    assert!(texts[0].contains("\n\tk10 = 10,\n\tk11 = 11,\n"), "{}", texts[0]);
}

/// A control character that comes right before a digit is written with three digits,
/// so that the digit is not read as part of the escape.
#[test]
fn a_control_character_before_a_digit_is_kept() {
    assert_eq!(quote("\u{0}1"), "\"\\0001\"");
    assert_eq!(quote("\u{1}2\u{1f}3\u{1f}x"), "\"\\0012\\0313\\31x\"");
    let once = plain("return { '\\0' .. '1', '\\31' .. '9' }");
    assert_eq!(once, "return {\n\t\"\\0001\",\n\t\"\\0319\",\n}\n");
    assert_eq!(plain(&once), once);
}

/// A path through a table that holds itself writes over its own beginning.
#[test]
fn a_path_through_itself() {
    let edits = [("a.a".to_string(), num("5"))];
    assert_eq!(
        apply_keys("local t = { b = 1 } t.a = t return t", &edits).unwrap(),
        "return {\n\ta = 5,\n\tb = 1,\n}\n"
    );
}

/// Edits of which one lies below another, made again to what they printed.
#[test]
fn edits_below_each_other_made_again() {
    let source = "return { a = { old = 1 }, k = {} }";
    let edits = || vec![("a", num("1")), ("a.b", text("x")), ("k.c.d", num("2")), ("k.c", num("3"))];
    let once = edit(source, edits());
    assert_eq!(once, "return {\n\ta = {\n\t\tb = \"x\",\n\t},\n\tk = {\n\t\tc = 3,\n\t},\n}\n");
    assert_eq!(edit(&once, edits()), once);
}

/// What begins with a byte below a tab is taken for compiled code.
#[test]
fn a_source_that_is_taken_for_compiled_code() {
    assert_eq!(plain("\treturn { a = 1 }"), "return {\n\ta = 1,\n}\n");
    let said = message("\u{8}return { a = 1 }");
    assert!(said.contains("bytecode version mismatch"), "{said}");
    assert_eq!(
        message("\u{6}return { a = 1 }"),
        "evaluating the ModuleScript source: compiled code is not loaded"
    );
}

/// A text that was printed evaluates to what was printed.
#[test]
fn what_is_printed_is_printed_again() {
    let source = "return { [-7] = 'x', [0] = { 0.1, -2.5, 3000000000, true }, ['a b'] = '\\0\\31' .. '1\\u{e9}',
        list = { { 1 }, { k = {} } }, [2.5] = 1e300, yes = true }";
    let once = plain(source);
    assert_eq!(plain(&once), once);
    let (lua, table) = state(&once);
    assert_eq!(module_source(&lua, &table).unwrap(), once);
}

/// A number is printed as it is, but for one that is closer to zero than the machine
/// precision.
#[test]
fn numbers_are_printed_as_they_read() {
    for (raw, printed) in [
        ("0.5", "0.5"),
        ("1234", "1234"),
        ("-7", "-7"),
        ("1e3", "1000"),
        ("-0", "0"),
        ("2147483647", "2147483647"),
        ("2147483648", "2147483648"),
        ("-2147483648", "-2147483648"),
        ("4294967296.5", "4294967296.5"),
        ("-2147483648.5", "-2147483648.5"),
        ("1.0000000000000002", "1.0000000000000002"),
        ("0.9999999999999999", "0.9999999999999999"),
        ("2.220446049250313e-16", "0.0000000000000002220446049250313"),
        ("-2.220446049250313e-16", "-0.0000000000000002220446049250313"),
        ("2.2204460492503128e-16", "0"),
        ("-2.2204460492503128e-16", "0"),
        ("1e-300", "0"),
    ] {
        let once = edit("return {}", vec![("v", num(raw))]);
        assert_eq!(once, format!("return {{\n\tv = {printed},\n}}\n"), "{raw}");
        assert_eq!(edit(&once, vec![("v", num(raw))]), once, "{raw}");
        assert_eq!(plain(&once), once, "{raw}");
    }
}

/// A key that has no source form has its place among the others all the same.
#[test]
fn a_vector_is_sorted_by_what_is_shown_of_it() {
    assert_eq!(
        message("return { [vector.create(1, 2, 3)] = 1, A = function() end }"),
        "cannot write a function back to source"
    );
    assert_eq!(
        message("return { [vector.create(1, 2, 3)] = 1, z = function() end }"),
        "cannot write a vector back to source"
    );
}

#[test]
fn a_large_module_is_printed() {
    let once = plain("local t = {} for i = 1, 30000 do t[i] = 'v' .. i end return t");
    assert_eq!(once.lines().count(), 30002);
    assert!(once.ends_with("\t\"v30000\",\n}\n"));
}

#[test]
fn a_module_with_too_many_tables_is_refused() {
    let r = apply_keys("local t = {} for i = 1, 999001 do t[i] = {} end return t", &[]);
    assert!(matches!(r, Err(KeysError::Print(PrintError::Crowded))));
}
