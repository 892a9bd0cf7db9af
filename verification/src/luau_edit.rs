//! Setting values inside a Luau table, by a dotted path of keys.

use crate::lua::{create_may_fail, get_may_fail, set_may_fail};
use crate::lua::{create_table, empty_table, grown, handle, known, lookup, lua_heap, ready};
use crate::lua::{number_parsed, parse_number, settled, settles_as, stored, table_get};
use crate::lua::{table_set, Datum, LuaHeap, LuaValue};
use crate::text::{after, begins, int_text, law_a_prefix_can_be_told, law_int_text_reads_back};
use crate::text::{parse_int, parsed_int, split, split_at_each, strip_prefix, texts};
use vstd::prelude::*;

verus! {

/// A 64-bit floating point number, held as the shortest decimal text that reads
/// back as it.
#[derive(Debug, PartialEq, Eq)]
pub struct Number {
    text: String,
}

impl View for Number {
    type V = Seq<char>;

    closed spec fn view(&self) -> Seq<char> {
        self.text@
    }
}

impl Number {
    #[verifier::type_invariant]
    spec fn reads_back(self) -> bool {
        number_parsed(self.text@) == Some(self.text@)
    }

    /// The number that `raw` writes, if it writes one.
    pub fn parse(raw: &str) -> (r: Option<Number>)
        ensures
            match r {
                Some(n) => number_parsed(raw@) == Some(n@),
                None => number_parsed(raw@) is None,
            },
    {
        match parse_number(raw) {
            Some(text) => Some(Number { text }),
            None => None,
        }
    }

    /// The number as text.
    pub fn text(&self) -> (r: &str)
        ensures
            r@ == self@,
            number_parsed(self@) == Some(self@),
    {
        proof {
            use_type_invariant(self);
        }
        self.text.as_str()
    }
}

impl Clone for Number {
    fn clone(&self) -> (r: Number)
        ensures
            r@ == self@,
    {
        proof {
            use_type_invariant(self);
        }
        Number { text: self.text.as_str().to_owned() }
    }
}

/// A value that can be written into a module table.
#[derive(Debug, PartialEq, Eq)]
pub enum KeyValue {
    Str(String),
    Num(Number),
    Bool(bool),
    /// Removes the key.
    Nil,
}

impl View for KeyValue {
    type V = LuaValue;

    open spec fn view(&self) -> LuaValue {
        match *self {
            KeyValue::Str(s) => LuaValue::Text(s@),
            KeyValue::Num(n) => LuaValue::Number(n@),
            KeyValue::Bool(b) => LuaValue::Boolean(b),
            KeyValue::Nil => LuaValue::Nil,
        }
    }
}

impl Clone for KeyValue {
    fn clone(&self) -> (r: KeyValue)
        ensures
            r@ == self@,
    {
        match self {
            KeyValue::Str(s) => KeyValue::Str(s.as_str().to_owned()),
            KeyValue::Num(n) => KeyValue::Num(n.clone()),
            KeyValue::Bool(b) => KeyValue::Bool(*b),
            KeyValue::Nil => KeyValue::Nil,
        }
    }
}

/// The key that one part of a path addresses: `$4` is the integer 4, `name` the
/// text `name`. What follows a `$` and is no 32-bit integer is a text.
pub open spec fn key_of(part: Seq<char>) -> LuaValue {
    if begins(part, "$"@) {
        let raw = after(part, "$"@);
        match parsed_int(raw, i32::MIN as int, i32::MAX as int) {
            Some(n) => LuaValue::Integer(n as i32),
            None => LuaValue::Text(raw),
        }
    } else {
        LuaValue::Text(part)
    }
}

/// Whether `after` is `before` with `value` at the end of the path `parts` from
/// the table `at` on. What lies on the way and is no table gives way to a new one.
/// Nothing is said where a metatable decides what lies under a key.
pub open spec fn placed(
    before: LuaHeap,
    at: mlua::Table,
    parts: Seq<Seq<char>>,
    value: LuaValue,
    after: LuaHeap,
) -> bool
    decreases parts.len(),
{
    if parts.len() == 0 {
        before == after
    } else {
        let key = key_of(parts[0]);
        settled(before[at], key) ==> if parts.len() == 1 {
            stored(before, at, key, settles_as(value), after)
        } else {
            match lookup(before[at].pairs, key) {
                LuaValue::Table(next) => placed(before, next, parts.skip(1), value, after),
                _ => exists|fresh: mlua::Table, between: LuaHeap|
                    {
                        &&& #[trigger] branched(before, at, key, fresh, between)
                        &&& placed(between, fresh, parts.skip(1), value, after)
                    },
            }
        }
    }
}

/// Whether `after` is `before` with a new, empty table `fresh` under `key`.
pub open spec fn branched(
    before: LuaHeap,
    at: mlua::Table,
    key: LuaValue,
    fresh: mlua::Table,
    after: LuaHeap,
) -> bool {
    &&& !before.contains_key(fresh)
    &&& stored(before.insert(fresh, empty_table()), at, key, LuaValue::Table(fresh), after)
}

/// Whether putting `value` at the end of the path `parts` from the table `at` on can
/// fail with this message, and leave `after` behind. It fails where a call of the
/// runtime does: looking a key up, making a new table or putting it there, or putting
/// the value at the end. What was done before that call stays, and the call itself
/// changes nothing where no metatable decides.
pub open spec fn stopped(
    before: LuaHeap,
    at: mlua::Table,
    parts: Seq<Seq<char>>,
    value: LuaValue,
    message: Seq<char>,
    after: LuaHeap,
) -> bool
    decreases parts.len(),
{
    parts.len() > 0 && {
        let key = key_of(parts[0]);
        if parts.len() == 1 {
            &&& set_may_fail(before, at, key, value, message)
            &&& settled(before[at], key) ==> after == before
        } else {
            ||| {
                &&& get_may_fail(before, at, key, message)
                &&& settled(before[at], key) ==> after == before
            }
            ||| exists|found: LuaValue, read: LuaHeap|
                {
                    &&& #[trigger] looked_up(before, at, key, found, read)
                    &&& match found {
                        LuaValue::Table(next) => stopped(
                            read,
                            next,
                            parts.skip(1),
                            value,
                            message,
                            after,
                        ),
                        _ => {
                            ||| create_may_fail(read, message) && after == read
                            ||| exists|fresh: mlua::Table| #[trigger]
                                branch_stopped(read, at, key, fresh, message, after)
                            ||| exists|fresh: mlua::Table, between: LuaHeap|
                                {
                                    &&& #[trigger] attached(read, at, key, fresh, between)
                                    &&& stopped(
                                        between,
                                        fresh,
                                        parts.skip(1),
                                        value,
                                        message,
                                        after,
                                    )
                                }
                        },
                    }
                }
        }
    }
}

/// Whether looking `key` up can find `found` and leave `after` behind: what the table
/// holds, with nothing changed, where no metatable decides.
pub open spec fn looked_up(
    before: LuaHeap,
    at: mlua::Table,
    key: LuaValue,
    found: LuaValue,
    after: LuaHeap,
) -> bool {
    &&& grown(before, after)
    &&& known(after, found)
    &&& settled(before[at], key) ==> {
        &&& found == lookup(before[at].pairs, key)
        &&& after == before
    }
}

/// Whether making a table `fresh` and putting it under `key` can leave `after` behind.
pub open spec fn attached(
    before: LuaHeap,
    at: mlua::Table,
    key: LuaValue,
    fresh: mlua::Table,
    after: LuaHeap,
) -> bool {
    &&& !before.contains_key(fresh)
    &&& grown(before.insert(fresh, empty_table()), after)
    &&& settled(before[at], key) ==> branched(before, at, key, fresh, after)
}

/// Whether putting a new table `fresh` under `key` can fail with this message, and
/// leave `after` behind: the new table, put nowhere, where no metatable decides.
pub open spec fn branch_stopped(
    before: LuaHeap,
    at: mlua::Table,
    key: LuaValue,
    fresh: mlua::Table,
    message: Seq<char>,
    after: LuaHeap,
) -> bool {
    let with_fresh = before.insert(fresh, empty_table());
    &&& !before.contains_key(fresh)
    &&& set_may_fail(with_fresh, at, key, LuaValue::Table(fresh), message)
    &&& settled(before[at], key) ==> after == with_fresh
}

/// A path and what is to be put there.
pub type Edit = (Seq<char>, LuaValue);

/// Whether `after` is `before` with the edits made one after the other, each from
/// the table `root` on.
pub open spec fn edited(
    before: LuaHeap,
    root: mlua::Table,
    edits: Seq<Edit>,
    after: LuaHeap,
) -> bool
    decreases edits.len(),
{
    if edits.len() == 0 {
        before == after
    } else {
        exists|between: LuaHeap|
            {
                &&& edited(before, root, edits.drop_last(), between)
                &&& #[trigger] placed(
                    between,
                    root,
                    split(edits.last().0, '.'),
                    edits.last().1,
                    after,
                )
            }
    }
}

/// The model of a list of edits.
pub open spec fn edits_model(edits: Seq<(String, KeyValue)>) -> Seq<Edit> {
    Seq::new(edits.len(), |i: int| (edits[i].0@, edits[i].1@))
}

/// The key that one part of a path addresses.
pub fn parse_key(part: &str) -> (r: Datum)
    ensures
        r@ == key_of(part@),
        r is Integer || r is Text,
{
    match strip_prefix(part, "$") {
        Some(raw) => {
            match parse_int(raw.as_str(), i32::MIN as i128, i32::MAX as i128) {
                Some(n) => Datum::Integer(n as i32),
                None => Datum::Text(raw),
            }
        },
        None => Datum::Text(part.to_owned()),
    }
}

/// The value that is put at the end of a path.
fn datum_of(value: &KeyValue) -> (r: Datum)
    ensures
        r@ == value@,
        r matches Datum::Number(text) ==> number_parsed(text@) == Some(text@),
        !(r is Other) && !(r is BadText) && !(r is Table),
{
    match value {
        KeyValue::Str(s) => Datum::Text(s.as_str().to_owned()),
        KeyValue::Num(n) => Datum::Number(n.text().to_owned()),
        KeyValue::Bool(b) => Datum::Boolean(*b),
        KeyValue::Nil => Datum::Nil,
    }
}

/// Walk a dotted path from `root` on, with new tables where there are none, and
/// put `value` at its end.
pub fn set_nested(lua: &mut mlua::Lua, root: &mlua::Table, path: &str, value: &KeyValue) -> (r:
    Result<(), String>)
    requires
        ready(*old(lua)),
        lua_heap(*old(lua)).contains_key(*root),
    ensures
        ready(*final(lua)),
        grown(lua_heap(*old(lua)), lua_heap(*final(lua))),
        match r {
            Ok(_) => placed(
                lua_heap(*old(lua)),
                *root,
                split(path@, '.'),
                value@,
                lua_heap(*final(lua)),
            ),
            Err(e) => stopped(
                lua_heap(*old(lua)),
                *root,
                split(path@, '.'),
                value@,
                e@,
                lua_heap(*final(lua)),
            ),
        },
{
    let parts: Vec<String> = split_at_each(path, '.');
    let ghost before = lua_heap(*lua);
    let ghost all = texts(parts@);
    let mut at: mlua::Table = handle(lua, root);
    let mut i: usize = 0;
    assert(all.skip(0) =~= all);
    while i < parts.len() - 1
        invariant
            i < parts@.len(),
            all == texts(parts@),
            ready(*lua),
            lua_heap(*lua).contains_key(at),
            before == lua_heap(*old(lua)),
            grown(before, lua_heap(*lua)),
            all == split(path@, '.'),
            forall|last: LuaHeap|
                placed(lua_heap(*lua), at, all.skip(i as int), value@, last) ==> #[trigger] placed(
                    before,
                    *root,
                    all,
                    value@,
                    last,
                ),
            forall|message: Seq<char>, last: LuaHeap|
                stopped(lua_heap(*lua), at, all.skip(i as int), value@, message, last)
                    ==> #[trigger] stopped(before, *root, all, value@, message, last),
        decreases parts@.len() - i,
    {
        let ghost here = lua_heap(*lua);
        let ghost rest = all.skip(i as int);
        let ghost from = at;
        let key: Datum = parse_key(parts[i].as_str());
        assert(rest[0] == parts@[i as int]@);
        assert(rest.skip(1) =~= all.skip(i as int + 1));
        let found: Datum = match table_get(lua, &at, &key) {
            Ok(found) => found,
            Err(e) => {
                assert(stopped(here, at, rest, value@, e@, lua_heap(*lua)));
                return Err(e);
            },
        };
        let ghost read = lua_heap(*lua);
        assert(looked_up(here, at, key@, found@, read));
        match found {
            Datum::Table(next) => {
                at = next;
            },
            _ => {
                let fresh: mlua::Table = match create_table(lua) {
                    Ok(fresh) => fresh,
                    Err(e) => {
                        assert(stopped(here, at, rest, value@, e@, lua_heap(*lua)));
                        return Err(e);
                    },
                };
                let branch: Datum = Datum::Table(handle(lua, &fresh));
                let ghost with_fresh = lua_heap(*lua);
                assert(with_fresh.contains_key(fresh));
                assert(read.contains_key(at));
                assert(with_fresh[at] == read[at]);
                match table_set(lua, &at, &key, &branch) {
                    Ok(_) => {},
                    Err(e) => {
                        assert(branch_stopped(read, at, key@, fresh, e@, lua_heap(*lua)));
                        assert(stopped(here, at, rest, value@, e@, lua_heap(*lua)));
                        assert forall|t: mlua::Table| #[trigger] before.contains_key(
                            t,
                        ) implies lua_heap(*lua).contains_key(t) by {
                            assert(here.contains_key(t));
                            assert(with_fresh.contains_key(t));
                        }
                        return Err(e);
                    },
                }
                assert(attached(read, at, key@, fresh, lua_heap(*lua)));
                assert forall|t: mlua::Table| #[trigger] here.contains_key(t) implies lua_heap(
                    *lua,
                ).contains_key(t) by {
                    assert(read.contains_key(t));
                    assert(with_fresh.contains_key(t));
                }
                at = fresh;
            },
        }
        i = i + 1;
        proof {
            let now = lua_heap(*lua);
            assert(grown(before, now)) by {
                assert forall|t: mlua::Table| #[trigger] before.contains_key(t) implies now
                    .contains_key(t) by {
                    assert(here.contains_key(t));
                }
            }
            assert forall|last: LuaHeap|
                placed(now, at, all.skip(i as int), value@, last) implies #[trigger] placed(
                before,
                *root,
                all,
                value@,
                last,
            ) by {
                if settled(here[from], key@) && !(found@ is Table) {
                    assert(branched(here, from, key@, at, now));
                }
                assert(placed(here, from, rest, value@, last));
            }
            assert forall|message: Seq<char>, last: LuaHeap|
                stopped(now, at, all.skip(i as int), value@, message, last) implies
                #[trigger] stopped(before, *root, all, value@, message, last) by {
                assert(stopped(here, from, rest, value@, message, last));
            }
        }
    }
    let ghost here = lua_heap(*lua);
    let ghost rest = all.skip(i as int);
    let key: Datum = parse_key(parts[i].as_str());
    assert(rest[0] == parts@[i as int]@);
    assert(rest.len() == 1);
    match table_set(lua, &at, &key, &datum_of(value)) {
        Ok(_) => {
            assert(placed(here, at, rest, value@, lua_heap(*lua)));
            Ok(())
        },
        Err(e) => {
            assert(stopped(here, at, rest, value@, e@, lua_heap(*lua)));
            Err(e)
        },
    }
}

/// Which key a part of a path addresses. One without a `$` in front is a text key, even where
/// it looks like a number. After a `$` it is the integer key that it writes in decimal, with
/// whatever sign, and where it writes none of 32 bits, a text key without the `$`.
pub proof fn law_which_key_is_addressed(part: Seq<char>)
    ensures
        part.len() == 0 || part[0] != '$' ==> key_of(part) == LuaValue::Text(part),
        key_of("$"@ + part) == match parsed_int(part, i32::MIN as int, i32::MAX as int) {
            Some(n) => LuaValue::Integer(n as i32),
            None => LuaValue::Text(part),
        },
        forall|n: i32| key_of("$"@ + #[trigger] int_text(n as int)) == LuaValue::Integer(n),
{
    reveal_strlit("$");
    law_a_prefix_can_be_told("$"@, part);
    if part.len() > 0 && part[0] != '$' {
        assert(part.take(1)[0] == part[0]);
    }
    assert forall|n: i32| key_of("$"@ + #[trigger] int_text(n as int)) == LuaValue::Integer(n) by {
        law_a_prefix_can_be_told("$"@, int_text(n as int));
        law_int_text_reads_back(n as int, i32::MIN as int, i32::MAX as int);
    }
}

/// Edits are made one after the other: more of them do what some do and then the rest. One
/// edit puts its value at the end of its path, between whose dots are the keys.
pub proof fn law_edits_are_made_in_order(
    before: LuaHeap,
    root: mlua::Table,
    some: Seq<Edit>,
    rest: Seq<Edit>,
    one: Edit,
    after: LuaHeap,
)
    ensures
        edited(before, root, some + rest, after) <==> exists|between: LuaHeap|
            {
                &&& #[trigger] edited(before, root, some, between)
                &&& edited(between, root, rest, after)
            },
        edited(before, root, seq![one], after) <==> placed(
            before,
            root,
            split(one.0, '.'),
            one.1,
            after,
        ),
    decreases rest.len(),
{
    let all = some + rest;
    if rest.len() == 0 {
        assert(all =~= some);
        if edited(before, root, all, after) {
            assert(edited(before, root, some, after));
        }
    } else {
        let less = rest.drop_last();
        let edit = rest.last();
        assert(all.drop_last() =~= some + less);
        assert(all.last() == edit);
        if edited(before, root, all, after) {
            let last = choose|last: LuaHeap|
                {
                    &&& edited(before, root, all.drop_last(), last)
                    &&& #[trigger] placed(last, root, split(all.last().0, '.'), all.last().1, after)
                };
            law_edits_are_made_in_order(before, root, some, less, one, last);
            let between = choose|between: LuaHeap|
                {
                    &&& #[trigger] edited(before, root, some, between)
                    &&& edited(between, root, less, last)
                };
            assert(placed(last, root, split(edit.0, '.'), edit.1, after));
            assert(edited(between, root, rest, after));
        }
        if exists|between: LuaHeap|
            {
                &&& #[trigger] edited(before, root, some, between)
                &&& edited(between, root, rest, after)
            } {
            let between = choose|between: LuaHeap|
                {
                    &&& #[trigger] edited(before, root, some, between)
                    &&& edited(between, root, rest, after)
                };
            let last = choose|last: LuaHeap|
                {
                    &&& edited(between, root, rest.drop_last(), last)
                    &&& #[trigger] placed(
                        last,
                        root,
                        split(rest.last().0, '.'),
                        rest.last().1,
                        after,
                    )
                };
            law_edits_are_made_in_order(before, root, some, less, one, last);
            assert(edited(before, root, all.drop_last(), last));
            assert(placed(last, root, split(all.last().0, '.'), all.last().1, after));
        }
    }
    let single = seq![one];
    assert(single.drop_last() =~= Seq::<Edit>::empty());
    assert(single.last() == one);
    if placed(before, root, split(one.0, '.'), one.1, after) {
        assert(edited(before, root, single.drop_last(), before));
        assert(placed(before, root, split(single.last().0, '.'), single.last().1, after));
    }
    if edited(before, root, single, after) {
        let between = choose|between: LuaHeap|
            {
                &&& edited(before, root, single.drop_last(), between)
                &&& #[trigger] placed(
                    between,
                    root,
                    split(single.last().0, '.'),
                    single.last().1,
                    after,
                )
            };
        assert(between == before);
    }
}

/// What a value is that can be written into a module: the text, the number or the truth value that
/// it holds, and `nil` where it removes the key. The edits of a list are its edits, in its order.
pub proof fn law_what_is_put_there(
    s: String,
    n: Number,
    b: bool,
    edits: Seq<(String, KeyValue)>,
    i: int,
)
    ensures
        KeyValue::Str(s)@ == LuaValue::Text(s@),
        KeyValue::Num(n)@ == LuaValue::Number(n@),
        KeyValue::Bool(b)@ == LuaValue::Boolean(b),
        KeyValue::Nil@ == LuaValue::Nil,
        edits_model(edits).len() == edits.len(),
        0 <= i < edits.len() ==> edits_model(edits)[i] == (edits[i].0@, edits[i].1@),
{
}

} // verus!
