//! Printing a Luau table as source.

use crate::lua::{handle_limit, handles_along, handles_in, has_key, known, lookup, lua_heap};
use crate::lua::{odd_name, pairs_model, pairs_within, ready, same_table};
use crate::lua::{sound, telling, walk_may_fail, Datum, LuaHeap, LuaValue};
use crate::luau_order::{entry_pairs, format_number, in_turn, law_in_turn_is_sorted};
use crate::luau_order::{number_form, sort_entries, Entry, LuaPair};
use crate::luau_text::{identifier, is_identifier, quote, quoted};
use crate::text::{append_int, int_text, join, join_with, texts};
use vstd::prelude::*;
use vstd::string::*;

verus! {

/// Why a value has no source form.
pub enum Refusal {
    /// A function, a thread, userdata and the like, as the name of its type.
    Unwritable(Seq<char>),
    /// A string that is not UTF-8.
    BadText(Seq<char>),
    /// A table that holds itself.
    Cyclic,
}

/// What printing comes to.
pub type Printed = Result<Seq<char>, Refusal>;

/// One line between the braces: a value, and its key where that is written out.
pub type Line = (Option<LuaValue>, LuaValue);

/// Whether the keys are the integers from 1 to the number of pairs. No key occurs
/// twice, so it is enough that each is one of them.
pub open spec fn listed(pairs: Seq<LuaPair>) -> bool {
    &&& pairs.len() <= i32::MAX
    &&& forall|i: int|
        0 <= i < pairs.len() ==> {
            &&& (#[trigger] pairs[i]).0 is Integer
            &&& 1 <= pairs[i].0->Integer_0 <= pairs.len()
        }
}

/// The lines of a table: of a list the values from 1 on, of any other table the
/// keys in their order.
pub open spec fn lines_of(pairs: Seq<LuaPair>) -> Seq<Line> {
    if listed(pairs) {
        Seq::new(
            pairs.len(),
            |i: int| (None, lookup(pairs, LuaValue::Integer((i + 1) as i32))),
        )
    } else {
        Seq::new(pairs.len(), |i: int| (Some(in_turn(pairs)[i].0), in_turn(pairs)[i].1))
    }
}

/// How many tables are left to go into, below the tables `above`.
pub open spec fn room(heap: LuaHeap, above: Set<mlua::Table>) -> nat {
    heap.dom().difference(above).len()
}

/// Going into a table leaves fewer.
pub proof fn lemma_room(heap: LuaHeap, above: Set<mlua::Table>, t: mlua::Table)
    requires
        heap.dom().finite(),
        heap.contains_key(t),
        !above.contains(t),
    ensures
        room(heap, above.insert(t)) < room(heap, above),
{
    let left = heap.dom().difference(above);
    assert(left.contains(t));
    assert(heap.dom().difference(above.insert(t)) =~= left.remove(t));
}

/// A line put together from its parts; the first part that fails decides.
pub open spec fn line_text(indent: Seq<char>, key: Option<Printed>, value: Printed) -> Printed {
    match (key, value) {
        (Some(Err(e)), _) => Err(e),
        (_, Err(e)) => Err(e),
        (Some(Ok(k)), Ok(v)) => Ok(indent + k + " = "@ + v + ","@),
        (None, Ok(v)) => Ok(indent + v + ","@),
    }
}

/// A value as source. `above` are the tables that it lies in, `indent` is what
/// the line it stands on begins with.
pub open spec fn value_text(
    heap: LuaHeap,
    above: Set<mlua::Table>,
    value: LuaValue,
    indent: Seq<char>,
) -> Printed
    decreases room(heap, above), 0nat, 0nat,
{
    match value {
        LuaValue::Nil => Ok("nil"@),
        LuaValue::Boolean(true) => Ok("true"@),
        LuaValue::Boolean(false) => Ok("false"@),
        LuaValue::Integer(i) => Ok(int_text(i as int)),
        LuaValue::Number(text) => Ok(number_form(text)),
        LuaValue::Text(s) => Ok(quoted(s)),
        LuaValue::BadText(e) => Err(Refusal::BadText(e)),
        LuaValue::Other(kind, _) => Err(Refusal::Unwritable(odd_name(kind))),
        LuaValue::Table(t) => if above.contains(t) || !heap.contains_key(t)
            || !heap.dom().finite() {
            Err(Refusal::Cyclic)
        } else if heap[t].pairs.len() == 0 {
            Ok("{}"@)
        } else {
            proof {
                lemma_room(heap, above, t);
            }
            match lines_text(
                heap,
                above.insert(t),
                lines_of(heap[t].pairs),
                indent + "\t"@,
            ) {
                Ok(lines) => Ok("{\n"@ + join(lines, "\n"@) + "\n"@ + indent + "}"@),
                Err(e) => Err(e),
            }
        },
    }
}

/// A key as source: a bare name where Luau allows one, an expression in brackets
/// otherwise.
pub open spec fn key_text(
    heap: LuaHeap,
    above: Set<mlua::Table>,
    key: LuaValue,
    indent: Seq<char>,
) -> Printed
    decreases room(heap, above), 1nat, 0nat,
{
    if key is Text && identifier(key->Text_0) {
        Ok(key->Text_0)
    } else {
        match value_text(heap, above, key, indent) {
            Ok(s) => Ok("["@ + s + "]"@),
            Err(e) => Err(e),
        }
    }
}

/// Lines as source; the first one that fails decides.
pub open spec fn lines_text(
    heap: LuaHeap,
    above: Set<mlua::Table>,
    lines: Seq<Line>,
    indent: Seq<char>,
) -> Result<Seq<Seq<char>>, Refusal>
    decreases room(heap, above), 2nat, lines.len(),
{
    if lines.len() == 0 {
        Ok(Seq::empty())
    } else {
        match lines_text(heap, above, lines.drop_last(), indent) {
            Err(e) => Err(e),
            Ok(before) => {
                let key = match lines.last().0 {
                    Some(k) => Some(key_text(heap, above, k, indent)),
                    None => None,
                };
                match line_text(indent, key, value_text(heap, above, lines.last().1, indent)) {
                    Ok(line) => Ok(before.push(line)),
                    Err(e) => Err(e),
                }
            },
        }
    }
}

/// The source of a module that returns the table `t`.
pub open spec fn module_text(heap: LuaHeap, t: mlua::Table) -> Printed {
    match value_text(heap, Set::empty(), LuaValue::Table(t), Seq::empty()) {
        Ok(s) => Ok("return "@ + s + "\n"@),
        Err(e) => Err(e),
    }
}

/// Where some of the lines fail, all of them do.
proof fn lemma_first_failure(
    heap: LuaHeap,
    above: Set<mlua::Table>,
    lines: Seq<Line>,
    indent: Seq<char>,
    n: int,
)
    requires
        0 <= n <= lines.len(),
        lines_text(heap, above, lines.take(n), indent) is Err,
    ensures
        lines_text(heap, above, lines, indent) == lines_text(heap, above, lines.take(n), indent),
    decreases lines.len(),
{
    if n < lines.len() {
        assert(lines.drop_last().take(n) =~= lines.take(n));
        lemma_first_failure(heap, above, lines.drop_last(), indent, n);
    } else {
        assert(lines.take(n) =~= lines);
    }
}

// ---------------------------------------------------------------------------
// Printing
// ---------------------------------------------------------------------------

/// Why a table could not be printed.
#[derive(Debug)]
pub enum PrintError {
    /// A function, a thread, userdata and the like, as the name of its type.
    Unwritable(String),
    /// A string that is not UTF-8, as the reason why.
    BadText(String),
    /// A table that holds itself.
    Cyclic,
    /// The Luau runtime failed.
    Lua(String),
    /// Going through the tables takes more handles than there can be.
    Crowded,
}

/// Whether a table is a key or a value of another.
pub open spec fn lies_in(heap: LuaHeap, outer: mlua::Table, t: mlua::Table) -> bool {
    exists|k: int|
        0 <= k < heap[outer].pairs.len() && {
            ||| (#[trigger] heap[outer].pairs[k]).0 == LuaValue::Table(t)
            ||| heap[outer].pairs[k].1 == LuaValue::Table(t)
        }
}

/// Whether the table at place `i` of a path lies in the one before it.
pub open spec fn lies_at(heap: LuaHeap, path: Seq<mlua::Table>, i: int) -> bool {
    lies_in(heap, path[i - 1], path[i])
}

/// Whether tables lie one inside the other, from the outermost on.
pub open spec fn way_in(heap: LuaHeap, path: Seq<mlua::Table>) -> bool {
    &&& path.len() > 0
    &&& all_known(heap, path)
    &&& path.no_duplicates()
    &&& forall|i: int| 0 < i < path.len() ==> #[trigger] lies_at(heap, path, i)
}

/// Whether walking `root`, or a table that lies in it at whatever depth, can fail with
/// this message.
pub open spec fn printing_may_fail(heap: LuaHeap, root: mlua::Table, message: Seq<char>) -> bool {
    exists|path: Seq<mlua::Table>|
        {
            &&& #[trigger] way_in(heap, path)
            &&& path[0] == root
            &&& walk_may_fail(heap, path.last(), message)
        }
}

/// Whether there are tables from `root` on that cannot be gone through one inside the
/// other, because that takes more handles than there can be.
pub open spec fn crowded(heap: LuaHeap, root: mlua::Table) -> bool {
    exists|path: Seq<mlua::Table>|
        {
            &&& #[trigger] way_in(heap, path)
            &&& path[0] == root
            &&& handles_along(heap, path) > handle_limit()
        }
}

/// Going into a table that lies in the innermost one.
proof fn lemma_way_in(heap: LuaHeap, path: Seq<mlua::Table>, t: mlua::Table)
    requires
        way_in(heap, path),
        heap.contains_key(t),
        lies_in(heap, path.last(), t),
        !path.contains(t),
    ensures
        way_in(heap, path.push(t)),
        path.push(t)[0] == path[0],
{
    let deeper = path.push(t);
    assert forall|i: int| 0 < i < deeper.len() implies #[trigger] lies_at(heap, deeper, i) by {
        if i < path.len() {
            assert(lies_at(heap, path, i));
        }
    }
}

/// Whether `r` is what printing comes to, of what lies in `root`. The runtime may fail
/// where a table is walked; that says nothing of what is printed.
pub open spec fn agrees(
    heap: LuaHeap,
    root: mlua::Table,
    r: Result<String, PrintError>,
    printed: Printed,
) -> bool {
    match r {
        Ok(s) => printed == Ok::<Seq<char>, Refusal>(s@),
        Err(PrintError::Unwritable(kind)) => printed == Err::<Seq<char>, Refusal>(
            Refusal::Unwritable(kind@),
        ),
        Err(PrintError::BadText(e)) => printed == Err::<Seq<char>, Refusal>(Refusal::BadText(e@)),
        Err(PrintError::Cyclic) => printed == Err::<Seq<char>, Refusal>(Refusal::Cyclic),
        Err(PrintError::Lua(e)) => printing_may_fail(heap, root, e@),
        Err(PrintError::Crowded) => crowded(heap, root),
    }
}

/// Whether every table of the list is one of the heap.
pub open spec fn all_known(heap: LuaHeap, above: Seq<mlua::Table>) -> bool {
    forall|i: int| 0 <= i < above.len() ==> heap.contains_key(#[trigger] above[i])
}

/// A table that is being gone through, and those that it lies in.
pub struct Above<'a> {
    pub table: &'a mlua::Table,
    pub up: Option<&'a Above<'a>>,
}

/// The tables that are being gone through, from the outermost on.
pub open spec fn tables_above(above: Option<&Above>) -> Seq<mlua::Table>
    decreases above,
{
    match above {
        Some(a) => tables_above(a.up).push(*a.table),
        None => Seq::empty(),
    }
}

/// Whether `table` is one of `above`.
pub(crate) fn is_above(lua: &mlua::Lua, above: Option<&Above>, table: &mlua::Table) -> (r: bool)
    requires
        lua_heap(*lua).contains_key(*table),
        all_known(lua_heap(*lua), tables_above(above)),
    ensures
        r == tables_above(above).to_set().contains(*table),
{
    let ghost all = tables_above(above);
    let mut rest: Option<&Above> = above;
    let ghost mut k: int = all.len() as int;
    assert(all.take(k) =~= all);
    loop
        invariant
            0 <= k <= all.len(),
            tables_above(rest) == all.take(k),
            lua_heap(*lua).contains_key(*table),
            all_known(lua_heap(*lua), all),
            forall|i: int| k <= i < all.len() ==> #[trigger] all[i] != *table,
            all == tables_above(above),
        decreases k,
    {
        match rest {
            None => {
                assert(k == 0);
                return false;
            },
            Some(a) => {
                proof {
                    let upto = all.take(k);
                    assert(upto == tables_above(a.up).push(*a.table));
                    assert(upto.last() == *a.table);
                    assert(upto.drop_last() =~= tables_above(a.up));
                    assert(upto.drop_last() =~= all.take(k - 1));
                    assert(all[k - 1] == *a.table);
                }
                if same_table(lua, a.table, table) {
                    assert(all.contains(*table));
                    return true;
                }
                rest = a.up;
                proof {
                    k = k - 1;
                }
            },
        }
    }
}

/// Whether the keys are the integers from 1 to the number of pairs.
fn is_list(raw: &Vec<(Datum, Datum)>) -> (r: bool)
    ensures
        r == listed(pairs_model(raw@)),
{
    let ghost pairs = pairs_model(raw@);
    if raw.len() > i32::MAX as usize {
        return false;
    }
    let mut i: usize = 0;
    while i < raw.len()
        invariant
            pairs == pairs_model(raw@),
            i <= raw@.len() <= i32::MAX,
            forall|k: int|
                0 <= k < i ==> {
                    &&& (#[trigger] pairs[k]).0 is Integer
                    &&& 1 <= pairs[k].0->Integer_0 <= pairs.len()
                },
        decreases raw@.len() - i,
    {
        match &raw[i].0 {
            Datum::Integer(n) => {
                assert(pairs[i as int].0 == LuaValue::Integer(*n));
                if *n < 1 || *n as usize > raw.len() {
                    return false;
                }
            },
            _ => {
                assert(!(pairs[i as int].0 is Integer));
                return false;
            },
        }
        i = i + 1;
    }
    true
}

/// What lies under a key that occurs once.
pub proof fn lemma_lookup(pairs: Seq<LuaPair>, i: int)
    requires
        0 <= i < pairs.len(),
        forall|k: int| 0 <= k < pairs.len() && k != i ==> (#[trigger] pairs[k]).0 != pairs[i].0,
    ensures
        has_key(pairs, pairs[i].0),
        lookup(pairs, pairs[i].0) == pairs[i].1,
{
}

/// A key that stands for one slot is found where it stands.
pub proof fn lemma_lookup_in(heap: LuaHeap, table: mlua::Table, i: int)
    requires
        sound(heap),
        heap.contains_key(table),
        0 <= i < heap[table].pairs.len(),
        telling(heap[table], heap[table].pairs[i].0),
    ensures
        has_key(heap[table].pairs, heap[table].pairs[i].0),
        lookup(heap[table].pairs, heap[table].pairs[i].0) == heap[table].pairs[i].1,
        known(heap, heap[table].pairs[i].1),
{
    let pairs = heap[table].pairs;
    assert forall|k: int| 0 <= k < pairs.len() && k != i implies (#[trigger] pairs[k]).0
        != pairs[i].0 by {
        if k > i {
            assert(heap[table].pairs[i].0 != heap[table].pairs[k].0);
        } else {
            if pairs[k].0 == pairs[i].0 {
                assert(telling(heap[table], heap[table].pairs[k].0));
                assert(heap[table].pairs[k].0 != heap[table].pairs[i].0);
            }
        }
    }
    lemma_lookup(pairs, i);
}

/// Whether the key at place `i` is the integer `n`.
fn key_is(raw: &Vec<(Datum, Datum)>, i: usize, n: i32) -> (r: bool)
    requires
        i < raw@.len(),
    ensures
        r == (pairs_model(raw@)[i as int].0 == LuaValue::Integer(n)),
{
    match &raw[i].0 {
        Datum::Integer(m) => *m == n,
        _ => false,
    }
}

/// Where the integer `n` stands among the keys, if it does. A list is mostly walked in
/// order, so its own place is looked at first.
fn place_of(
    lua: &mlua::Lua,
    table: &mlua::Table,
    raw: &Vec<(Datum, Datum)>,
    n: i32,
) -> (r: Option<usize>)
    requires
        sound(lua_heap(*lua)),
        lua_heap(*lua).contains_key(*table),
        pairs_model(raw@) == lua_heap(*lua)[*table].pairs,
        n >= 1,
    ensures
        match r {
            Some(i) => {
                &&& i < raw@.len()
                &&& raw@[i as int].1@ == lookup(pairs_model(raw@), LuaValue::Integer(n))
                &&& known(lua_heap(*lua), raw@[i as int].1@)
            },
            None => lookup(pairs_model(raw@), LuaValue::Integer(n)) is Nil,
        },
{
    let ghost pairs = pairs_model(raw@);
    let ghost heap = lua_heap(*lua);
    let guess: usize = n as usize - 1;
    if guess < raw.len() && key_is(raw, guess, n) {
        proof {
            lemma_lookup_in(heap, *table, guess as int);
        }
        return Some(guess);
    }
    let mut i: usize = 0;
    while i < raw.len()
        invariant
            i <= raw@.len(),
            sound(heap),
            heap == lua_heap(*lua),
            heap.contains_key(*table),
            pairs == pairs_model(raw@),
            pairs == heap[*table].pairs,
            n >= 1,
            forall|k: int| 0 <= k < i ==> (#[trigger] pairs[k]).0 != LuaValue::Integer(n),
        decreases raw@.len() - i,
    {
        if key_is(raw, i, n) {
            proof {
                lemma_lookup_in(heap, *table, i as int);
            }
            return Some(i);
        }
        i = i + 1;
    }
    assert(!has_key(pairs, LuaValue::Integer(n)));
    None
}

/// Add a line to what was printed before it.
fn push_line(lines: &mut Vec<String>, indent: &str, key: Option<String>, value: String)
    ensures
        match key {
            Some(k) => texts(final(lines)@) == texts(old(lines)@).push(
                indent@ + k@ + " = "@ + value@ + ","@,
            ),
            None => texts(final(lines)@) == texts(old(lines)@).push(indent@ + value@ + ","@),
        },
{
    let mut line: String = indent.to_owned();
    if let Some(k) = key {
        line.append(k.as_str());
        line.append(" = ");
    }
    line.append(value.as_str());
    line.append(",");
    lines.push(line);
    assert(texts(lines@) =~= texts(old(lines)@).push(line@));
}

/// A value as source.
fn serialize_value(
    lua: &mlua::Lua,
    above: Option<&Above>,
    value: &Datum,
    indent: &str,
    spare: usize,
) -> (r: Result<String, PrintError>)
    requires
        sound(lua_heap(*lua)),
        known(lua_heap(*lua), value@),
        value matches Datum::Table(t) ==> lies_in(lua_heap(*lua), tables_above(above).last(), *t),
        way_in(lua_heap(*lua), tables_above(above)),
        spare + handles_along(lua_heap(*lua), tables_above(above)) == handle_limit(),
    ensures
        agrees(
            lua_heap(*lua),
            tables_above(above)[0],
            r,
            value_text(lua_heap(*lua), tables_above(above).to_set(), value@, indent@),
        ),
    decreases room(lua_heap(*lua), tables_above(above).to_set()), 1nat,
{
    match value {
        Datum::Nil => Ok("nil".to_owned()),
        Datum::Boolean(b) => if *b {
            Ok("true".to_owned())
        } else {
            Ok("false".to_owned())
        },
        Datum::Integer(i) => {
            let mut out: String = String::new();
            append_int(&mut out, *i as i64);
            assert(out@ =~= int_text(*i as int));
            Ok(out)
        },
        Datum::Number(text) => Ok(format_number(text.as_str())),
        Datum::Text(s) => Ok(quote(s.as_str())),
        Datum::BadText(e) => Err(PrintError::BadText(e.as_str().to_owned())),
        Datum::Other(kind, _) => Err(PrintError::Unwritable(kind.name().to_owned())),
        Datum::Table(t) => {
            if is_above(lua, above, t) {
                Err(PrintError::Cyclic)
            } else {
                proof {
                    lemma_way_in(lua_heap(*lua), tables_above(above), *t);
                }
                serialize(lua, above, t, indent, spare)
            }
        },
    }
}

/// A key as source.
fn serialize_key(
    lua: &mlua::Lua,
    above: Option<&Above>,
    key: &Datum,
    indent: &str,
    spare: usize,
) -> (r: Result<String, PrintError>)
    requires
        sound(lua_heap(*lua)),
        known(lua_heap(*lua), key@),
        key matches Datum::Table(t) ==> lies_in(lua_heap(*lua), tables_above(above).last(), *t),
        way_in(lua_heap(*lua), tables_above(above)),
        spare + handles_along(lua_heap(*lua), tables_above(above)) == handle_limit(),
    ensures
        agrees(
            lua_heap(*lua),
            tables_above(above)[0],
            r,
            key_text(lua_heap(*lua), tables_above(above).to_set(), key@, indent@),
        ),
    decreases room(lua_heap(*lua), tables_above(above).to_set()), 2nat,
{
    if let Datum::Text(s) = key {
        if is_identifier(s.as_str()) {
            return Ok(s.as_str().to_owned());
        }
    }
    match serialize_value(lua, above, key, indent, spare) {
        Ok(s) => {
            let mut out: String = "[".to_owned();
            out.append(s.as_str());
            out.append("]");
            Ok(out)
        },
        Err(e) => Err(e),
    }
}

/// The lines of a list.
fn serialize_list(
    lua: &mlua::Lua,
    above: Option<&Above>,
    table: &mlua::Table,
    raw: &Vec<(Datum, Datum)>,
    indent: &str,
    spare: usize,
) -> (r: Result<Vec<String>, PrintError>)
    requires
        sound(lua_heap(*lua)),
        tables_above(above).last() == *table,
        way_in(lua_heap(*lua), tables_above(above)),
        spare + handles_along(lua_heap(*lua), tables_above(above)) == handle_limit(),
        pairs_model(raw@) == lua_heap(*lua)[*table].pairs,
        listed(pairs_model(raw@)),
    ensures
        lines_agree(
            lua_heap(*lua),
            tables_above(above)[0],
            r,
            lines_text(
                lua_heap(*lua),
                tables_above(above).to_set(),
                lines_of(pairs_model(raw@)),
                indent@,
            ),
        ),
    decreases room(lua_heap(*lua), tables_above(above).to_set()), 3nat,
{
    let ghost heap = lua_heap(*lua);
    let ghost inside = tables_above(above).to_set();
    proof {
        let all = tables_above(above);
        assert(heap.contains_key(all[all.len() - 1]));
    }
    let ghost todo = lines_of(pairs_model(raw@));
    let mut lines: Vec<String> = Vec::new();
    assert(todo.take(0) =~= Seq::<Line>::empty());
    assert(texts(lines@) =~= Seq::<Seq<char>>::empty());
    let mut i: usize = 0;
    while i < raw.len()
        invariant
            sound(heap),
            heap == lua_heap(*lua),
            heap.contains_key(*table),
            tables_above(above).last() == *table,
            inside == tables_above(above).to_set(),
            way_in(heap, tables_above(above)),
            spare + handles_along(heap, tables_above(above)) == handle_limit(),
            pairs_model(raw@) == heap[*table].pairs,
            listed(pairs_model(raw@)),
            todo == lines_of(pairs_model(raw@)),
            i <= raw@.len() <= i32::MAX,
            lines_text(heap, inside, todo.take(i as int), indent@) == Ok::<
                Seq<Seq<char>>,
                Refusal,
            >(texts(lines@)),
        decreases raw@.len() - i,
    {
        let n: i32 = (i + 1) as i32;
        let nothing: Datum = Datum::Nil;
        let value: &Datum = match place_of(lua, table, raw, n) {
            Some(k) => &raw[k].1,
            None => &nothing,
        };
        let ghost upto = todo.take(i as int + 1);
        assert(upto.drop_last() =~= todo.take(i as int));
        assert(upto.last() == todo[i as int]);
        assert(todo[i as int] == (None::<LuaValue>, value@));
        proof {
            if let Datum::Table(t) = value {
                let k = choose|k: int| 0 <= k < raw@.len() && #[trigger] raw@[k].1 == *value;
                assert(pairs_model(raw@)[k].1 == value@);
                assert(heap[*table].pairs[k].1 == LuaValue::Table(*t));
            }
        }
        match serialize_value(lua, above, value, indent, spare) {
            Ok(v) => push_line(&mut lines, indent, None, v),
            Err(e) => {
                proof {
                    if !(e is Lua || e is Crowded) {
                        lemma_first_failure(heap, inside, todo, indent@, i as int + 1);
                    }
                }
                return Err(e);
            },
        }
        i = i + 1;
    }
    assert(todo.take(todo.len() as int) =~= todo);
    Ok(lines)
}

/// The lines of a table that is no list.
fn serialize_entries(
    lua: &mlua::Lua,
    above: Option<&Above>,
    table: &mlua::Table,
    raw: Vec<(Datum, Datum)>,
    indent: &str,
    spare: usize,
) -> (r: Result<Vec<String>, PrintError>)
    requires
        sound(lua_heap(*lua)),
        tables_above(above).last() == *table,
        way_in(lua_heap(*lua), tables_above(above)),
        spare + handles_along(lua_heap(*lua), tables_above(above)) == handle_limit(),
        pairs_model(raw@) == lua_heap(*lua)[*table].pairs,
        !listed(pairs_model(raw@)),
    ensures
        lines_agree(
            lua_heap(*lua),
            tables_above(above)[0],
            r,
            lines_text(
                lua_heap(*lua),
                tables_above(above).to_set(),
                lines_of(pairs_model(raw@)),
                indent@,
            ),
        ),
    decreases room(lua_heap(*lua), tables_above(above).to_set()), 3nat,
{
    let ghost heap = lua_heap(*lua);
    let ghost inside = tables_above(above).to_set();
    proof {
        let all = tables_above(above);
        assert(heap.contains_key(all[all.len() - 1]));
    }
    let ghost pairs = pairs_model(raw@);
    let ghost todo = lines_of(pairs);
    let entries: Vec<Entry> = sort_entries(raw);
    proof {
        law_in_turn_is_sorted(pairs);
    }
    let mut lines: Vec<String> = Vec::new();
    assert(todo.take(0) =~= Seq::<Line>::empty());
    assert(texts(lines@) =~= Seq::<Seq<char>>::empty());
    let mut i: usize = 0;
    while i < entries.len()
        invariant
            sound(heap),
            heap == lua_heap(*lua),
            heap.contains_key(*table),
            tables_above(above).last() == *table,
            inside == tables_above(above).to_set(),
            way_in(heap, tables_above(above)),
            spare + handles_along(heap, tables_above(above)) == handle_limit(),
            pairs == pairs_model(raw@),
            pairs == heap[*table].pairs,
            !listed(pairs),
            todo == lines_of(pairs),
            entry_pairs(entries@) == in_turn(pairs),
            in_turn(pairs).to_multiset() == pairs.to_multiset(),
            in_turn(pairs).len() == pairs.len(),
            forall|k: int| 0 <= k < entries@.len() ==> (#[trigger] entries@[k]).wf(),
            i <= entries@.len(),
            lines_text(heap, inside, todo.take(i as int), indent@) == Ok::<
                Seq<Seq<char>>,
                Refusal,
            >(texts(lines@)),
        decreases entries@.len() - i,
    {
        let ghost upto = todo.take(i as int + 1);
        proof {
            assert(entries@[i as int].wf());
            assert(upto.drop_last() =~= todo.take(i as int));
            assert(upto.last() == todo[i as int]);
            assert(entry_pairs(entries@)[i as int] == entries@[i as int].pair());
            assert(todo[i as int] == (Some(entries@[i as int].key@), entries@[i as int].value@));
            lemma_sorted_pair_known(heap, *table, i as int);
        }
        let key: String = match serialize_key(lua, above, &entries[i].key, indent, spare) {
            Ok(k) => k,
            Err(e) => {
                proof {
                    if !(e is Lua || e is Crowded) {
                        lemma_first_failure(heap, inside, todo, indent@, i as int + 1);
                    }
                }
                return Err(e);
            },
        };
        match serialize_value(lua, above, &entries[i].value, indent, spare) {
            Ok(v) => push_line(&mut lines, indent, Some(key), v),
            Err(e) => {
                proof {
                    if !(e is Lua || e is Crowded) {
                        lemma_first_failure(heap, inside, todo, indent@, i as int + 1);
                    }
                }
                return Err(e);
            },
        }
        i = i + 1;
    }
    assert(todo.take(todo.len() as int) =~= todo);
    Ok(lines)
}

/// What a table holds is known, in whatever order it is taken.
proof fn lemma_sorted_pair_known(heap: LuaHeap, t: mlua::Table, i: int)
    requires
        sound(heap),
        heap.contains_key(t),
        0 <= i < heap[t].pairs.len(),
    ensures
        known(heap, in_turn(heap[t].pairs)[i].0),
        known(heap, in_turn(heap[t].pairs)[i].1),
        in_turn(heap[t].pairs)[i].0 matches LuaValue::Table(u) ==> lies_in(heap, t, u),
        in_turn(heap[t].pairs)[i].1 matches LuaValue::Table(u) ==> lies_in(heap, t, u),
{
    let pairs = heap[t].pairs;
    let turn = in_turn(pairs);
    law_in_turn_is_sorted(pairs);
    pairs.to_multiset_ensures();
    turn.to_multiset_ensures();
    assert(turn.contains(turn[i]));
    assert(pairs.to_multiset().count(turn[i]) > 0);
    assert(pairs.contains(turn[i]));
    let k = choose|k: int| 0 <= k < pairs.len() && pairs[k] == turn[i];
    assert(heap[t].pairs[k] == turn[i]);
}

/// Whether `r` is what printing the lines comes to.
pub open spec fn lines_agree(
    heap: LuaHeap,
    root: mlua::Table,
    r: Result<Vec<String>, PrintError>,
    printed: Result<Seq<Seq<char>>, Refusal>,
) -> bool {
    match r {
        Ok(lines) => printed == Ok::<Seq<Seq<char>>, Refusal>(texts(lines@)),
        Err(PrintError::Unwritable(kind)) => printed == Err::<Seq<Seq<char>>, Refusal>(
            Refusal::Unwritable(kind@),
        ),
        Err(PrintError::BadText(e)) => printed == Err::<Seq<Seq<char>>, Refusal>(
            Refusal::BadText(e@),
        ),
        Err(PrintError::Cyclic) => printed == Err::<Seq<Seq<char>>, Refusal>(Refusal::Cyclic),
        Err(PrintError::Lua(e)) => printing_may_fail(heap, root, e@),
        Err(PrintError::Crowded) => crowded(heap, root),
    }
}

/// A table as source.
fn serialize(
    lua: &mlua::Lua,
    above: Option<&Above>,
    table: &mlua::Table,
    indent: &str,
    spare: usize,
) -> (r: Result<String, PrintError>)
    requires
        sound(lua_heap(*lua)),
        way_in(lua_heap(*lua), tables_above(above).push(*table)),
        spare + handles_along(lua_heap(*lua), tables_above(above)) == handle_limit(),
    ensures
        agrees(
            lua_heap(*lua),
            tables_above(above).push(*table)[0],
            r,
            value_text(
                lua_heap(*lua),
                tables_above(above).to_set(),
                LuaValue::Table(*table),
                indent@,
            ),
        ),
    decreases room(lua_heap(*lua), tables_above(above).to_set()), 0nat,
{
    let ghost deeper = tables_above(above).push(*table);
    proof {
        assert(deeper.drop_last() =~= tables_above(above));
        assert(deeper[deeper.len() - 1] == *table);
        assert(lua_heap(*lua).contains_key(*table));
        assert(!tables_above(above).contains(*table)) by {
            if tables_above(above).contains(*table) {
                let i = choose|i: int|
                    0 <= i < tables_above(above).len() && tables_above(above)[i] == *table;
                assert(deeper[i] == deeper[deeper.len() - 1]);
            }
        }
    }
    let (raw, left): (Vec<(Datum, Datum)>, usize) = match pairs_within(lua, table, spare) {
        Ok(Some(both)) => both,
        Ok(None) => {
            assert(handles_along(lua_heap(*lua), deeper) > handle_limit());
            return Err(PrintError::Crowded);
        },
        Err(e) => {
            assert(deeper.last() == *table);
            return Err(PrintError::Lua(e));
        },
    };
    if raw.len() == 0 {
        return Ok("{}".to_owned());
    }
    let mut inner: String = indent.to_owned();
    inner.append("\t");
    let within = Above { table, up: above };
    proof {
        lemma_room(lua_heap(*lua), tables_above(above).to_set(), *table);
        tables_above(above).lemma_push_to_set_commute(*table);
        assert(tables_above(Some(&within)) == deeper);
    }
    let printed: Result<Vec<String>, PrintError> = if is_list(&raw) {
        serialize_list(lua, Some(&within), table, &raw, inner.as_str(), left)
    } else {
        serialize_entries(lua, Some(&within), table, raw, inner.as_str(), left)
    };
    match printed {
        Ok(lines) => {
            let mut out: String = "{\n".to_owned();
            let body: String = join_with(&lines, "\n");
            out.append(body.as_str());
            out.append("\n");
            out.append(indent);
            out.append("}");
            Ok(out)
        },
        Err(e) => Err(e),
    }
}

/// The source of a module that returns `table`.
pub fn module_source(lua: &mlua::Lua, table: &mlua::Table) -> (r: Result<String, PrintError>)
    requires
        ready(*lua),
        lua_heap(*lua).contains_key(*table),
    ensures
        agrees(lua_heap(*lua), *table, r, module_text(lua_heap(*lua), *table)),
{
    let above: Option<&Above> = None;
    assert(tables_above(above).to_set() =~= Set::<mlua::Table>::empty());
    assert(tables_above(above).push(*table) =~= seq![*table]);
    assert(""@ =~= Seq::<char>::empty()) by {
        reveal_strlit("");
    }
    match serialize(lua, above, table, "", 999_000) {
        Ok(s) => {
            let mut out: String = "return ".to_owned();
            out.append(s.as_str());
            out.append("\n");
            Ok(out)
        },
        Err(e) => Err(e),
    }
}

/// There are handles enough to print where all tables together have no more tables in them than
/// there can be handles: where each has `most` at most, that is so for `999_000 / most` tables.
pub proof fn law_large_modules_are_printed(heap: LuaHeap, root: mlua::Table, most: nat)
    requires
        sound(heap),
        forall|t: mlua::Table| #[trigger]
            heap.contains_key(t) ==> handles_in(heap, t) <= most,
        heap.dom().len() * most <= 999_000,
    ensures
        !crowded(heap, root),
{
    assert forall|path: Seq<mlua::Table>| #[trigger] way_in(heap, path) implies handles_along(
        heap,
        path,
    ) <= handle_limit() by {
        lemma_handles_along(heap, path, most);
        path.unique_seq_to_set();
        assert(path.to_set().subset_of(heap.dom()));
        vstd::set_lib::lemma_len_subset(path.to_set(), heap.dom());
        assert(path.len() * most <= heap.dom().len() * most) by (nonlinear_arith)
            requires
                path.len() <= heap.dom().len(),
        ;
    }
}

proof fn lemma_handles_along(heap: LuaHeap, path: Seq<mlua::Table>, most: nat)
    requires
        all_known(heap, path),
        forall|t: mlua::Table| #[trigger]
            heap.contains_key(t) ==> handles_in(heap, t) <= most,
    ensures
        handles_along(heap, path) <= path.len() * most,
    decreases path.len(),
{
    if path.len() > 0 {
        let front = path.drop_last();
        assert forall|i: int| 0 <= i < front.len() implies heap.contains_key(
            #[trigger] front[i],
        ) by {
            assert(front[i] == path[i]);
        }
        lemma_handles_along(heap, front, most);
        assert(heap.contains_key(path[path.len() - 1]));
        assert(front.len() * most + most == path.len() * most) by (nonlinear_arith)
            requires
                front.len() + 1 == path.len(),
        ;
    }
}

} // verus!
