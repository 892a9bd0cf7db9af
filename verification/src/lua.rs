//! The Luau runtime, as this library sees it.
//!
//! A Luau state is modelled by its tables: what each one holds, in the order in
//! which it is walked. A table that is gone stays in the model: nothing can tell.
//! The garbage collector is switched off once a module was run, so that nothing
//! vanishes from a table that holds it weakly. Of the values of a state only tables
//! are kept by a handle, all others are copied out; a handle is of use only with the
//! state that has the table. The functions here hand single calls to `mlua`; what
//! their contracts claim of it is stated, not proved.

use crate::luau_read::read_module;
use crate::luau_trees::literally;
use crate::text::{parsed_int, precedes};
use vstd::prelude::*;

verus! {

/// `mlua::Lua`, a Luau state. Its tables are named by [`lua_heap`].
#[verifier::external_type_specification]
#[verifier::external_body]
pub struct ExLua(mlua::Lua);

/// `mlua::Value`, a value of a Luau state.
#[verifier::external_type_specification]
#[verifier::external_body]
pub struct ExLuaValue(mlua::Value);

/// `mlua::Table`, a handle to a table. Two handles are equal here when they stand
/// for the same table.
#[verifier::external_type_specification]
#[verifier::external_body]
pub struct ExLuaTable(mlua::Table);

/// What a Luau value is.
pub enum LuaValue {
    Nil,
    Boolean(bool),
    /// A number that reads as a 32-bit integer.
    Integer(i32),
    /// Any other number, as the shortest decimal text that reads back as it.
    Number(Seq<char>),
    /// A string that is valid UTF-8.
    Text(Seq<char>),
    /// A string that is not, as the reason why it cannot be read as text.
    BadText(Seq<char>),
    Table(mlua::Table),
    /// A function, a thread, userdata and the like, with what `Debug` shows of it
    /// where that is no address.
    Other(Odd, Seq<char>),
}

/// The kinds of value that have no source form.
#[derive(Debug, Clone, Copy, PartialEq, Eq, Structural)]
pub enum Odd {
    LightUserData,
    Vector,
    Function,
    Thread,
    UserData,
    Buffer,
    Error,
    Other,
}

/// The name that Luau has for a kind.
pub open spec fn odd_name(kind: Odd) -> Seq<char> {
    match kind {
        Odd::LightUserData => "lightuserdata"@,
        Odd::Vector => "vector"@,
        Odd::Function => "function"@,
        Odd::Thread => "thread"@,
        Odd::UserData => "userdata"@,
        Odd::Buffer => "buffer"@,
        Odd::Error => "error"@,
        Odd::Other => "other"@,
    }
}

impl Odd {
    /// The name that Luau has for the kind.
    pub fn name(&self) -> (r: &'static str)
        ensures
            r@ == odd_name(*self),
    {
        match self {
            Odd::LightUserData => "lightuserdata",
            Odd::Vector => "vector",
            Odd::Function => "function",
            Odd::Thread => "thread",
            Odd::UserData => "userdata",
            Odd::Buffer => "buffer",
            Odd::Error => "error",
            Odd::Other => "other",
        }
    }
}

/// A table.
pub struct LuaTable {
    /// Its pairs, in the order in which it is walked.
    pub pairs: Seq<(LuaValue, LuaValue)>,
    /// Whether it is without a metatable.
    pub plain: bool,
    /// Whether none of its keys is a number other than zero that reads as zero.
    /// Every number closer to zero than the machine precision does.
    pub tidy: bool,
}

/// The tables of a state.
pub type LuaHeap = Map<mlua::Table, LuaTable>;

/// What running a piece of Luau source came to.
pub enum Evaluation {
    /// It failed, with this message.
    Fails(Seq<char>),
    /// It returned a value, in a state with these tables.
    Returns(LuaHeap, LuaValue),
}

/// The tables that a state holds.
pub uninterp spec fn lua_heap(lua: mlua::Lua) -> LuaHeap;

/// Whether the garbage collector of a state is switched off.
pub uninterp spec fn at_rest(lua: mlua::Lua) -> bool;

/// Whether running `source` under the chunk name `name` can come to `outcome`.
/// A relation: a chunk may ask for the time or a random number, so one source
/// can come to many outcomes.
pub uninterp spec fn may_evaluate(name: Seq<char>, source: Seq<char>, outcome: Evaluation) -> bool;

/// The 64-bit floating point number that `raw` writes, if it writes one, as the
/// shortest decimal text that reads back as it.
pub uninterp spec fn number_parsed(raw: Seq<char>) -> Option<Seq<char>>;

/// Whether the number with this shortest text is closer to zero than the machine
/// precision, two to the power of -52. The bound here is the shortest text of that, and
/// the shortest texts of numbers from zero to it lie in the order of the numbers, before
/// those of all larger ones.
pub open spec fn reads_as_zero(text: Seq<char>) -> bool {
    precedes(unsigned(text), "0.0000000000000002220446049250313"@)
}

/// The text of a number without its sign.
pub open spec fn unsigned(text: Seq<char>) -> Seq<char> {
    if text.len() > 0 && text[0] == '-' {
        text.skip(1)
    } else {
        text
    }
}

/// How the number with this shortest text reads once a table has held it: as an
/// integer where it is one of 32 bits, as zero where it is too close to zero to be told
/// from it, and as itself otherwise.
pub open spec fn number_as_read(text: Seq<char>) -> LuaValue {
    match parsed_int(text, i32::MIN as int, i32::MAX as int) {
        Some(n) => LuaValue::Integer(n as i32),
        None => if reads_as_zero(text) {
            LuaValue::Integer(0)
        } else {
            LuaValue::Number(text)
        },
    }
}

/// Whether looking a key up in a table can fail with this message. A relation, as the
/// three that follow: whether there is memory left is up to the machine.
pub uninterp spec fn get_may_fail(
    heap: LuaHeap,
    table: mlua::Table,
    key: LuaValue,
    message: Seq<char>,
) -> bool;

/// Whether putting a value into a table can fail with this message.
pub uninterp spec fn set_may_fail(
    heap: LuaHeap,
    table: mlua::Table,
    key: LuaValue,
    value: LuaValue,
    message: Seq<char>,
) -> bool;

/// Whether making a new table can fail with this message.
pub uninterp spec fn create_may_fail(heap: LuaHeap, message: Seq<char>) -> bool;

/// Whether walking a table, or looking into it, can fail with this message.
pub uninterp spec fn walk_may_fail(
    heap: LuaHeap,
    table: mlua::Table,
    message: Seq<char>,
) -> bool;

/// What a table gives back of a value that was put into it.
pub open spec fn settles_as(value: LuaValue) -> LuaValue {
    match value {
        LuaValue::Number(text) => number_as_read(text),
        _ => value,
    }
}

/// Whether `value` is no table, or one of the heap.
pub open spec fn known(heap: LuaHeap, value: LuaValue) -> bool {
    value matches LuaValue::Table(t) ==> heap.contains_key(t)
}

/// Keys that tell table slots apart: texts and 32-bit integers.
pub open spec fn addressable(key: LuaValue) -> bool {
    key is Text || key is Integer
}

/// Whether `key` stands for one slot of `table`.
pub open spec fn telling(table: LuaTable, key: LuaValue) -> bool {
    addressable(key) && (key == LuaValue::Integer(0) ==> table.tidy)
}

/// Whether a number is held by its shortest text, and is none of those that read as an
/// integer of 32 bits.
pub open spec fn canonical(value: LuaValue) -> bool {
    value matches LuaValue::Number(text) ==> {
        &&& number_parsed(text) == Some(text)
        &&& number_as_read(text) == value
    }
}

/// What holds of the tables of every state: there are finitely many, they hold
/// tables of the same state only, no slot holds `nil`, a number reads as it did, and
/// no key that stands for one slot occurs twice.
pub open spec fn sound(heap: LuaHeap) -> bool {
    &&& heap.dom().finite()
    &&& forall|t: mlua::Table, i: int|
        heap.contains_key(t) && 0 <= i < heap[t].pairs.len() ==> {
            let pair = #[trigger] heap[t].pairs[i];
            &&& known(heap, pair.0)
            &&& known(heap, pair.1)
            &&& !(pair.0 is Nil)
            &&& !(pair.1 is Nil)
            &&& canonical(pair.0)
            &&& canonical(pair.1)
        }
    &&& forall|t: mlua::Table, i: int, j: int|
        heap.contains_key(t) && 0 <= i < j < heap[t].pairs.len() && telling(
            heap[t],
            heap[t].pairs[i].0,
        ) ==> (#[trigger] heap[t].pairs[i]).0 != (#[trigger] heap[t].pairs[j]).0
}

/// Whether a state can be worked with: its tables are sound, and its collector is
/// switched off.
pub open spec fn ready(lua: mlua::Lua) -> bool {
    at_rest(lua) && sound(lua_heap(lua))
}

/// Whether every table of `before` is one of `after`.
pub open spec fn grown(before: LuaHeap, after: LuaHeap) -> bool {
    forall|t: mlua::Table| #[trigger] before.contains_key(t) ==> after.contains_key(t)
}

/// Whether `pairs` holds something under `key`.
pub open spec fn has_key(pairs: Seq<(LuaValue, LuaValue)>, key: LuaValue) -> bool {
    exists|i: int| 0 <= i < pairs.len() && (#[trigger] pairs[i]).0 == key
}

/// What `pairs` holds under `key`: `nil` where it holds nothing.
pub open spec fn lookup(pairs: Seq<(LuaValue, LuaValue)>, key: LuaValue) -> LuaValue {
    if has_key(pairs, key) {
        pairs[choose|i: int| 0 <= i < pairs.len() && (#[trigger] pairs[i]).0 == key].1
    } else {
        LuaValue::Nil
    }
}

/// Whether the table itself decides what lies under `key`. A metatable gets to
/// decide where the table holds nothing under it.
pub open spec fn settled(table: LuaTable, key: LuaValue) -> bool {
    telling(table, key) && (table.plain || has_key(table.pairs, key))
}

/// Whether a pair has another key than `key`.
pub open spec fn other_key(key: LuaValue) -> spec_fn((LuaValue, LuaValue)) -> bool {
    |p: (LuaValue, LuaValue)| p.0 != key
}

/// The pairs whose key is another than `key`.
pub open spec fn without(pairs: Seq<(LuaValue, LuaValue)>, key: LuaValue) -> Seq<
    (LuaValue, LuaValue),
> {
    pairs.filter(other_key(key))
}

/// Whether `after` is `before` with `value` under `key` in `table`, or with
/// nothing there where `value` is `nil`. In which order the table is walked from
/// then on is left open: it may have been laid out anew.
pub open spec fn stored(
    before: LuaHeap,
    table: mlua::Table,
    key: LuaValue,
    value: LuaValue,
    after: LuaHeap,
) -> bool {
    let rest = without(before[table].pairs, key).to_multiset();
    &&& after.dom() == before.dom()
    &&& forall|t: mlua::Table| t != table ==> #[trigger] after[t] == before[t]
    &&& after[table].plain == before[table].plain
    &&& after[table].tidy == before[table].tidy
    &&& after[table].pairs.to_multiset() == if value is Nil {
        rest
    } else {
        rest.insert((key, value))
    }
}

/// A table that holds nothing.
pub open spec fn empty_table() -> LuaTable {
    LuaTable { pairs: Seq::empty(), plain: true, tidy: true }
}

/// A Luau value, taken apart.
#[derive(Debug)]
pub enum Datum {
    Nil,
    Boolean(bool),
    Integer(i32),
    Number(String),
    Text(String),
    BadText(String),
    Table(mlua::Table),
    Other(Odd, String),
}

impl View for Datum {
    type V = LuaValue;

    open spec fn view(&self) -> LuaValue {
        match *self {
            Datum::Nil => LuaValue::Nil,
            Datum::Boolean(b) => LuaValue::Boolean(b),
            Datum::Integer(i) => LuaValue::Integer(i),
            Datum::Number(s) => LuaValue::Number(s@),
            Datum::Text(s) => LuaValue::Text(s@),
            Datum::BadText(s) => LuaValue::BadText(s@),
            Datum::Table(t) => LuaValue::Table(t),
            Datum::Other(kind, shown) => LuaValue::Other(kind, shown@),
        }
    }
}

/// The model of a list of pairs.
pub open spec fn pairs_model(v: Seq<(Datum, Datum)>) -> Seq<(LuaValue, LuaValue)> {
    Seq::new(v.len(), |i: int| (v[i].0@, v[i].1@))
}

/// Whether a value is outlined: `None` is for a table.
pub open spec fn outlined(outline: Option<Datum>, value: LuaValue) -> bool {
    match outline {
        Some(d) => d@ == value && !(value is Table),
        None => value is Table,
    }
}

/// Whether a list of pairs is outlined.
pub open spec fn all_outlined(
    v: Seq<(Option<Datum>, Option<Datum>)>,
    pairs: Seq<(LuaValue, LuaValue)>,
) -> bool {
    &&& v.len() == pairs.len()
    &&& forall|i: int|
        0 <= i < pairs.len() ==> outlined((#[trigger] v[i]).0, pairs[i].0) && outlined(
            v[i].1,
            pairs[i].1,
        )
}

/// Whether a value can be put into a table.
pub open spec fn storable(heap: LuaHeap, value: LuaValue) -> bool {
    match value {
        LuaValue::Number(text) => number_parsed(text) == Some(text),
        LuaValue::BadText(_) => false,
        LuaValue::Other(_, _) => false,
        _ => known(heap, value),
    }
}

/// How many tables there are among the keys and values of the first `n` pairs.
pub open spec fn tables_among(pairs: Seq<(LuaValue, LuaValue)>, n: int) -> nat
    decreases n,
{
    if n <= 0 {
        0
    } else {
        let pair = pairs[n - 1];
        tables_among(pairs, n - 1) + (if pair.0 is Table {
            1nat
        } else {
            0
        }) + (if pair.1 is Table {
            1nat
        } else {
            0
        })
    }
}

/// How many handles can be held at a time. The runtime has place for a million, and
/// needs some of it itself.
pub open spec fn handle_limit() -> nat {
    999_000
}

/// How many handles are held while a table is gone through, besides those to what
/// lies deeper.
pub open spec fn handles_in(heap: LuaHeap, table: mlua::Table) -> nat {
    tables_among(heap[table].pairs, heap[table].pairs.len() as int)
}

/// How many handles are held while tables are gone through one inside the other.
pub open spec fn handles_along(heap: LuaHeap, path: Seq<mlua::Table>) -> nat
    decreases path.len(),
{
    if path.len() == 0 {
        0
    } else {
        handles_along(heap, path.drop_last()) + handles_in(heap, path.last())
    }
}

/// Whether a source is taken for compiled code that Luau would load: it begins with
/// the number of a version that Luau knows. Nothing is checked of such code when it
/// is loaded, so it is not handed over.
pub open spec fn compiled(source: Seq<char>) -> bool {
    source.len() > 0 && 3 <= source[0] as u32 <= 6
}

/// Whether running `source` under the chunk name `name` comes to `outcome`. Compiled
/// code is refused.
pub open spec fn evaluates(name: Seq<char>, source: Seq<char>, outcome: Evaluation) -> bool {
    if compiled(source) {
        outcome == Evaluation::Fails("compiled code is not loaded"@)
    } else {
        &&& may_evaluate(name, source, outcome)
        &&& read_literally(source, outcome)
        &&& outcome matches Evaluation::Returns(heap, value) ==> sound(heap) && known(heap, value)
    }
}

/// Whether `outcome` is what a source says that returns a table written out in full.
/// Nothing is said of any other source, and not of one in which a key is written
/// twice or as a table.
pub open spec fn read_literally(source: Seq<char>, outcome: Evaluation) -> bool {
    match (outcome, read_module(source)) {
        (Evaluation::Returns(heap, value), Some(literal)) => literally(heap, value, literal),
        _ => true,
    }
}

/// The variants of `mlua::Value`, told apart. A string is read with
/// `mlua::String::to_str`, a number is written with `Display`, and of what has no
/// source form its kind is kept. Only a table is kept by a handle. The functions below
/// convert by it what comes out of a call.
#[verifier::external_body]
fn value_of(value: mlua::Value) -> Datum {
    match value {
        mlua::Value::Nil => Datum::Nil,
        mlua::Value::Boolean(b) => Datum::Boolean(b),
        mlua::Value::Integer(i) => Datum::Integer(i),
        mlua::Value::Number(n) => Datum::Number(n.to_string()),
        mlua::Value::String(s) => match s.to_str() {
            Ok(text) => Datum::Text(text.to_string()),
            Err(e) => Datum::BadText(e.to_string()),
        },
        mlua::Value::Table(t) => Datum::Table(t),
        other => odd_of(other),
    }
}

/// The variants of `mlua::Value` that have no source form, told apart. Of a vector and
/// of an error it is kept what `Debug` shows, of all others that is an address.
#[verifier::external_body]
fn odd_of(value: mlua::Value) -> Datum {
    match value {
        mlua::Value::LightUserData(_) => Datum::Other(Odd::LightUserData, String::new()),
        mlua::Value::Vector(_) => Datum::Other(Odd::Vector, format!("{value:?}")),
        mlua::Value::Function(_) => Datum::Other(Odd::Function, String::new()),
        mlua::Value::Thread(_) => Datum::Other(Odd::Thread, String::new()),
        mlua::Value::UserData(_) => Datum::Other(Odd::UserData, String::new()),
        mlua::Value::Buffer(_) => Datum::Other(Odd::Buffer, String::new()),
        mlua::Value::Error(_) => Datum::Other(Odd::Error, format!("{value:?}")),
        _ => Datum::Other(Odd::Other, String::new()),
    }
}

/// `None` for a table, what [`value_of`] tells for all else.
#[verifier::external_body]
fn outline_of(value: mlua::Value) -> Option<Datum> {
    match value {
        mlua::Value::Table(_) => None,
        other => Some(value_of(other)),
    }
}

/// A `mlua::Value`: a string with `Lua::create_string`, a number from its text with
/// `str::parse`. The functions below convert by it what goes into a call.
#[verifier::external_body]
fn lua_value_of(lua: &mlua::Lua, value: &Datum) -> Result<mlua::Value, String> {
    match value {
        Datum::Nil => Ok(mlua::Value::Nil),
        Datum::Boolean(b) => Ok(mlua::Value::Boolean(*b)),
        Datum::Integer(i) => Ok(mlua::Value::Integer(*i)),
        Datum::Number(s) => s.parse().map(mlua::Value::Number).map_err(|_| s.clone()),
        Datum::Text(s) => lua.create_string(s).map(mlua::Value::String).map_err(|e| e.to_string()),
        Datum::Table(t) => Ok(mlua::Value::Table(t.clone())),
        Datum::BadText(s) => Err(s.clone()),
        Datum::Other(_, s) => Err(s.clone()),
    }
}

/// `Lua::new`, `Lua::load`, `Chunk::set_name` and `Chunk::eval`: run `source` in a state
/// of its own, then switch its collector off with `Lua::gc_stop`. What comes back is one
/// of the outcomes that the source can come to; a table that comes back is one of the
/// new state. A source that returns a table written out in full returns that table, in
/// tables of its own. Of any other source nothing is said of which outcome it is. The
/// call returns only if the code in `source` does.
#[verifier::external_body]
fn evaluate(name: &str, source: &str) -> (r: Result<(mlua::Lua, Datum), String>)
    requires
        !compiled(source@),
    ensures
        match r {
            Ok((lua, value)) => {
                &&& at_rest(lua)
                &&& sound(lua_heap(lua))
                &&& known(lua_heap(lua), value@)
                &&& may_evaluate(name@, source@, Evaluation::Returns(lua_heap(lua), value@))
                &&& read_literally(source@, Evaluation::Returns(lua_heap(lua), value@))
            },
            Err(message) => may_evaluate(name@, source@, Evaluation::Fails(message@)),
        },
{
    let lua = mlua::Lua::new();
    let value = lua.load(source).set_name(name).eval::<mlua::Value>();
    lua.gc_stop();
    match value {
        Ok(value) => Ok((lua, value_of(value))),
        Err(e) => Err(e.to_string()),
    }
}

/// The outcome that a run came to.
pub open spec fn outcome_of(evaluated: Result<(mlua::Lua, Datum), String>) -> Evaluation {
    match evaluated {
        Ok((lua, value)) => Evaluation::Returns(lua_heap(lua), value@),
        Err(message) => Evaluation::Fails(message@),
    }
}

/// Run `source` in a state of its own.
pub fn run(name: &str, source: &str) -> (r: Result<(mlua::Lua, Datum), String>)
    ensures
        evaluates(name@, source@, outcome_of(r)),
        r matches Ok((lua, value)) ==> ready(lua) && known(lua_heap(lua), value@),
{
    if source.unicode_len() > 0 {
        let first: char = source.get_char(0);
        if 3 <= first as u32 && first as u32 <= 6 {
            return Err("compiled code is not loaded".to_owned());
        }
    }
    evaluate(name, source)
}

/// `str::parse` into a `mlua::Number`, and `Display` of what it gives: the number
/// that `raw` writes, as the shortest decimal text that reads back as it. That
/// text writes the same number.
#[verifier::external_body]
pub(crate) fn parse_number(raw: &str) -> (r: Option<String>)
    ensures
        match r {
            Some(text) => {
                &&& number_parsed(raw@) == Some(text@)
                &&& number_parsed(text@) == Some(text@)
            },
            None => number_parsed(raw@) is None,
        },
{
    raw.parse::<mlua::Number>().ok().map(|n| n.to_string())
}

/// `Table::for_each`, without handles: the pairs of a table, in the order in which it is
/// walked, with `None` for each table among them.
#[verifier::external_body]
pub(crate) fn outlines_of(lua: &mlua::Lua, table: &mlua::Table) -> (r: Result<
    Vec<(Option<Datum>, Option<Datum>)>,
    String,
>)
    requires
        lua_heap(*lua).contains_key(*table),
    ensures
        match r {
            Ok(v) => all_outlined(v@, lua_heap(*lua)[*table].pairs),
            Err(e) => walk_may_fail(lua_heap(*lua), *table, e@),
        },
{
    let mut outlines = Vec::new();
    let walk = table.for_each(
        |key: mlua::Value, value: mlua::Value| {
            outlines.push((outline_of(key), outline_of(value)));
            Ok(())
        },
    );
    walk.map(|_| outlines).map_err(|e| e.to_string())
}

/// `Table::for_each`: the pairs of a table, without metamethods, in the order in
/// which it is walked. A failure is one that this call can come to. Each table among
/// the pairs is kept by a handle, and the runtime has place for a million of them.
#[verifier::external_body]
fn pairs_of(lua: &mlua::Lua, table: &mlua::Table) -> (r: Result<Vec<(Datum, Datum)>, String>)
    requires
        lua_heap(*lua).contains_key(*table),
        handles_in(lua_heap(*lua), *table) <= handle_limit(),
    ensures
        match r {
            Ok(v) => pairs_model(v@) == lua_heap(*lua)[*table].pairs,
            Err(e) => walk_may_fail(lua_heap(*lua), *table, e@),
        },
{
    let mut pairs = Vec::new();
    let walk = table.for_each(
        |key: mlua::Value, value: mlua::Value| {
            pairs.push((value_of(key), value_of(value)));
            Ok(())
        },
    );
    walk.map(|_| pairs).map_err(|e| e.to_string())
}

/// `Table::raw_get`: what a table itself holds under a key. Where other numbers read as
/// zero too, what comes back for zero is one of the values that seem to lie there, or
/// `nil`. A failure is one that looking into the table can come to.
#[verifier::external_body]
pub(crate) fn held_under(lua: &mlua::Lua, table: &mlua::Table, key: &Datum) -> (r: Result<
    Datum,
    String,
>)
    requires
        at_rest(*lua),
        lua_heap(*lua).contains_key(*table),
        addressable(key@),
    ensures
        match r {
            Ok(d) => {
                let pairs = lua_heap(*lua)[*table].pairs;
                &&& d@ is Nil || holds(pairs, key@, d@)
                &&& telling(lua_heap(*lua)[*table], key@) ==> d@ == lookup(pairs, key@)
            },
            Err(e) => walk_may_fail(lua_heap(*lua), *table, e@),
        },
{
    let found = lua_value_of(lua, key).and_then(
        |k| table.raw_get::<mlua::Value>(k).map_err(|e| e.to_string()),
    );
    found.map(value_of)
}

/// Whether `pairs` holds `value` under `key`.
pub open spec fn holds(
    pairs: Seq<(LuaValue, LuaValue)>,
    key: LuaValue,
    value: LuaValue,
) -> bool {
    exists|i: int| 0 <= i < pairs.len() && #[trigger] pairs[i] == (key, value)
}

/// The pairs of a table, where the handles that they take are there to be had: of
/// `spare` handles those that are left come back too. `None` is for too few.
pub(crate) fn pairs_within(lua: &mlua::Lua, table: &mlua::Table, spare: usize) -> (r: Result<
    Option<(Vec<(Datum, Datum)>, usize)>,
    String,
>)
    requires
        lua_heap(*lua).contains_key(*table),
        spare <= handle_limit(),
    ensures
        match r {
            Ok(Some((pairs, left))) => {
                &&& pairs_model(pairs@) == lua_heap(*lua)[*table].pairs
                &&& left + handles_in(lua_heap(*lua), *table) == spare
            },
            Ok(None) => spare < handles_in(lua_heap(*lua), *table),
            Err(e) => walk_may_fail(lua_heap(*lua), *table, e@),
        },
{
    let ghost pairs = lua_heap(*lua)[*table].pairs;
    let outlines: Vec<(Option<Datum>, Option<Datum>)> = match outlines_of(lua, table) {
        Ok(outlines) => outlines,
        Err(e) => return Err(e),
    };
    let mut left: usize = spare;
    let mut i: usize = 0;
    while i < outlines.len()
        invariant
            i <= outlines@.len() == pairs.len(),
            spare <= handle_limit(),
            left + tables_among(pairs, i as int) == spare,
            pairs == lua_heap(*lua)[*table].pairs,
            all_outlined(outlines@, pairs),
        decreases outlines@.len() - i,
    {
        let (key, value) = &outlines[i];
        assert(outlined(outlines@[i as int].0, pairs[i as int].0));
        let mut more: usize = 0;
        if key.is_none() {
            more = more + 1;
        }
        if value.is_none() {
            more = more + 1;
        }
        assert(tables_among(pairs, i as int + 1) == tables_among(pairs, i as int) + more);
        if left < more {
            proof {
                lemma_tables_among(pairs, i as int + 1, pairs.len() as int);
            }
            return Ok(None);
        }
        left = left - more;
        i = i + 1;
    }
    match pairs_of(lua, table) {
        Ok(pairs) => Ok(Some((pairs, left))),
        Err(e) => Err(e),
    }
}

/// More pairs hold no fewer tables.
proof fn lemma_tables_among(pairs: Seq<(LuaValue, LuaValue)>, few: int, many: int)
    requires
        few <= many,
    ensures
        tables_among(pairs, few) <= tables_among(pairs, many),
    decreases many,
{
    if few < many && many > 0 {
        lemma_tables_among(pairs, few, many - 1);
    }
}

/// `Table::get`. Where the table itself decides, nothing changes and what it
/// holds comes back. Where a metatable decides, code of the module may run (which
/// may switch the collector on again, so it is switched off), and only this is said:
/// the tables stay sound and none goes away. A failure is one that this call can come
/// to.
#[verifier::external_body]
pub(crate) fn table_get(lua: &mut mlua::Lua, table: &mlua::Table, key: &Datum) -> (r: Result<
    Datum,
    String,
>)
    requires
        ready(*old(lua)),
        lua_heap(*old(lua)).contains_key(*table),
        addressable(key@),
    ensures
        at_rest(*final(lua)),
        sound(lua_heap(*final(lua))),
        grown(lua_heap(*old(lua)), lua_heap(*final(lua))),
        match r {
            Ok(v) => known(lua_heap(*final(lua)), v@),
            Err(e) => get_may_fail(lua_heap(*old(lua)), *table, key@, e@),
        },
        settled(lua_heap(*old(lua))[*table], key@) ==> {
            &&& lua_heap(*final(lua)) == lua_heap(*old(lua))
            &&& r matches Ok(v) ==> v@ == lookup(lua_heap(*old(lua))[*table].pairs, key@)
        },
{
    let found = lua_value_of(lua, key).and_then(
        |k| table.get::<mlua::Value>(k).map_err(|e| e.to_string()),
    );
    lua.gc_stop();
    found.map(value_of)
}

/// `Table::set`. Where the table itself decides, a success has stored the value
/// and a failure (the table is frozen, say) has changed nothing. A number that is closer
/// to an integer of 32 bits than the machine precision comes out of the
/// table as that integer, any other as it went in. Where a metatable
/// decides, code of the module may run (which may switch the collector on again, so
/// it is switched off), and only this is said: the tables stay sound and none goes
/// away. A failure is one that this call can come to.
#[verifier::external_body]
pub(crate) fn table_set(
    lua: &mut mlua::Lua,
    table: &mlua::Table,
    key: &Datum,
    value: &Datum,
) -> (r: Result<(), String>)
    requires
        ready(*old(lua)),
        lua_heap(*old(lua)).contains_key(*table),
        addressable(key@),
        storable(lua_heap(*old(lua)), value@),
    ensures
        at_rest(*final(lua)),
        sound(lua_heap(*final(lua))),
        grown(lua_heap(*old(lua)), lua_heap(*final(lua))),
        r matches Err(e) ==> set_may_fail(lua_heap(*old(lua)), *table, key@, value@, e@),
        settled(lua_heap(*old(lua))[*table], key@) ==> match (r, value@) {
            (Ok(_), LuaValue::Number(text)) => stored(
                lua_heap(*old(lua)),
                *table,
                key@,
                number_as_read(text),
                lua_heap(*final(lua)),
            ),
            (Ok(_), v) => stored(
                lua_heap(*old(lua)),
                *table,
                key@,
                v,
                lua_heap(*final(lua)),
            ),
            (Err(_), _) => lua_heap(*final(lua)) == lua_heap(*old(lua)),
        },
{
    let both = lua_value_of(lua, key).and_then(|k| lua_value_of(lua, value).map(|v| (k, v)));
    let done = both.and_then(|(k, v)| table.set(k, v).map_err(|e| e.to_string()));
    lua.gc_stop();
    done
}

/// `Lua::create_table`: a table that was not there before, with nothing in it. A
/// failure, where there is no memory left, changes nothing.
#[verifier::external_body]
pub(crate) fn create_table(lua: &mut mlua::Lua) -> (r: Result<mlua::Table, String>)
    requires
        ready(*old(lua)),
    ensures
        at_rest(*final(lua)),
        sound(lua_heap(*final(lua))),
        match r {
            Ok(t) => {
                &&& !lua_heap(*old(lua)).contains_key(t)
                &&& lua_heap(*final(lua)) == lua_heap(*old(lua)).insert(t, empty_table())
            },
            Err(e) => {
                &&& create_may_fail(lua_heap(*old(lua)), e@)
                &&& lua_heap(*final(lua)) == lua_heap(*old(lua))
            },
        },
{
    lua.create_table().map_err(|e| e.to_string())
}

/// `==` on two handles of one state: whether they stand for the same table.
#[verifier::external_body]
pub(crate) fn same_table(lua: &mlua::Lua, a: &mlua::Table, b: &mlua::Table) -> (r: bool)
    requires
        lua_heap(*lua).contains_key(*a),
        lua_heap(*lua).contains_key(*b),
    ensures
        r == (*a == *b),
{
    a == b
}

/// `Table::clone`: another handle to a table of the state.
#[verifier::external_body]
pub(crate) fn handle(lua: &mlua::Lua, table: &mlua::Table) -> (r: mlua::Table)
    requires
        lua_heap(*lua).contains_key(*table),
    ensures
        r == *table,
{
    table.clone()
}

/// Kinds that have no source form are called as Luau calls them.
pub proof fn law_kinds_are_called_as_in_luau()
    ensures
        odd_name(Odd::LightUserData) == "lightuserdata"@,
        odd_name(Odd::Vector) == "vector"@,
        odd_name(Odd::Function) == "function"@,
        odd_name(Odd::Thread) == "thread"@,
        odd_name(Odd::UserData) == "userdata"@,
        odd_name(Odd::Buffer) == "buffer"@,
        odd_name(Odd::Error) == "error"@,
        odd_name(Odd::Other) == "other"@,
{
}

/// Every source is run as it is, but for compiled code, which is refused: that begins with a
/// character from 3 to 6, and no other source does.
pub proof fn law_only_compiled_code_is_refused(
    name: Seq<char>,
    source: Seq<char>,
    outcome: Evaluation,
)
    requires
        evaluates(name, source, outcome),
    ensures
        source.len() == 0 || (source[0] as u32) < 3 || source[0] as u32 > 6 ==> {
            &&& may_evaluate(name, source, outcome)
            &&& outcome matches Evaluation::Returns(heap, value) ==> sound(heap) && known(
                heap,
                value,
            )
        },
        source.len() > 0 && 3 <= source[0] as u32 <= 6 ==> outcome == Evaluation::Fails(
            "compiled code is not loaded"@,
        ),
{
}

} // verus!
