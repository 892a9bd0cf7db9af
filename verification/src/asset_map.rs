//! Reading an asset map out of the table that a Luau module returns.
//!
//! The module is evaluated, not scanned: the one parser that is sure to agree with
//! what writes the file is Luau itself.

use crate::lua::{all_outlined, handle_limit, handles_in, held_under, holds, known, lua_heap};
use crate::lua::{outcome_of, outlined, outlines_of, pairs_model, pairs_within, ready, sound};
use crate::lua::{telling, walk_may_fail, Datum, Evaluation, LuaHeap, LuaValue};
use crate::luau_order::LuaPair;
use crate::luau_print::{all_known, is_above, lemma_lookup_in, lemma_room, room};
use crate::luau_print::{tables_above, Above};
use crate::text::{append_int, int_text, join, law_joining};
use crate::text_map::{Pairs, TextMap};
use vstd::prelude::*;
use vstd::string::*;

verus! {

/// Why a table is no asset map.
pub enum Flaw {
    /// A string that is not UTF-8.
    BadText(Seq<char>),
    /// A table that holds itself.
    Cyclic,
}

/// The lookup keys and values that are read out of a table, in the order in which
/// it is walked.
pub type Flat = Result<Pairs, Flaw>;

/// What a key of a table is called in a lookup. A key that is neither a text nor
/// an integer has no name there.
pub open spec fn lookup_name(key: LuaValue) -> Option<Seq<char>> {
    match key {
        LuaValue::Text(s) => Some(s),
        LuaValue::Integer(i) => Some(int_text(i as int)),
        _ => None,
    }
}

/// A name below a prefix.
pub open spec fn dotted(prefix: Seq<char>, name: Seq<char>) -> Seq<char> {
    if prefix.len() == 0 {
        name
    } else {
        prefix + "."@ + name
    }
}

/// What is read out of one pair. `above` are the tables that it lies in.
pub open spec fn flat_pair(
    heap: LuaHeap,
    above: Set<mlua::Table>,
    pair: LuaPair,
    prefix: Seq<char>,
) -> Flat
    decreases room(heap, above), 0nat, 0nat,
{
    match (pair.0, lookup_name(pair.0)) {
        (LuaValue::BadText(e), _) => Err(Flaw::BadText(e)),
        (_, None) => Ok(Seq::empty()),
        (_, Some(name)) => match pair.1 {
            LuaValue::Text(s) => Ok(seq![(dotted(prefix, name), s)]),
            LuaValue::BadText(e) => Err(Flaw::BadText(e)),
            LuaValue::Table(t) => if above.contains(t) || !heap.contains_key(t)
                || !heap.dom().finite() {
                Err(Flaw::Cyclic)
            } else {
                proof {
                    lemma_room(heap, above, t);
                }
                flat_pairs(heap, above.insert(t), heap[t].pairs, dotted(prefix, name))
            },
            _ => Ok(Seq::empty()),
        },
    }
}

/// What is read out of pairs; the first one with a flaw decides.
pub open spec fn flat_pairs(
    heap: LuaHeap,
    above: Set<mlua::Table>,
    pairs: Seq<LuaPair>,
    prefix: Seq<char>,
) -> Flat
    decreases room(heap, above), 1nat, pairs.len(),
{
    if pairs.len() == 0 {
        Ok(Seq::empty())
    } else {
        match flat_pairs(heap, above, pairs.drop_last(), prefix) {
            Err(e) => Err(e),
            Ok(before) => match flat_pair(heap, above, pairs.last(), prefix) {
                Err(e) => Err(e),
                Ok(more) => Ok(before + more),
            },
        }
    }
}

/// What is read out of a table: nested tables become dotted keys, to any depth.
pub open spec fn flattened(heap: LuaHeap, root: mlua::Table) -> Flat {
    flat_pairs(heap, set![root], heap[root].pairs, Seq::empty())
}

/// Where some of the pairs have a flaw, all of them have.
proof fn lemma_first_flaw(
    heap: LuaHeap,
    above: Set<mlua::Table>,
    pairs: Seq<LuaPair>,
    prefix: Seq<char>,
    n: int,
)
    requires
        0 <= n <= pairs.len(),
        flat_pairs(heap, above, pairs.take(n), prefix) is Err,
    ensures
        flat_pairs(heap, above, pairs, prefix) == flat_pairs(heap, above, pairs.take(n), prefix),
    decreases pairs.len(),
{
    if n < pairs.len() {
        assert(pairs.drop_last().take(n) =~= pairs.take(n));
        lemma_first_flaw(heap, above, pairs.drop_last(), prefix, n);
    } else {
        assert(pairs.take(n) =~= pairs);
    }
}

/// Why an asset map could not be read.
#[derive(Debug)]
pub enum AssetMapError {
    /// The source does not evaluate.
    Evaluate(String),
    /// It returns something else than a table.
    NotATable,
    /// A string is not UTF-8, as the reason why.
    BadText(String),
    /// A table holds itself.
    Cyclic,
    /// The Luau runtime failed.
    Lua(String),
    /// Going through the tables takes more handles than there can be.
    Crowded,
}

/// What a failure to read the file called `name` reads as.
pub open spec fn asset_map_message(e: AssetMapError, name: Seq<char>) -> Seq<char> {
    match e {
        AssetMapError::Evaluate(reason) => "evaluating asphalt output "@ + name + ": "@ + reason@,
        AssetMapError::NotATable => "asphalt output "@ + name + " did not return a table"@,
        AssetMapError::BadText(reason) => reason@,
        AssetMapError::Cyclic => "asphalt output "@ + name + " holds a table that holds itself"@,
        AssetMapError::Lua(reason) => reason@,
        AssetMapError::Crowded => "asphalt output "@ + name + " holds too many tables"@,
    }
}

impl AssetMapError {
    /// What the failure to read the file called `name` reads as.
    pub fn message(&self, name: &str) -> (r: String)
        ensures
            r@ == asset_map_message(*self, name@),
    {
        match self {
            AssetMapError::Evaluate(reason) => {
                let mut out: String = "evaluating asphalt output ".to_owned();
                out.append(name);
                out.append(": ");
                out.append(reason.as_str());
                out
            },
            AssetMapError::NotATable => {
                let mut out: String = "asphalt output ".to_owned();
                out.append(name);
                out.append(" did not return a table");
                out
            },
            AssetMapError::BadText(reason) => reason.as_str().to_owned(),
            AssetMapError::Cyclic => {
                let mut out: String = "asphalt output ".to_owned();
                out.append(name);
                out.append(" holds a table that holds itself");
                out
            },
            AssetMapError::Lua(reason) => reason.as_str().to_owned(),
            AssetMapError::Crowded => {
                let mut out: String = "asphalt output ".to_owned();
                out.append(name);
                out.append(" holds too many tables");
                out
            },
        }
    }
}

/// Whether a table is what another holds under a key that has a name.
pub open spec fn held_in(heap: LuaHeap, outer: mlua::Table, t: mlua::Table) -> bool {
    exists|k: int|
        {
            &&& 0 <= k < heap[outer].pairs.len()
            &&& lookup_name((#[trigger] heap[outer].pairs[k]).0) is Some
            &&& heap[outer].pairs[k].1 == LuaValue::Table(t)
        }
}

/// Whether the table at place `i` of a path is held in the one before it.
pub open spec fn held_at(heap: LuaHeap, path: Seq<mlua::Table>, i: int) -> bool {
    held_in(heap, path[i - 1], path[i])
}

/// Whether tables lie one inside the other, each under a key that has a name, from the
/// outermost on.
pub open spec fn named_way(heap: LuaHeap, path: Seq<mlua::Table>) -> bool {
    &&& path.len() > 0
    &&& all_known(heap, path)
    &&& path.no_duplicates()
    &&& forall|i: int| 0 < i < path.len() ==> #[trigger] held_at(heap, path, i)
}

/// Whether looking into `root`, or into a table that is read with it, can fail with this
/// message.
pub open spec fn reading_may_fail(heap: LuaHeap, root: mlua::Table, message: Seq<char>) -> bool {
    exists|path: Seq<mlua::Table>|
        {
            &&& #[trigger] named_way(heap, path)
            &&& path[0] == root
            &&& walk_may_fail(heap, path.last(), message)
        }
}

/// How many handles are held to read the innermost of the tables `path`: one for each of
/// them, and one for every table in it where that has keys which cannot be told apart.
pub open spec fn handles_to_read(heap: LuaHeap, path: Seq<mlua::Table>) -> nat {
    path.len() + if heap[path.last()].tidy {
        0
    } else {
        handles_in(heap, path.last())
    }
}

/// Whether there are tables from `root` on that cannot be read one inside the other,
/// because that takes more handles than there can be. There is one for each level, so
/// tables that lie in each other this deep run out of stack long before.
pub open spec fn overfull(heap: LuaHeap, root: mlua::Table) -> bool {
    exists|path: Seq<mlua::Table>|
        {
            &&& #[trigger] named_way(heap, path)
            &&& path[0] == root
            &&& handles_to_read(heap, path) > handle_limit()
        }
}

/// Going into a table that the innermost one holds.
proof fn lemma_named_way(heap: LuaHeap, path: Seq<mlua::Table>, t: mlua::Table)
    requires
        named_way(heap, path),
        heap.contains_key(t),
        held_in(heap, path.last(), t),
        !path.contains(t),
    ensures
        named_way(heap, path.push(t)),
        path.push(t)[0] == path[0],
{
    let deeper = path.push(t);
    assert forall|i: int| 0 < i < deeper.len() implies #[trigger] held_at(heap, deeper, i) by {
        if i < path.len() {
            assert(held_at(heap, path, i));
        }
    }
}

/// The pairs of a list of strings.
pub open spec fn string_pairs(v: Seq<(String, String)>) -> Pairs {
    Seq::new(v.len(), |i: int| (v[i].0@, v[i].1@))
}

/// Whether what was added to `before` is what reading comes to, of what lies in `root`.
/// The runtime may fail where a table is walked; that says nothing of what is read.
pub open spec fn flat_agrees(
    heap: LuaHeap,
    root: mlua::Table,
    r: Result<(), AssetMapError>,
    before: Seq<(String, String)>,
    after: Seq<(String, String)>,
    flat: Flat,
) -> bool {
    match r {
        Ok(_) => flat matches Ok(more) && string_pairs(after) == string_pairs(before) + more,
        Err(AssetMapError::BadText(e)) => flat == Err::<Pairs, Flaw>(Flaw::BadText(e@)),
        Err(AssetMapError::Cyclic) => flat == Err::<Pairs, Flaw>(Flaw::Cyclic),
        Err(AssetMapError::Lua(e)) => reading_may_fail(heap, root, e@),
        Err(AssetMapError::Crowded) => overfull(heap, root),
        Err(AssetMapError::Evaluate(_)) => false,
        Err(AssetMapError::NotATable) => false,
    }
}

/// A name below a prefix.
fn below(prefix: &str, name: &str) -> (r: String)
    ensures
        r@ == dotted(prefix@, name@),
{
    if prefix.unicode_len() == 0 {
        name.to_owned()
    } else {
        let mut out: String = prefix.to_owned();
        out.append(".");
        out.append(name);
        out
    }
}

/// The table that is the value of the pair at place `i`, where its key cannot be told
/// from another: all pairs are fetched for it.
fn fetched_table(lua: &mlua::Lua, above: &Above, i: usize, spare: usize) -> (r: Result<
    mlua::Table,
    AssetMapError,
>)
    requires
        named_way(lua_heap(*lua), tables_above(Some(above))),
        spare + tables_above(Some(above)).len() == handle_limit(),
        i < lua_heap(*lua)[*above.table].pairs.len(),
        lua_heap(*lua)[*above.table].pairs[i as int].1 is Table,
        !lua_heap(*lua)[*above.table].tidy,
    ensures
        match r {
            Ok(t) => LuaValue::Table(t) == lua_heap(*lua)[*above.table].pairs[i as int].1,
            Err(AssetMapError::Lua(e)) => reading_may_fail(
                lua_heap(*lua),
                tables_above(Some(above))[0],
                e@,
            ),
            Err(e) => e is Crowded && overfull(lua_heap(*lua), tables_above(Some(above))[0]),
        },
{
    let ghost all = tables_above(Some(above));
    let ghost heap = lua_heap(*lua);
    proof {
        assert(all.last() == *above.table);
        assert(heap.contains_key(all[all.len() - 1]));
    }
    match pairs_within(lua, above.table, spare) {
        Ok(Some((pairs, _))) => {
            let mut pairs: Vec<(Datum, Datum)> = pairs;
            let ghost before = pairs@;
            assert(pairs_model(before)[i as int] == heap[*above.table].pairs[i as int]);
            let (_, value): (Datum, Datum) = pairs.swap_remove(i);
            assert(value@ == heap[*above.table].pairs[i as int].1);
            match value {
                Datum::Table(t) => Ok(t),
                _ => {
                    assert(false);
                    Err(AssetMapError::Crowded)
                },
            }
        },
        Ok(None) => {
            assert(handles_to_read(heap, all) > handle_limit());
            Err(AssetMapError::Crowded)
        },
        Err(e) => Err(AssetMapError::Lua(e)),
    }
}

/// The table that is the value of the pair at place `i`. The key tells where it lies,
/// unless there are others that read as zero too.
fn inner_table(
    lua: &mlua::Lua,
    above: &Above,
    outlines: &Vec<(Option<Datum>, Option<Datum>)>,
    i: usize,
    key: &Datum,
    spare: usize,
) -> (r: Result<mlua::Table, AssetMapError>)
    requires
        ready(*lua),
        named_way(lua_heap(*lua), tables_above(Some(above))),
        spare + tables_above(Some(above)).len() == handle_limit(),
        all_outlined(outlines@, lua_heap(*lua)[*above.table].pairs),
        i < outlines@.len(),
        outlines@[i as int].0 == Some(*key),
        outlines@[i as int].1 is None,
        key is Text || key is Integer,
    ensures
        match r {
            Ok(t) => LuaValue::Table(t) == lua_heap(*lua)[*above.table].pairs[i as int].1,
            Err(AssetMapError::Lua(e)) => reading_may_fail(
                lua_heap(*lua),
                tables_above(Some(above))[0],
                e@,
            ),
            Err(e) => e is Crowded && overfull(lua_heap(*lua), tables_above(Some(above))[0]),
        },
{
    let ghost heap = lua_heap(*lua);
    let table: &mlua::Table = above.table;
    let ghost pairs = heap[*table].pairs;
    let ghost all = tables_above(Some(above));
    assert(outlined(outlines@[i as int].0, pairs[i as int].0));
    proof {
        assert(all.last() == *table);
        assert(heap.contains_key(all[all.len() - 1]));
        if telling(heap[*table], pairs[i as int].0) {
            lemma_lookup_in(heap, *table, i as int);
        }
    }
    if let Datum::Integer(0) = key {
        let mut k: usize = 0;
        while k < outlines.len()
            invariant
                k <= outlines@.len(),
                i < outlines@.len(),
                heap == lua_heap(*lua),
                sound(heap),
                heap.contains_key(*table),
                table == above.table,
                all == tables_above(Some(above)),
                named_way(heap, all),
                spare + all.len() == handle_limit(),
                pairs == heap[*table].pairs,
                all_outlined(outlines@, pairs),
                pairs[i as int].0 == LuaValue::Integer(0),
                pairs[i as int].1 is Table,
                forall|n: int|
                    0 <= n < k && n != i ==> (#[trigger] pairs[n]).0 != LuaValue::Integer(0),
            decreases outlines@.len() - k,
        {
            assert(outlined(outlines@[k as int].0, pairs[k as int].0));
            if k != i {
                if let Some(Datum::Integer(0)) = &outlines[k].0 {
                    proof {
                        if heap[*table].tidy {
                            assert(telling(heap[*table], pairs[k as int].0));
                            assert(telling(heap[*table], pairs[i as int].0));
                            assert(heap[*table].pairs[i as int].0 == heap[*table].pairs[k as int].0);
                        }
                    }
                    return fetched_table(lua, above, i, spare);
                }
            }
            k = k + 1;
        }
    }
    match held_under(lua, table, key) {
        Ok(Datum::Table(t)) => {
            proof {
                if !telling(heap[*table], key@) {
                    assert(key@ == LuaValue::Integer(0));
                    let n = choose|n: int|
                        0 <= n < pairs.len() && #[trigger] pairs[n] == (
                            key@,
                            LuaValue::Table(t),
                        );
                    assert(pairs[n].0 == LuaValue::Integer(0));
                }
            }
            Ok(t)
        },
        Ok(_) => {
            proof {
                assert(pairs[i as int].1 is Table);
                assert(!telling(heap[*table], key@));
            }
            fetched_table(lua, above, i, spare)
        },
        Err(e) => Err(AssetMapError::Lua(e)),
    }
}

/// Read the pair at place `i` of a table. `above` are the tables that it lies in, the
/// table itself among them.
fn flatten_pair(
    lua: &mlua::Lua,
    above: &Above,
    outlines: &Vec<(Option<Datum>, Option<Datum>)>,
    i: usize,
    prefix: &str,
    spare: usize,
    out: &mut Vec<(String, String)>,
) -> (r: Result<(), AssetMapError>)
    requires
        ready(*lua),
        named_way(lua_heap(*lua), tables_above(Some(above))),
        spare + tables_above(Some(above)).len() == handle_limit(),
        all_outlined(outlines@, lua_heap(*lua)[*above.table].pairs),
        i < outlines@.len(),
    ensures
        flat_agrees(
            lua_heap(*lua),
            tables_above(Some(above))[0],
            r,
            old(out)@,
            final(out)@,
            flat_pair(
                lua_heap(*lua),
                tables_above(Some(above)).to_set(),
                lua_heap(*lua)[*above.table].pairs[i as int],
                prefix@,
            ),
        ),
    decreases room(lua_heap(*lua), tables_above(Some(above)).to_set()), 1nat,
{
    let ghost heap = lua_heap(*lua);
    let ghost inside = tables_above(Some(above));
    let ghost pair = heap[*above.table].pairs[i as int];
    proof {
        assert(outlined(outlines@[i as int].0, pair.0));
        assert(string_pairs(out@) =~= string_pairs(out@) + Seq::empty());
        assert(inside.last() == *above.table);
        assert(heap.contains_key(inside[inside.len() - 1]));
        assert(heap[*above.table].pairs[i as int] == pair);
    }
    let key: &Datum = match &outlines[i].0 {
        Some(key) => key,
        None => {
            return Ok(());
        },
    };
    let name: String = match key {
        Datum::Text(s) => s.as_str().to_owned(),
        Datum::BadText(e) => {
            return Err(AssetMapError::BadText(e.as_str().to_owned()));
        },
        Datum::Integer(n) => {
            let mut name: String = String::new();
            append_int(&mut name, *n as i64);
            assert(name@ =~= int_text(*n as int));
            name
        },
        _ => {
            return Ok(());
        },
    };
    let path: String = below(prefix, name.as_str());
    match &outlines[i].1 {
        Some(Datum::Text(s)) => {
            let ghost both = (path@, s@);
            out.push((path, s.as_str().to_owned()));
            assert(string_pairs(out@) =~= string_pairs(old(out)@) + seq![both]);
            Ok(())
        },
        Some(Datum::BadText(e)) => Err(AssetMapError::BadText(e.as_str().to_owned())),
        Some(_) => Ok(()),
        None => {
            let t: mlua::Table = match inner_table(lua, above, outlines, i, key, spare) {
                Ok(t) => t,
                Err(e) => {
                    return Err(e);
                },
            };
            assert(known(heap, pair.1));
            if is_above(lua, Some(above), &t) {
                return Err(AssetMapError::Cyclic);
            }
            assert(held_in(heap, inside.last(), t));
            flatten_inner(lua, above, &t, path.as_str(), spare, out)
        },
    }
}

/// Read a table that lies in the innermost of `above`.
fn flatten_inner(
    lua: &mlua::Lua,
    above: &Above,
    table: &mlua::Table,
    prefix: &str,
    spare: usize,
    out: &mut Vec<(String, String)>,
) -> (r: Result<(), AssetMapError>)
    requires
        ready(*lua),
        named_way(lua_heap(*lua), tables_above(Some(above))),
        spare + tables_above(Some(above)).len() == handle_limit(),
        lua_heap(*lua).contains_key(*table),
        held_in(lua_heap(*lua), tables_above(Some(above)).last(), *table),
        !tables_above(Some(above)).to_set().contains(*table),
    ensures
        flat_agrees(
            lua_heap(*lua),
            tables_above(Some(above))[0],
            r,
            old(out)@,
            final(out)@,
            flat_pairs(
                lua_heap(*lua),
                tables_above(Some(above)).to_set().insert(*table),
                lua_heap(*lua)[*table].pairs,
                prefix@,
            ),
        ),
    decreases room(lua_heap(*lua), tables_above(Some(above)).to_set()), 0nat,
{
    let ghost heap = lua_heap(*lua);
    let ghost inside = tables_above(Some(above));
    let within = Above { table, up: Some(above) };
    let ghost deeper = tables_above(Some(&within));
    proof {
        assert(deeper == inside.push(*table));
        lemma_room(heap, inside.to_set(), *table);
        inside.lemma_push_to_set_commute(*table);
        assert(!inside.contains(*table));
        lemma_named_way(heap, inside, *table);
    }
    if spare == 0 {
        assert(handles_to_read(heap, deeper) > handle_limit());
        return Err(AssetMapError::Crowded);
    }
    flatten(lua, &within, prefix, spare - 1, out)
}

/// Read the table that is the innermost of `above`.
fn flatten(
    lua: &mlua::Lua,
    above: &Above,
    prefix: &str,
    spare: usize,
    out: &mut Vec<(String, String)>,
) -> (r: Result<(), AssetMapError>)
    requires
        ready(*lua),
        named_way(lua_heap(*lua), tables_above(Some(above))),
        spare + tables_above(Some(above)).len() == handle_limit(),
    ensures
        flat_agrees(
            lua_heap(*lua),
            tables_above(Some(above))[0],
            r,
            old(out)@,
            final(out)@,
            flat_pairs(
                lua_heap(*lua),
                tables_above(Some(above)).to_set(),
                lua_heap(*lua)[*above.table].pairs,
                prefix@,
            ),
        ),
    decreases room(lua_heap(*lua), tables_above(Some(above)).to_set()), 2nat,
{
    let ghost heap = lua_heap(*lua);
    let ghost inside = tables_above(Some(above)).to_set();
    let table: &mlua::Table = above.table;
    proof {
        let all = tables_above(Some(above));
        assert(all.last() == *table);
        assert(heap.contains_key(all[all.len() - 1]));
    }
    let outlines: Vec<(Option<Datum>, Option<Datum>)> = match outlines_of(lua, table) {
        Ok(outlines) => outlines,
        Err(e) => {
            assert(walk_may_fail(heap, tables_above(Some(above)).last(), e@));
            return Err(AssetMapError::Lua(e));
        },
    };
    let ghost pairs = heap[*table].pairs;
    let mut i: usize = 0;
    assert(pairs.take(0) =~= Seq::<LuaPair>::empty());
    assert(string_pairs(out@) =~= string_pairs(out@) + Seq::empty());
    while i < outlines.len()
        invariant
            ready(*lua),
            heap == lua_heap(*lua),
            inside == tables_above(Some(above)).to_set(),
            named_way(heap, tables_above(Some(above))),
            spare + tables_above(Some(above)).len() == handle_limit(),
            table == above.table,
            pairs == heap[*table].pairs,
            all_outlined(outlines@, pairs),
            i <= outlines@.len(),
            flat_agrees(
                heap,
                tables_above(Some(above))[0],
                Ok(()),
                old(out)@,
                out@,
                flat_pairs(heap, inside, pairs.take(i as int), prefix@),
            ),
        decreases outlines@.len() - i,
    {
        let ghost upto = pairs.take(i as int + 1);
        proof {
            assert(upto.drop_last() =~= pairs.take(i as int));
            assert(upto.last() == pairs[i as int]);
        }
        match flatten_pair(lua, above, &outlines, i, prefix, spare, out) {
            Ok(_) => {},
            Err(e) => {
                proof {
                    if e is BadText || e is Cyclic {
                        lemma_first_flaw(heap, inside, pairs, prefix@, i as int + 1);
                    }
                }
                return Err(e);
            },
        }
        proof {
            let earlier = flat_pairs(heap, inside, pairs.take(i as int), prefix@)->Ok_0;
            let more = flat_pair(heap, inside, pairs[i as int], prefix@)->Ok_0;
            assert(string_pairs(out@) =~= string_pairs(old(out)@) + (earlier + more));
        }
        i = i + 1;
    }
    assert(pairs.take(pairs.len() as int) =~= pairs);
    Ok(())
}

/// The map with pairs put into it, one after the other.
pub open spec fn extended(m: Map<Seq<char>, Seq<char>>, pairs: Pairs) -> Map<Seq<char>, Seq<char>>
    decreases pairs.len(),
{
    if pairs.len() == 0 {
        m
    } else {
        extended(m, pairs.drop_last()).insert(pairs.last().0, pairs.last().1)
    }
}

/// Whether `r` is what reading an asset map into `before` comes to, once its
/// source was run with this outcome.
pub open spec fn asset_map_read(
    outcome: Evaluation,
    before: Map<Seq<char>, Seq<char>>,
    after: Map<Seq<char>, Seq<char>>,
    r: Result<(), AssetMapError>,
) -> bool {
    match outcome {
        Evaluation::Fails(message) => r matches Err(AssetMapError::Evaluate(reason)) && reason@
            == message,
        Evaluation::Returns(heap, LuaValue::Table(root)) => match r {
            Ok(_) => flattened(heap, root) matches Ok(pairs) && after == extended(before, pairs),
            Err(AssetMapError::BadText(e)) => flattened(heap, root) == Err::<Pairs, Flaw>(
                Flaw::BadText(e@),
            ),
            Err(AssetMapError::Cyclic) => flattened(heap, root) == Err::<Pairs, Flaw>(Flaw::Cyclic),
            Err(AssetMapError::Lua(e)) => reading_may_fail(heap, root, e@),
            Err(AssetMapError::Crowded) => overfull(heap, root),
            Err(AssetMapError::Evaluate(_)) => false,
            Err(AssetMapError::NotATable) => false,
        },
        Evaluation::Returns(_, _) => r == Err::<(), AssetMapError>(AssetMapError::NotATable),
    }
}

/// A table without flaws is read in full, unless the runtime fails. Left out are tables that
/// take more handles than there can be.
pub proof fn law_an_asset_map_is_read(
    heap: LuaHeap,
    root: mlua::Table,
    before: Map<Seq<char>, Seq<char>>,
    after: Map<Seq<char>, Seq<char>>,
    r: Result<(), AssetMapError>,
)
    requires
        asset_map_read(Evaluation::Returns(heap, LuaValue::Table(root)), before, after, r),
        flattened(heap, root) is Ok,
        !overfull(heap, root),
    ensures
        match r {
            Ok(_) => after == extended(before, flattened(heap, root)->Ok_0),
            Err(e) => e matches AssetMapError::Lua(message) && reading_may_fail(
                heap,
                root,
                message@,
            ),
        },
{
}

/// There are handles enough where there are not more tables than handles, and their keys
/// can be told apart.
pub proof fn law_few_tables_are_not_too_many(heap: LuaHeap, root: mlua::Table)
    requires
        sound(heap),
        heap.dom().len() <= handle_limit(),
        forall|t: mlua::Table| #[trigger] heap.contains_key(t) ==> heap[t].tidy,
    ensures
        !overfull(heap, root),
{
    assert forall|path: Seq<mlua::Table>| #[trigger] named_way(heap, path) implies handles_to_read(
        heap,
        path,
    ) <= handle_limit() by {
        assert(heap.contains_key(path[path.len() - 1]));
        path.unique_seq_to_set();
        assert(path.to_set().subset_of(heap.dom()));
        vstd::set_lib::lemma_len_subset(path.to_set(), heap.dom());
    }
}

/// Read an asset map into `map`, once its source was run.
pub fn read_asset_map(
    evaluated: Result<(mlua::Lua, Datum), String>,
    map: &mut TextMap,
) -> (r: Result<(), AssetMapError>)
    requires
        evaluated matches Ok((lua, value)) ==> ready(lua) && known(lua_heap(lua), value@),
    ensures
        asset_map_read(outcome_of(evaluated), old(map)@, final(map)@, r),
        r is Err ==> final(map)@ == old(map)@,
{
    let (lua, value) = match evaluated {
        Ok(both) => both,
        Err(message) => {
            return Err(AssetMapError::Evaluate(message));
        },
    };
    let root: mlua::Table = match value {
        Datum::Table(root) => root,
        _ => {
            return Err(AssetMapError::NotATable);
        },
    };
    let above = Above { table: &root, up: None };
    proof {
        reveal_with_fuel(tables_above, 2);
        let all = tables_above(Some(&above));
        assert(all =~= seq![root]);
        assert(all[0] == root);
        assert(all.to_set() =~= set![root]);
    }
    assert(""@ =~= Seq::<char>::empty()) by {
        reveal_strlit("");
    }
    let mut out: Vec<(String, String)> = Vec::new();
    match flatten(&lua, &above, "", 998_999, &mut out) {
        Ok(_) => {},
        Err(e) => {
            return Err(e);
        },
    }
    let ghost pairs = string_pairs(out@);
    assert(pairs =~= flattened(lua_heap(lua), root)->Ok_0);
    let mut i: usize = 0;
    assert(pairs.take(0) =~= Seq::empty());
    while i < out.len()
        invariant
            i <= out@.len(),
            pairs == string_pairs(out@),
            map@ == extended(old(map)@, pairs.take(i as int)),
        decreases out@.len() - i,
    {
        let ghost upto = pairs.take(i as int + 1);
        assert(upto.drop_last() =~= pairs.take(i as int));
        map.insert(out[i].0.as_str().to_owned(), out[i].1.as_str().to_owned());
        i = i + 1;
    }
    assert(pairs.take(pairs.len() as int) =~= pairs);
    Ok(())
}

// ---------------------------------------------------------------------------
// What a map holds
// ---------------------------------------------------------------------------

/// Whether keys lead from a table to a value, each of them a text, whatever it holds, or an
/// integer, and each but the last to a table.
pub open spec fn value_at(heap: LuaHeap, t: mlua::Table, keys: Seq<LuaValue>, value: LuaValue) -> bool
    decreases keys.len(),
{
    &&& keys.len() > 0
    &&& heap.contains_key(t)
    &&& keys[0] is Text || keys[0] is Integer
    &&& exists|k: int|
        {
            &&& 0 <= k < heap[t].pairs.len()
            &&& (#[trigger] heap[t].pairs[k]).0 == keys[0]
            &&& if keys.len() == 1 {
                heap[t].pairs[k].1 == value
            } else {
                &&& heap[t].pairs[k].1 matches LuaValue::Table(u)
                &&& value_at(heap, u, keys.skip(1), value)
            }
        }
}

/// What keys read as: a text as itself, an integer in decimal.
pub open spec fn key_names(keys: Seq<LuaValue>) -> Seq<Seq<char>> {
    Seq::new(
        keys.len(),
        |i: int|
            match keys[i] {
                LuaValue::Text(s) => s,
                LuaValue::Integer(n) => int_text(n as int),
                _ => Seq::empty(),
            },
    )
}

/// The names from the first that is not empty on.
pub open spec fn from_first(names: Seq<Seq<char>>) -> Seq<Seq<char>>
    decreases names.len(),
{
    if names.len() > 0 && names[0].len() == 0 {
        from_first(names.skip(1))
    } else {
        names
    }
}

/// What is looked up for what lies at the end of keys: what they read as, with dots between
/// them. Empty names at the front leave nothing.
pub open spec fn lookup_path(keys: Seq<LuaValue>) -> Seq<char> {
    join(from_first(key_names(keys)), "."@)
}

/// Names below a prefix, one after the other.
spec fn dotted_all(prefix: Seq<char>, names: Seq<Seq<char>>) -> Seq<char>
    decreases names.len(),
{
    if names.len() == 0 {
        prefix
    } else {
        dotted_all(dotted(prefix, names[0]), names.skip(1))
    }
}

proof fn lemma_dotted_all(prefix: Seq<char>, names: Seq<Seq<char>>)
    ensures
        prefix.len() > 0 ==> dotted_all(prefix, names) == join(seq![prefix] + names, "."@),
        prefix.len() == 0 ==> dotted_all(prefix, names) == join(from_first(names), "."@),
    decreases names.len(),
{
    reveal_strlit(".");
    if names.len() == 0 {
        assert(seq![prefix] + names =~= seq![prefix]);
        law_joining(seq![prefix], seq![prefix], prefix, "."@);
        law_joining(names, names, prefix, "."@);
        if prefix.len() == 0 {
            assert(prefix =~= join(from_first(names), "."@));
        }
    } else {
        let rest = names.skip(1);
        let next = dotted(prefix, names[0]);
        lemma_dotted_all(next, rest);
        assert(names =~= seq![names[0]] + rest);
        if prefix.len() > 0 {
            let head = seq![prefix, names[0]];
            assert(seq![prefix] + names =~= head + rest);
            law_joining(seq![prefix], seq![names[0]], prefix, "."@);
            law_joining(seq![prefix], seq![names[0]], names[0], "."@);
            assert(head =~= seq![prefix] + seq![names[0]]);
            assert(join(head, "."@) == next);
            law_joining(seq![next], rest, next, "."@);
            law_joining(head, rest, next, "."@);
            if rest.len() == 0 {
                assert(head + rest =~= head);
                assert(seq![next] + rest =~= seq![next]);
            }
        } else if names[0].len() == 0 {
            assert(next =~= prefix);
        } else {
            assert(seq![next] + rest =~= names);
        }
    }
}

/// What is read out of one of the pairs is read out of all of them.
proof fn lemma_each_pair_is_read(
    heap: LuaHeap,
    above: Set<mlua::Table>,
    pairs: Seq<LuaPair>,
    prefix: Seq<char>,
    k: int,
)
    requires
        0 <= k < pairs.len(),
        flat_pairs(heap, above, pairs, prefix) is Ok,
    ensures
        flat_pair(heap, above, pairs[k], prefix) is Ok,
        forall|entry: (Seq<char>, Seq<char>)| #[trigger]
            flat_pair(heap, above, pairs[k], prefix)->Ok_0.contains(entry) ==> flat_pairs(
                heap,
                above,
                pairs,
                prefix,
            )->Ok_0.contains(entry),
    decreases pairs.len(),
{
    let before = flat_pairs(heap, above, pairs.drop_last(), prefix)->Ok_0;
    let more = flat_pair(heap, above, pairs.last(), prefix)->Ok_0;
    let all = before + more;
    if k < pairs.len() - 1 {
        lemma_each_pair_is_read(heap, above, pairs.drop_last(), prefix, k);
        assert forall|entry: (Seq<char>, Seq<char>)| before.contains(entry) implies #[trigger] all.contains(
            entry,
        ) by {
            let i = choose|i: int| 0 <= i < before.len() && before[i] == entry;
            assert(all[i] == entry);
        }
    } else {
        assert forall|entry: (Seq<char>, Seq<char>)| more.contains(entry) implies #[trigger] all.contains(
            entry,
        ) by {
            let i = choose|i: int| 0 <= i < more.len() && more[i] == entry;
            assert(all[before.len() + i] == entry);
        }
    }
}

/// A text that keys lead to is read, under the names of the keys.
proof fn lemma_text_is_read(
    heap: LuaHeap,
    above: Set<mlua::Table>,
    t: mlua::Table,
    prefix: Seq<char>,
    keys: Seq<LuaValue>,
    s: Seq<char>,
)
    requires
        flat_pairs(heap, above, heap[t].pairs, prefix) is Ok,
        value_at(heap, t, keys, LuaValue::Text(s)),
    ensures
        flat_pairs(heap, above, heap[t].pairs, prefix)->Ok_0.contains(
            (dotted_all(prefix, key_names(keys)), s),
        ),
    decreases keys.len(),
{
    let value = LuaValue::Text(s);
    let pairs = heap[t].pairs;
    let k = choose|k: int|
        {
            &&& 0 <= k < heap[t].pairs.len()
            &&& (#[trigger] heap[t].pairs[k]).0 == keys[0]
            &&& if keys.len() == 1 {
                heap[t].pairs[k].1 == value
            } else {
                &&& heap[t].pairs[k].1 matches LuaValue::Table(u)
                &&& value_at(heap, u, keys.skip(1), value)
            }
        };
    lemma_each_pair_is_read(heap, above, pairs, prefix, k);
    let names = key_names(keys);
    let next = dotted(prefix, names[0]);
    let more = flat_pair(heap, above, pairs[k], prefix)->Ok_0;
    if keys.len() == 1 {
        assert(more[0] == (next, s));
        assert(names.skip(1) =~= Seq::<Seq<char>>::empty());
        reveal_with_fuel(dotted_all, 2);
        assert(more.contains((dotted_all(prefix, names), s)));
    } else {
        let u = pairs[k].1->Table_0;
        let rest = keys.skip(1);
        assert(key_names(rest) =~= names.skip(1));
        lemma_text_is_read(heap, above.insert(u), u, next, rest, s);
        assert(more.contains((dotted_all(prefix, names), s)));
    }
}

/// What is read is a text that keys lead to, under the names of the keys.
proof fn lemma_entry_was_written(
    heap: LuaHeap,
    above: Set<mlua::Table>,
    t: mlua::Table,
    n: int,
    prefix: Seq<char>,
    i: int,
) -> (keys: Seq<LuaValue>)
    requires
        heap.contains_key(t),
        0 <= n <= heap[t].pairs.len(),
        flat_pairs(heap, above, heap[t].pairs.take(n), prefix) is Ok,
        0 <= i < flat_pairs(heap, above, heap[t].pairs.take(n), prefix)->Ok_0.len(),
    ensures
        ({
            let entry = flat_pairs(heap, above, heap[t].pairs.take(n), prefix)->Ok_0[i];
            &&& value_at(heap, t, keys, LuaValue::Text(entry.1))
            &&& entry.0 == dotted_all(prefix, key_names(keys))
        }),
    decreases room(heap, above), n,
{
    let pairs = heap[t].pairs;
    let upto = pairs.take(n);
    assert(upto.drop_last() =~= pairs.take(n - 1));
    let before = flat_pairs(heap, above, pairs.take(n - 1), prefix)->Ok_0;
    let pair = pairs[n - 1];
    assert(upto.last() == pair);
    let more = flat_pair(heap, above, pair, prefix)->Ok_0;
    let entry = (before + more)[i];
    if i < before.len() {
        lemma_entry_was_written(heap, above, t, n - 1, prefix, i)
    } else {
        let key = pair.0;
        let one = seq![key];
        assert(key_names(one).skip(1) =~= Seq::<Seq<char>>::empty());
        reveal_with_fuel(dotted_all, 2);
        assert(heap[t].pairs[n - 1].0 == one[0]);
        match pair.1 {
            LuaValue::Table(u) => {
                lemma_room(heap, above, u);
                let next = dotted(prefix, key_names(one)[0]);
                let inner = heap[u].pairs;
                assert(inner.take(inner.len() as int) =~= inner);
                let rest = lemma_entry_was_written(
                    heap,
                    above.insert(u),
                    u,
                    inner.len() as int,
                    next,
                    i - before.len(),
                );
                let keys = one + rest;
                assert(keys.skip(1) =~= rest);
                assert(key_names(keys).skip(1) =~= key_names(rest));
                assert(key_names(keys)[0] == key_names(one)[0]);
                assert(heap[t].pairs[n - 1].0 == keys[0]);
                keys
            },
            _ => one,
        }
    }
}

/// What is read out of a table: just the texts that keys lead to, at any depth, each under
/// what its keys read as, with dots between them. No text key and no integer key is passed
/// over, whatever it holds.
pub proof fn law_every_text_is_read(heap: LuaHeap, root: mlua::Table)
    requires
        heap.contains_key(root),
        flattened(heap, root) is Ok,
    ensures
        forall|keys: Seq<LuaValue>, s: Seq<char>| #[trigger]
            value_at(heap, root, keys, LuaValue::Text(s)) ==> flattened(heap, root)->Ok_0.contains(
                (lookup_path(keys), s),
            ),
        forall|entry: (Seq<char>, Seq<char>)| #[trigger]
            flattened(heap, root)->Ok_0.contains(entry) ==> exists|keys: Seq<LuaValue>| #[trigger]
                value_at(heap, root, keys, LuaValue::Text(entry.1)) && lookup_path(keys) == entry.0,
{
    let above = set![root];
    let none = Seq::<char>::empty();
    let pairs = heap[root].pairs;
    let all = flattened(heap, root)->Ok_0;
    assert(pairs.take(pairs.len() as int) =~= pairs);
    assert forall|keys: Seq<LuaValue>, s: Seq<char>| #[trigger]
        value_at(heap, root, keys, LuaValue::Text(s)) implies all.contains(
        (lookup_path(keys), s),
    ) by {
        lemma_text_is_read(heap, above, root, none, keys, s);
        lemma_dotted_all(none, key_names(keys));
    }
    assert forall|entry: (Seq<char>, Seq<char>)| #[trigger] all.contains(entry) implies exists|
        keys: Seq<LuaValue>,
    | #[trigger]
        value_at(heap, root, keys, LuaValue::Text(entry.1)) && lookup_path(keys) == entry.0 by {
        let i = choose|i: int| 0 <= i < all.len() && all[i] == entry;
        let keys = lemma_entry_was_written(heap, above, root, pairs.len() as int, none, i);
        lemma_dotted_all(none, key_names(keys));
        assert(value_at(heap, root, keys, LuaValue::Text(entry.1)));
    }
}

/// A map with pairs put into it holds each of their keys, with the text of the last pair that
/// has it, and every other key as before.
pub proof fn law_a_later_pair_counts(m: Map<Seq<char>, Seq<char>>, pairs: Pairs)
    ensures
        forall|i: int| 0 <= i < pairs.len() ==> extended(m, pairs).contains_key((#[trigger] pairs[i]).0),
        forall|k: Seq<char>| #[trigger]
            extended(m, pairs).contains_key(k) ==> {
                ||| {
                    &&& m.contains_key(k) && extended(m, pairs)[k] == m[k]
                    &&& forall|i: int| 0 <= i < pairs.len() ==> (#[trigger] pairs[i]).0 != k
                }
                ||| exists|i: int|
                    {
                        &&& 0 <= i < pairs.len()
                        &&& #[trigger] pairs[i] == (k, extended(m, pairs)[k])
                        &&& forall|j: int| i < j < pairs.len() ==> (#[trigger] pairs[j]).0 != k
                    }
            },
        forall|k: Seq<char>| #[trigger] m.contains_key(k) ==> extended(m, pairs).contains_key(k),
    decreases pairs.len(),
{
    if pairs.len() > 0 {
        let front = pairs.drop_last();
        let n = pairs.len() - 1;
        law_a_later_pair_counts(m, front);
        let all = extended(m, pairs);
        assert forall|i: int| 0 <= i < pairs.len() implies all.contains_key(
            (#[trigger] pairs[i]).0,
        ) by {
            if i < n {
                assert(front[i] == pairs[i]);
            }
        }
        assert forall|k: Seq<char>| #[trigger] all.contains_key(k) implies {
            ||| {
                &&& m.contains_key(k) && all[k] == m[k]
                &&& forall|i: int| 0 <= i < pairs.len() ==> (#[trigger] pairs[i]).0 != k
            }
            ||| exists|i: int|
                {
                    &&& 0 <= i < pairs.len()
                    &&& #[trigger] pairs[i] == (k, all[k])
                    &&& forall|j: int| i < j < pairs.len() ==> (#[trigger] pairs[j]).0 != k
                }
        } by {
            if k == pairs[n].0 {
                assert(pairs[n] == (k, all[k]));
            } else {
                assert(extended(m, front).contains_key(k));
                if exists|i: int|
                    {
                        &&& 0 <= i < front.len()
                        &&& #[trigger] front[i] == (k, extended(m, front)[k])
                        &&& forall|j: int| i < j < front.len() ==> (#[trigger] front[j]).0 != k
                    } {
                    let i = choose|i: int|
                        {
                            &&& 0 <= i < front.len()
                            &&& #[trigger] front[i] == (k, extended(m, front)[k])
                            &&& forall|j: int| i < j < front.len() ==> (#[trigger] front[j]).0 != k
                        };
                    assert(pairs[i] == (k, all[k]));
                    assert forall|j: int| i < j < pairs.len() implies (#[trigger] pairs[j]).0
                        != k by {
                        if j < n {
                            assert(front[j] == pairs[j]);
                        }
                    }
                } else {
                    assert forall|i: int| 0 <= i < pairs.len() implies (#[trigger] pairs[i]).0
                        != k by {
                        if i < n {
                            assert(front[i] == pairs[i]);
                        }
                    }
                }
            }
        }
    }
}

/// A map that was read holds, under the keys that lead to a text with dots between them, a
/// text that such keys lead to; which, only where several texts are called the same is there
/// a choice. All else in it was in it before, and nothing that was is lost.
pub proof fn law_a_map_holds_what_was_written(
    heap: LuaHeap,
    root: mlua::Table,
    before: Map<Seq<char>, Seq<char>>,
    after: Map<Seq<char>, Seq<char>>,
)
    requires
        heap.contains_key(root),
        asset_map_read(
            Evaluation::Returns(heap, LuaValue::Table(root)),
            before,
            after,
            Ok::<(), AssetMapError>(()),
        ),
    ensures
        forall|keys: Seq<LuaValue>, s: Seq<char>| #[trigger]
            value_at(heap, root, keys, LuaValue::Text(s)) ==> {
                &&& after.contains_key(lookup_path(keys))
                &&& exists|others: Seq<LuaValue>| #[trigger]
                    value_at(heap, root, others, LuaValue::Text(after[lookup_path(keys)]))
                        && lookup_path(others) == lookup_path(keys)
            },
        forall|k: Seq<char>| #[trigger]
            after.contains_key(k) ==> {
                ||| exists|keys: Seq<LuaValue>| #[trigger]
                    value_at(heap, root, keys, LuaValue::Text(after[k])) && lookup_path(keys) == k
                ||| before.contains_key(k) && after[k] == before[k]
            },
        forall|k: Seq<char>| #[trigger] before.contains_key(k) ==> after.contains_key(k),
{
    let pairs = flattened(heap, root)->Ok_0;
    law_every_text_is_read(heap, root);
    law_a_later_pair_counts(before, pairs);
    assert forall|i: int| 0 <= i < pairs.len() implies exists|keys: Seq<LuaValue>| #[trigger]
        value_at(heap, root, keys, LuaValue::Text((#[trigger] pairs[i]).1)) && lookup_path(keys)
            == pairs[i].0 by {
        assert(pairs.contains(pairs[i]));
    }
    assert forall|keys: Seq<LuaValue>, s: Seq<char>| #[trigger]
        value_at(heap, root, keys, LuaValue::Text(s)) implies {
        &&& after.contains_key(lookup_path(keys))
        &&& exists|others: Seq<LuaValue>| #[trigger]
            value_at(heap, root, others, LuaValue::Text(after[lookup_path(keys)]))
                && lookup_path(others) == lookup_path(keys)
    } by {
        let k = lookup_path(keys);
        assert(pairs.contains((k, s)));
        let n = choose|n: int| 0 <= n < pairs.len() && pairs[n] == (k, s);
        assert(after.contains_key(pairs[n].0));
        let i = choose|i: int|
            {
                &&& 0 <= i < pairs.len()
                &&& #[trigger] pairs[i] == (k, after[k])
                &&& forall|j: int| i < j < pairs.len() ==> (#[trigger] pairs[j]).0 != k
            };
        assert(pairs[i] == (k, after[k]));
    }
}

// ---------------------------------------------------------------------------
// What a map cannot be read from
// ---------------------------------------------------------------------------

/// Whether a table is `root`, or keys lead to it from there.
pub open spec fn is_below(heap: LuaHeap, root: mlua::Table, t: mlua::Table) -> bool {
    t == root || exists|keys: Seq<LuaValue>| #[trigger]
        value_at(heap, root, keys, LuaValue::Table(t))
}

/// Whether a table from `root` on has this for a key, or under a key that is a text or an
/// integer.
pub open spec fn has_bad_text(heap: LuaHeap, root: mlua::Table, reason: Seq<char>) -> bool {
    exists|t: mlua::Table, k: int|
        {
            &&& is_below(heap, root, t)
            &&& 0 <= k < heap[t].pairs.len()
            &&& {
                ||| (#[trigger] heap[t].pairs[k]).0 == LuaValue::BadText(reason)
                ||| {
                    &&& heap[t].pairs[k].0 is Text || heap[t].pairs[k].0 is Integer
                    &&& heap[t].pairs[k].1 == LuaValue::BadText(reason)
                }
            }
        }
}

/// Whether keys lead from a table from `root` on to itself.
pub open spec fn lies_in_itself(heap: LuaHeap, root: mlua::Table) -> bool {
    exists|t: mlua::Table, keys: Seq<LuaValue>|
        is_below(heap, root, t) && #[trigger] value_at(heap, t, keys, LuaValue::Table(t))
}

/// One more key.
proof fn lemma_one_more_key(
    heap: LuaHeap,
    t: mlua::Table,
    keys: Seq<LuaValue>,
    u: mlua::Table,
    k: int,
)
    requires
        value_at(heap, t, keys, LuaValue::Table(u)),
        heap.contains_key(u),
        0 <= k < heap[u].pairs.len(),
        heap[u].pairs[k].0 is Text || heap[u].pairs[k].0 is Integer,
    ensures
        value_at(heap, t, keys.push(heap[u].pairs[k].0), heap[u].pairs[k].1),
    decreases keys.len(),
{
    let key = heap[u].pairs[k].0;
    let value = heap[u].pairs[k].1;
    let more = keys.push(key);
    let n = choose|n: int|
        {
            &&& 0 <= n < heap[t].pairs.len()
            &&& (#[trigger] heap[t].pairs[n]).0 == keys[0]
            &&& if keys.len() == 1 {
                heap[t].pairs[n].1 == LuaValue::Table(u)
            } else {
                &&& heap[t].pairs[n].1 matches LuaValue::Table(v)
                &&& value_at(heap, v, keys.skip(1), LuaValue::Table(u))
            }
        };
    assert(heap[t].pairs[n].0 == more[0]);
    if keys.len() == 1 {
        lemma_one_key(heap, u, k);
        assert(more.skip(1) =~= seq![key]);
    } else {
        let v = heap[t].pairs[n].1->Table_0;
        lemma_one_more_key(heap, v, keys.skip(1), u, k);
        assert(more.skip(1) =~= keys.skip(1).push(key));
    }
}

/// One key.
proof fn lemma_one_key(heap: LuaHeap, t: mlua::Table, k: int)
    requires
        heap.contains_key(t),
        0 <= k < heap[t].pairs.len(),
        heap[t].pairs[k].0 is Text || heap[t].pairs[k].0 is Integer,
    ensures
        value_at(heap, t, seq![heap[t].pairs[k].0], heap[t].pairs[k].1),
{
    let keys = seq![heap[t].pairs[k].0];
    assert(heap[t].pairs[k].0 == keys[0]);
}

/// What stops reading is there.
proof fn lemma_a_flaw_is_there(
    heap: LuaHeap,
    root: mlua::Table,
    above: Set<mlua::Table>,
    t: mlua::Table,
    n: int,
    prefix: Seq<char>,
)
    requires
        sound(heap),
        heap.contains_key(t),
        is_below(heap, root, t),
        heap.contains_key(root),
        forall|a: mlua::Table| #[trigger] above.contains(a) ==> is_below(heap, root, a),
        forall|a: mlua::Table| #[trigger]
            above.contains(a) ==> a == t || exists|keys: Seq<LuaValue>| #[trigger]
                value_at(heap, a, keys, LuaValue::Table(t)),
        0 <= n <= heap[t].pairs.len(),
        flat_pairs(heap, above, heap[t].pairs.take(n), prefix) is Err,
    ensures
        match flat_pairs(heap, above, heap[t].pairs.take(n), prefix)->Err_0 {
            Flaw::BadText(reason) => has_bad_text(heap, root, reason),
            Flaw::Cyclic => lies_in_itself(heap, root),
        },
    decreases room(heap, above), n,
{
    let pairs = heap[t].pairs;
    let upto = pairs.take(n);
    assert(upto.drop_last() =~= pairs.take(n - 1));
    let pair = pairs[n - 1];
    assert(upto.last() == pair);
    if flat_pairs(heap, above, pairs.take(n - 1), prefix) is Err {
        lemma_a_flaw_is_there(heap, root, above, t, n - 1, prefix);
    } else {
        assert(heap[t].pairs[n - 1] == pair);
        assert(flat_pairs(heap, above, upto, prefix)->Err_0 == flat_pair(
            heap,
            above,
            pair,
            prefix,
        )->Err_0);
        if pair.0 is Text || pair.0 is Integer {
            if let LuaValue::Table(u) = pair.1 {
                assert(known(heap, heap[t].pairs[n - 1].1));
                lemma_one_key(heap, t, n - 1);
                assert(value_at(heap, t, seq![pair.0], LuaValue::Table(u)));
                assert forall|a: mlua::Table| above.contains(a) || a == t implies exists|
                    keys: Seq<LuaValue>,
                | #[trigger] value_at(heap, a, keys, LuaValue::Table(u)) by {
                    if a != t {
                        let keys = choose|keys: Seq<LuaValue>| #[trigger]
                            value_at(heap, a, keys, LuaValue::Table(t));
                        lemma_one_more_key(heap, a, keys, t, n - 1);
                        assert(value_at(heap, a, keys.push(pair.0), LuaValue::Table(u)));
                    }
                }
                assert(is_below(heap, root, u)) by {
                    if t != root {
                        let keys = choose|keys: Seq<LuaValue>| #[trigger]
                            value_at(heap, root, keys, LuaValue::Table(t));
                        lemma_one_more_key(heap, root, keys, t, n - 1);
                        assert(value_at(heap, root, keys.push(pair.0), LuaValue::Table(u)));
                    }
                }
                if above.contains(u) {
                    let keys = choose|keys: Seq<LuaValue>| #[trigger]
                        value_at(heap, u, keys, LuaValue::Table(u));
                    assert(value_at(heap, u, keys, LuaValue::Table(u)));
                    assert(lies_in_itself(heap, root));
                } else {
                    lemma_room(heap, above, u);
                    let inner = heap[u].pairs;
                    assert(inner.take(inner.len() as int) =~= inner);
                    let name = lookup_name(pair.0)->0;
                    assert(flat_pair(heap, above, pair, prefix) == flat_pairs(
                        heap,
                        above.insert(u),
                        inner,
                        dotted(prefix, name),
                    ));
                    lemma_a_flaw_is_there(
                        heap,
                        root,
                        above.insert(u),
                        u,
                        inner.len() as int,
                        dotted(prefix, name),
                    );
                }
            }
        }
    }
}

/// A table is read, unless a text in it that would be read is not UTF-8 or a table lies in
/// itself: how many tables there are, how deep they lie and what else they hold is no reason.
pub proof fn law_a_table_without_flaws_is_read(heap: LuaHeap, root: mlua::Table)
    requires
        sound(heap),
        heap.contains_key(root),
    ensures
        match flattened(heap, root) {
            Err(Flaw::BadText(reason)) => has_bad_text(heap, root, reason),
            Err(Flaw::Cyclic) => lies_in_itself(heap, root),
            Ok(_) => true,
        },
        (forall|reason: Seq<char>| !#[trigger] has_bad_text(heap, root, reason)) && !lies_in_itself(
            heap,
            root,
        ) ==> flattened(heap, root) is Ok,
{
    let pairs = heap[root].pairs;
    assert(pairs.take(pairs.len() as int) =~= pairs);
    if flattened(heap, root) is Err {
        lemma_a_flaw_is_there(
            heap,
            root,
            set![root],
            root,
            pairs.len() as int,
            Seq::empty(),
        );
    }
}

/// A flaw in a table that keys lead to stops reading.
proof fn lemma_no_flaw_where_read(
    heap: LuaHeap,
    above: Set<mlua::Table>,
    t: mlua::Table,
    prefix: Seq<char>,
    keys: Seq<LuaValue>,
    u: mlua::Table,
) -> (inside: (Set<mlua::Table>, Seq<char>))
    requires
        flat_pairs(heap, above, heap[t].pairs, prefix) is Ok,
        above.contains(t),
        value_at(heap, t, keys, LuaValue::Table(u)),
    ensures
        flat_pairs(heap, inside.0, heap[u].pairs, inside.1) is Ok,
        !above.contains(u),
        above.insert(u).subset_of(inside.0),
        heap.contains_key(u),
    decreases keys.len(),
{
    let pairs = heap[t].pairs;
    let k = choose|k: int|
        {
            &&& 0 <= k < heap[t].pairs.len()
            &&& (#[trigger] heap[t].pairs[k]).0 == keys[0]
            &&& if keys.len() == 1 {
                heap[t].pairs[k].1 == LuaValue::Table(u)
            } else {
                &&& heap[t].pairs[k].1 matches LuaValue::Table(v)
                &&& value_at(heap, v, keys.skip(1), LuaValue::Table(u))
            }
        };
    lemma_each_pair_is_read(heap, above, pairs, prefix, k);
    let v = pairs[k].1->Table_0;
    let next = dotted(prefix, lookup_name(pairs[k].0)->0);
    if keys.len() == 1 {
        (above.insert(u), next)
    } else {
        lemma_no_flaw_where_read(heap, above.insert(v), v, next, keys.skip(1), u)
    }
}

/// Where a table is read, there is nothing in it that would be read and is not UTF-8, and no
/// table lies in itself.
pub proof fn law_what_is_read_has_no_flaws(heap: LuaHeap, root: mlua::Table)
    requires
        heap.contains_key(root),
        flattened(heap, root) is Ok,
    ensures
        forall|reason: Seq<char>| !#[trigger] has_bad_text(heap, root, reason),
        !lies_in_itself(heap, root),
{
    let none = Seq::<char>::empty();
    let above = set![root];
    assert forall|reason: Seq<char>| !#[trigger] has_bad_text(heap, root, reason) by {
        if has_bad_text(heap, root, reason) {
            let (t, k) = choose|t: mlua::Table, k: int|
                {
                    &&& is_below(heap, root, t)
                    &&& 0 <= k < heap[t].pairs.len()
                    &&& {
                        ||| (#[trigger] heap[t].pairs[k]).0 == LuaValue::BadText(reason)
                        ||| {
                            &&& heap[t].pairs[k].0 is Text || heap[t].pairs[k].0 is Integer
                            &&& heap[t].pairs[k].1 == LuaValue::BadText(reason)
                        }
                    }
                };
            if t == root {
                lemma_each_pair_is_read(heap, above, heap[t].pairs, none, k);
            } else {
                let keys = choose|keys: Seq<LuaValue>| #[trigger]
                    value_at(heap, root, keys, LuaValue::Table(t));
                let (inside, prefix) = lemma_no_flaw_where_read(heap, above, root, none, keys, t);
                lemma_each_pair_is_read(heap, inside, heap[t].pairs, prefix, k);
            }
        }
    }
    if lies_in_itself(heap, root) {
        let (t, keys) = choose|t: mlua::Table, keys: Seq<LuaValue>|
            is_below(heap, root, t) && #[trigger] value_at(heap, t, keys, LuaValue::Table(t));
        if t == root {
            lemma_no_flaw_where_read(heap, above, root, none, keys, t);
        } else {
            let first = choose|first: Seq<LuaValue>| #[trigger]
                value_at(heap, root, first, LuaValue::Table(t));
            let (inside, prefix) = lemma_no_flaw_where_read(heap, above, root, none, first, t);
            lemma_no_flaw_where_read(heap, inside, t, prefix, keys, t);
        }
    }
}

/// Pairs are read in the order in which they are walked: what is read of more of them is what
/// is read of some and then of the rest, and the first that has a flaw decides.
pub proof fn law_pairs_are_read_in_order(
    heap: LuaHeap,
    above: Set<mlua::Table>,
    some: Seq<LuaPair>,
    rest: Seq<LuaPair>,
    prefix: Seq<char>,
)
    ensures
        flat_pairs(heap, above, some + rest, prefix) == match (
            flat_pairs(heap, above, some, prefix),
            flat_pairs(heap, above, rest, prefix),
        ) {
            (Err(e), _) => Err(e),
            (Ok(_), Err(e)) => Err(e),
            (Ok(x), Ok(y)) => Ok::<Pairs, Flaw>(x + y),
        },
    decreases rest.len(),
{
    let all = some + rest;
    if rest.len() == 0 {
        assert(all =~= some);
        if let Ok(x) = flat_pairs(heap, above, some, prefix) {
            assert(x + Seq::empty() =~= x);
        }
    } else {
        let less = rest.drop_last();
        law_pairs_are_read_in_order(heap, above, some, less, prefix);
        assert(all.drop_last() =~= some + less);
        assert(all.last() == rest.last());
        if let (Ok(x), Ok(y)) = (
            flat_pairs(heap, above, some, prefix),
            flat_pairs(heap, above, less, prefix),
        ) {
            if let Ok(z) = flat_pair(heap, above, rest.last(), prefix) {
                assert((x + y) + z =~= x + (y + z));
            }
        }
    }
}

/// What is said of a failure names the file where it is to blame, and tells why.
pub proof fn law_a_failure_to_read_is_told(name: Seq<char>, reason: String)
    ensures
        asset_map_message(AssetMapError::Evaluate(reason), name) == "evaluating asphalt output "@
            + name + ": "@ + reason@,
        asset_map_message(AssetMapError::NotATable, name) == "asphalt output "@ + name
            + " did not return a table"@,
        asset_map_message(AssetMapError::BadText(reason), name) == reason@,
        asset_map_message(AssetMapError::Lua(reason), name) == reason@,
        asset_map_message(AssetMapError::Cyclic, name) == "asphalt output "@ + name
            + " holds a table that holds itself"@,
        asset_map_message(AssetMapError::Crowded, name) == "asphalt output "@ + name
            + " holds too many tables"@,
{
}

/// What reading a map comes to, by what its source came to. A source that fails is told so with
/// its message, and one that returns no table is told so. Of a table, what is read of it is put
/// into the map; the other outcomes are its flaws, a failure of the runtime, and too many
/// tables.
pub proof fn law_what_reading_comes_to(
    outcome: Evaluation,
    before: Map<Seq<char>, Seq<char>>,
    after: Map<Seq<char>, Seq<char>>,
    r: Result<(), AssetMapError>,
)
    requires
        asset_map_read(outcome, before, after, r),
    ensures
        match outcome {
            Evaluation::Fails(message) => r matches Err(AssetMapError::Evaluate(reason)) && reason@
                == message,
            Evaluation::Returns(heap, value) => match value {
                LuaValue::Table(root) => {
                    &&& !(r matches Err(AssetMapError::Evaluate(_)))
                    &&& !(r matches Err(AssetMapError::NotATable))
                    &&& r is Ok ==> flattened(heap, root) is Ok && after == extended(
                        before,
                        flattened(heap, root)->Ok_0,
                    )
                    &&& r matches Err(AssetMapError::BadText(reason)) ==> flattened(heap, root)
                        == Err::<Pairs, Flaw>(Flaw::BadText(reason@))
                    &&& r matches Err(AssetMapError::Cyclic) ==> flattened(heap, root) == Err::<
                        Pairs,
                        Flaw,
                    >(Flaw::Cyclic)
                },
                _ => r matches Err(AssetMapError::NotATable),
            },
        },
{
}

/// Handles are there to be had for 999,000 tables, whatever else they hold, where their keys
/// can be told apart.
pub proof fn law_large_maps_are_read(heap: LuaHeap, root: mlua::Table)
    requires
        sound(heap),
        heap.dom().len() <= 999_000,
        forall|t: mlua::Table| #[trigger] heap.contains_key(t) ==> heap[t].tidy,
    ensures
        !overfull(heap, root),
{
    law_few_tables_are_not_too_many(heap, root);
}

} // verus!
