//! What holds of a module whose tables form a tree: it is printed in full, and printed
//! the same when it is rewritten again.
//!
//! A module is known by what lies at the end of each path from its table on. An edit
//! decides that for the paths that lead to it, through it or beyond it, and for no
//! others, so the last edit that decides does so in a second run as in the first.

use crate::lua::{canonical, compiled, empty_table, evaluates, has_key, lookup, number_as_read};
use crate::lua::{number_parsed, settled, Evaluation};
use crate::lua::{settles_as, sound, stored};
use crate::lua::{other_key, without, LuaHeap, LuaTable, LuaValue};
use crate::luau::{concluded, may_rewrite, KeysError};
use crate::luau_edit::{branched, edited, edits_model, key_of, placed, Edit, KeyValue};
use crate::luau_laws::{all_covered, covered, law_a_list_has_every_place};
use crate::luau_laws::{law_same_contents_print_the_same, lemma_stored_pairs, mirrored};
use crate::luau_laws::{lemma_filter_count, one_value, renamed, renamed_pairs, Renaming};
use crate::luau_order::{distinct_forms, earlier, in_turn, key_form, law_in_turn_is_sorted};
use crate::luau_order::{lemma_distinct_forms_kept, number_form, LuaPair};
use crate::luau_print::{lemma_room, lines_of, lines_text, listed, module_text, room, value_text};
use crate::luau_print::{agrees, key_text, Line, PrintError};
use crate::luau_read::{all_legible, law_a_printed_module_reads_back, legible, number_literal};
use crate::luau_read::{read_module, spelled, spelled_lines, Field, Literal};
use crate::text::{lemma_precedes_irreflexive, lemma_precedes_total, lemma_split_nonempty};
use crate::text::{digits_value, int_text, law_int_text_reads_back, parsed_int, precedes, split};
use vstd::prelude::*;

verus! {

/// A path of keys.
pub type Keys = Seq<LuaValue>;

/// What lies at the end of a path from a value on: `nil` where the path leads nowhere.
pub open spec fn walked(heap: LuaHeap, from: LuaValue, path: Keys) -> LuaValue
    decreases path.len(),
{
    if path.len() == 0 {
        from
    } else {
        match from {
            LuaValue::Table(t) => walked(heap, lookup(heap[t].pairs, path[0]), path.skip(1)),
            _ => LuaValue::Nil,
        }
    }
}

/// What can be told of a value apart from which table it is: `None` is for tables.
pub open spec fn shape(value: LuaValue) -> Option<LuaValue> {
    match value {
        LuaValue::Table(_) => None,
        _ => Some(value),
    }
}

/// Whether a table is without a metatable, has no two keys alike and no table for a
/// key, and holds no `nil`.
pub open spec fn fair(table: LuaTable) -> bool {
    &&& table.plain
    &&& table.tidy
    &&& forall|i: int, j: int|
        0 <= i < j < table.pairs.len() ==> (#[trigger] table.pairs[i]).0 != (
        #[trigger] table.pairs[j]).0
    &&& forall|i: int|
        0 <= i < table.pairs.len() ==> !((#[trigger] table.pairs[i]).0 is Table)
            && !(table.pairs[i].1 is Nil)
}

/// Whether the tables from `root` on form a tree: each of them is fair, and lies at the
/// end of one path.
pub open spec fn tree(heap: LuaHeap, root: mlua::Table) -> bool {
    &&& forall|path: Keys|
        (#[trigger] walked(heap, LuaValue::Table(root), path)) matches LuaValue::Table(t) ==> {
            &&& heap.contains_key(t)
            &&& fair(heap[t])
        }
    &&& forall|p: Keys, q: Keys|
        {
            &&& #[trigger] walked(heap, LuaValue::Table(root), p) is Table
            &&& walked(heap, LuaValue::Table(root), p) == #[trigger] walked(
                heap,
                LuaValue::Table(root),
                q,
            )
        } ==> p == q
}

/// Whether two tables hold the same, each with what lies in it.
pub open spec fn same_below(a: LuaHeap, ra: mlua::Table, b: LuaHeap, rb: mlua::Table) -> bool {
    forall|path: Keys|
        shape(#[trigger] walked(a, LuaValue::Table(ra), path)) == shape(
            walked(b, LuaValue::Table(rb), path),
        )
}

/// What a number literal stands for: an integer where it is one of 32 bits.
pub open spec fn number_read(text: Seq<char>) -> LuaValue {
    match parsed_int(text, i32::MIN as int, i32::MAX as int) {
        Some(n) => LuaValue::Integer(n as i32),
        None => match number_parsed(text) {
            Some(shortest) => number_as_read(shortest),
            None => LuaValue::Nil,
        },
    }
}

/// What a literal stands for, apart from which table it is: `None` is for tables.
pub open spec fn stands_for(literal: Literal) -> Option<LuaValue> {
    match literal {
        Literal::Nil => Some(LuaValue::Nil),
        Literal::Boolean(b) => Some(LuaValue::Boolean(b)),
        Literal::Number(text) => Some(number_read(text)),
        Literal::Text(s) => Some(LuaValue::Text(s)),
        Literal::Table(_) => None,
    }
}

/// The key of a field: the one that is written out, or else its place.
pub open spec fn field_key(fields: Seq<Field>, i: int) -> Option<LuaValue> {
    match fields[i].0 {
        Some(key) => stands_for(key),
        None => Some(LuaValue::Integer((i + 1) as i32)),
    }
}

/// Whether it is clear what every field of a literal is: either all of them have a key
/// that is written out or none has, no key is a table, `nil` or written twice, no
/// number but zero reads as zero, and no value is `nil`.
pub open spec fn clear(literal: Literal) -> bool
    decreases literal,
{
    literal matches Literal::Table(fields) ==> {
        &&& fields.len() > 0 && fields[0].0 is None ==> fields.len() <= i32::MAX
        &&& forall|i: int|
            0 <= i < fields.len() ==> {
                &&& (#[trigger] fields[i]).0 is None == fields[0].0 is None
                &&& field_key(fields, i) is Some
                &&& !(field_key(fields, i)->0 is Nil)
                &&& field_key(fields, i) == Some(LuaValue::Integer(0)) ==> fields[i].0 == Some(
                    Literal::Number("0"@),
                )
                &&& !(fields[i].1 is Nil)
                &&& clear(fields[i].1)
            }
        &&& forall|i: int, j: int|
            0 <= i < j < fields.len() ==> #[trigger] field_key(fields, i) != #[trigger] field_key(
                fields,
                j,
            )
    }
}

/// What a literal holds at the end of a path: `nil` where the path leads nowhere.
pub open spec fn written_at(literal: Literal, path: Keys) -> Option<LuaValue>
    decreases path.len(),
{
    if path.len() == 0 {
        stands_for(literal)
    } else {
        match literal {
            Literal::Table(fields) => if exists|i: int|
                0 <= i < fields.len() && #[trigger] field_key(fields, i) == Some(path[0]) {
                let i = choose|i: int|
                    0 <= i < fields.len() && #[trigger] field_key(fields, i) == Some(path[0]);
                written_at(fields[i].1, path.skip(1))
            } else {
                Some(LuaValue::Nil)
            },
            _ => Some(LuaValue::Nil),
        }
    }
}

/// Whether a value is what a literal says, where that is clear: tables that form a tree
/// and hold what is written.
pub open spec fn literally(heap: LuaHeap, value: LuaValue, literal: Literal) -> bool {
    literal is Table && clear(literal) ==> {
        &&& value matches LuaValue::Table(root) && tree(heap, root)
        &&& forall|path: Keys|
            shape(#[trigger] walked(heap, value, path)) == written_at(literal, path)
    }
}

/// Whether `path` begins with `head`.
pub open spec fn starts(path: Keys, head: Keys) -> bool {
    head.len() <= path.len() && path.take(head.len() as int) == head
}

/// The keys that the parts of a path address.
pub open spec fn keys_of(parts: Seq<Seq<char>>) -> Keys {
    Seq::new(parts.len(), |i: int| key_of(parts[i]))
}

/// What lies at the end of `path` once `value` was put at the end of `target`, where
/// `before` lay there: tables on the way there, the value, nothing beyond it, and
/// elsewhere what lay there before.
pub open spec fn decided(
    target: Keys,
    value: LuaValue,
    path: Keys,
    before: Option<LuaValue>,
) -> Option<LuaValue> {
    if path == target {
        shape(value)
    } else if starts(path, target) {
        Some(LuaValue::Nil)
    } else if starts(target, path) {
        None
    } else {
        before
    }
}

/// The same for edits that are made one after the other.
pub open spec fn all_decided(edits: Seq<Edit>, path: Keys, before: Option<LuaValue>) -> Option<
    LuaValue,
>
    decreases edits.len(),
{
    if edits.len() == 0 {
        before
    } else {
        decided(
            keys_of(split(edits.last().0, '.')),
            settles_as(edits.last().1),
            path,
            all_decided(edits.drop_last(), path, before),
        )
    }
}

// ---------------------------------------------------------------------------
// Walking
// ---------------------------------------------------------------------------

proof fn lemma_walk_on(heap: LuaHeap, from: LuaValue, a: Keys, b: Keys)
    ensures
        walked(heap, from, a + b) == walked(heap, walked(heap, from, a), b),
    decreases a.len(),
{
    if a.len() == 0 {
        assert(a + b =~= b);
    } else {
        let whole = a + b;
        assert(whole[0] == a[0]);
        assert(whole.skip(1) =~= a.skip(1) + b);
        if let LuaValue::Table(t) = from {
            lemma_walk_on(heap, lookup(heap[t].pairs, a[0]), a.skip(1), b);
        } else {
            lemma_walk_nowhere(heap, b);
        }
    }
}

proof fn lemma_walk_nowhere(heap: LuaHeap, path: Keys)
    ensures
        walked(heap, LuaValue::Nil, path) is Nil,
{
}

proof fn lemma_walk_step(heap: LuaHeap, from: LuaValue, path: Keys, key: LuaValue)
    ensures
        walked(heap, from, path.push(key)) == match walked(heap, from, path) {
            LuaValue::Table(t) => lookup(heap[t].pairs, key),
            _ => LuaValue::Nil,
        },
{
    assert(path.push(key) =~= path + seq![key]);
    lemma_walk_on(heap, from, path, seq![key]);
    let reached = walked(heap, from, path);
    assert(seq![key].skip(1) =~= Seq::<LuaValue>::empty());
    if let LuaValue::Table(t) = reached {
        let found = lookup(heap[t].pairs, key);
        assert(walked(heap, found, Seq::<LuaValue>::empty()) == found);
    }
}

/// What lies below a table of a tree is a tree.
proof fn lemma_subtree(heap: LuaHeap, root: mlua::Table, path: Keys, t: mlua::Table)
    requires
        tree(heap, root),
        walked(heap, LuaValue::Table(root), path) == LuaValue::Table(t),
    ensures
        tree(heap, t),
{
    let from = LuaValue::Table(root);
    assert forall|p: Keys|
        (#[trigger] walked(heap, LuaValue::Table(t), p)) is Table implies {
        &&& heap.contains_key(walked(heap, LuaValue::Table(t), p)->Table_0)
        &&& fair(heap[walked(heap, LuaValue::Table(t), p)->Table_0])
    } by {
        lemma_walk_on(heap, from, path, p);
        assert(walked(heap, from, path + p) == walked(heap, LuaValue::Table(t), p));
    }
    assert forall|p: Keys, q: Keys|
        {
            &&& #[trigger] walked(heap, LuaValue::Table(t), p) is Table
            &&& walked(heap, LuaValue::Table(t), p) == #[trigger] walked(
                heap,
                LuaValue::Table(t),
                q,
            )
        } implies p == q by {
        lemma_walk_on(heap, from, path, p);
        lemma_walk_on(heap, from, path, q);
        assert(walked(heap, from, path + p) == walked(heap, from, path + q));
        assert(path + p == path + q);
        assert(p =~= (path + p).skip(path.len() as int));
        assert(q =~= (path + q).skip(path.len() as int));
    }
}

// ---------------------------------------------------------------------------
// One edit
// ---------------------------------------------------------------------------

/// A table in which a value was stored.
proof fn lemma_stored_fair(
    before: LuaHeap,
    at: mlua::Table,
    key: LuaValue,
    value: LuaValue,
    after: LuaHeap,
)
    requires
        before.contains_key(at),
        fair(before[at]),
        !(key is Table),
        stored(before, at, key, value, after),
    ensures
        fair(after[at]),
        lookup(after[at].pairs, key) == value,
        forall|k: LuaValue|
            k != key ==> #[trigger] lookup(after[at].pairs, k) == lookup(before[at].pairs, k),
{
    let p = before[at].pairs;
    let q = after[at].pairs;
    lemma_stored_pairs(p, q, key, value);
    assert forall|k: LuaValue| k != key implies #[trigger] lookup(q, k) == lookup(p, k) by {
        assert(one_value(p, k)) by {
            assert forall|i: int, j: int|
                0 <= i < p.len() && 0 <= j < p.len() && (#[trigger] p[i]).0 == k && (
                #[trigger] p[j]).0 == k implies p[i].1 == p[j].1 by {
                if i < j {
                    assert(before[at].pairs[i].0 != before[at].pairs[j].0);
                } else if j < i {
                    assert(before[at].pairs[j].0 != before[at].pairs[i].0);
                }
            }
        }
        assert(one_value(q, k));
    }
    lemma_stored_keys(p, q, key, value);
}

/// Storing a value leaves no two keys alike.
proof fn lemma_stored_keys(p: Seq<LuaPair>, q: Seq<LuaPair>, key: LuaValue, value: LuaValue)
    requires
        forall|i: int, j: int|
            0 <= i < j < p.len() ==> (#[trigger] p[i]).0 != (#[trigger] p[j]).0,
        forall|i: int|
            0 <= i < p.len() ==> !((#[trigger] p[i]).0 is Table) && !(p[i].1 is Nil),
        !(key is Table),
        q.to_multiset() == if value is Nil {
            without(p, key).to_multiset()
        } else {
            without(p, key).to_multiset().insert((key, value))
        },
    ensures
        forall|i: int, j: int|
            0 <= i < j < q.len() ==> (#[trigger] q[i]).0 != (#[trigger] q[j]).0,
        forall|i: int|
            0 <= i < q.len() ==> !((#[trigger] q[i]).0 is Table) && !(q[i].1 is Nil),
{
    let rest = without(p, key);
    let keep = other_key(key);
    assert(p.no_duplicates());
    lemma_single(p);
    assert forall|x: LuaPair| #[trigger] rest.to_multiset().count(x) <= (if x.0 != key {
        1nat
    } else {
        0
    }) by {
        lemma_filter_count(p, keep, x);
    }
    q.to_multiset_ensures();
    rest.to_multiset_ensures();
    assert forall|x: LuaPair| #[trigger] q.contains(x) implies {
        ||| x.0 != key && p.contains(x)
        ||| x == (key, value) && !(value is Nil)
    } by {
        assert(q.to_multiset().count(x) > 0);
        if rest.to_multiset().count(x) > 0 {
            assert(rest.contains(x));
            let i = choose|i: int| 0 <= i < rest.len() && rest[i] == x;
            p.lemma_filter_pred(keep, i);
            p.lemma_filter_contains_rev(keep, x);
        }
    }
    assert forall|x: LuaPair| #[trigger] q.to_multiset().count(x) <= 1 by {
        assert(rest.to_multiset().count(x) <= 1);
    }
    assert forall|i: int, j: int| 0 <= i < j < q.len() implies (#[trigger] q[i]).0 != (
    #[trigger] q[j]).0 by {
        assert(q.contains(q[i]) && q.contains(q[j]));
        if q[i].0 == q[j].0 {
            if q[i].0 == key {
                assert(q[i] == q[j]);
            } else {
                let a = choose|a: int| 0 <= a < p.len() && p[a] == q[i];
                let b = choose|b: int| 0 <= b < p.len() && p[b] == q[j];
                assert(a == b) by {
                    if a < b {
                        assert(p[a].0 != p[b].0);
                    } else if b < a {
                        assert(p[b].0 != p[a].0);
                    }
                }
            }
            assert(q[i] == q[j]);
            lemma_twice(q, i, j);
        }
    }
    assert forall|i: int| 0 <= i < q.len() implies !((#[trigger] q[i]).0 is Table) && !(
    q[i].1 is Nil) by {
        assert(q.contains(q[i]));
        if q[i].0 != key {
            let a = choose|a: int| 0 <= a < p.len() && p[a] == q[i];
            assert(p[a] == q[i]);
        }
    }
}

/// What comes twice is counted twice.
proof fn lemma_twice(q: Seq<LuaPair>, i: int, j: int)
    requires
        0 <= i < j < q.len(),
        q[i] == q[j],
    ensures
        q.to_multiset().count(q[i]) >= 2,
    decreases q.len(),
{
    let front = q.drop_last();
    assert(q =~= front.push(q.last()));
    vstd::seq_lib::to_multiset_build(front, q.last());
    front.to_multiset_ensures();
    if j < q.len() - 1 {
        lemma_twice(front, i, j);
    } else {
        assert(front.contains(front[i]));
        assert(front.to_multiset().count(front[i]) > 0);
    }
}

/// Where nothing comes twice, what is there is counted once.
proof fn lemma_single(q: Seq<LuaPair>)
    requires
        q.no_duplicates(),
    ensures
        forall|x: LuaPair| #[trigger]
            q.to_multiset().count(x) == if q.contains(x) {
                1nat
            } else {
                0
            },
{
    q.lemma_multiset_has_no_duplicates();
    q.to_multiset_ensures();
    assert forall|x: LuaPair| #[trigger]
        q.to_multiset().count(x) == if q.contains(x) {
            1nat
        } else {
            0
        } by {
        if q.contains(x) {
            assert(q.to_multiset().contains(x));
        }
    }
}

/// Whether new tables, none of which is among `used`, lead along `path` to `value` and
/// to nothing else.
spec fn chained(
    heap: LuaHeap,
    used: Set<mlua::Table>,
    from: LuaValue,
    path: Keys,
    value: LuaValue,
) -> bool
    decreases path.len(),
{
    if path.len() == 0 {
        from == value
    } else {
        &&& from is Table
        &&& !used.contains(from->Table_0)
        &&& heap.contains_key(from->Table_0)
        &&& fair(heap[from->Table_0])
        &&& forall|k: LuaValue|
            k != path[0] ==> (#[trigger] lookup(heap[from->Table_0].pairs, k)) is Nil
        &&& chained(
            heap,
            used.insert(from->Table_0),
            lookup(heap[from->Table_0].pairs, path[0]),
            path.skip(1),
            value,
        )
    }
}

/// What lies at the end of paths along a chain.
proof fn lemma_chain(
    heap: LuaHeap,
    used: Set<mlua::Table>,
    from: LuaValue,
    path: Keys,
    value: LuaValue,
    p: Keys,
)
    requires
        chained(heap, used, from, path, value),
        !(value is Table),
    ensures
        shape(walked(heap, from, p)) == decided(path, value, p, Some(LuaValue::Nil)),
        walked(heap, from, p) matches LuaValue::Table(t) ==> {
            &&& !used.contains(t)
            &&& heap.contains_key(t)
            &&& fair(heap[t])
        },
        forall|q: Keys|
            walked(heap, from, p) is Table && #[trigger] walked(heap, from, q) == walked(
                heap,
                from,
                p,
            ) ==> q == p,
    decreases path.len(),
{
    if path.len() == 0 {
        assert forall|q: Keys| walked(heap, from, q) is Table implies false by {}
        if p.len() > 0 {
            assert(p.take(0) =~= path);
        } else {
            assert(p =~= path);
        }
    } else {
        let t = from->Table_0;
        let further = used.insert(t);
        let next = lookup(heap[t].pairs, path[0]);
        let rest = path.skip(1);
        if p.len() == 0 {
            assert(path.take(0) =~= p);
            assert(starts(path, p));
            assert forall|q: Keys| #[trigger] walked(heap, from, q) == from implies q == p by {
                if q.len() > 0 {
                    lemma_chain(heap, further, next, rest, value, q.skip(1));
                    if q[0] == path[0] {
                        assert(walked(heap, from, q) == walked(heap, next, q.skip(1)));
                    } else {
                        assert(lookup(heap[t].pairs, q[0]) is Nil);
                        lemma_walk_nowhere(heap, q.skip(1));
                    }
                } else {
                    assert(q =~= p);
                }
            }
        } else if p[0] == path[0] {
            lemma_chain(heap, further, next, rest, value, p.skip(1));
            assert(p =~= seq![p[0]] + p.skip(1));
            assert(path =~= seq![path[0]] + rest);
            lemma_starts_step(path, p);
            lemma_starts_step(p, path);
            if walked(heap, from, p) is Table {
                assert forall|q: Keys| #[trigger] walked(heap, from, q) == walked(
                    heap,
                    from,
                    p,
                ) implies q == p by {
                    if q.len() == 0 {
                        assert(walked(heap, from, q) == from);
                    } else if q[0] == path[0] {
                        assert(walked(heap, next, q.skip(1)) == walked(heap, next, p.skip(1)));
                        assert(q.skip(1) == p.skip(1));
                        assert(q =~= seq![q[0]] + q.skip(1));
                    } else {
                        assert(lookup(heap[t].pairs, q[0]) is Nil);
                        lemma_walk_nowhere(heap, q.skip(1));
                    }
                }
            }
        } else {
            assert(lookup(heap[t].pairs, p[0]) is Nil);
            lemma_walk_nowhere(heap, p.skip(1));
            if starts(p, path) {
                assert(p.take(path.len() as int)[0] == path[0]);
            }
            if starts(path, p) {
                assert(path.take(p.len() as int)[0] == p[0]);
            }
        }
    }
}

/// Whether one path begins with another goes by their first keys and the rest.
proof fn lemma_starts_step(p: Keys, q: Keys)
    requires
        p.len() > 0,
        q.len() > 0,
        p[0] == q[0],
    ensures
        starts(p, q) == starts(p.skip(1), q.skip(1)),
        (p == q) == (p.skip(1) == q.skip(1)),
{
    assert(p =~= seq![p[0]] + p.skip(1));
    assert(q =~= seq![q[0]] + q.skip(1));
    let n = q.len() as int;
    if starts(p, q) {
        assert(p.skip(1).take(n - 1) =~= p.take(n).skip(1));
    }
    if starts(p.skip(1), q.skip(1)) {
        assert(p.take(n) =~= seq![p[0]] + p.skip(1).take(n - 1));
    }
}

/// What an edit does to the tables: of those that were there one changes, `slot.1`, at
/// the end of the first `slot.0` keys; the key after those leads on to the value.
spec fn effect(
    before: LuaHeap,
    at: mlua::Table,
    path: Keys,
    value: LuaValue,
    after: LuaHeap,
    slot: (int, mlua::Table),
) -> bool {
    let (n, t) = slot;
    &&& 0 <= n < path.len()
    &&& walked(before, LuaValue::Table(at), path.take(n)) == LuaValue::Table(t)
    &&& before.contains_key(t)
    &&& n < path.len() - 1 ==> !(lookup(before[t].pairs, path[n]) is Table)
    &&& forall|u: mlua::Table| #[trigger]
        before.contains_key(u) ==> after.contains_key(u) && (u != t ==> after[u] == before[u])
    &&& fair(after[t])
    &&& forall|k: LuaValue|
        k != path[n] ==> #[trigger] lookup(after[t].pairs, k) == lookup(before[t].pairs, k)
    &&& chained(
        after,
        before.dom(),
        lookup(after[t].pairs, path[n]),
        path.skip(n + 1),
        value,
    )
}

proof fn lemma_effect(
    before: LuaHeap,
    at: mlua::Table,
    parts: Seq<Seq<char>>,
    value: LuaValue,
    after: LuaHeap,
) -> (slot: (int, mlua::Table))
    requires
        tree(before, at),
        parts.len() > 0,
        placed(before, at, parts, value, after),
    ensures
        effect(before, at, keys_of(parts), settles_as(value), after, slot),
    decreases parts.len(),
{
    let path = keys_of(parts);
    let here = LuaValue::Table(at);
    let key = key_of(parts[0]);
    assert(path.take(0) =~= Seq::<LuaValue>::empty());
    assert(walked(before, here, path.take(0)) == here);
    assert(before.contains_key(at) && fair(before[at]));
    assert(settled(before[at], key));
    if parts.len() == 1 {
        lemma_stored_fair(before, at, key, settles_as(value), after);
        assert(path.skip(1) =~= Seq::<LuaValue>::empty());
        (0int, at)
    } else {
        let rest = parts.skip(1);
        assert(keys_of(rest) =~= path.skip(1));
        match lookup(before[at].pairs, key) {
            LuaValue::Table(next) => {
                let one = path.take(1);
                assert(one[0] == key && one.skip(1) =~= Seq::<LuaValue>::empty());
                assert(walked(before, LuaValue::Table(next), one.skip(1)) == LuaValue::Table(next));
                assert(walked(before, here, one) == LuaValue::Table(next));
                lemma_subtree(before, at, one, next);
                let (n, t) = lemma_effect(before, next, rest, value, after);
                assert(path.take(n + 1)[0] == key);
                assert(path.take(n + 1).skip(1) =~= keys_of(rest).take(n));
                assert(path[n + 1] == keys_of(rest)[n]);
                assert(path.skip(n + 2) =~= keys_of(rest).skip(n + 1));
                (n + 1, t)
            },
            _ => {
                let (fresh, between) = choose|fresh: mlua::Table, between: LuaHeap|
                    {
                        &&& #[trigger] branched(before, at, key, fresh, between)
                        &&& placed(between, fresh, rest, value, after)
                    };
                let grown = before.insert(fresh, empty_table());
                assert(fresh != at);
                assert(grown.contains_key(at) && grown[at] == before[at]);
                lemma_stored_fair(grown, at, key, LuaValue::Table(fresh), between);
                assert(between[fresh] == grown[fresh]);
                assert(between[fresh] == empty_table());
                assert(grown.dom().contains(fresh));
                assert(between.contains_key(fresh));
                lemma_empty_tree(between, fresh);
                let (n, t) = lemma_effect(between, fresh, rest, value, after);
                let start = LuaValue::Table(fresh);
                let way = keys_of(rest);
                if n > 0 {
                    assert(lookup(between[fresh].pairs, way.take(n)[0]) is Nil);
                    lemma_walk_nowhere(between, way.take(n).skip(1));
                    assert(walked(between, start, way.take(n)) is Nil);
                }
                assert(n == 0 && t == fresh) by {
                    assert(way.take(0) =~= Seq::<LuaValue>::empty());
                    assert(walked(between, start, way.take(0)) == start);
                }
                assert(between.contains_key(at) && after[at] == between[at]);
                assert(lookup(after[at].pairs, key) == start);
                assert(between.dom() =~= before.dom().insert(fresh));
                assert forall|k: LuaValue| k != way[0] implies (#[trigger] lookup(
                    after[fresh].pairs,
                    k,
                )) is Nil by {
                    assert(lookup(between[fresh].pairs, k) is Nil);
                }
                assert(path.skip(1)[0] == way[0]);
                assert(chained(after, before.dom(), start, path.skip(1), settles_as(value)));
                assert forall|u: mlua::Table| #[trigger]
                    before.contains_key(u) implies after.contains_key(u) && (u != at ==> after[u]
                    == before[u]) by {
                    assert(grown.contains_key(u));
                    assert(between.contains_key(u));
                    if u != at {
                        assert(between[u] == grown[u]);
                    }
                }
                (0int, at)
            },
        }
    }
}

/// A table that holds nothing is a tree.
proof fn lemma_empty_tree(heap: LuaHeap, t: mlua::Table)
    requires
        heap.contains_key(t),
        heap[t] == empty_table(),
    ensures
        tree(heap, t),
{
    let from = LuaValue::Table(t);
    assert forall|p: Keys| (#[trigger] walked(heap, from, p)) is Table implies p.len() == 0 by {
        if p.len() > 0 {
            assert(lookup(heap[t].pairs, p[0]) is Nil);
            lemma_walk_nowhere(heap, p.skip(1));
        }
    }
    assert forall|p: Keys, q: Keys|
        {
            &&& #[trigger] walked(heap, from, p) is Table
            &&& walked(heap, from, p) == #[trigger] walked(heap, from, q)
        } implies p == q by {
        assert(p =~= q);
    }
}

/// Paths that do not go through the slot that changed lead where they led.
proof fn lemma_elsewhere(
    before: LuaHeap,
    root: mlua::Table,
    path: Keys,
    value: LuaValue,
    after: LuaHeap,
    slot: (int, mlua::Table),
    p: Keys,
)
    requires
        tree(before, root),
        effect(before, root, path, value, after, slot),
        !starts(p, path.take(slot.0 + 1)),
    ensures
        walked(after, LuaValue::Table(root), p) == walked(before, LuaValue::Table(root), p),
    decreases p.len(),
{
    let (n, t) = slot;
    let from = LuaValue::Table(root);
    if p.len() > 0 {
        let head = p.drop_last();
        let key = p.last();
        let stop = path.take(n + 1);
        assert(p =~= head.push(key));
        if starts(head, stop) {
            assert(p.take(stop.len() as int) =~= head.take(stop.len() as int));
        }
        lemma_elsewhere(before, root, path, value, after, slot, head);
        lemma_walk_step(before, from, head, key);
        lemma_walk_step(after, from, head, key);
        if let LuaValue::Table(u) = walked(before, from, head) {
            assert(before.contains_key(u));
            if u == t {
                assert(head == path.take(n));
                if key == path[n] {
                    assert(p =~= stop);
                    assert(p.take(stop.len() as int) =~= stop);
                }
            }
        }
    }
}

/// An edit decides what lies at the end of every path, and leaves a tree.
proof fn lemma_edit_decides(
    before: LuaHeap,
    root: mlua::Table,
    parts: Seq<Seq<char>>,
    value: LuaValue,
    after: LuaHeap,
)
    requires
        tree(before, root),
        parts.len() > 0,
        !(settles_as(value) is Table),
        placed(before, root, parts, value, after),
    ensures
        tree(after, root),
        forall|p: Keys|
            shape(#[trigger] walked(after, LuaValue::Table(root), p)) == decided(
                keys_of(parts),
                settles_as(value),
                p,
                shape(walked(before, LuaValue::Table(root), p)),
            ),
{
    let path = keys_of(parts);
    let slot = lemma_effect(before, root, parts, value, after);
    let (n, t) = slot;
    let from = LuaValue::Table(root);
    let stop = path.take(n + 1);
    let v = lookup(after[t].pairs, path[n]);
    let tail = path.skip(n + 1);
    let scalar = settles_as(value);
    assert(path =~= stop + tail);
    assert(walked(after, from, stop) == v) by {
        assert(!starts(path.take(n), stop));
        lemma_elsewhere(before, root, path, scalar, after, slot, path.take(n));
        lemma_walk_step(after, from, path.take(n), path[n]);
        assert(stop =~= path.take(n).push(path[n]));
    }
    assert forall|p: Keys| #[trigger] starts(p, stop) implies {
        let r = p.skip(n + 1);
        &&& p == stop + r
        &&& walked(after, from, p) == walked(after, v, r)
    } by {
        let r = p.skip(n + 1);
        assert(p =~= stop + r);
        lemma_walk_on(after, from, stop, r);
    }
    assert forall|p: Keys|
        shape(#[trigger] walked(after, from, p)) == decided(
            path,
            scalar,
            p,
            shape(walked(before, from, p)),
        ) by {
        if starts(p, stop) {
            let r = p.skip(n + 1);
            lemma_chain(after, before.dom(), v, tail, scalar, r);
            lemma_after_head(stop, tail, r);
            if p != path && !starts(p, path) && !starts(path, p) {
                assert(r.len() > 0) by {
                    if r.len() == 0 {
                        assert(p =~= stop);
                        assert(path.take(p.len() as int) =~= p);
                    }
                }
                assert(n < path.len() - 1) by {
                    if n == path.len() - 1 {
                        assert(stop =~= path);
                    }
                }
                lemma_walk_step(before, from, path.take(n), path[n]);
                assert(stop =~= path.take(n).push(path[n]));
                lemma_walk_on(before, from, stop, r);
            }
        } else {
            lemma_elsewhere(before, root, path, scalar, after, slot, p);
            if starts(p, path) {
                assert(p.take(n + 1) =~= p.take(path.len() as int).take(n + 1));
            } else if starts(path, p) {
                assert(p.len() <= n) by {
                    if p.len() > n {
                        assert(p.take(n + 1) =~= path.take(n + 1));
                    }
                }
                lemma_walk_on(before, from, p, path.take(n).skip(p.len() as int));
                assert(p + path.take(n).skip(p.len() as int) =~= path.take(n));
                if !(walked(before, from, p) is Table) {
                    let beyond = path.take(n).skip(p.len() as int);
                    if beyond.len() == 0 {
                        assert(p =~= path.take(n));
                    }
                }
            }
        }
    }
    assert(tree(after, root)) by {
        assert forall|p: Keys|
            (#[trigger] walked(after, from, p)) is Table implies {
            &&& after.contains_key(walked(after, from, p)->Table_0)
            &&& fair(after[walked(after, from, p)->Table_0])
        } by {
            if starts(p, stop) {
                lemma_chain(after, before.dom(), v, tail, scalar, p.skip(n + 1));
            } else {
                lemma_elsewhere(before, root, path, scalar, after, slot, p);
            }
        }
        assert forall|p: Keys, q: Keys|
            {
                &&& #[trigger] walked(after, from, p) is Table
                &&& walked(after, from, p) == #[trigger] walked(after, from, q)
            } implies p == q by {
            if starts(p, stop) {
                lemma_chain(after, before.dom(), v, tail, scalar, p.skip(n + 1));
            } else {
                lemma_elsewhere(before, root, path, scalar, after, slot, p);
            }
            if starts(q, stop) {
                lemma_chain(after, before.dom(), v, tail, scalar, q.skip(n + 1));
            } else {
                lemma_elsewhere(before, root, path, scalar, after, slot, q);
            }
            if starts(p, stop) && starts(q, stop) {
                assert(q.skip(n + 1) == p.skip(n + 1));
            }
        }
    }
}

/// How paths with one head compare goes by what follows it.
proof fn lemma_after_head(head: Keys, a: Keys, b: Keys)
    ensures
        starts(head + a, head + b) == starts(a, b),
        starts(head + b, head + a) == starts(b, a),
        (head + a == head + b) == (a == b),
    decreases head.len(),
{
    if head.len() == 0 {
        assert(head + a =~= a);
        assert(head + b =~= b);
    } else {
        let p = head + a;
        let q = head + b;
        let less = head.skip(1);
        assert(p.skip(1) =~= less + a);
        assert(q.skip(1) =~= less + b);
        lemma_starts_step(p, q);
        lemma_starts_step(q, p);
        lemma_after_head(less, a, b);
    }
}

// ---------------------------------------------------------------------------
// Many edits
// ---------------------------------------------------------------------------

/// Whether no edit puts a table anywhere.
pub open spec fn all_scalar(edits: Seq<Edit>) -> bool {
    forall|i: int| 0 <= i < edits.len() ==> !(settles_as((#[trigger] edits[i]).1) is Table)
}

/// No edit puts a table anywhere: a text, a truth value, a number and `nil` are none,
/// and a table that holds one of them holds no table in its place.
pub proof fn law_edits_are_scalar(edits: Seq<(String, KeyValue)>)
    ensures
        all_scalar(edits_model(edits)),
{
    assert forall|i: int| 0 <= i < edits.len() implies !(settles_as(
        (#[trigger] edits_model(edits)[i]).1,
    ) is Table) by {
        assert(edits_model(edits)[i].1 == edits[i].1@);
    }
}

/// Edits decide what lies at the end of every path, and leave a tree.
pub proof fn law_edits_decide(
    before: LuaHeap,
    root: mlua::Table,
    edits: Seq<(String, KeyValue)>,
    after: LuaHeap,
)
    requires
        tree(before, root),
        edited(before, root, edits_model(edits), after),
    ensures
        tree(after, root),
        forall|p: Keys|
            shape(#[trigger] walked(after, LuaValue::Table(root), p)) == all_decided(
                edits_model(edits),
                p,
                shape(walked(before, LuaValue::Table(root), p)),
            ),
{
    law_edits_are_scalar(edits);
    lemma_edits_decide(before, root, edits_model(edits), after);
}

/// Edits that put no table anywhere decide what lies at the end of every path.
proof fn lemma_edits_decide(
    before: LuaHeap,
    root: mlua::Table,
    edits: Seq<Edit>,
    after: LuaHeap,
)
    requires
        tree(before, root),
        all_scalar(edits),
        edited(before, root, edits, after),
    ensures
        tree(after, root),
        forall|p: Keys|
            shape(#[trigger] walked(after, LuaValue::Table(root), p)) == all_decided(
                edits,
                p,
                shape(walked(before, LuaValue::Table(root), p)),
            ),
    decreases edits.len(),
{
    if edits.len() > 0 {
        let front = edits.drop_last();
        let last = edits.last();
        let between = choose|between: LuaHeap|
            {
                &&& edited(before, root, front, between)
                &&& #[trigger] placed(between, root, split(last.0, '.'), last.1, after)
            };
        assert(all_scalar(front)) by {
            assert forall|i: int| 0 <= i < front.len() implies !(settles_as(
                (#[trigger] front[i]).1,
            ) is Table) by {
                assert(front[i] == edits[i]);
            }
        }
        lemma_edits_decide(before, root, front, between);
        lemma_split_nonempty(last.0, '.');
        assert(!(settles_as(edits[edits.len() - 1].1) is Table));
        lemma_edit_decides(between, root, split(last.0, '.'), last.1, after);
    }
}

/// Whether edits decide what lies at the end of a path, whatever lay there.
spec fn decisive(edits: Seq<Edit>, path: Keys) -> bool {
    forall|a: Option<LuaValue>, b: Option<LuaValue>|
        #[trigger] all_decided(edits, path, a) == #[trigger] all_decided(edits, path, b)
}

/// Whether edits leave what lies at the end of a path.
spec fn indifferent(edits: Seq<Edit>, path: Keys) -> bool {
    forall|a: Option<LuaValue>| #[trigger] all_decided(edits, path, a) == a
}

/// Edits decide what lies at the end of a path, or they leave it.
proof fn lemma_decided_or_not(edits: Seq<Edit>, path: Keys)
    ensures
        decisive(edits, path) || indifferent(edits, path),
    decreases edits.len(),
{
    if edits.len() > 0 {
        lemma_decided_or_not(edits.drop_last(), path);
        let target = keys_of(split(edits.last().0, '.'));
        if path == target || starts(path, target) || starts(target, path) {
            assert forall|a: Option<LuaValue>, b: Option<LuaValue>|
                #[trigger] all_decided(edits, path, a) == #[trigger] all_decided(
                    edits,
                    path,
                    b,
                ) by {}
        } else {
            let front = edits.drop_last();
            assert forall|a: Option<LuaValue>|
                #[trigger] all_decided(edits, path, a) == all_decided(front, path, a) by {}
            if decisive(front, path) {
                assert(decisive(edits, path));
            }
        }
    }
}

/// Edits that are made twice are as good as made once, whatever their paths have in
/// common: the tables hold the same after the second run as after the first.
pub proof fn law_edits_made_twice(
    before: LuaHeap,
    root: mlua::Table,
    edits: Seq<(String, KeyValue)>,
    once: LuaHeap,
    again: LuaHeap,
    other: mlua::Table,
    twice: LuaHeap,
)
    requires
        tree(before, root),
        edited(before, root, edits_model(edits), once),
        tree(again, other),
        same_below(once, root, again, other),
        edited(again, other, edits_model(edits), twice),
    ensures
        tree(once, root),
        tree(twice, other),
        same_below(once, root, twice, other),
{
    law_edits_decide(before, root, edits, once);
    law_edits_decide(again, other, edits, twice);
    let made = edits_model(edits);
    assert forall|p: Keys|
        shape(#[trigger] walked(once, LuaValue::Table(root), p)) == shape(
            walked(twice, LuaValue::Table(other), p),
        ) by {
        lemma_decided_or_not(made, p);
        let first = shape(walked(before, LuaValue::Table(root), p));
        let second = shape(walked(again, LuaValue::Table(other), p));
        assert(second == all_decided(made, p, first));
        assert(shape(walked(twice, LuaValue::Table(other), p)) == all_decided(made, p, second));
    }
}

// ---------------------------------------------------------------------------
// Printing
// ---------------------------------------------------------------------------

/// Whether no two keys of a table are printed alike, in any table from `root` on.
pub open spec fn distinctly_keyed(heap: LuaHeap, root: mlua::Table) -> bool {
    forall|path: Keys|
        (#[trigger] walked(heap, LuaValue::Table(root), path)) matches LuaValue::Table(t)
            ==> distinct_forms(heap[t].pairs)
}

/// The table of one tree that lies where a table of another does.
spec fn counterpart(
    a: LuaHeap,
    ra: mlua::Table,
    b: LuaHeap,
    rb: mlua::Table,
    t: mlua::Table,
) -> mlua::Table {
    let path = choose|path: Keys|
        #[trigger] walked(a, LuaValue::Table(ra), path) == LuaValue::Table(t);
    walked(b, LuaValue::Table(rb), path)->Table_0
}

/// Whether a table lies below `root`, or is it.
pub open spec fn lies_below(heap: LuaHeap, root: mlua::Table, t: mlua::Table) -> bool {
    exists|path: Keys| #[trigger]
        walked(heap, LuaValue::Table(root), path) == LuaValue::Table(t)
}

spec fn counterparts(a: LuaHeap, ra: mlua::Table, b: LuaHeap, rb: mlua::Table) -> Renaming {
    Map::new(|t: mlua::Table| lies_below(a, ra, t), |t: mlua::Table| counterpart(a, ra, b, rb, t))
}

proof fn lemma_counterpart(
    a: LuaHeap,
    ra: mlua::Table,
    b: LuaHeap,
    rb: mlua::Table,
    path: Keys,
    t: mlua::Table,
)
    requires
        tree(a, ra),
        same_below(a, ra, b, rb),
        walked(a, LuaValue::Table(ra), path) == LuaValue::Table(t),
    ensures
        counterparts(a, ra, b, rb).contains_key(t),
        walked(b, LuaValue::Table(rb), path) == LuaValue::Table(counterparts(a, ra, b, rb)[t]),
{
    let chosen = choose|p: Keys|
        #[trigger] walked(a, LuaValue::Table(ra), p) == LuaValue::Table(t);
    assert(walked(a, LuaValue::Table(ra), chosen) == LuaValue::Table(t));
    assert(chosen == path);
    assert(shape(walked(a, LuaValue::Table(ra), path)) == shape(
        walked(b, LuaValue::Table(rb), path),
    ));
}

/// A key that is alone of its kind has its value.
proof fn lemma_value_of_key(table: LuaTable, i: int)
    requires
        fair(table),
        0 <= i < table.pairs.len(),
    ensures
        has_key(table.pairs, table.pairs[i].0),
        lookup(table.pairs, table.pairs[i].0) == table.pairs[i].1,
{
    let pairs = table.pairs;
    let key = pairs[i].0;
    let j = choose|j: int| 0 <= j < pairs.len() && (#[trigger] pairs[j]).0 == key;
    assert(table.pairs[i].0 == key);
    if i < j {
        assert(table.pairs[i].0 != table.pairs[j].0);
    } else if j < i {
        assert(table.pairs[j].0 != table.pairs[i].0);
    }
}

/// Tables that lie in the same place of two trees hold the same.
proof fn lemma_same_pairs(
    a: LuaHeap,
    ra: mlua::Table,
    b: LuaHeap,
    rb: mlua::Table,
    path: Keys,
    t: mlua::Table,
)
    requires
        tree(a, ra),
        tree(b, rb),
        same_below(a, ra, b, rb),
        walked(a, LuaValue::Table(ra), path) == LuaValue::Table(t),
    ensures
        b[counterparts(a, ra, b, rb)[t]].pairs.to_multiset() == renamed_pairs(
            counterparts(a, ra, b, rb),
            a[t].pairs,
        ).to_multiset(),
        forall|i: int|
            0 <= i < a[t].pairs.len() ==> covered(
                counterparts(a, ra, b, rb),
                (#[trigger] a[t].pairs[i]).0,
            ) && covered(counterparts(a, ra, b, rb), a[t].pairs[i].1),
{
    let m = counterparts(a, ra, b, rb);
    lemma_counterpart(a, ra, b, rb, path, t);
    let u = m[t];
    let p = a[t].pairs;
    let r = renamed_pairs(m, p);
    let q = b[u].pairs;
    let froma = LuaValue::Table(ra);
    let fromb = LuaValue::Table(rb);
    assert(fair(a[t]) && fair(b[u]));
    assert forall|i: int| 0 <= i < p.len() implies covered(m, (#[trigger] p[i]).0) && covered(
        m,
        p[i].1,
    ) && q.contains(r[i]) by {
        let (k, v) = p[i];
        lemma_value_of_key(a[t], i);
        lemma_walk_step(a, froma, path, k);
        lemma_walk_step(b, fromb, path, k);
        assert(walked(a, froma, path.push(k)) == v);
        assert(shape(walked(a, froma, path.push(k))) == shape(walked(b, fromb, path.push(k))));
        if let LuaValue::Table(w) = v {
            lemma_counterpart(a, ra, b, rb, path.push(k), w);
        }
        let found = lookup(q, k);
        assert(found == renamed(m, v));
        assert(!(found is Nil));
        assert(has_key(q, k));
        let j = choose|j: int| 0 <= j < q.len() && (#[trigger] q[j]).0 == k;
        lemma_value_of_key(b[u], j);
        assert(q[j] == r[i]);
    }
    assert forall|j: int| 0 <= j < q.len() implies r.contains(#[trigger] q[j]) by {
        let (k, v) = q[j];
        lemma_value_of_key(b[u], j);
        lemma_walk_step(a, froma, path, k);
        lemma_walk_step(b, fromb, path, k);
        assert(shape(walked(a, froma, path.push(k))) == shape(walked(b, fromb, path.push(k))));
        let found = lookup(p, k);
        assert(!(found is Nil));
        assert(has_key(p, k));
        let i = choose|i: int| 0 <= i < p.len() && (#[trigger] p[i]).0 == k;
        lemma_value_of_key(a[t], i);
        if let LuaValue::Table(w) = found {
            lemma_counterpart(a, ra, b, rb, path.push(k), w);
        }
        assert(!(p[i].0 is Table));
        assert(r[i] == q[j]);
    }
    assert(q.no_duplicates()) by {
        assert forall|i: int, j: int| 0 <= i < q.len() && 0 <= j < q.len() && i != j implies q[i]
            != q[j] by {
            if i < j {
                assert(b[u].pairs[i].0 != b[u].pairs[j].0);
            } else {
                assert(b[u].pairs[j].0 != b[u].pairs[i].0);
            }
        }
    }
    assert(r.no_duplicates()) by {
        assert forall|i: int, j: int| 0 <= i < r.len() && 0 <= j < r.len() && i != j implies r[i]
            != r[j] by {
            assert(!(p[i].0 is Table) && !(p[j].0 is Table));
            if i < j {
                assert(a[t].pairs[i].0 != a[t].pairs[j].0);
            } else {
                assert(a[t].pairs[j].0 != a[t].pairs[i].0);
            }
        }
    }
    lemma_single(q);
    lemma_single(r);
    assert forall|x: LuaPair| #[trigger] q.to_multiset().count(x) == r.to_multiset().count(x) by {
        if q.contains(x) {
            let j = choose|j: int| 0 <= j < q.len() && q[j] == x;
            assert(r.contains(q[j]));
        }
        if r.contains(x) {
            let i = choose|i: int| 0 <= i < r.len() && r[i] == x;
            assert(p[i] == p[i]);
            assert(q.contains(r[i]));
        }
    }
    assert(q.to_multiset() =~= r.to_multiset());
}

/// Trees that hold the same are printed the same.
pub proof fn law_same_trees_print_the_same(
    a: LuaHeap,
    ra: mlua::Table,
    b: LuaHeap,
    rb: mlua::Table,
)
    requires
        sound(a),
        sound(b),
        tree(a, ra),
        tree(b, rb),
        distinctly_keyed(a, ra),
        same_below(a, ra, b, rb),
    ensures
        module_text(a, ra) == module_text(b, rb),
{
    let m = counterparts(a, ra, b, rb);
    let none = Seq::<LuaValue>::empty();
    assert(walked(a, LuaValue::Table(ra), none) == LuaValue::Table(ra));
    assert(walked(b, LuaValue::Table(rb), none) == LuaValue::Table(rb));
    lemma_counterpart(a, ra, b, rb, none, ra);
    assert(m[ra] == rb);
    assert(m.is_injective()) by {
        assert forall|x: mlua::Table, y: mlua::Table|
            x != y && m.dom().contains(x) && m.dom().contains(y) implies #[trigger] m[x]
            != #[trigger] m[y] by {
            let p = choose|p: Keys|
                #[trigger] walked(a, LuaValue::Table(ra), p) == LuaValue::Table(x);
            let q = choose|q: Keys|
                #[trigger] walked(a, LuaValue::Table(ra), q) == LuaValue::Table(y);
            assert(lies_below(a, ra, x) && lies_below(a, ra, y));
            lemma_counterpart(a, ra, b, rb, p, x);
            lemma_counterpart(a, ra, b, rb, q, y);
        }
    }
    assert forall|t: mlua::Table| #[trigger] m.contains_key(t) implies {
        &&& a.contains_key(t)
        &&& b.contains_key(m[t])
        &&& all_covered(m, a[t].pairs)
        &&& distinct_forms(a[t].pairs)
        &&& b[m[t]].pairs.to_multiset() == renamed_pairs(m, a[t].pairs).to_multiset()
    } by {
        assert(lies_below(a, ra, t));
        let p = choose|p: Keys|
            #[trigger] walked(a, LuaValue::Table(ra), p) == LuaValue::Table(t);
        assert(walked(a, LuaValue::Table(ra), p) == LuaValue::Table(t));
        lemma_counterpart(a, ra, b, rb, p, t);
        lemma_same_pairs(a, ra, b, rb, p, t);
    }
    assert(mirrored(a, b, m));
    law_same_contents_print_the_same(a, b, m, ra);
}

/// A second run with the same edits prints the same: a state that holds what the first
/// run left, in whatever tables and order, is printed after the edits as the first one
/// was. Without edits that is printing what was printed.
pub proof fn law_a_second_run_prints_the_same(
    before: LuaHeap,
    root: mlua::Table,
    edits: Seq<(String, KeyValue)>,
    once: LuaHeap,
    again: LuaHeap,
    other: mlua::Table,
    twice: LuaHeap,
)
    requires
        tree(before, root),
        edited(before, root, edits_model(edits), once),
        sound(once),
        distinctly_keyed(once, root),
        tree(again, other),
        same_below(once, root, again, other),
        edited(again, other, edits_model(edits), twice),
        sound(again),
        sound(twice),
    ensures
        module_text(twice, other) == module_text(once, root),
        module_text(again, other) == module_text(once, root),
{
    law_edits_made_twice(before, root, edits, once, again, other, twice);
    law_same_trees_print_the_same(once, root, twice, other);
    law_same_trees_print_the_same(once, root, again, other);
}

// ---------------------------------------------------------------------------
// Printing in full
// ---------------------------------------------------------------------------

/// Whether a value has a literal: a truth value, a text, a number that is not infinite,
/// or a table.
pub open spec fn literal(value: LuaValue) -> bool {
    match value {
        LuaValue::Boolean(_) => true,
        LuaValue::Integer(_) => true,
        LuaValue::Number(text) => number_literal(number_form(text)),
        LuaValue::Text(_) => true,
        LuaValue::Table(_) => true,
        _ => false,
    }
}

/// Whether all that lies in the tables from `root` on has a literal.
pub open spec fn all_literal(heap: LuaHeap, root: mlua::Table) -> bool {
    forall|path: Keys, i: int|
        walked(heap, LuaValue::Table(root), path) is Table && 0 <= i < heap[#[trigger] walked(
            heap,
            LuaValue::Table(root),
            path,
        )->Table_0].pairs.len() ==> {
            let pair = #[trigger] heap[walked(
                heap,
                LuaValue::Table(root),
                path,
            )->Table_0].pairs[i];
            literal(pair.0) && literal(pair.1)
        }
}

/// The tables from `root` on.
pub open spec fn below(heap: LuaHeap, root: mlua::Table) -> Set<mlua::Table> {
    Set::new(|t: mlua::Table| lies_below(heap, root, t))
}

/// The keys of lines, with their values.
pub open spec fn line_pairs(lines: Seq<Line>) -> Seq<LuaPair> {
    Seq::new(lines.len(), |i: int| (lines[i].0->0, lines[i].1))
}

/// Whether lines are what a table holds, each pair once: the values of a list from 1 on,
/// and of any other table the keys with their values, in ascending order of the keys'
/// forms.
pub open spec fn complete(pairs: Seq<LuaPair>, lines: Seq<Line>) -> bool {
    &&& lines.len() == pairs.len()
    &&& if listed(pairs) {
        forall|i: int|
            0 <= i < pairs.len() ==> {
                &&& (#[trigger] lines[i]).0 is None
                &&& lines[i].1 == lookup(pairs, LuaValue::Integer((i + 1) as i32))
                &&& has_key(pairs, LuaValue::Integer((i + 1) as i32))
            }
    } else {
        &&& forall|i: int| 0 <= i < lines.len() ==> (#[trigger] lines[i]).0 is Some
        &&& line_pairs(lines).to_multiset() == pairs.to_multiset()
        &&& forall|i: int, j: int|
            0 <= i < j < lines.len() ==> precedes(
                key_form((#[trigger] lines[i]).0->0),
                key_form((#[trigger] lines[j]).0->0),
            )
    }
}

/// The tables on the way to the end of a path.
spec fn on_the_way(heap: LuaHeap, root: mlua::Table, path: Keys, above: Set<mlua::Table>) -> bool {
    forall|u: mlua::Table| #[trigger]
        above.contains(u) ==> exists|m: int|
            0 <= m < path.len() && #[trigger] walked(heap, LuaValue::Table(root), path.take(m))
                == LuaValue::Table(u)
}

/// A table of a tree is printed.
proof fn lemma_prints(
    heap: LuaHeap,
    root: mlua::Table,
    path: Keys,
    above: Set<mlua::Table>,
    t: mlua::Table,
    indent: Seq<char>,
)
    requires
        heap.dom().finite(),
        tree(heap, root),
        all_literal(heap, root),
        walked(heap, LuaValue::Table(root), path) == LuaValue::Table(t),
        on_the_way(heap, root, path, above),
    ensures
        value_text(heap, above, LuaValue::Table(t), indent) is Ok,
    decreases room(heap, above), 1nat, 0nat,
{
    let from = LuaValue::Table(root);
    if above.contains(t) {
        let m = choose|m: int|
            0 <= m < path.len() && #[trigger] walked(heap, from, path.take(m)) == LuaValue::Table(
                t,
            );
        assert(path.take(m) == path);
    }
    assert(heap.contains_key(t));
    let pairs = heap[t].pairs;
    if pairs.len() > 0 {
        lemma_room(heap, above, t);
        lemma_lines_print(
            heap,
            root,
            path,
            above.insert(t),
            t,
            indent + "\t"@,
            lines_of(pairs).len() as int,
        );
        assert(lines_of(pairs).take(lines_of(pairs).len() as int) =~= lines_of(pairs));
    }
}

/// What a line holds lies in the table.
proof fn lemma_line_of(table: LuaTable, i: int)
    requires
        fair(table),
        0 <= i < lines_of(table.pairs).len(),
    ensures
        match lines_of(table.pairs)[i] {
            (Some(key), value) => exists|j: int|
                0 <= j < table.pairs.len() && #[trigger] table.pairs[j] == (key, value),
            (None, value) => value is Nil || exists|j: int|
                0 <= j < table.pairs.len() && (#[trigger] table.pairs[j]).1 == value,
        },
{
    let pairs = table.pairs;
    if listed(pairs) {
        let key = LuaValue::Integer((i + 1) as i32);
        if has_key(pairs, key) {
            let j = choose|j: int| 0 <= j < pairs.len() && (#[trigger] pairs[j]).0 == key;
            lemma_value_of_key(table, j);
            assert(table.pairs[j].1 == lookup(pairs, key));
        }
    } else {
        let turn = in_turn(pairs);
        law_in_turn_is_sorted(pairs);
        pairs.to_multiset_ensures();
        turn.to_multiset_ensures();
        assert(turn.contains(turn[i]));
        assert(pairs.to_multiset().count(turn[i]) > 0);
        assert(pairs.contains(turn[i]));
        let j = choose|j: int| 0 <= j < pairs.len() && pairs[j] == turn[i];
        assert(table.pairs[j] == (turn[i].0, turn[i].1));
    }
}

/// The first lines of a table of a tree are printed.
proof fn lemma_lines_print(
    heap: LuaHeap,
    root: mlua::Table,
    path: Keys,
    above: Set<mlua::Table>,
    t: mlua::Table,
    indent: Seq<char>,
    n: int,
)
    requires
        heap.dom().finite(),
        tree(heap, root),
        all_literal(heap, root),
        walked(heap, LuaValue::Table(root), path) == LuaValue::Table(t),
        forall|u: mlua::Table| #[trigger]
            above.contains(u) ==> u == t || exists|m: int|
                0 <= m < path.len() && #[trigger] walked(
                    heap,
                    LuaValue::Table(root),
                    path.take(m),
                ) == LuaValue::Table(u),
        0 <= n <= lines_of(heap[t].pairs).len(),
    ensures
        lines_text(heap, above, lines_of(heap[t].pairs).take(n), indent) is Ok,
    decreases room(heap, above), 2nat, n,
{
    let from = LuaValue::Table(root);
    let pairs = heap[t].pairs;
    let lines = lines_of(pairs);
    if n > 0 {
        let upto = lines.take(n);
        let line = lines[n - 1];
        lemma_lines_print(heap, root, path, above, t, indent, n - 1);
        assert(upto.drop_last() =~= lines.take(n - 1));
        assert(upto.last() == line);
        assert(fair(heap[t]));
        lemma_line_of(heap[t], n - 1);
        if !(line.1 is Nil) {
            let j = choose|j: int|
                0 <= j < pairs.len() && (#[trigger] heap[t].pairs[j]).1 == line.1 && (
                line.0 matches Some(key) ==> heap[t].pairs[j].0 == key);
            assert(0 <= j < pairs.len() && heap[t].pairs[j].1 == line.1);
            let key = pairs[j].0;
            assert(heap[walked(heap, from, path)->Table_0].pairs[j] == pairs[j]);
            assert(literal(line.1) && literal(key));
            assert(!(key is Table));
            if let LuaValue::Table(u) = line.1 {
                lemma_value_of_key(heap[t], j);
                lemma_walk_step(heap, from, path, key);
                let further = path.push(key);
                assert(on_the_way(heap, root, further, above)) by {
                    assert forall|w: mlua::Table| #[trigger] above.contains(w) implies exists|m: int|
                        0 <= m < further.len() && #[trigger] walked(heap, from, further.take(m))
                            == LuaValue::Table(w) by {
                        if w == t {
                            assert(further.take(path.len() as int) =~= path);
                        } else {
                            let m = choose|m: int|
                                0 <= m < path.len() && #[trigger] walked(heap, from, path.take(m))
                                    == LuaValue::Table(w);
                            assert(further.take(m) =~= path.take(m));
                        }
                    }
                }
                lemma_prints(heap, root, further, above, u, indent);
            }
            assert(value_text(heap, above, line.1, indent) is Ok);
            if let Some(k) = line.0 {
                assert(k == key);
                assert(value_text(heap, above, k, indent) is Ok);
                assert(key_text(heap, above, k, indent) is Ok);
            }
        } else if line.0 is Some {
            let j = choose|j: int|
                0 <= j < pairs.len() && #[trigger] heap[t].pairs[j] == (line.0->0, line.1);
            assert(!(heap[t].pairs[j].1 is Nil));
        } else {
            assert(value_text(heap, above, line.1, indent) is Ok);
        }
    }
}

/// A tree with literals for all that it holds is printed. What is printed is read back as
/// the tree, each pair of each table is printed once, and the keys of a table that is no
/// list come in ascending order, whatever the order in which it is walked.
pub proof fn law_a_tree_is_printed_in_full(heap: LuaHeap, root: mlua::Table)
    requires
        sound(heap),
        tree(heap, root),
        all_literal(heap, root),
        distinctly_keyed(heap, root),
    ensures
        module_text(heap, root) is Ok,
        read_module(module_text(heap, root)->Ok_0) == Some(
            spelled(heap, Set::empty(), LuaValue::Table(root)),
        ),
        forall|t: mlua::Table| #[trigger]
            below(heap, root).contains(t) ==> complete(heap[t].pairs, lines_of(heap[t].pairs)),
        heap[root].pairs.len() == 0 ==> module_text(heap, root)->Ok_0 == "return "@ + "{}"@
            + "\n"@,
{
    let from = LuaValue::Table(root);
    let none = Seq::<LuaValue>::empty();
    let within = below(heap, root);
    assert(walked(heap, from, none) == from);
    assert(lies_below(heap, root, root));
    assert(on_the_way(heap, root, none, Set::empty()));
    lemma_prints(heap, root, none, Set::empty(), root, Seq::empty());
    assert(all_legible(heap, within)) by {
        assert forall|t: mlua::Table, i: int|
            within.contains(t) && 0 <= i < heap[t].pairs.len() implies legible(
            within,
            (#[trigger] heap[t].pairs[i]).0,
        ) && legible(within, heap[t].pairs[i].1) by {
            let path = choose|path: Keys| #[trigger] walked(heap, from, path) == LuaValue::Table(t);
            assert(walked(heap, from, path) == LuaValue::Table(t));
            assert(heap[walked(heap, from, path)->Table_0].pairs[i] == heap[t].pairs[i]);
            assert(fair(heap[t]));
            if let LuaValue::Table(u) = heap[t].pairs[i].1 {
                lemma_value_of_key(heap[t], i);
                lemma_walk_step(heap, from, path, heap[t].pairs[i].0);
                assert(lies_below(heap, root, u));
            }
        }
    }
    law_a_printed_module_reads_back(heap, within, root);
    assert forall|t: mlua::Table| #[trigger] within.contains(t) implies complete(
        heap[t].pairs,
        lines_of(heap[t].pairs),
    ) by {
        let path = choose|path: Keys| #[trigger] walked(heap, from, path) == LuaValue::Table(t);
        assert(walked(heap, from, path) == LuaValue::Table(t));
        lemma_complete(heap[t]);
    }
}

/// The lines of a table are what it holds.
proof fn lemma_complete(table: LuaTable)
    requires
        fair(table),
        distinct_forms(table.pairs),
    ensures
        complete(table.pairs, lines_of(table.pairs)),
{
    let pairs = table.pairs;
    let lines = lines_of(pairs);
    if listed(pairs) {
        assert forall|i: int| 0 <= i < pairs.len() implies {
            &&& (#[trigger] lines[i]).0 is None
            &&& lines[i].1 == lookup(pairs, LuaValue::Integer((i + 1) as i32))
            &&& has_key(pairs, LuaValue::Integer((i + 1) as i32))
        } by {
            law_a_list_has_every_place(pairs, i + 1);
        }
        assert(complete(pairs, lines));
    } else {
        let turn = in_turn(pairs);
        law_in_turn_is_sorted(pairs);
        lemma_distinct_forms_kept(pairs, turn);
        assert(line_pairs(lines) =~= turn);
        assert forall|i: int, j: int| 0 <= i < j < lines.len() implies precedes(
            key_form((#[trigger] lines[i]).0->0),
            key_form((#[trigger] lines[j]).0->0),
        ) by {
            assert(!earlier(turn[j], turn[i]));
            assert(key_form(turn[i].0) != key_form(turn[j].0));
            lemma_precedes_total(key_form(turn[i].0), key_form(turn[j].0));
        }
        assert forall|i: int| 0 <= i < lines.len() implies (#[trigger] lines[i]).0 is Some by {}
        assert(complete(pairs, lines));
    }
}

// ---------------------------------------------------------------------------
// Evaluating what was printed
// ---------------------------------------------------------------------------

/// What is no table is written as a literal that stands for it.
proof fn lemma_scalar_literal(
    heap: LuaHeap,
    above: Set<mlua::Table>,
    value: LuaValue,
    rest: Keys,
)
    requires
        literal(value),
        !(value is Table),
        canonical(value),
    ensures
        stands_for(spelled(heap, above, value)) == Some(value),
        !(spelled(heap, above, value) is Nil),
        !(spelled(heap, above, value) is Table),
        clear(spelled(heap, above, value)),
        written_at(spelled(heap, above, value), rest) == shape(walked(heap, value, rest)),
        value == LuaValue::Integer(0) ==> spelled(heap, above, value) == Literal::Number("0"@),
{
    if let LuaValue::Integer(i) = value {
        law_int_text_reads_back(i as int, i32::MIN as int, i32::MAX as int);
        reveal_strlit("0");
        assert(i == 0 ==> int_text(0) =~= "0"@);
    }
    if let LuaValue::Number(text) = value {
        assert(text != "-0"@) by {
            reveal_strlit("-0");
            assert("-0"@.skip(1) =~= seq!['0']);
            reveal_with_fuel(digits_value, 2);
            assert(parsed_int("-0"@, i32::MIN as int, i32::MAX as int) == Some(0int));
        }
    }
}

/// A table of a tree is written as a literal that says what it holds.
proof fn lemma_table_literal(
    heap: LuaHeap,
    root: mlua::Table,
    path: Keys,
    above: Set<mlua::Table>,
    t: mlua::Table,
)
    requires
        sound(heap),
        tree(heap, root),
        all_literal(heap, root),
        distinctly_keyed(heap, root),
        walked(heap, LuaValue::Table(root), path) == LuaValue::Table(t),
        on_the_way(heap, root, path, above),
    ensures
        spelled(heap, above, LuaValue::Table(t)) is Table,
        clear(spelled(heap, above, LuaValue::Table(t))),
        forall|rest: Keys|
            #[trigger] written_at(spelled(heap, above, LuaValue::Table(t)), rest) == shape(
                walked(heap, LuaValue::Table(t), rest),
            ),
    decreases room(heap, above), 0nat,
{
    let from = LuaValue::Table(root);
    if above.contains(t) {
        let m = choose|m: int|
            0 <= m < path.len() && #[trigger] walked(heap, from, path.take(m)) == LuaValue::Table(
                t,
            );
        assert(path.take(m) == path);
    }
    assert(heap.contains_key(t) && fair(heap[t]));
    lemma_room(heap, above, t);
    let inside = above.insert(t);
    let pairs = heap[t].pairs;
    let lines = lines_of(pairs);
    law_a_tree_is_printed_in_full(heap, root);
    assert(lies_below(heap, root, t));
    assert(below(heap, root).contains(t));
    assert(complete(pairs, lines));
    let whole = spelled(heap, above, LuaValue::Table(t));
    let fields = spelled_lines(heap, inside, lines);
    assert(whole == Literal::Table(fields));
    let of = |i: int|
        match lines[i].0 {
            Some(key) => key,
            None => LuaValue::Integer((i + 1) as i32),
        };
    assert forall|i: int| 0 <= i < fields.len() implies {
        &&& #[trigger] field_key(fields, i) == Some(of(i))
        &&& !(of(i) is Nil)
        &&& fields[i].0 is None == listed(pairs)
        &&& of(i) == LuaValue::Integer(0) ==> fields[i].0 == Some(Literal::Number("0"@))
        &&& has_key(pairs, of(i))
        &&& lookup(pairs, of(i)) == lines[i].1
        &&& !(fields[i].1 is Nil)
        &&& clear(fields[i].1)
        &&& forall|rest: Keys|
            #[trigger] written_at(fields[i].1, rest) == shape(walked(heap, lines[i].1, rest))
    } by {
        lemma_field(heap, root, path, inside, t, i);
    }
    assert forall|i: int, j: int| 0 <= i < j < fields.len() implies #[trigger] field_key(fields, i)
        != #[trigger] field_key(fields, j) by {
        if !listed(pairs) {
            assert(lines[i].0 is Some && lines[j].0 is Some);
            assert(precedes(key_form(lines[i].0->0), key_form(lines[j].0->0)));
            lemma_precedes_irreflexive(key_form(lines[i].0->0));
        }
    }
    assert(clear(whole)) by {
        assert forall|i: int| 0 <= i < fields.len() implies {
            &&& (#[trigger] fields[i]).0 is None == fields[0].0 is None
            &&& field_key(fields, i) is Some
            &&& !(field_key(fields, i)->0 is Nil)
            &&& field_key(fields, i) == Some(LuaValue::Integer(0)) ==> fields[i].0 == Some(
                Literal::Number("0"@),
            )
            &&& !(fields[i].1 is Nil)
            &&& clear(fields[i].1)
        } by {
            assert(field_key(fields, i) == Some(of(i)));
            assert(field_key(fields, 0) == Some(of(0)));
        }
        assert(fields.len() > 0 ==> field_key(fields, 0) == Some(of(0)));
    }
    assert forall|rest: Keys| #[trigger] written_at(whole, rest) == shape(
        walked(heap, LuaValue::Table(t), rest),
    ) by {
        if rest.len() > 0 {
            if has_key(pairs, rest[0]) {
                let i = lemma_key_has_line(heap[t], rest[0]);
                assert(field_key(fields, i) == Some(of(i)));
                let k = choose|k: int|
                    0 <= k < fields.len() && #[trigger] field_key(fields, k) == Some(rest[0]);
                assert(field_key(fields, k) == Some(rest[0]));
                if i < k {
                    assert(field_key(fields, i) != field_key(fields, k));
                } else if k < i {
                    assert(field_key(fields, k) != field_key(fields, i));
                }
                assert(written_at(fields[i].1, rest.skip(1)) == shape(
                    walked(heap, lines[i].1, rest.skip(1)),
                ));
            } else {
                assert forall|k: int| 0 <= k < fields.len() implies #[trigger] field_key(fields, k)
                    != Some(rest[0]) by {
                    assert(has_key(pairs, of(k)));
                }
                lemma_walk_nowhere(heap, rest.skip(1));
            }
        }
    }
}

/// Every key of a table has its line.
proof fn lemma_key_has_line(table: LuaTable, key: LuaValue) -> (i: int)
    requires
        fair(table),
        complete(table.pairs, lines_of(table.pairs)),
        has_key(table.pairs, key),
    ensures
        0 <= i < lines_of(table.pairs).len(),
        match lines_of(table.pairs)[i].0 {
            Some(k) => k == key,
            None => LuaValue::Integer((i + 1) as i32) == key,
        },
{
    let pairs = table.pairs;
    let lines = lines_of(pairs);
    let j = choose|j: int| 0 <= j < pairs.len() && (#[trigger] pairs[j]).0 == key;
    if listed(pairs) {
        assert(pairs[j].0 is Integer);
        let i = pairs[j].0->Integer_0 - 1;
        assert(lines[i].0 is None);
        i
    } else {
        let all = line_pairs(lines);
        pairs.to_multiset_ensures();
        all.to_multiset_ensures();
        assert(pairs.contains(pairs[j]));
        assert(all.to_multiset().count(pairs[j]) > 0);
        assert(all.contains(pairs[j]));
        let i = choose|i: int| 0 <= i < all.len() && all[i] == pairs[j];
        assert(lines[i].0 is Some);
        i
    }
}

/// What the field for a line of a table says.
proof fn lemma_field(
    heap: LuaHeap,
    root: mlua::Table,
    path: Keys,
    inside: Set<mlua::Table>,
    t: mlua::Table,
    i: int,
)
    requires
        sound(heap),
        tree(heap, root),
        all_literal(heap, root),
        distinctly_keyed(heap, root),
        walked(heap, LuaValue::Table(root), path) == LuaValue::Table(t),
        complete(heap[t].pairs, lines_of(heap[t].pairs)),
        0 <= i < lines_of(heap[t].pairs).len(),
        forall|u: mlua::Table| #[trigger]
            inside.contains(u) ==> u == t || exists|m: int|
                0 <= m < path.len() && #[trigger] walked(
                    heap,
                    LuaValue::Table(root),
                    path.take(m),
                ) == LuaValue::Table(u),
    ensures
        ({
            let pairs = heap[t].pairs;
            let line = lines_of(pairs)[i];
            let fields = spelled_lines(heap, inside, lines_of(pairs));
            let key = match line.0 {
                Some(key) => key,
                None => LuaValue::Integer((i + 1) as i32),
            };
            &&& field_key(fields, i) == Some(key)
            &&& !(key is Nil)
            &&& fields[i].0 is None == listed(pairs)
            &&& key == LuaValue::Integer(0) ==> fields[i].0 == Some(Literal::Number("0"@))
            &&& has_key(pairs, key)
            &&& lookup(pairs, key) == line.1
            &&& !(fields[i].1 is Nil)
            &&& clear(fields[i].1)
            &&& forall|rest: Keys|
                #[trigger] written_at(fields[i].1, rest) == shape(walked(heap, line.1, rest))
        }),
    decreases room(heap, inside), 1nat,
{
    let from = LuaValue::Table(root);
    let pairs = heap[t].pairs;
    let lines = lines_of(pairs);
    let line = lines[i];
    let fields = spelled_lines(heap, inside, lines);
    assert(heap.contains_key(t) && fair(heap[t]));
    let key = match line.0 {
        Some(key) => key,
        None => LuaValue::Integer((i + 1) as i32),
    };
    let j = if listed(pairs) {
        assert(line.0 is None);
        choose|j: int| 0 <= j < pairs.len() && (#[trigger] pairs[j]).0 == key
    } else {
        assert(line.0 is Some);
        lemma_line_of(heap[t], i);
        choose|j: int| 0 <= j < pairs.len() && #[trigger] heap[t].pairs[j] == (key, line.1)
    };
    lemma_value_of_key(heap[t], j);
    assert(heap[t].pairs[j] == (key, line.1));
    assert(heap[walked(heap, from, path)->Table_0].pairs[j] == pairs[j]);
    assert(literal(key) && literal(line.1));
    assert(canonical(heap[t].pairs[j].0) && canonical(heap[t].pairs[j].1));
    assert(!(key is Table) && !(line.1 is Nil));
    if line.0 is Some {
        lemma_scalar_literal(heap, inside, key, Seq::empty());
    }
    if let LuaValue::Table(u) = line.1 {
        lemma_walk_step(heap, from, path, key);
        let further = path.push(key);
        assert(on_the_way(heap, root, further, inside)) by {
            assert forall|w: mlua::Table| #[trigger] inside.contains(w) implies exists|m: int|
                0 <= m < further.len() && #[trigger] walked(heap, from, further.take(m))
                    == LuaValue::Table(w) by {
                if w == t {
                    assert(further.take(path.len() as int) =~= path);
                } else {
                    let m = choose|m: int|
                        0 <= m < path.len() && #[trigger] walked(heap, from, path.take(m))
                            == LuaValue::Table(w);
                    assert(further.take(m) =~= path.take(m));
                }
            }
        }
        lemma_table_literal(heap, root, further, inside, u);
    } else {
        assert forall|rest: Keys| #[trigger] written_at(fields[i].1, rest) == shape(
            walked(heap, line.1, rest),
        ) by {
            lemma_scalar_literal(heap, inside, line.1, rest);
        }
        lemma_scalar_literal(heap, inside, line.1, Seq::empty());
    }
}

/// What was printed evaluates to what was printed: where Luau runs it at all, it comes to
/// a tree that holds the same.
pub proof fn law_what_is_printed_evaluates_to_it(
    heap: LuaHeap,
    root: mlua::Table,
    name: Seq<char>,
    again: LuaHeap,
    value: LuaValue,
)
    requires
        sound(heap),
        tree(heap, root),
        all_literal(heap, root),
        distinctly_keyed(heap, root),
        evaluates(name, module_text(heap, root)->Ok_0, Evaluation::Returns(again, value)),
    ensures
        module_text(heap, root) is Ok,
        value matches LuaValue::Table(other) && tree(again, other) && same_below(
            heap,
            root,
            again,
            other,
        ),
{
    let text = module_text(heap, root)->Ok_0;
    law_a_tree_is_printed_in_full(heap, root);
    let none = Seq::<LuaValue>::empty();
    assert(walked(heap, LuaValue::Table(root), none) == LuaValue::Table(root));
    assert(on_the_way(heap, root, none, Set::empty()));
    lemma_table_literal(heap, root, none, Set::empty(), root);
    assert(!compiled(text)) by {
        reveal_strlit("return ");
        assert(text[0] == 'r');
    }
    let said = spelled(heap, Set::empty(), LuaValue::Table(root));
    assert(literally(again, value, said));
    let other = value->Table_0;
    assert forall|path: Keys|
        shape(#[trigger] walked(heap, LuaValue::Table(root), path)) == shape(
            walked(again, LuaValue::Table(other), path),
        ) by {
        assert(written_at(said, path) == shape(walked(heap, LuaValue::Table(root), path)));
        assert(shape(walked(again, value, path)) == written_at(said, path));
    }
}

/// Printing a tree with literals for all that it holds, whose keys are printed apart, fails
/// only where the runtime does. The text that it gives is read as the tree, and evaluates
/// to one that holds the same. Each pair of each table is in it once, and the keys of a table
/// that is no list come in ascending order.
pub proof fn law_printing_a_tree(
    heap: LuaHeap,
    root: mlua::Table,
    r: Result<String, PrintError>,
)
    requires
        sound(heap),
        tree(heap, root),
        all_literal(heap, root),
        distinctly_keyed(heap, root),
        agrees(heap, root, r, module_text(heap, root)),
    ensures
        match r {
            Ok(text) => {
                &&& read_module(text@) == Some(spelled(heap, Set::empty(), LuaValue::Table(root)))
                &&& forall|name: Seq<char>, again: LuaHeap, value: LuaValue|
                    #[trigger] evaluates(name, text@, Evaluation::Returns(again, value)) ==> {
                        &&& value matches LuaValue::Table(other)
                        &&& tree(again, other)
                        &&& same_below(heap, root, again, other)
                    }
            },
            Err(e) => e is Lua || e is Crowded,
        },
        forall|t: mlua::Table| #[trigger]
            below(heap, root).contains(t) ==> complete(heap[t].pairs, lines_of(heap[t].pairs)),
{
    law_a_tree_is_printed_in_full(heap, root);
    if let Ok(text) = r {
        assert forall|name: Seq<char>, again: LuaHeap, value: LuaValue|
            #[trigger] evaluates(name, text@, Evaluation::Returns(again, value)) implies {
            &&& value matches LuaValue::Table(other)
            &&& tree(again, other)
            &&& same_below(heap, root, again, other)
        } by {
            law_what_is_printed_evaluates_to_it(heap, root, name, again, value);
        }
    }
}

/// A module that was rewritten is rewritten to itself: a second run with the same edits
/// gives the same text, and so does one without edits. It fails only where the runtime
/// does. `before` is what the module came to, `once` what the edits made of it, and `out`
/// the text that was printed.
pub proof fn law_a_second_run_gives_the_same_text(
    before: LuaHeap,
    root: mlua::Table,
    edits: Seq<(String, KeyValue)>,
    once: LuaHeap,
    out: String,
    more: Seq<(String, KeyValue)>,
    r: Result<String, KeysError>,
)
    requires
        tree(before, root),
        edited(before, root, edits_model(edits), once),
        sound(once),
        all_literal(once, root),
        distinctly_keyed(once, root),
        agrees(once, root, Ok(out), module_text(once, root)),
        more == edits || more.len() == 0,
        may_rewrite(out@, edits_model(more), r),
    ensures
        match r {
            Ok(text) => text@ == out@,
            Err(KeysError::NotATable) => false,
            Err(KeysError::Print(e)) => e is Lua || e is Crowded,
            Err(_) => true,
        },
{
    let printed = out@;
    law_edits_decide(before, root, edits, once);
    law_a_tree_is_printed_in_full(once, root);
    let outcome = choose|outcome: Evaluation|
        {
            &&& #[trigger] evaluates("module"@, printed, outcome)
            &&& concluded(outcome, edits_model(more), r)
        };
    assert(!compiled(printed)) by {
        reveal_strlit("return ");
        assert(printed[0] == 'r');
    }
    if let Evaluation::Returns(again, value) = outcome {
        law_what_is_printed_evaluates_to_it(once, root, "module"@, again, value);
        let other = value->Table_0;
        if r is Ok || r->Err_0 is Print {
            let printed_again: Result<String, PrintError> = match r {
                Ok(text) => Ok(text),
                Err(e) => Err(e->Print_0),
            };
            let twice = choose|twice: LuaHeap|
                {
                    &&& #[trigger] edited(again, other, edits_model(more), twice)
                    &&& sound(twice)
                    &&& agrees(twice, other, printed_again, module_text(twice, other))
                };
            if more.len() == 0 {
                assert(twice == again);
                law_same_trees_print_the_same(once, root, again, other);
            } else {
                law_a_second_run_prints_the_same(before, root, edits, once, again, other, twice);
            }
        }
    }
}

} // verus!
