//! What holds of printing and editing Luau tables as a whole.

use crate::lua::{addressable, empty_table, has_key, lookup, settled, settles_as, sound, stored};
use crate::lua::{odd_name, other_key, reads_as_zero, telling, without, LuaHeap, LuaValue};
use crate::luau_edit::{branched, edited, key_of, placed, Edit};
use crate::luau_order::{distinct_forms, in_turn, key_form, law_in_turn_forgets_the_walk};
use crate::luau_order::{earlier, law_in_turn_is_sorted, lemma_distinct_forms_kept, slotted, LuaPair};
use crate::luau_print::{key_text, lemma_lookup, lemma_room, lines_of, lines_text};
use crate::luau_print::{listed, module_text, room, value_text, Line, Refusal};
use crate::luau_text::{escapes, identifier, quoted};
use crate::text::{int_text, join, parsed_int, precedes, split};
use vstd::prelude::*;

verus! {

// ---------------------------------------------------------------------------
// Printing
// ---------------------------------------------------------------------------

/// Which table of one state stands for which table of another.
pub type Renaming = Map<mlua::Table, mlua::Table>;

/// A value of one state, in the other.
pub open spec fn renamed(m: Renaming, value: LuaValue) -> LuaValue {
    match value {
        LuaValue::Table(t) => LuaValue::Table(m[t]),
        _ => value,
    }
}

/// Pairs of one state, in the other.
pub open spec fn renamed_pairs(m: Renaming, pairs: Seq<LuaPair>) -> Seq<LuaPair> {
    Seq::new(pairs.len(), |i: int| (renamed(m, pairs[i].0), renamed(m, pairs[i].1)))
}

/// Whether a value can be carried over.
pub open spec fn covered(m: Renaming, value: LuaValue) -> bool {
    value matches LuaValue::Table(t) ==> m.contains_key(t)
}

/// Whether all that the pairs hold can be carried over.
pub open spec fn all_covered(m: Renaming, pairs: Seq<LuaPair>) -> bool {
    forall|i: int|
        0 <= i < pairs.len() ==> covered(m, (#[trigger] pairs[i]).0) && covered(m, pairs[i].1)
}

/// Whether the tables that `m` names hold the same in both states, each walked in
/// whatever order, and no two keys of a table have one form.
pub open spec fn mirrored(a: LuaHeap, b: LuaHeap, m: Renaming) -> bool {
    &&& sound(a)
    &&& sound(b)
    &&& m.is_injective()
    &&& forall|t: mlua::Table| #[trigger]
        m.contains_key(t) ==> {
            &&& a.contains_key(t)
            &&& b.contains_key(m[t])
            &&& all_covered(m, a[t].pairs)
            &&& distinct_forms(a[t].pairs)
            &&& b[m[t]].pairs.to_multiset() == renamed_pairs(m, a[t].pairs).to_multiset()
        }
}

/// Tables that hold the same are printed the same: neither the order in which they
/// are walked nor where they lie shows in the text.
pub proof fn law_same_contents_print_the_same(
    a: LuaHeap,
    b: LuaHeap,
    m: Renaming,
    root: mlua::Table,
)
    requires
        mirrored(a, b, m),
        m.contains_key(root),
    ensures
        module_text(a, root) == module_text(b, m[root]),
{
    lemma_same_value(a, b, m, Set::empty(), LuaValue::Table(root), Seq::empty());
    assert(image(m, Set::empty()) =~= Set::<mlua::Table>::empty());
}

/// The tables that stand for the tables of a set.
pub open spec fn image(m: Renaming, above: Set<mlua::Table>) -> Set<mlua::Table> {
    above.map(|t: mlua::Table| m[t])
}

/// Lines of one state, in the other.
pub open spec fn renamed_lines(m: Renaming, lines: Seq<Line>) -> Seq<Line> {
    Seq::new(
        lines.len(),
        |i: int|
            (
                match lines[i].0 {
                    Some(k) => Some(renamed(m, k)),
                    None => None,
                },
                renamed(m, lines[i].1),
            ),
    )
}

/// Whether all that the lines hold can be carried over.
pub open spec fn lines_covered(m: Renaming, lines: Seq<Line>) -> bool {
    forall|i: int|
        0 <= i < lines.len() ==> {
            &&& (#[trigger] lines[i]).0 matches Some(k) ==> covered(m, k)
            &&& covered(m, lines[i].1)
        }
}

proof fn lemma_same_value(
    a: LuaHeap,
    b: LuaHeap,
    m: Renaming,
    above: Set<mlua::Table>,
    value: LuaValue,
    indent: Seq<char>,
)
    requires
        mirrored(a, b, m),
        above.subset_of(m.dom()),
        covered(m, value),
    ensures
        value_text(a, above, value, indent) == value_text(
            b,
            image(m, above),
            renamed(m, value),
            indent,
        ),
    decreases room(a, above), 0nat, 0nat,
{
    if let LuaValue::Table(t) = value {
        let f = |t: mlua::Table| m[t];
        if above.contains(t) {
            assert(image(m, above).contains(f(t)));
        } else {
            assert(!image(m, above).contains(m[t])) by {
                if image(m, above).contains(m[t]) {
                    let s = choose|s: mlua::Table| #[trigger] above.contains(s) && m[t] == f(s);
                    assert(m.contains_key(s) && m.contains_key(t) && m[s] == m[t]);
                }
            }
            lemma_same_lines_of(a, b, m, t);
            let p = a[t].pairs;
            let q = b[m[t]].pairs;
            p.to_multiset_ensures();
            q.to_multiset_ensures();
            renamed_pairs(m, p).to_multiset_ensures();
            assert(p.len() == q.len());
            if p.len() > 0 {
                lemma_room(a, above, t);
                above.lemma_set_map_insert_commute(t, f);
                assert(image(m, above.insert(t)) == image(m, above).insert(m[t]));
                lemma_same_lines(a, b, m, above.insert(t), lines_of(p), indent + "\t"@);
            }
        }
    }
}

proof fn lemma_same_key(
    a: LuaHeap,
    b: LuaHeap,
    m: Renaming,
    above: Set<mlua::Table>,
    key: LuaValue,
    indent: Seq<char>,
)
    requires
        mirrored(a, b, m),
        above.subset_of(m.dom()),
        covered(m, key),
    ensures
        key_text(a, above, key, indent) == key_text(b, image(m, above), renamed(m, key), indent),
    decreases room(a, above), 1nat, 0nat,
{
    lemma_same_value(a, b, m, above, key, indent);
}

proof fn lemma_same_lines(
    a: LuaHeap,
    b: LuaHeap,
    m: Renaming,
    above: Set<mlua::Table>,
    lines: Seq<Line>,
    indent: Seq<char>,
)
    requires
        mirrored(a, b, m),
        above.subset_of(m.dom()),
        lines_covered(m, lines),
    ensures
        lines_text(a, above, lines, indent) == lines_text(
            b,
            image(m, above),
            renamed_lines(m, lines),
            indent,
        ),
    decreases room(a, above), 2nat, lines.len(),
{
    if lines.len() > 0 {
        let front = lines.drop_last();
        assert forall|i: int| 0 <= i < front.len() implies {
            &&& (#[trigger] front[i]).0 matches Some(k) ==> covered(m, k)
            &&& covered(m, front[i].1)
        } by {
            assert(front[i] == lines[i]);
        }
        lemma_same_lines(a, b, m, above, front, indent);
        assert(renamed_lines(m, lines).drop_last() =~= renamed_lines(m, front));
        assert(lines[lines.len() - 1] == lines.last());
        lemma_same_value(a, b, m, above, lines.last().1, indent);
        if let Some(k) = lines.last().0 {
            lemma_same_key(a, b, m, above, k, indent);
        }
    } else {
        assert(renamed_lines(m, lines) =~= Seq::<Line>::empty());
    }
}

/// The lines of tables that hold the same.
proof fn lemma_same_lines_of(a: LuaHeap, b: LuaHeap, m: Renaming, t: mlua::Table)
    requires
        mirrored(a, b, m),
        m.contains_key(t),
    ensures
        lines_of(b[m[t]].pairs) == renamed_lines(m, lines_of(a[t].pairs)),
        lines_covered(m, lines_of(a[t].pairs)),
{
    let p = a[t].pairs;
    let r = renamed_pairs(m, p);
    let q = b[m[t]].pairs;
    assert(all_covered(m, p));
    assert forall|i: int, j: int| 0 <= i < j < r.len() implies key_form((#[trigger] r[i]).0)
        != key_form((#[trigger] r[j]).0) by {
        assert(key_form(p[i].0) != key_form(p[j].0));
    }
    lemma_listed_kept(r, q);
    assert(listed(p) == listed(r)) by {
        if listed(p) {
            assert forall|i: int| 0 <= i < r.len() implies {
                &&& (#[trigger] r[i]).0 is Integer
                &&& 1 <= r[i].0->Integer_0 <= r.len()
            } by {
                assert(p[i].0 is Integer);
            }
        }
        if listed(r) {
            assert forall|i: int| 0 <= i < p.len() implies {
                &&& (#[trigger] p[i]).0 is Integer
                &&& 1 <= p[i].0->Integer_0 <= p.len()
            } by {
                assert(r[i].0 is Integer);
            }
        }
    }
    let lp = lines_of(p);
    let lq = lines_of(q);
    r.to_multiset_ensures();
    q.to_multiset_ensures();
    if listed(p) {
        assert forall|i: int| 0 <= i < lp.len() implies {
            &&& (#[trigger] lp[i]).0 is None
            &&& covered(m, lp[i].1)
            &&& lq[i] == (None::<LuaValue>, renamed(m, lp[i].1))
        } by {
            let key = LuaValue::Integer((i + 1) as i32);
            lemma_lookup_kept(r, q, key);
            lemma_lookup_renamed(m, p, key);
        }
        assert(lq =~= renamed_lines(m, lp));
    } else {
        law_in_turn_forgets_the_walk(r, q);
        lemma_in_turn_renamed(m, p);
        law_in_turn_is_sorted(p);
        law_in_turn_is_sorted(q);
        lemma_covered_kept(m, p, in_turn(p));
        assert forall|i: int| 0 <= i < lp.len() implies {
            &&& (#[trigger] lp[i]).0 matches Some(k) ==> covered(m, k)
            &&& covered(m, lp[i].1)
        } by {
            assert(covered(m, in_turn(p)[i].0));
        }
        assert(lq =~= renamed_lines(m, lp));
    }
}

/// What can be carried over does not depend on the order.
proof fn lemma_covered_kept(m: Renaming, p: Seq<LuaPair>, q: Seq<LuaPair>)
    requires
        all_covered(m, p),
        p.to_multiset() == q.to_multiset(),
    ensures
        all_covered(m, q),
{
    p.to_multiset_ensures();
    q.to_multiset_ensures();
    assert forall|i: int| 0 <= i < q.len() implies covered(m, (#[trigger] q[i]).0) && covered(
        m,
        q[i].1,
    ) by {
        assert(q.contains(q[i]));
        assert(p.to_multiset().count(q[i]) > 0);
        assert(p.contains(q[i]));
    }
}

/// Whether a table is a list does not depend on the order in which it is walked.
proof fn lemma_listed_kept(p: Seq<LuaPair>, q: Seq<LuaPair>)
    requires
        p.to_multiset() == q.to_multiset(),
    ensures
        listed(p) == listed(q),
        p.len() == q.len(),
{
    p.to_multiset_ensures();
    q.to_multiset_ensures();
    if listed(p) {
        lemma_listed_onto(p, q);
    }
    if listed(q) {
        lemma_listed_onto(q, p);
    }
}

proof fn lemma_listed_onto(p: Seq<LuaPair>, q: Seq<LuaPair>)
    requires
        p.to_multiset() == q.to_multiset(),
        listed(p),
    ensures
        listed(q),
{
    p.to_multiset_ensures();
    q.to_multiset_ensures();
    assert forall|i: int| 0 <= i < q.len() implies {
        &&& (#[trigger] q[i]).0 is Integer
        &&& 1 <= q[i].0->Integer_0 <= q.len()
    } by {
        assert(q.contains(q[i]));
        assert(p.to_multiset().count(q[i]) > 0);
        assert(p.contains(q[i]));
    }
}

/// What lies under a key does not depend on the order.
pub proof fn lemma_lookup_kept(p: Seq<LuaPair>, q: Seq<LuaPair>, key: LuaValue)
    requires
        p.to_multiset() == q.to_multiset(),
        distinct_forms(p),
    ensures
        has_key(p, key) == has_key(q, key),
        lookup(p, key) == lookup(q, key),
{
    p.to_multiset_ensures();
    q.to_multiset_ensures();
    lemma_distinct_forms_kept(p, q);
    if has_key(p, key) {
        let i = choose|i: int| 0 <= i < p.len() && (#[trigger] p[i]).0 == key;
        assert(p.contains(p[i]));
        assert(q.to_multiset().count(p[i]) > 0);
        assert(q.contains(p[i]));
        let j = choose|j: int| 0 <= j < q.len() && q[j] == p[i];
        assert forall|k: int| 0 <= k < q.len() && k != j implies (#[trigger] q[k]).0 != q[j].0 by {
            if k < j {
                assert(key_form(q[k].0) != key_form(q[j].0));
            } else {
                assert(key_form(q[j].0) != key_form(q[k].0));
            }
        }
        lemma_lookup(q, j);
    }
    if has_key(q, key) {
        let j = choose|j: int| 0 <= j < q.len() && (#[trigger] q[j]).0 == key;
        assert(q.contains(q[j]));
        assert(p.to_multiset().count(q[j]) > 0);
        assert(p.contains(q[j]));
        let i = choose|i: int| 0 <= i < p.len() && p[i] == q[j];
        assert(p[i].0 == key);
    }
}

/// What lies under an integer, carried over.
proof fn lemma_lookup_renamed(m: Renaming, p: Seq<LuaPair>, key: LuaValue)
    requires
        distinct_forms(p),
        all_covered(m, p),
        key is Integer,
    ensures
        lookup(renamed_pairs(m, p), key) == renamed(m, lookup(p, key)),
        covered(m, lookup(p, key)),
{
    let r = renamed_pairs(m, p);
    if has_key(p, key) {
        let i = choose|i: int| 0 <= i < p.len() && (#[trigger] p[i]).0 == key;
        assert(r[i].0 == key);
        assert forall|k: int| 0 <= k < r.len() && k != i implies (#[trigger] r[k]).0 != r[i].0 by {
            if k < i {
                assert(key_form(p[k].0) != key_form(p[i].0));
            } else {
                assert(key_form(p[i].0) != key_form(p[k].0));
            }
        }
        lemma_lookup(r, i);
        assert(covered(m, p[i].1));
    }
    if has_key(r, key) {
        let i = choose|i: int| 0 <= i < r.len() && (#[trigger] r[i]).0 == key;
        assert(p[i].0 == key);
    }
}

/// Sorting goes by the forms of the keys, which carrying over keeps.
proof fn lemma_in_turn_renamed(m: Renaming, p: Seq<LuaPair>)
    ensures
        in_turn(renamed_pairs(m, p)) == renamed_pairs(m, in_turn(p)),
    decreases p.len(),
{
    let r = renamed_pairs(m, p);
    if p.len() > 0 {
        assert(r.drop_last() =~= renamed_pairs(m, p.drop_last()));
        lemma_in_turn_renamed(m, p.drop_last());
        lemma_slotted_renamed(m, in_turn(p.drop_last()), p.last());
    } else {
        assert(renamed_pairs(m, in_turn(p)) =~= Seq::<LuaPair>::empty());
        assert(r =~= Seq::<LuaPair>::empty());
    }
}

proof fn lemma_slotted_renamed(m: Renaming, s: Seq<LuaPair>, pair: LuaPair)
    ensures
        slotted(renamed_pairs(m, s), (renamed(m, pair.0), renamed(m, pair.1))) == renamed_pairs(
            m,
            slotted(s, pair),
        ),
    decreases s.len(),
{
    let r = renamed_pairs(m, s);
    let x = (renamed(m, pair.0), renamed(m, pair.1));
    if s.len() > 0 && earlier(pair, s.last()) {
        assert(r.drop_last() =~= renamed_pairs(m, s.drop_last()));
        lemma_slotted_renamed(m, s.drop_last(), pair);
        assert(earlier(x, r.last()));
        assert(slotted(r, x) =~= renamed_pairs(m, slotted(s, pair)));
    } else {
        if s.len() > 0 {
            assert(!earlier(x, r.last()));
        }
        assert(r.push(x) =~= renamed_pairs(m, s.push(pair)));
    }
}

/// A list has a value at every place from 1 to its length.
pub proof fn law_a_list_has_every_place(pairs: Seq<LuaPair>, n: int)
    requires
        listed(pairs),
        forall|i: int, j: int|
            0 <= i < j < pairs.len() ==> (#[trigger] pairs[i]).0 != (#[trigger] pairs[j]).0,
        1 <= n <= pairs.len(),
    ensures
        has_key(pairs, LuaValue::Integer(n as i32)),
{
    let keys = Seq::new(pairs.len(), |i: int| pairs[i].0->Integer_0 as int);
    assert(keys.no_duplicates()) by {
        assert forall|i: int, j: int| 0 <= i < keys.len() && 0 <= j < keys.len() && i
            != j implies keys[i] != keys[j] by {
            assert(pairs[i].0 is Integer && pairs[j].0 is Integer);
            if i < j {
                assert(pairs[i].0 != pairs[j].0);
            } else {
                assert(pairs[j].0 != pairs[i].0);
            }
        }
    }
    keys.unique_seq_to_set();
    let range = vstd::set_lib::set_int_range(1, pairs.len() as int + 1);
    vstd::set_lib::lemma_int_range(1, pairs.len() as int + 1);
    vstd::seq_lib::seq_to_set_is_finite(keys);
    assert(keys.to_set().subset_of(range)) by {
        assert forall|k: int| keys.to_set().contains(k) implies range.contains(k) by {
            let i = choose|i: int| 0 <= i < keys.len() && keys[i] == k;
            assert(pairs[i].0 is Integer);
        }
    }
    vstd::set_lib::lemma_subset_equality(keys.to_set(), range);
    assert(keys.to_set().contains(n));
    let i = choose|i: int| 0 <= i < keys.len() && keys[i] == n;
    assert(pairs[i].0 is Integer);
    assert(pairs[i].0 == LuaValue::Integer(n as i32));
}

// ---------------------------------------------------------------------------
// Editing
// ---------------------------------------------------------------------------

/// What lies at the end of the path `parts` from the table `at` on: `nil` where
/// the path leads nowhere.
pub open spec fn read_at(heap: LuaHeap, at: mlua::Table, parts: Seq<Seq<char>>) -> LuaValue
    decreases parts.len(),
{
    if parts.len() == 0 {
        LuaValue::Nil
    } else {
        let found = lookup(heap[at].pairs, key_of(parts[0]));
        if parts.len() == 1 {
            found
        } else {
            match found {
                LuaValue::Table(next) => read_at(heap, next, parts.skip(1)),
                _ => LuaValue::Nil,
            }
        }
    }
}

/// Whether no metatable decides anything on the path.
pub open spec fn walkable(heap: LuaHeap, at: mlua::Table, parts: Seq<Seq<char>>) -> bool
    decreases parts.len(),
{
    parts.len() > 0 ==> {
        &&& heap.contains_key(at)
        &&& settled(heap[at], key_of(parts[0]))
        &&& parts.len() > 1 ==> (lookup(heap[at].pairs, key_of(parts[0])) matches LuaValue::Table(
            next,
        ) ==> walkable(heap, next, parts.skip(1)))
    }
}

/// The slot of a table that an edit writes to: the last one that is there.
pub open spec fn written(heap: LuaHeap, at: mlua::Table, parts: Seq<Seq<char>>) -> (
    mlua::Table,
    LuaValue,
)
    decreases parts.len(),
{
    let key = key_of(parts[0]);
    if parts.len() <= 1 {
        (at, key)
    } else {
        match lookup(heap[at].pairs, key) {
            LuaValue::Table(next) => written(heap, next, parts.skip(1)),
            _ => (at, key),
        }
    }
}

/// Whether the path passes through the slot on its way.
pub open spec fn passes(
    heap: LuaHeap,
    at: mlua::Table,
    parts: Seq<Seq<char>>,
    slot: (mlua::Table, LuaValue),
) -> bool
    decreases parts.len(),
{
    parts.len() > 1 && (lookup(heap[at].pairs, key_of(parts[0])) matches LuaValue::Table(next)
        && (slot == (at, key_of(parts[0])) || passes(heap, next, parts.skip(1), slot)))
}

/// Whether a key has one value.
pub open spec fn one_value(pairs: Seq<LuaPair>, key: LuaValue) -> bool {
    forall|i: int, j: int|
        0 <= i < pairs.len() && 0 <= j < pairs.len() && (#[trigger] pairs[i]).0 == key && (
        #[trigger] pairs[j]).0 == key ==> pairs[i].1 == pairs[j].1
}

/// Whether the keys that stand for one slot have one value each.
pub open spec fn definite(heap: LuaHeap) -> bool {
    forall|t: mlua::Table, key: LuaValue|
        heap.contains_key(t) && telling(heap[t], key) ==> #[trigger] one_value(heap[t].pairs, key)
}

/// The tables of every state are definite.
pub proof fn lemma_sound_is_definite(heap: LuaHeap)
    requires
        sound(heap),
    ensures
        definite(heap),
{
    assert forall|t: mlua::Table, key: LuaValue|
        heap.contains_key(t) && telling(heap[t], key) implies #[trigger] one_value(
        heap[t].pairs,
        key,
    ) by {
        let pairs = heap[t].pairs;
        assert forall|i: int, j: int|
            0 <= i < pairs.len() && 0 <= j < pairs.len() && (#[trigger] pairs[i]).0 == key && (
            #[trigger] pairs[j]).0 == key implies pairs[i].1 == pairs[j].1 by {
            if i < j {
                assert(heap[t].pairs[i].0 != heap[t].pairs[j].0);
            } else if j < i {
                assert(heap[t].pairs[j].0 != heap[t].pairs[i].0);
            }
        }
    }
}

/// What a table holds after a value was stored in it.
pub proof fn lemma_stored_pairs(p: Seq<LuaPair>, q: Seq<LuaPair>, key: LuaValue, value: LuaValue)
    requires
        q.to_multiset() == if value is Nil {
            without(p, key).to_multiset()
        } else {
            without(p, key).to_multiset().insert((key, value))
        },
    ensures
        lookup(q, key) == value,
        has_key(q, key) == !(value is Nil),
        one_value(q, key),
        forall|k: LuaValue|
            k != key && one_value(p, k) ==> {
                &&& #[trigger] one_value(q, k)
                &&& lookup(q, k) == lookup(p, k)
                &&& has_key(q, k) == has_key(p, k)
            },
{
    let keep = other_key(key);
    let rest = without(p, key);
    rest.to_multiset_ensures();
    q.to_multiset_ensures();
    assert forall|x: LuaPair| #[trigger] q.contains(x) <==> (x.0 != key && p.contains(x)) || (x == (
        key,
        value,
    ) && !(value is Nil)) by {
        assert(q.contains(x) <==> q.to_multiset().count(x) > 0);
        assert(rest.contains(x) <==> rest.to_multiset().count(x) > 0);
        if rest.contains(x) {
            let i = choose|i: int| 0 <= i < rest.len() && rest[i] == x;
            p.lemma_filter_pred(keep, i);
            p.lemma_filter_contains_rev(keep, x);
        }
        if x.0 != key && p.contains(x) {
            let i = choose|i: int| 0 <= i < p.len() && p[i] == x;
            p.lemma_filter_contains(keep, i);
        }
        if !(value is Nil) {
            if x == (key, value) {
                assert(q.to_multiset().count(x) == rest.to_multiset().count(x) + 1);
            } else {
                assert(q.to_multiset().count(x) == rest.to_multiset().count(x));
            }
        }
    }
    assert forall|i: int| 0 <= i < q.len() && (#[trigger] q[i]).0 == key implies q[i].1 == value
        && !(value is Nil) by {
        assert(q.contains(q[i]));
    }
    if !(value is Nil) {
        assert(q.contains((key, value)));
        let i = choose|i: int| 0 <= i < q.len() && q[i] == (key, value);
        assert(q[i].0 == key);
    }
    assert forall|k: LuaValue| k != key && one_value(p, k) implies {
        &&& #[trigger] one_value(q, k)
        &&& lookup(q, k) == lookup(p, k)
        &&& has_key(q, k) == has_key(p, k)
    } by {
        assert forall|i: int, j: int|
            0 <= i < q.len() && 0 <= j < q.len() && (#[trigger] q[i]).0 == k && (
            #[trigger] q[j]).0 == k implies q[i].1 == q[j].1 by {
            assert(q.contains(q[i]) && q.contains(q[j]));
            let a = choose|a: int| 0 <= a < p.len() && p[a] == q[i];
            let b = choose|b: int| 0 <= b < p.len() && p[b] == q[j];
            assert(p[a].0 == k && p[b].0 == k);
        }
        if has_key(p, k) {
            let a = choose|a: int| 0 <= a < p.len() && (#[trigger] p[a]).0 == k;
            assert(p.contains(p[a]));
            assert(q.contains(p[a]));
            let i = choose|i: int| 0 <= i < q.len() && q[i] == p[a];
            assert(q[i].0 == k);
        }
        if has_key(q, k) {
            let i = choose|i: int| 0 <= i < q.len() && (#[trigger] q[i]).0 == k;
            assert(q.contains(q[i]));
            assert(p.contains(q[i]));
            let a = choose|a: int| 0 <= a < p.len() && p[a] == q[i];
            assert(p[a].0 == k);
        }
    }
}

/// Whether what lies in every slot of `before` but one lies there in `after`.
pub open spec fn kept_but(
    before: LuaHeap,
    after: LuaHeap,
    slot: (mlua::Table, LuaValue),
) -> bool {
    &&& forall|t: mlua::Table| #[trigger]
        before.contains_key(t) ==> {
            &&& after.contains_key(t)
            &&& after[t].plain == before[t].plain
            &&& after[t].tidy == before[t].tidy
        }
    &&& forall|t: mlua::Table, key: LuaValue|
        before.contains_key(t) && telling(before[t], key) && (t, key) != slot ==> {
            &&& #[trigger] lookup(after[t].pairs, key) == lookup(before[t].pairs, key)
            &&& has_key(after[t].pairs, key) == has_key(before[t].pairs, key)
        }
}

proof fn lemma_stored(
    before: LuaHeap,
    at: mlua::Table,
    key: LuaValue,
    value: LuaValue,
    after: LuaHeap,
)
    requires
        definite(before),
        before.contains_key(at),
        telling(before[at], key),
        stored(before, at, key, value, after),
    ensures
        definite(after),
        kept_but(before, after, (at, key)),
        lookup(after[at].pairs, key) == value,
        has_key(after[at].pairs, key) == !(value is Nil),
{
    lemma_stored_pairs(before[at].pairs, after[at].pairs, key, value);
    assert forall|t: mlua::Table, k: LuaValue|
        after.contains_key(t) && telling(after[t], k) implies #[trigger] one_value(
        after[t].pairs,
        k,
    ) by {
        assert(before.contains_key(t));
        if t == at {
            assert(telling(before[at], k));
            assert(one_value(before[at].pairs, k));
        } else {
            assert(after[t] == before[t]);
            assert(one_value(before[t].pairs, k));
        }
    }
    assert forall|t: mlua::Table, k: LuaValue|
        before.contains_key(t) && telling(before[t], k) && (t, k) != (at, key) implies {
        &&& #[trigger] lookup(after[t].pairs, k) == lookup(before[t].pairs, k)
        &&& has_key(after[t].pairs, k) == has_key(before[t].pairs, k)
    } by {
        if t == at {
            assert(one_value(before[at].pairs, k));
            assert(one_value(after[at].pairs, k));
        } else {
            assert(after[t] == before[t]);
        }
    }
}

/// A part of a path is a key that tells slots apart.
proof fn lemma_key_of(part: Seq<char>)
    ensures
        addressable(key_of(part)),
{
}

/// What an edit does: what lies in every other slot stays, and the value can be
/// read where it was put.
proof fn lemma_placed(
    before: LuaHeap,
    at: mlua::Table,
    parts: Seq<Seq<char>>,
    value: LuaValue,
    after: LuaHeap,
)
    requires
        definite(before),
        parts.len() > 0,
        walkable(before, at, parts),
        placed(before, at, parts, value, after),
    ensures
        definite(after),
        kept_but(before, after, written(before, at, parts)),
        !passes(before, at, parts, written(before, at, parts)) ==> read_at(after, at, parts)
            == settles_as(value),
    decreases parts.len(),
{
    let key = key_of(parts[0]);
    lemma_key_of(parts[0]);
    if parts.len() == 1 {
        lemma_stored(before, at, key, settles_as(value), after);
    } else {
        let rest = parts.skip(1);
        lemma_key_of(rest[0]);
        match lookup(before[at].pairs, key) {
            LuaValue::Table(next) => {
                lemma_placed(before, next, rest, value, after);
                if !passes(before, at, parts, written(before, at, parts)) {
                    assert((at, key) != written(before, at, parts));
                    assert(lookup(after[at].pairs, key) == lookup(before[at].pairs, key));
                }
            },
            _ => {
                let (fresh, between) = choose|fresh: mlua::Table, between: LuaHeap|
                    {
                        &&& #[trigger] branched(before, at, key, fresh, between)
                        &&& placed(between, fresh, rest, value, after)
                    };
                let grown = before.insert(fresh, empty_table());
                assert(definite(grown)) by {
                    assert forall|t: mlua::Table, k: LuaValue|
                        grown.contains_key(t) && telling(grown[t], k) implies #[trigger] one_value(
                        grown[t].pairs,
                        k,
                    ) by {
                        if t != fresh {
                            assert(before.contains_key(t));
                            assert(one_value(before[t].pairs, k));
                        }
                    }
                }
                lemma_stored(grown, at, key, LuaValue::Table(fresh), between);
                assert(grown.contains_key(fresh));
                assert(between[fresh] == empty_table());
                assert(!has_key(between[fresh].pairs, key_of(rest[0])));
                assert(walkable(between, fresh, rest));
                assert(written(between, fresh, rest) == (fresh, key_of(rest[0])));
                assert(!passes(between, fresh, rest, (fresh, key_of(rest[0]))));
                lemma_placed(between, fresh, rest, value, after);
                assert(grown.contains_key(at) && between.contains_key(at));
                assert(telling(between[at], key));
                assert(lookup(after[at].pairs, key) == lookup(between[at].pairs, key));
                assert(read_at(after, at, parts) == read_at(after, fresh, rest));
                assert(kept_but(before, after, (at, key))) by {
                    assert forall|t: mlua::Table| #[trigger] before.contains_key(t) implies {
                        &&& after.contains_key(t)
                        &&& after[t].plain == before[t].plain
                        &&& after[t].tidy == before[t].tidy
                    } by {
                        assert(grown.contains_key(t) && between.contains_key(t));
                    }
                    assert forall|t: mlua::Table, k: LuaValue|
                        before.contains_key(t) && telling(before[t], k) && (t, k) != (
                            at,
                            key,
                        ) implies {
                        &&& #[trigger] lookup(after[t].pairs, k) == lookup(before[t].pairs, k)
                        &&& has_key(after[t].pairs, k) == has_key(before[t].pairs, k)
                    } by {
                        assert(grown.contains_key(t) && between.contains_key(t));
                        assert(telling(grown[t], k) && telling(between[t], k));
                        assert(lookup(between[t].pairs, k) == lookup(grown[t].pairs, k));
                    }
                }
            },
        }
    }
}

/// An edit can be read back: the value lies at the end of its path. A number that is an
/// integer of 32 bits lies there as that integer, one that is too close to zero to be
/// told from it as zero, and any other as itself. Where the value was `nil`, nothing lies
/// there. Left out are tables that lie inside themselves where the path runs through the
/// very slot that is written.
pub proof fn law_an_edit_reads_back(
    before: LuaHeap,
    root: mlua::Table,
    parts: Seq<Seq<char>>,
    value: LuaValue,
    after: LuaHeap,
)
    requires
        sound(before),
        parts.len() > 0,
        walkable(before, root, parts),
        placed(before, root, parts, value, after),
        !passes(before, root, parts, written(before, root, parts)),
    ensures
        read_at(after, root, parts) == match value {
            LuaValue::Number(text) => match parsed_int(text, i32::MIN as int, i32::MAX as int) {
                Some(n) => LuaValue::Integer(n as i32),
                None => if reads_as_zero(text) {
                    LuaValue::Integer(0)
                } else {
                    LuaValue::Number(text)
                },
            },
            _ => value,
        },
{
    lemma_sound_is_definite(before);
    lemma_placed(before, root, parts, value, after);
}

/// An edit keeps the rest: of the tables that were there, one slot changes, and
/// every other slot holds what it held.
pub proof fn law_an_edit_keeps_the_rest(
    before: LuaHeap,
    root: mlua::Table,
    parts: Seq<Seq<char>>,
    value: LuaValue,
    after: LuaHeap,
)
    requires
        sound(before),
        parts.len() > 0,
        walkable(before, root, parts),
        placed(before, root, parts, value, after),
    ensures
        kept_but(before, after, written(before, root, parts)),
{
    lemma_sound_is_definite(before);
    lemma_placed(before, root, parts, value, after);
}

/// Whether no table has a metatable or a key that reads as another.
pub open spec fn bare(heap: LuaHeap) -> bool {
    forall|t: mlua::Table| #[trigger] heap.contains_key(t) ==> heap[t].plain && heap[t].tidy
}

/// Whether two states have the same tables with the same in them, each walked in
/// whatever order.
pub open spec fn same_contents(a: LuaHeap, b: LuaHeap) -> bool {
    &&& a.dom() == b.dom()
    &&& forall|t: mlua::Table| #[trigger]
        a.contains_key(t) ==> {
            &&& a[t].pairs.to_multiset() == b[t].pairs.to_multiset()
            &&& a[t].plain == b[t].plain
            &&& a[t].tidy == b[t].tidy
        }
}

/// How often a pair is among those that are kept.
pub proof fn lemma_filter_count(s: Seq<LuaPair>, keep: spec_fn(LuaPair) -> bool, x: LuaPair)
    ensures
        s.filter(keep).to_multiset().count(x) == if keep(x) {
            s.to_multiset().count(x)
        } else {
            0
        },
    decreases s.len(),
{
    reveal(Seq::filter);
    if s.len() > 0 {
        let front = s.drop_last();
        lemma_filter_count(front, keep, x);
        assert(s =~= front.push(s.last()));
        vstd::seq_lib::to_multiset_build(front, s.last());
        vstd::seq_lib::to_multiset_build(front.filter(keep), s.last());
    } else {
        s.to_multiset_ensures();
        assert(s.filter(keep) =~= s);
        if !keep(x) && s.to_multiset().count(x) > 0 {
            assert(s.contains(x));
        }
    }
}

/// Storing what is stored already changes nothing.
proof fn lemma_stored_again(p: Seq<LuaPair>, q: Seq<LuaPair>, key: LuaValue, value: LuaValue)
    requires
        q.to_multiset() == if value is Nil {
            without(p, key).to_multiset()
        } else {
            without(p, key).to_multiset().insert((key, value))
        },
    ensures
        without(q, key).to_multiset() == without(p, key).to_multiset(),
{
    assert forall|x: LuaPair|
        without(q, key).to_multiset().count(x) == without(p, key).to_multiset().count(x) by {
        lemma_filter_count(p, other_key(key), x);
        lemma_filter_count(q, other_key(key), x);
    }
    assert(without(q, key).to_multiset() =~= without(p, key).to_multiset());
}

/// Whether the path is there and holds the value at its end, and nothing else
/// there.
pub open spec fn fitted(heap: LuaHeap, at: mlua::Table, parts: Seq<Seq<char>>, value: LuaValue) -> bool
    decreases parts.len(),
{
    parts.len() > 0 && {
        let key = key_of(parts[0]);
        let pairs = heap[at].pairs;
        &&& heap.contains_key(at)
        &&& settled(heap[at], key)
        &&& if parts.len() == 1 {
            pairs.to_multiset() == if value is Nil {
                without(pairs, key).to_multiset()
            } else {
                without(pairs, key).to_multiset().insert((key, value))
            }
        } else {
            lookup(pairs, key) matches LuaValue::Table(next) && fitted(
                heap,
                next,
                parts.skip(1),
                value,
            )
        }
    }
}

/// After an edit, its path is there and holds the value.
proof fn lemma_placed_fits(
    before: LuaHeap,
    at: mlua::Table,
    parts: Seq<Seq<char>>,
    value: LuaValue,
    after: LuaHeap,
)
    requires
        definite(before),
        bare(before),
        parts.len() > 0,
        walkable(before, at, parts),
        placed(before, at, parts, value, after),
        !passes(before, at, parts, written(before, at, parts)),
    ensures
        bare(after),
        fitted(after, at, parts, settles_as(value)),
    decreases parts.len(),
{
    let key = key_of(parts[0]);
    lemma_key_of(parts[0]);
    lemma_placed(before, at, parts, value, after);
    if parts.len() == 1 {
        assert(bare(after)) by {
            assert forall|t: mlua::Table| #[trigger] after.contains_key(t) implies after[t].plain
                && after[t].tidy by {
                assert(before.contains_key(t));
            }
        }
        lemma_stored_again(before[at].pairs, after[at].pairs, key, settles_as(value));
    } else {
        let rest = parts.skip(1);
        lemma_key_of(rest[0]);
        match lookup(before[at].pairs, key) {
            LuaValue::Table(next) => {
                lemma_placed_fits(before, next, rest, value, after);
                assert((at, key) != written(before, at, parts));
                assert(lookup(after[at].pairs, key) == lookup(before[at].pairs, key));
            },
            _ => {
                let (fresh, between) = choose|fresh: mlua::Table, between: LuaHeap|
                    {
                        &&& #[trigger] branched(before, at, key, fresh, between)
                        &&& placed(between, fresh, rest, value, after)
                    };
                let grown = before.insert(fresh, empty_table());
                assert(definite(grown)) by {
                    assert forall|t: mlua::Table, k: LuaValue|
                        grown.contains_key(t) && telling(grown[t], k) implies #[trigger] one_value(
                        grown[t].pairs,
                        k,
                    ) by {
                        if t != fresh {
                            assert(before.contains_key(t));
                            assert(one_value(before[t].pairs, k));
                        }
                    }
                }
                lemma_stored(grown, at, key, LuaValue::Table(fresh), between);
                assert(bare(between)) by {
                    assert forall|t: mlua::Table| #[trigger]
                        between.contains_key(t) implies between[t].plain && between[t].tidy by {
                        assert(grown.contains_key(t));
                        if t != fresh {
                            assert(before.contains_key(t));
                        }
                    }
                }
                assert(between.contains_key(fresh));
                assert(between[fresh] == empty_table());
                assert(!has_key(between[fresh].pairs, key_of(rest[0])));
                assert(walkable(between, fresh, rest));
                assert(written(between, fresh, rest) == (fresh, key_of(rest[0])));
                assert(!passes(between, fresh, rest, (fresh, key_of(rest[0]))));
                lemma_placed(between, fresh, rest, value, after);
                lemma_placed_fits(between, fresh, rest, value, after);
                assert(grown.contains_key(at) && between.contains_key(at));
                assert(telling(between[at], key));
                assert(lookup(after[at].pairs, key) == lookup(between[at].pairs, key));
            },
        }
    }
}

/// An edit of what holds the value already changes nothing.
proof fn lemma_fitted_stays(
    before: LuaHeap,
    at: mlua::Table,
    parts: Seq<Seq<char>>,
    value: LuaValue,
    after: LuaHeap,
)
    requires
        fitted(before, at, parts, settles_as(value)),
        placed(before, at, parts, value, after),
    ensures
        same_contents(before, after),
    decreases parts.len(),
{
    if parts.len() > 1 {
        let next = lookup(before[at].pairs, key_of(parts[0]))->Table_0;
        lemma_fitted_stays(before, next, parts.skip(1), value, after);
    }
}

/// An edit that is made twice is as good as made once.
pub proof fn law_an_edit_made_twice(
    before: LuaHeap,
    root: mlua::Table,
    parts: Seq<Seq<char>>,
    value: LuaValue,
    between: LuaHeap,
    after: LuaHeap,
)
    requires
        sound(before),
        bare(before),
        parts.len() > 0,
        walkable(before, root, parts),
        !passes(before, root, parts, written(before, root, parts)),
        placed(before, root, parts, value, between),
        placed(between, root, parts, value, after),
    ensures
        same_contents(between, after),
{
    lemma_sound_is_definite(before);
    lemma_placed_fits(before, root, parts, value, between);
    lemma_fitted_stays(between, root, parts, value, after);
}

/// Whether the path leads through the slot, or ends in it.
pub open spec fn leads_to(
    heap: LuaHeap,
    at: mlua::Table,
    parts: Seq<Seq<char>>,
    slot: (mlua::Table, LuaValue),
) -> bool
    decreases parts.len(),
{
    parts.len() > 0 && {
        ||| slot == (at, key_of(parts[0]))
        ||| parts.len() > 1 && (lookup(heap[at].pairs, key_of(parts[0])) matches LuaValue::Table(
            next,
        ) && leads_to(heap, next, parts.skip(1), slot))
    }
}

/// An edit keeps what lies at the end of every other path: of each that does not
/// lead through the slot that is written.
pub proof fn law_other_paths_keep_their_values(
    before: LuaHeap,
    root: mlua::Table,
    parts: Seq<Seq<char>>,
    value: LuaValue,
    after: LuaHeap,
    other: Seq<Seq<char>>,
)
    requires
        sound(before),
        parts.len() > 0,
        walkable(before, root, parts),
        placed(before, root, parts, value, after),
        walkable(before, root, other),
        !leads_to(before, root, other, written(before, root, parts)),
    ensures
        read_at(after, root, other) == read_at(before, root, other),
{
    law_an_edit_keeps_the_rest(before, root, parts, value, after);
    lemma_path_kept(before, after, written(before, root, parts), root, other);
}

proof fn lemma_path_kept(
    before: LuaHeap,
    after: LuaHeap,
    slot: (mlua::Table, LuaValue),
    at: mlua::Table,
    parts: Seq<Seq<char>>,
)
    requires
        kept_but(before, after, slot),
        walkable(before, at, parts),
        !leads_to(before, at, parts, slot),
    ensures
        read_at(after, at, parts) == read_at(before, at, parts),
    decreases parts.len(),
{
    if parts.len() > 0 {
        let key = key_of(parts[0]);
        assert(lookup(after[at].pairs, key) == lookup(before[at].pairs, key));
        if parts.len() > 1 {
            if let LuaValue::Table(next) = lookup(before[at].pairs, key) {
                lemma_path_kept(before, after, slot, next, parts.skip(1));
            }
        }
    }
}

/// What lies under a key that has one value does not depend on the order.
proof fn lemma_value_kept(p: Seq<LuaPair>, q: Seq<LuaPair>, key: LuaValue)
    requires
        p.to_multiset() == q.to_multiset(),
        one_value(p, key),
    ensures
        one_value(q, key),
        has_key(q, key) == has_key(p, key),
        lookup(q, key) == lookup(p, key),
{
    p.to_multiset_ensures();
    q.to_multiset_ensures();
    assert forall|x: LuaPair| #[trigger] q.contains(x) == p.contains(x) by {
        assert(q.contains(x) <==> q.to_multiset().count(x) > 0);
        assert(p.contains(x) <==> p.to_multiset().count(x) > 0);
    }
    assert forall|i: int, j: int|
        0 <= i < q.len() && 0 <= j < q.len() && (#[trigger] q[i]).0 == key && (
        #[trigger] q[j]).0 == key implies q[i].1 == q[j].1 by {
        assert(q.contains(q[i]) && q.contains(q[j]));
        let a = choose|a: int| 0 <= a < p.len() && p[a] == q[i];
        let b = choose|b: int| 0 <= b < p.len() && p[b] == q[j];
        assert(p[a].0 == key && p[b].0 == key);
    }
    if has_key(p, key) {
        let a = choose|a: int| 0 <= a < p.len() && (#[trigger] p[a]).0 == key;
        assert(p.contains(p[a]));
        assert(q.contains(p[a]));
        let i = choose|i: int| 0 <= i < q.len() && q[i] == p[a];
        assert(q[i].0 == key);
    }
    if has_key(q, key) {
        let i = choose|i: int| 0 <= i < q.len() && (#[trigger] q[i]).0 == key;
        assert(q.contains(q[i]));
        assert(p.contains(q[i]));
        let a = choose|a: int| 0 <= a < p.len() && p[a] == q[i];
        assert(p[a].0 == key);
    }
}

/// Where a value is in place, it is wherever the same is held.
proof fn lemma_fitted_kept(
    a: LuaHeap,
    b: LuaHeap,
    at: mlua::Table,
    parts: Seq<Seq<char>>,
    value: LuaValue,
)
    requires
        definite(a),
        same_contents(a, b),
        fitted(a, at, parts, value),
    ensures
        fitted(b, at, parts, value),
    decreases parts.len(),
{
    let key = key_of(parts[0]);
    let p = a[at].pairs;
    let q = b[at].pairs;
    assert(a.contains_key(at) && b.contains_key(at));
    assert(one_value(p, key));
    lemma_value_kept(p, q, key);
    if parts.len() == 1 {
        assert(without(q, key).to_multiset() =~= without(p, key).to_multiset()) by {
            assert forall|x: LuaPair|
                without(q, key).to_multiset().count(x) == without(p, key).to_multiset().count(
                    x,
                ) by {
                lemma_filter_count(p, other_key(key), x);
                lemma_filter_count(q, other_key(key), x);
            }
        }
    } else {
        let next = lookup(p, key)->Table_0;
        lemma_fitted_kept(a, b, next, parts.skip(1), value);
    }
}

/// Whether every edit is in place.
pub open spec fn all_fitted(heap: LuaHeap, root: mlua::Table, edits: Seq<Edit>) -> bool {
    forall|i: int|
        0 <= i < edits.len() ==> fitted(
            heap,
            root,
            split((#[trigger] edits[i]).0, '.'),
            settles_as(edits[i].1),
        )
}

/// Edits that are all in place change nothing when they are made again.
pub proof fn law_edits_in_place_change_nothing(
    heap: LuaHeap,
    root: mlua::Table,
    edits: Seq<Edit>,
    after: LuaHeap,
)
    requires
        sound(heap),
        all_fitted(heap, root, edits),
        edited(heap, root, edits, after),
    ensures
        same_contents(heap, after),
    decreases edits.len(),
{
    if edits.len() > 0 {
        let front = edits.drop_last();
        let last = edits.last();
        let between = choose|between: LuaHeap|
            {
                &&& edited(heap, root, front, between)
                &&& #[trigger] placed(between, root, split(last.0, '.'), last.1, after)
            };
        assert(all_fitted(heap, root, front)) by {
            assert forall|i: int| 0 <= i < front.len() implies fitted(
                heap,
                root,
                split((#[trigger] front[i]).0, '.'),
                settles_as(front[i].1),
            ) by {
                assert(front[i] == edits[i]);
            }
        }
        law_edits_in_place_change_nothing(heap, root, front, between);
        lemma_sound_is_definite(heap);
        assert(edits[edits.len() - 1] == last);
        lemma_fitted_kept(heap, between, root, split(last.0, '.'), settles_as(last.1));
        lemma_fitted_stays(between, root, split(last.0, '.'), last.1, after);
        assert forall|t: mlua::Table| #[trigger] heap.contains_key(t) implies {
            &&& heap[t].pairs.to_multiset() == after[t].pairs.to_multiset()
            &&& heap[t].plain == after[t].plain
            &&& heap[t].tidy == after[t].tidy
        } by {
            assert(between.contains_key(t));
        }
    }
}

// ---------------------------------------------------------------------------
// How things are printed
// ---------------------------------------------------------------------------

/// What a key that is a text or a number reads as: the text, or the number in decimal.
pub open spec fn key_reads_as(key: LuaValue) -> Option<Seq<char>> {
    match key {
        LuaValue::Text(s) => Some(s),
        LuaValue::Integer(i) => Some(int_text(i as int)),
        LuaValue::Number(text) => Some(
            if text == "-0"@ {
                "0"@
            } else {
                text
            },
        ),
        _ => None,
    }
}

/// How the pairs of a table stand on lines. Where every key is an integer from 1 to the number
/// of pairs, the values stand without their keys, in the order of these; else every pair
/// stands on a line of its own, with its key, and those whose keys are texts or numbers stand
/// in the order of what the keys read as.
pub proof fn law_how_a_table_is_laid_out(pairs: Seq<LuaPair>)
    requires
        pairs.len() <= i32::MAX,
    ensures
        lines_of(pairs).len() == pairs.len(),
        (forall|i: int|
            0 <= i < pairs.len() ==> ((#[trigger] pairs[i]).0 matches LuaValue::Integer(n) && 1 <= n
                <= pairs.len())) ==> forall|i: int|
            0 <= i < pairs.len() ==> #[trigger] lines_of(pairs)[i] == (
                None::<LuaValue>,
                lookup(pairs, LuaValue::Integer((i + 1) as i32)),
            ),
        (exists|i: int|
            0 <= i < pairs.len() && !((#[trigger] pairs[i]).0 matches LuaValue::Integer(n) && 1 <= n
                <= pairs.len())) ==> {
            &&& forall|i: int| 0 <= i < pairs.len() ==> (#[trigger] lines_of(pairs)[i]).0 is Some
            &&& Seq::new(
                pairs.len(),
                |i: int| (lines_of(pairs)[i].0->0, lines_of(pairs)[i].1),
            ).to_multiset() == pairs.to_multiset()
            &&& forall|i: int, j: int|
                0 <= i < j < pairs.len() ==> {
                    let a = key_reads_as((#[trigger] lines_of(pairs)[i]).0->0);
                    let b = key_reads_as((#[trigger] lines_of(pairs)[j]).0->0);
                    a is Some && b is Some ==> !precedes(b->0, a->0)
                }
        },
{
    law_in_turn_is_sorted(pairs);
    let lines = lines_of(pairs);
    let turn = in_turn(pairs);
    if exists|i: int|
        0 <= i < pairs.len() && !((#[trigger] pairs[i]).0 matches LuaValue::Integer(n) && 1 <= n
            <= pairs.len()) {
        assert(!listed(pairs));
        assert(Seq::new(pairs.len(), |i: int| (lines[i].0->0, lines[i].1)) =~= turn);
        assert forall|i: int, j: int| 0 <= i < j < pairs.len() implies {
            let a = key_reads_as((#[trigger] lines[i]).0->0);
            let b = key_reads_as((#[trigger] lines[j]).0->0);
            a is Some && b is Some ==> !precedes(b->0, a->0)
        } by {
            assert(lines[i].0 == Some(turn[i].0) && lines[j].0 == Some(turn[j].0));
            assert(!earlier(turn[j], turn[i]));
        }
    } else {
        assert(listed(pairs));
    }
}

/// How what is no table is printed, and what has no source form. A number is printed as the
/// shortest text that reads back as it, but for a zero with a sign.
pub proof fn law_how_values_are_printed(
    heap: LuaHeap,
    above: Set<mlua::Table>,
    value: LuaValue,
    indent: Seq<char>,
)
    ensures
        match value {
            LuaValue::Nil => value_text(heap, above, value, indent) == Ok::<Seq<char>, Refusal>(
                "nil"@,
            ),
            LuaValue::Boolean(b) => value_text(heap, above, value, indent) == Ok::<
                Seq<char>,
                Refusal,
            >(
                if b {
                    "true"@
                } else {
                    "false"@
                },
            ),
            LuaValue::Integer(_) | LuaValue::Number(_) => value_text(heap, above, value, indent)
                == Ok::<Seq<char>, Refusal>(key_reads_as(value)->0),
            LuaValue::Text(s) => value_text(heap, above, value, indent) == Ok::<
                Seq<char>,
                Refusal,
            >("\""@ + escapes(s) + "\""@),
            LuaValue::BadText(e) => value_text(heap, above, value, indent) == Err::<
                Seq<char>,
                Refusal,
            >(Refusal::BadText(e)),
            LuaValue::Other(kind, _) => value_text(heap, above, value, indent) == Err::<
                Seq<char>,
                Refusal,
            >(Refusal::Unwritable(odd_name(kind))),
            LuaValue::Table(t) => above.contains(t) ==> value_text(heap, above, value, indent)
                == Err::<Seq<char>, Refusal>(Refusal::Cyclic),
        },
        match value {
            LuaValue::Text(s) => key_text(heap, above, value, indent) == Ok::<Seq<char>, Refusal>(
                if identifier(s) {
                    s
                } else {
                    "["@ + ("\""@ + escapes(s) + "\""@) + "]"@
                },
            ),
            _ => key_text(heap, above, value, indent) == match value_text(
                heap,
                above,
                value,
                indent,
            ) {
                Ok(s) => Ok::<Seq<char>, Refusal>("["@ + s + "]"@),
                Err(e) => Err(e),
            },
        },
{
    reveal_strlit("\"");
    if let LuaValue::Text(s) = value {
        assert(quoted(s) =~= "\""@ + escapes(s) + "\""@);
    }
}

/// One line, as it is printed.
pub open spec fn printed_line(
    heap: LuaHeap,
    above: Set<mlua::Table>,
    line: Line,
    indent: Seq<char>,
) -> Seq<char> {
    let value = value_text(heap, above, line.1, indent)->Ok_0;
    match line.0 {
        Some(key) => indent + key_text(heap, above, key, indent)->Ok_0 + " = "@ + value + ","@,
        None => indent + value + ","@,
    }
}

/// Whether all that stands on a line can be printed.
pub open spec fn line_prints(
    heap: LuaHeap,
    above: Set<mlua::Table>,
    line: Line,
    indent: Seq<char>,
) -> bool {
    &&& value_text(heap, above, line.1, indent) is Ok
    &&& line.0 matches Some(key) ==> key_text(heap, above, key, indent) is Ok
}

proof fn lemma_lines_printed(
    heap: LuaHeap,
    above: Set<mlua::Table>,
    lines: Seq<Line>,
    indent: Seq<char>,
)
    ensures
        lines_text(heap, above, lines, indent) is Ok <==> forall|i: int|
            0 <= i < lines.len() ==> line_prints(heap, above, #[trigger] lines[i], indent),
        lines_text(heap, above, lines, indent) matches Ok(texts) ==> texts == Seq::new(
            lines.len(),
            |i: int| printed_line(heap, above, lines[i], indent),
        ),
    decreases lines.len(),
{
    if lines.len() > 0 {
        let front = lines.drop_last();
        lemma_lines_printed(heap, above, front, indent);
        let last = lines.last();
        assert(lines[lines.len() - 1] == last);
        if lines_text(heap, above, lines, indent) is Ok {
            assert forall|i: int| 0 <= i < lines.len() implies line_prints(
                heap,
                above,
                #[trigger] lines[i],
                indent,
            ) by {
                if i < front.len() {
                    assert(front[i] == lines[i]);
                }
            }
            let texts = lines_text(heap, above, lines, indent)->Ok_0;
            assert(texts =~= Seq::new(
                lines.len(),
                |i: int| printed_line(heap, above, lines[i], indent),
            ));
        }
        if forall|i: int|
            0 <= i < lines.len() ==> line_prints(heap, above, #[trigger] lines[i], indent) {
            assert forall|i: int| 0 <= i < front.len() implies line_prints(
                heap,
                above,
                #[trigger] front[i],
                indent,
            ) by {
                assert(lines[i] == front[i]);
            }
            assert(line_prints(heap, above, lines[lines.len() - 1], indent));
        }
    } else {
        assert(lines_text(heap, above, lines, indent)->Ok_0 =~= Seq::new(
            lines.len(),
            |i: int| printed_line(heap, above, lines[i], indent),
        ));
    }
}

/// How a table is printed that does not lie in itself: an empty one as two braces, and any
/// other with a line for each that it is laid out on, one tab deeper than the table stands,
/// each with a comma at its end, and with the closing brace where the table stands. It is
/// printed just where all that stands on its lines is.
pub proof fn law_how_a_table_is_printed(
    heap: LuaHeap,
    above: Set<mlua::Table>,
    t: mlua::Table,
    indent: Seq<char>,
)
    requires
        heap.dom().finite(),
        heap.contains_key(t),
        !above.contains(t),
    ensures
        heap[t].pairs.len() == 0 ==> value_text(heap, above, LuaValue::Table(t), indent) == Ok::<
            Seq<char>,
            Refusal,
        >("{}"@),
        heap[t].pairs.len() > 0 ==> {
            let lines = lines_of(heap[t].pairs);
            let inside = above.insert(t);
            let deeper = indent + "\t"@;
            let printed = value_text(heap, above, LuaValue::Table(t), indent);
            &&& printed is Ok <==> forall|i: int|
                0 <= i < lines.len() ==> line_prints(heap, inside, #[trigger] lines[i], deeper)
            &&& printed is Ok ==> printed->Ok_0 == "{\n"@ + join(
                Seq::new(
                    lines.len(),
                    |i: int| printed_line(heap, inside, lines[i], deeper),
                ),
                "\n"@,
            ) + "\n"@ + indent + "}"@
        },
        above == Set::<mlua::Table>::empty() && indent.len() == 0 ==> match value_text(
            heap,
            above,
            LuaValue::Table(t),
            indent,
        ) {
            Ok(s) => module_text(heap, t) == Ok::<Seq<char>, Refusal>("return "@ + s + "\n"@),
            Err(e) => module_text(heap, t) == Err::<Seq<char>, Refusal>(e),
        },
{
    lemma_room(heap, above, t);
    lemma_lines_printed(heap, above.insert(t), lines_of(heap[t].pairs), indent + "\t"@);
    if indent.len() == 0 {
        assert(indent =~= Seq::<char>::empty());
    }
}

proof fn lemma_first_line_fails(
    heap: LuaHeap,
    above: Set<mlua::Table>,
    lines: Seq<Line>,
    indent: Seq<char>,
) -> (i: int)
    requires
        lines_text(heap, above, lines, indent) is Err,
    ensures
        0 <= i < lines.len(),
        forall|k: int| 0 <= k < i ==> line_prints(heap, above, #[trigger] lines[k], indent),
        !line_prints(heap, above, lines[i], indent),
        lines_text(heap, above, lines, indent)->Err_0 == match lines[i].0 {
            Some(key) => if key_text(heap, above, key, indent) is Err {
                key_text(heap, above, key, indent)->Err_0
            } else {
                value_text(heap, above, lines[i].1, indent)->Err_0
            },
            None => value_text(heap, above, lines[i].1, indent)->Err_0,
        },
    decreases lines.len(),
{
    let front = lines.drop_last();
    if lines_text(heap, above, front, indent) is Err {
        let i = lemma_first_line_fails(heap, above, front, indent);
        assert forall|k: int| 0 <= k < i implies line_prints(
            heap,
            above,
            #[trigger] lines[k],
            indent,
        ) by {
            assert(lines[k] == front[k]);
        }
        i
    } else {
        lemma_lines_printed(heap, above, front, indent);
        assert forall|k: int| 0 <= k < front.len() implies line_prints(
            heap,
            above,
            #[trigger] lines[k],
            indent,
        ) by {
            assert(lines[k] == front[k]);
        }
        assert(lines[lines.len() - 1] == lines.last());
        lines.len() - 1
    }
}

/// Where a table cannot be printed, the first of its lines that cannot be decides why, and on that the
/// key before the value.
pub proof fn law_the_first_failure_decides(
    heap: LuaHeap,
    above: Set<mlua::Table>,
    t: mlua::Table,
    indent: Seq<char>,
) -> (i: int)
    requires
        heap.dom().finite(),
        heap.contains_key(t),
        !above.contains(t),
        value_text(heap, above, LuaValue::Table(t), indent) is Err,
    ensures
        ({
            let lines = lines_of(heap[t].pairs);
            let inside = above.insert(t);
            let deeper = indent + "\t"@;
            &&& 0 <= i < lines.len()
            &&& forall|k: int|
                0 <= k < i ==> line_prints(heap, inside, #[trigger] lines[k], deeper)
            &&& !line_prints(heap, inside, lines[i], deeper)
            &&& value_text(heap, above, LuaValue::Table(t), indent)->Err_0 == match lines[i].0 {
                Some(key) => if key_text(heap, inside, key, deeper) is Err {
                    key_text(heap, inside, key, deeper)->Err_0
                } else {
                    value_text(heap, inside, lines[i].1, deeper)->Err_0
                },
                None => value_text(heap, inside, lines[i].1, deeper)->Err_0,
            }
        }),
{
    lemma_room(heap, above, t);
    lemma_first_line_fails(heap, above.insert(t), lines_of(heap[t].pairs), indent + "\t"@)
}

} // verus!
