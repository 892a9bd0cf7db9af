//! The order in which the keys of a Luau table are printed.
//!
//! A table is walked in hash order, which changes from run to run. Printing goes
//! by the sort form of the keys instead, so that two runs can be compared.

use crate::lua::{pairs_model, Datum, LuaValue, Odd};
use crate::text::{append_int, int_text, lemma_precedes_irreflexive, lemma_precedes_total};
use crate::text::{lemma_precedes_transitive, precedes, same, stands_before};
use vstd::prelude::*;

verus! {

/// A key and a value.
pub type LuaPair = (LuaValue, LuaValue);

/// A number as it is printed: whole numbers have no sign in front of a zero.
pub open spec fn number_form(text: Seq<char>) -> Seq<char> {
    if text == "-0"@ {
        "0"@
    } else {
        text
    }
}

/// The form of a key that is no text, number or truth value: what is shown of a
/// vector and of an error, and how the form of any other begins. What comes after
/// that would be an address, so keys of one such kind are left in the order in which
/// the table is walked.
pub open spec fn kind_form(kind: Odd, shown: Seq<char>) -> Seq<char> {
    match kind {
        Odd::Function => "Function(Ref(0x"@,
        Odd::Thread => "Thread(Ref(0x"@,
        Odd::UserData => "AnyUserData(Ref(0x"@,
        Odd::Buffer => "Buffer(Ref(0x"@,
        Odd::LightUserData => "LightUserData(0x"@,
        Odd::Vector => shown,
        Odd::Error => shown,
        Odd::Other => "Other(Ref(0x"@,
    }
}

/// What a key is sorted by.
pub open spec fn key_form(key: LuaValue) -> Seq<char> {
    match key {
        LuaValue::Text(s) => s,
        LuaValue::BadText(_) => Seq::empty(),
        LuaValue::Integer(i) => int_text(i as int),
        LuaValue::Number(text) => number_form(text),
        LuaValue::Boolean(true) => "Boolean(true)"@,
        LuaValue::Boolean(false) => "Boolean(false)"@,
        LuaValue::Nil => "Nil"@,
        LuaValue::Table(_) => "Table(Ref(0x"@,
        LuaValue::Other(kind, shown) => kind_form(kind, shown),
    }
}

/// Whether `a` is sorted before `b` for sure: its form is the smaller one.
pub open spec fn earlier(a: LuaPair, b: LuaPair) -> bool {
    precedes(key_form(a.0), key_form(b.0))
}

/// `sorted` with `pair` after everything that does not have to come after it.
pub open spec fn slotted(sorted: Seq<LuaPair>, pair: LuaPair) -> Seq<LuaPair>
    decreases sorted.len(),
{
    if sorted.len() > 0 && earlier(pair, sorted.last()) {
        slotted(sorted.drop_last(), pair).push(sorted.last())
    } else {
        sorted.push(pair)
    }
}

/// The pairs sorted by the form of their keys, those of one form in the order in
/// which they came.
pub open spec fn in_turn(pairs: Seq<LuaPair>) -> Seq<LuaPair>
    decreases pairs.len(),
{
    if pairs.len() == 0 {
        Seq::empty()
    } else {
        slotted(in_turn(pairs.drop_last()), pairs.last())
    }
}

/// Whether nothing comes before something that has to come before it.
pub open spec fn sorted(pairs: Seq<LuaPair>) -> bool {
    forall|i: int, j: int|
        0 <= i < j < pairs.len() ==> !earlier(#[trigger] pairs[j], #[trigger] pairs[i])
}

/// Where everything before place `p` may stay before `pair` and everything from
/// there on has to come after it, `p` is its place.
pub proof fn lemma_slotted(s: Seq<LuaPair>, pair: LuaPair, p: int)
    requires
        0 <= p <= s.len(),
        forall|i: int| 0 <= i < p ==> !earlier(pair, #[trigger] s[i]),
        forall|i: int| p <= i < s.len() ==> earlier(pair, #[trigger] s[i]),
    ensures
        slotted(s, pair) == s.insert(p, pair),
    decreases s.len(),
{
    if p < s.len() {
        assert(earlier(pair, s[s.len() - 1]));
        let front = s.drop_last();
        lemma_slotted(front, pair, p);
        assert(slotted(s, pair) =~= s.insert(p, pair));
    } else {
        if s.len() > 0 {
            assert(!earlier(pair, s[s.len() - 1]));
        }
        assert(s.insert(p, pair) =~= s.push(pair));
    }
}

/// The place for `pair` in what is sorted.
proof fn lemma_place(s: Seq<LuaPair>, pair: LuaPair) -> (p: int)
    requires
        sorted(s),
    ensures
        0 <= p <= s.len(),
        forall|i: int| 0 <= i < p ==> !earlier(pair, #[trigger] s[i]),
        forall|i: int| p <= i < s.len() ==> earlier(pair, #[trigger] s[i]),
    decreases s.len(),
{
    if s.len() > 0 && earlier(pair, s.last()) {
        let front = s.drop_last();
        assert forall|i: int, j: int| 0 <= i < j < front.len() implies !earlier(
            #[trigger] front[j],
            #[trigger] front[i],
        ) by {
            assert(front[i] == s[i] && front[j] == s[j]);
        }
        let p = lemma_place(front, pair);
        assert forall|i: int| 0 <= i < p implies !earlier(pair, #[trigger] s[i]) by {
            assert(front[i] == s[i]);
        }
        assert forall|i: int| p <= i < s.len() implies earlier(pair, #[trigger] s[i]) by {
            if i < front.len() {
                assert(front[i] == s[i]);
            }
        }
        p
    } else {
        let p = s.len() as int;
        assert forall|i: int| 0 <= i < p implies !earlier(pair, #[trigger] s[i]) by {
            if earlier(pair, s[i]) && i < s.len() - 1 {
                assert(!earlier(s[s.len() - 1], s[i]));
                lemma_not_earlier_chain(pair, s[i], s.last());
            }
        }
        p
    }
}

/// What comes before a pair comes before everything that need not come before it.
proof fn lemma_not_earlier_chain(a: LuaPair, b: LuaPair, c: LuaPair)
    requires
        earlier(a, b),
        !earlier(c, b),
    ensures
        earlier(a, c),
{
    let x = key_form(a.0);
    let y = key_form(b.0);
    let z = key_form(c.0);
    if y != z {
        lemma_precedes_total(y, z);
        lemma_precedes_transitive(x, y, z);
    }
}

/// What [`in_turn`] gives is sorted and holds the same pairs.
pub proof fn law_in_turn_is_sorted(pairs: Seq<LuaPair>)
    ensures
        sorted(in_turn(pairs)),
        in_turn(pairs).to_multiset() == pairs.to_multiset(),
        in_turn(pairs).len() == pairs.len(),
    decreases pairs.len(),
{
    if pairs.len() > 0 {
        let before = in_turn(pairs.drop_last());
        let pair = pairs.last();
        law_in_turn_is_sorted(pairs.drop_last());
        let p = lemma_place(before, pair);
        lemma_slotted(before, pair, p);
        let after = before.insert(p, pair);
        assert forall|i: int, j: int| 0 <= i < j < after.len() implies !earlier(
            #[trigger] after[j],
            #[trigger] after[i],
        ) by {
            lemma_sorted_insert(before, pair, p, i, j);
        }
        before.insert_ensures(p, pair);
        assert(pairs =~= pairs.drop_last().push(pair));
        vstd::seq_lib::to_multiset_build(pairs.drop_last(), pair);
        vstd::seq_lib::to_multiset_insert(before, p, pair);
    } else {
        assert(pairs =~= Seq::empty());
    }
}

/// Slotting in keeps the order.
proof fn lemma_sorted_insert(before: Seq<LuaPair>, pair: LuaPair, p: int, i: int, j: int)
    requires
        sorted(before),
        0 <= p <= before.len(),
        forall|k: int| 0 <= k < p ==> !earlier(pair, #[trigger] before[k]),
        forall|k: int| p <= k < before.len() ==> earlier(pair, #[trigger] before[k]),
        0 <= i < j <= before.len(),
    ensures
        !earlier(before.insert(p, pair)[j], before.insert(p, pair)[i]),
{
    let after = before.insert(p, pair);
    if i == p {
        let x = key_form(pair.0);
        let y = key_form(after[j].0);
        assert(after[j] == before[j - 1]);
        if earlier(after[j], pair) {
            lemma_precedes_transitive(x, y, x);
            lemma_precedes_irreflexive(x);
        }
    } else if j == p {
        assert(after[i] == before[i]);
    } else {
        let a = if i < p {
            i
        } else {
            i - 1
        };
        let b = if j < p {
            j
        } else {
            j - 1
        };
        assert(after[i] == before[a]);
        assert(after[j] == before[b]);
    }
}

/// Pairs of one form stay in the order in which they came.
pub proof fn law_in_turn_is_stable(pairs: Seq<LuaPair>, form: Seq<char>)
    ensures
        in_turn(pairs).filter(|p: LuaPair| key_form(p.0) == form) == pairs.filter(
            |p: LuaPair| key_form(p.0) == form,
        ),
    decreases pairs.len(),
{
    let keep = |p: LuaPair| key_form(p.0) == form;
    if pairs.len() > 0 {
        let before = in_turn(pairs.drop_last());
        let pair = pairs.last();
        law_in_turn_is_stable(pairs.drop_last(), form);
        law_in_turn_is_sorted(pairs.drop_last());
        let p = lemma_place(before, pair);
        lemma_slotted(before, pair, p);
        let low = before.take(p);
        let high = before.skip(p);
        assert(before =~= low + high);
        assert(before.insert(p, pair) =~= low.push(pair) + high);
        Seq::filter_distributes_over_add(low, high, keep);
        Seq::filter_distributes_over_add(low.push(pair), high, keep);
        low.lemma_filter_push(pair, keep);
        pairs.drop_last().lemma_filter_push(pair, keep);
        assert(pairs =~= pairs.drop_last().push(pair));
        if keep(pair) {
            assert forall|i: int| 0 <= i < high.len() implies !keep(#[trigger] high[i]) by {
                assert(high[i] == before[p + i]);
                lemma_precedes_irreflexive(form);
            }
            lemma_filter_none(high, keep);
            assert(in_turn(pairs).filter(keep) =~= pairs.filter(keep));
        }
    } else {
        assert(pairs =~= Seq::empty());
    }
}

/// Nothing is left where nothing is kept.
proof fn lemma_filter_none(s: Seq<LuaPair>, keep: spec_fn(LuaPair) -> bool)
    requires
        forall|i: int| 0 <= i < s.len() ==> !keep(#[trigger] s[i]),
    ensures
        s.filter(keep) == Seq::<LuaPair>::empty(),
    decreases s.len(),
{
    reveal(Seq::filter);
    if s.len() > 0 {
        let front = s.drop_last();
        assert(s =~= front.push(s.last()));
        assert(!keep(s[s.len() - 1]));
        assert forall|i: int| 0 <= i < front.len() implies !keep(#[trigger] front[i]) by {
            assert(front[i] == s[i]);
        }
        lemma_filter_none(front, keep);
    }
}

/// Whether no two keys have one form.
pub open spec fn distinct_forms(pairs: Seq<LuaPair>) -> bool {
    forall|i: int, j: int|
        0 <= i < j < pairs.len() ==> key_form((#[trigger] pairs[i]).0) != key_form(
            (#[trigger] pairs[j]).0,
        )
}

/// Two walks over the same pairs are printed in one order, as long as no two
/// keys have one form.
pub proof fn law_in_turn_forgets_the_walk(a: Seq<LuaPair>, b: Seq<LuaPair>)
    requires
        a.to_multiset() == b.to_multiset(),
        distinct_forms(a),
    ensures
        in_turn(a) == in_turn(b),
{
    law_in_turn_is_sorted(a);
    law_in_turn_is_sorted(b);
    lemma_distinct_forms_kept(a, in_turn(a));
    lemma_sorted_once(in_turn(a), in_turn(b));
}

/// Whether two keys have one form does not depend on the order.
pub proof fn lemma_distinct_forms_kept(a: Seq<LuaPair>, b: Seq<LuaPair>)
    requires
        a.to_multiset() == b.to_multiset(),
        distinct_forms(a),
    ensures
        distinct_forms(b),
{
    assert(a.no_duplicates()) by {
        assert forall|i: int, j: int| 0 <= i < a.len() && 0 <= j < a.len() && i != j implies a[i]
            != a[j] by {
            if i < j {
                assert(key_form(a[i].0) != key_form(a[j].0));
            } else {
                assert(key_form(a[j].0) != key_form(a[i].0));
            }
        }
    }
    a.lemma_multiset_has_no_duplicates();
    b.lemma_multiset_has_no_duplicates_conv();
    a.to_multiset_ensures();
    b.to_multiset_ensures();
    assert forall|i: int, j: int| 0 <= i < j < b.len() implies key_form((#[trigger] b[i]).0)
        != key_form((#[trigger] b[j]).0) by {
        assert(b.contains(b[i]) && b.contains(b[j]));
        assert(b.to_multiset().count(b[i]) > 0 && b.to_multiset().count(b[j]) > 0);
        assert(a.contains(b[i]) && a.contains(b[j]));
        let k = choose|k: int| 0 <= k < a.len() && a[k] == b[i];
        let m = choose|m: int| 0 <= m < a.len() && a[m] == b[j];
        assert(b[i] != b[j]);
        assert(k != m);
        if k < m {
            assert(key_form(a[k].0) != key_form(a[m].0));
        } else {
            assert(key_form(a[m].0) != key_form(a[k].0));
        }
    }
}

/// There is one way to sort pairs whose keys have forms of their own.
proof fn lemma_sorted_once(x: Seq<LuaPair>, y: Seq<LuaPair>)
    requires
        sorted(x),
        sorted(y),
        x.to_multiset() == y.to_multiset(),
        distinct_forms(x),
    ensures
        x == y,
    decreases x.len(),
{
    x.to_multiset_ensures();
    y.to_multiset_ensures();
    assert(x.len() == y.len());
    if x.len() > 0 {
        lemma_distinct_forms_kept(x, y);
        assert(y.contains(y[0]));
        assert(x.to_multiset().count(y[0]) > 0);
        assert(x.contains(y[0]));
        let k = choose|k: int| 0 <= k < x.len() && x[k] == y[0];
        assert(x.contains(x[0]));
        assert(y.to_multiset().count(x[0]) > 0);
        assert(y.contains(x[0]));
        let m = choose|m: int| 0 <= m < y.len() && y[m] == x[0];
        if k > 0 {
            assert(!earlier(x[k], x[0]));
            assert(key_form(x[0].0) != key_form(x[k].0));
            lemma_precedes_total(key_form(x[0].0), key_form(x[k].0));
            assert(m > 0);
            assert(!earlier(y[m], y[0]));
        }
        let a = x.drop_first();
        let b = y.drop_first();
        assert(a =~= x.remove(0));
        assert(b =~= y.remove(0));
        vstd::seq_lib::to_multiset_remove(x, 0);
        vstd::seq_lib::to_multiset_remove(y, 0);
        assert forall|i: int, j: int| 0 <= i < j < a.len() implies !earlier(
            #[trigger] a[j],
            #[trigger] a[i],
        ) && key_form(a[i].0) != key_form(a[j].0) by {
            assert(a[i] == x[i + 1] && a[j] == x[j + 1]);
        }
        assert forall|i: int, j: int| 0 <= i < j < b.len() implies !earlier(
            #[trigger] b[j],
            #[trigger] b[i],
        ) by {
            assert(b[i] == y[i + 1] && b[j] == y[j + 1]);
        }
        lemma_sorted_once(a, b);
        assert(x =~= seq![x[0]] + a);
        assert(y =~= seq![y[0]] + b);
    } else {
        assert(x =~= y);
    }
}

// ---------------------------------------------------------------------------
// Sorting
// ---------------------------------------------------------------------------

/// A pair of a table, with the form that its key is sorted by.
pub(crate) struct Entry {
    pub form: String,
    pub key: Datum,
    pub value: Datum,
}

impl Entry {
    /// Whether the form is that of the key.
    pub(crate) open spec fn wf(self) -> bool {
        self.form@ == key_form(self.key@)
    }

    /// The pair.
    pub(crate) open spec fn pair(self) -> LuaPair {
        (self.key@, self.value@)
    }
}

/// The pairs of a list of entries.
pub(crate) open spec fn entry_pairs(entries: Seq<Entry>) -> Seq<LuaPair> {
    Seq::new(entries.len(), |i: int| entries[i].pair())
}

/// The form of a key of this kind.
fn form_of_kind(kind: Odd, shown: &str) -> (r: String)
    ensures
        r@ == kind_form(kind, shown@),
{
    match kind {
        Odd::Function => "Function(Ref(0x".to_owned(),
        Odd::Thread => "Thread(Ref(0x".to_owned(),
        Odd::UserData => "AnyUserData(Ref(0x".to_owned(),
        Odd::Buffer => "Buffer(Ref(0x".to_owned(),
        Odd::LightUserData => "LightUserData(0x".to_owned(),
        Odd::Vector => shown.to_owned(),
        Odd::Error => shown.to_owned(),
        Odd::Other => "Other(Ref(0x".to_owned(),
    }
}

/// A number as it is printed.
pub(crate) fn format_number(text: &str) -> (r: String)
    ensures
        r@ == number_form(text@),
{
    if same(text, "-0") {
        "0".to_owned()
    } else {
        text.to_owned()
    }
}

/// What a key is sorted by.
fn key_sort_form(key: &Datum) -> (r: String)
    ensures
        r@ == key_form(key@),
{
    match key {
        Datum::Text(s) => s.as_str().to_owned(),
        Datum::BadText(_) => String::new(),
        Datum::Integer(i) => {
            let mut out: String = String::new();
            append_int(&mut out, *i as i64);
            assert(out@ =~= int_text(*i as int));
            out
        },
        Datum::Number(text) => format_number(text.as_str()),
        Datum::Boolean(b) => if *b {
            "Boolean(true)".to_owned()
        } else {
            "Boolean(false)".to_owned()
        },
        Datum::Nil => "Nil".to_owned(),
        Datum::Table(_) => "Table(Ref(0x".to_owned(),
        Datum::Other(kind, shown) => form_of_kind(*kind, shown.as_str()),
    }
}

/// The place after everything that may stay before a key of this form.
fn place_for(sorted_entries: &Vec<Entry>, form: &str, Ghost(pair): Ghost<LuaPair>) -> (p: usize)
    requires
        form@ == key_form(pair.0),
        sorted(entry_pairs(sorted_entries@)),
        forall|i: int| 0 <= i < sorted_entries@.len() ==> (#[trigger] sorted_entries@[i]).wf(),
    ensures
        p <= sorted_entries@.len(),
        slotted(entry_pairs(sorted_entries@), pair) == entry_pairs(sorted_entries@).insert(
            p as int,
            pair,
        ),
{
    let ghost pairs = entry_pairs(sorted_entries@);
    let mut low: usize = 0;
    let mut high: usize = sorted_entries.len();
    while low < high
        invariant
            pairs == entry_pairs(sorted_entries@),
            form@ == key_form(pair.0),
            sorted(pairs),
            forall|i: int| 0 <= i < sorted_entries@.len() ==> (#[trigger] sorted_entries@[i]).wf(),
            low <= high <= sorted_entries@.len(),
            forall|i: int| 0 <= i < low ==> !earlier(pair, #[trigger] pairs[i]),
            forall|i: int| high <= i < pairs.len() ==> earlier(pair, #[trigger] pairs[i]),
        decreases high - low,
    {
        let middle: usize = low + (high - low) / 2;
        assert(sorted_entries@[middle as int].wf());
        if stands_before(form, sorted_entries[middle].form.as_str()) {
            assert forall|i: int| middle <= i < pairs.len() implies earlier(
                pair,
                #[trigger] pairs[i],
            ) by {
                if i > middle {
                    assert(!earlier(pairs[i], pairs[middle as int]));
                    lemma_not_earlier_chain(pair, pairs[middle as int], pairs[i]);
                }
            }
            high = middle;
        } else {
            assert forall|i: int| 0 <= i < middle + 1 implies !earlier(
                pair,
                #[trigger] pairs[i],
            ) by {
                if i < middle && earlier(pair, pairs[i]) {
                    assert(!earlier(pairs[middle as int], pairs[i]));
                    lemma_not_earlier_chain(pair, pairs[i], pairs[middle as int]);
                }
            }
            low = middle + 1;
        }
    }
    proof {
        lemma_slotted(pairs, pair, low as int);
    }
    low
}

/// The pairs of a table, sorted by the form of their keys.
pub(crate) fn sort_entries(raw: Vec<(Datum, Datum)>) -> (r: Vec<Entry>)
    ensures
        entry_pairs(r@) == in_turn(pairs_model(raw@)),
        forall|i: int| 0 <= i < r@.len() ==> (#[trigger] r@[i]).wf(),
{
    let ghost all = raw@;
    let ghost pairs = pairs_model(raw@);
    let mut raw = raw;
    let mut left: Vec<(Datum, Datum)> = Vec::new();
    while raw.len() > 0
        invariant
            raw@.len() <= all.len(),
            raw@ == all.take(raw@.len() as int),
            left@ == all.skip(raw@.len() as int).reverse(),
        decreases raw@.len(),
    {
        let ghost n = raw@.len();
        let ghost last = raw@.last();
        if let Some(pair) = raw.pop() {
            left.push(pair);
        }
        proof {
            assert(raw@ =~= all.take(n - 1));
            assert(all.skip(n - 1) =~= seq![last] + all.skip(n as int));
            assert(left@ =~= all.skip(n - 1).reverse());
        }
    }
    assert(all.skip(0) =~= all);
    let mut entries: Vec<Entry> = Vec::new();
    let ghost mut i: int = 0;
    assert(entry_pairs(entries@) =~= in_turn(pairs.take(0)));
    while left.len() > 0
        invariant
            0 <= i <= all.len(),
            left@ == all.skip(i).reverse(),
            pairs == pairs_model(all),
            entry_pairs(entries@) == in_turn(pairs.take(i)),
            forall|k: int| 0 <= k < entries@.len() ==> (#[trigger] entries@[k]).wf(),
        decreases left@.len(),
    {
        let ghost waiting = left@;
        let (key, value) = match left.pop() {
            Some(pair) => pair,
            None => {
                return entries;
            },
        };
        proof {
            assert(waiting.last() == all[i]);
            assert(left@ =~= all.skip(i + 1).reverse());
        }
        let form: String = key_sort_form(&key);
        let ghost upto = pairs.take(i + 1);
        proof {
            assert(upto.drop_last() =~= pairs.take(i));
            law_in_turn_is_sorted(pairs.take(i));
        }
        let ghost pair = (key@, value@);
        assert(pair == pairs[i]);
        let p: usize = place_for(&entries, form.as_str(), Ghost(pair));
        let ghost before = entries@;
        entries.insert(p, Entry { form, key, value });
        assert(entry_pairs(entries@) =~= entry_pairs(before).insert(p as int, pair));
        assert forall|k: int| 0 <= k < entries@.len() implies (#[trigger] entries@[k]).wf() by {
            if k < p {
                assert(entries@[k] == before[k]);
            } else if k > p {
                assert(entries@[k] == before[k - 1]);
            }
        }
        proof {
            i = i + 1;
        }
    }
    assert(pairs.take(pairs.len() as int) =~= pairs);
    entries
}

/// What keys are sorted by: a text by itself, a number in decimal, without a sign in front of a zero,
/// and all else by what `Debug` shows of it, as far as that is no address. A text that is not UTF-8
/// comes first of all.
pub proof fn law_what_keys_are_sorted_by(s: Seq<char>, i: i32, t: mlua::Table, b: bool, other: LuaPair)
    ensures
        key_form(LuaValue::Text(s)) == s,
        key_form(LuaValue::Integer(i)) == int_text(i as int),
        s != "-0"@ ==> key_form(LuaValue::Number(s)) == s,
        key_form(LuaValue::Number("-0"@)) == "0"@,
        key_form(LuaValue::Boolean(b)) == if b {
            "Boolean(true)"@
        } else {
            "Boolean(false)"@
        },
        key_form(LuaValue::BadText(s)).len() == 0,
        key_form(LuaValue::Table(t)) == "Table(Ref(0x"@,
        key_form(LuaValue::Other(Odd::Vector, s)) == s,
        key_form(LuaValue::Other(Odd::Error, s)) == s,
        key_form(LuaValue::Other(Odd::Function, s)) == "Function(Ref(0x"@,
        key_form(LuaValue::Other(Odd::Thread, s)) == "Thread(Ref(0x"@,
        key_form(LuaValue::Other(Odd::UserData, s)) == "AnyUserData(Ref(0x"@,
        key_form(LuaValue::Other(Odd::Buffer, s)) == "Buffer(Ref(0x"@,
        key_form(LuaValue::Other(Odd::LightUserData, s)) == "LightUserData(0x"@,
        earlier((LuaValue::Text(s), LuaValue::Nil), other) == precedes(s, key_form(other.0)),
{
}

} // verus!
