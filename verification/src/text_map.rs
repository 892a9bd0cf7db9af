//! Maps and sets keyed by text, walked in the order of their keys.
//!
//! The order matters: the lines of a report are meant to be held against those
//! of the run before, so it has to come from the keys.

use crate::text::{lemma_precedes_irreflexive, lemma_precedes_total, lemma_precedes_transitive};
use crate::text::{precedes, same, stands_before, texts};
use vstd::prelude::*;

verus! {

/// A list of keys and values.
pub type Pairs = Seq<(Seq<char>, Seq<char>)>;

/// Whether each key stands before all later ones.
pub open spec fn ascending(pairs: Pairs) -> bool {
    forall|i: int, j: int|
        0 <= i < j < pairs.len() ==> precedes(#[trigger] pairs[i].0, #[trigger] pairs[j].0)
}

/// The map that the pairs spell out, a later pair replacing an earlier one.
pub open spec fn map_of(pairs: Pairs) -> Map<Seq<char>, Seq<char>>
    decreases pairs.len(),
{
    if pairs.len() == 0 {
        Map::empty()
    } else {
        map_of(pairs.drop_last()).insert(pairs.last().0, pairs.last().1)
    }
}

/// The keys of `map_of(pairs)` are those of the pairs, and where the keys are
/// ascending each pair can be read back.
pub proof fn lemma_map_of(pairs: Pairs)
    ensures
        forall|k: Seq<char>| #[trigger]
            map_of(pairs).contains_key(k) <==> exists|i: int|
                0 <= i < pairs.len() && #[trigger] pairs[i].0 == k,
        ascending(pairs) ==> forall|i: int|
            0 <= i < pairs.len() ==> map_of(pairs)[#[trigger] pairs[i].0] == pairs[i].1,
    decreases pairs.len(),
{
    if pairs.len() > 0 {
        let front = pairs.drop_last();
        lemma_map_of(front);
        assert forall|k: Seq<char>| #[trigger]
            map_of(pairs).contains_key(k) implies exists|i: int|
                0 <= i < pairs.len() && #[trigger] pairs[i].0 == k by {
            if map_of(front).contains_key(k) {
                let i = choose|i: int| 0 <= i < front.len() && #[trigger] front[i].0 == k;
                assert(pairs[i].0 == k);
            } else {
                assert(pairs[pairs.len() - 1].0 == k);
            }
        }
        assert forall|k: Seq<char>|
            (exists|i: int| 0 <= i < pairs.len() && #[trigger] pairs[i].0 == k) implies #[trigger]
            map_of(pairs).contains_key(k) by {
            let i = choose|i: int| 0 <= i < pairs.len() && #[trigger] pairs[i].0 == k;
            if i < pairs.len() - 1 {
                assert(front[i].0 == k);
                assert(map_of(front).contains_key(k));
            }
        }
        if ascending(pairs) {
            assert(ascending(front)) by {
                assert forall|i: int, j: int| 0 <= i < j < front.len() implies precedes(
                    #[trigger] front[i].0,
                    #[trigger] front[j].0,
                ) by {
                    assert(pairs[i] == front[i] && pairs[j] == front[j]);
                }
            }
            assert forall|i: int| 0 <= i < pairs.len() implies map_of(pairs)[#[trigger] pairs[i].0]
                == pairs[i].1 by {
                if i < pairs.len() - 1 {
                    assert(front[i] == pairs[i]);
                    lemma_precedes_irreflexive(pairs[i].0);
                    assert(precedes(pairs[i].0, pairs[pairs.len() - 1].0));
                }
            }
        }
    }
}

/// Two lists with ascending keys that spell out the same map are the same list.
pub proof fn law_ascending_pairs_are_determined(a: Pairs, b: Pairs)
    requires
        ascending(a),
        ascending(b),
        map_of(a) == map_of(b),
    ensures
        a == b,
    decreases a.len(),
{
    lemma_map_of(a);
    lemma_map_of(b);
    if a.len() == 0 {
        if b.len() > 0 {
            assert(map_of(b).contains_key(b[0].0));
            assert(!map_of(a).contains_key(b[0].0));
        }
        assert(a =~= b);
    } else {
        let n = a.len() - 1;
        assert(map_of(a).contains_key(a[n].0));
        let j = choose|j: int| 0 <= j < b.len() && #[trigger] b[j].0 == a[n].0;
        let m = b.len() - 1;
        assert(map_of(b).contains_key(b[m].0));
        let i = choose|i: int| 0 <= i < a.len() && #[trigger] a[i].0 == b[m].0;
        if a[n].0 != b[m].0 {
            assert(precedes(b[j].0, b[m].0));
            assert(precedes(a[i].0, a[n].0));
            lemma_precedes_transitive(a[n].0, b[m].0, a[n].0);
            lemma_precedes_irreflexive(a[n].0);
        }
        assert(map_of(a)[a[n].0] == a[n].1);
        assert(map_of(b)[b[m].0] == b[m].1);
        let fa = a.drop_last();
        let fb = b.drop_last();
        assert(ascending(fa)) by {
            assert forall|i: int, j: int| 0 <= i < j < fa.len() implies precedes(
                #[trigger] fa[i].0,
                #[trigger] fa[j].0,
            ) by {
                assert(a[i] == fa[i] && a[j] == fa[j]);
            }
        }
        assert(ascending(fb)) by {
            assert forall|i: int, j: int| 0 <= i < j < fb.len() implies precedes(
                #[trigger] fb[i].0,
                #[trigger] fb[j].0,
            ) by {
                assert(b[i] == fb[i] && b[j] == fb[j]);
            }
        }
        lemma_map_of(fa);
        lemma_map_of(fb);
        assert(!map_of(fa).contains_key(a[n].0)) by {
            if map_of(fa).contains_key(a[n].0) {
                let i = choose|i: int| 0 <= i < fa.len() && #[trigger] fa[i].0 == a[n].0;
                assert(precedes(a[i].0, a[n].0));
                lemma_precedes_irreflexive(a[n].0);
            }
        }
        assert(!map_of(fb).contains_key(b[m].0)) by {
            if map_of(fb).contains_key(b[m].0) {
                let i = choose|i: int| 0 <= i < fb.len() && #[trigger] fb[i].0 == b[m].0;
                assert(precedes(b[i].0, b[m].0));
                lemma_precedes_irreflexive(b[m].0);
            }
        }
        assert(map_of(fa) =~= map_of(a).remove(a[n].0));
        assert(map_of(fb) =~= map_of(b).remove(b[m].0));
        law_ascending_pairs_are_determined(fa, fb);
        assert(a =~= fa.push(a.last()));
        assert(b =~= fb.push(b.last()));
    }
}

/// A map from text to text, held in the order of its keys.
#[derive(Debug, PartialEq, Eq)]
pub struct TextMap {
    entries: Vec<(String, String)>,
}

/// The pairs of a vector of strings.
spec fn pairs_of(v: Seq<(String, String)>) -> Pairs {
    Seq::new(v.len(), |i: int| (v[i].0@, v[i].1@))
}

impl View for TextMap {
    type V = Map<Seq<char>, Seq<char>>;

    open spec fn view(&self) -> Map<Seq<char>, Seq<char>> {
        map_of(self.pairs())
    }
}

impl TextMap {
    /// Keys and values, in the order of the keys.
    pub closed spec fn pairs(&self) -> Pairs {
        pairs_of(self.entries@)
    }

    #[verifier::type_invariant]
    spec fn in_order(self) -> bool {
        ascending(self.pairs())
    }

    /// An empty map.
    pub fn new() -> (r: TextMap)
        ensures
            r@ == Map::<Seq<char>, Seq<char>>::empty(),
            r.pairs() == Seq::<(Seq<char>, Seq<char>)>::empty(),
    {
        let r = TextMap { entries: Vec::new() };
        assert(r.pairs() =~= Seq::<(Seq<char>, Seq<char>)>::empty());
        r
    }

    /// The pairs of a map are in the order of its keys.
    pub fn len(&self) -> (n: usize)
        ensures
            n == self.pairs().len(),
            ascending(self.pairs()),
    {
        proof {
            use_type_invariant(self);
        }
        self.entries.len()
    }

    /// Whether the map holds nothing.
    pub fn is_empty(&self) -> (r: bool)
        ensures
            r == (self.pairs().len() == 0),
            r == (self@ == Map::<Seq<char>, Seq<char>>::empty()),
    {
        proof {
            lemma_map_of(self.pairs());
            if self.pairs().len() > 0 {
                assert(self@.contains_key(self.pairs()[0].0));
            }
        }
        self.entries.len() == 0
    }

    /// The key at place `i`.
    pub fn key(&self, i: usize) -> (r: &str)
        requires
            i < self.pairs().len(),
        ensures
            r@ == self.pairs()[i as int].0,
    {
        self.entries[i].0.as_str()
    }

    /// The value at place `i`.
    pub fn value(&self, i: usize) -> (r: &str)
        requires
            i < self.pairs().len(),
        ensures
            r@ == self.pairs()[i as int].1,
    {
        self.entries[i].1.as_str()
    }

    /// The value under `key`.
    pub fn get(&self, key: &str) -> (r: Option<&str>)
        ensures
            match r {
                Some(v) => self@.contains_key(key@) && self@[key@] == v@,
                None => !self@.contains_key(key@),
            },
    {
        proof {
            use_type_invariant(self);
            lemma_map_of(self.pairs());
        }
        let mut i: usize = 0;
        while i < self.entries.len()
            invariant
                i <= self.entries@.len(),
                ascending(self.pairs()),
                forall|j: int| 0 <= j < i ==> #[trigger] self.pairs()[j].0 != key@,
            decreases self.entries@.len() - i,
        {
            if same(self.entries[i].0.as_str(), key) {
                proof {
                    lemma_map_of(self.pairs());
                    assert(self.pairs()[i as int].0 == key@);
                    assert(self@.contains_key(key@));
                }
                return Some(self.entries[i].1.as_str());
            }
            i = i + 1;
        }
        None
    }

    /// Put `value` under `key`, in place of what was there.
    pub fn insert(&mut self, key: String, value: String)
        ensures
            final(self)@ == old(self)@.insert(key@, value@),
    {
        proof {
            use_type_invariant(&*self);
        }
        let ghost before = self.pairs();
        let mut entries: Vec<(String, String)> = Vec::new();
        assert(pairs_of(entries@) =~= Seq::<(Seq<char>, Seq<char>)>::empty());
        std::mem::swap(&mut self.entries, &mut entries);
        assert(pairs_of(entries@) == before);
        let mut i: usize = 0;
        while i < entries.len() && stands_before(entries[i].0.as_str(), key.as_str())
            invariant
                i <= entries@.len(),
                pairs_of(entries@) == before,
                forall|j: int| 0 <= j < i ==> precedes(#[trigger] before[j].0, key@),
            decreases entries@.len() - i,
        {
            assert(before[i as int].0 == entries@[i as int].0@);
            i = i + 1;
        }
        let ghost k = key@;
        let ghost v = value@;
        if i < entries.len() && same(entries[i].0.as_str(), key.as_str()) {
            assert(before[i as int].0 == k);
            entries.set(i, (key, value));
            proof {
                let after = pairs_of(entries@);
                assert(after =~= before.update(i as int, (k, v)));
                lemma_replace(before, i as int, v);
            }
        } else {
            entries.insert(i, (key, value));
            proof {
                let after = pairs_of(entries@);
                assert(after =~= before.insert(i as int, (k, v)));
                if i < before.len() {
                    assert(before[i as int].0 == entries@[i + 1].0@);
                }
                lemma_insert(before, i as int, k, v);
            }
        }
        self.entries = entries;
    }

    /// The map of a list of pairs, a later pair replacing an earlier one.
    pub fn from_pairs(pairs: &[(&str, &str)]) -> (r: TextMap)
        ensures
            r@ == map_of(str_pairs(pairs@)),
    {
        let mut r = TextMap::new();
        let mut i: usize = 0;
        while i < pairs.len()
            invariant
                i <= pairs@.len(),
                r@ == map_of(str_pairs(pairs@).take(i as int)),
            decreases pairs@.len() - i,
        {
            let ghost upto = str_pairs(pairs@).take(i as int + 1);
            assert(upto.drop_last() =~= str_pairs(pairs@).take(i as int));
            r.insert(pairs[i].0.to_owned(), pairs[i].1.to_owned());
            i = i + 1;
        }
        assert(str_pairs(pairs@).take(pairs@.len() as int) =~= str_pairs(pairs@));
        r
    }

    /// The keys, in order.
    pub fn keys(&self) -> (r: Vec<&str>)
        ensures
            r@.len() == self.pairs().len(),
            forall|i: int| 0 <= i < r@.len() ==> (#[trigger] r@[i])@ == self.pairs()[i].0,
            ascending(self.pairs()),
    {
        proof {
            use_type_invariant(self);
        }
        let mut r: Vec<&str> = Vec::new();
        let mut i: usize = 0;
        while i < self.entries.len()
            invariant
                i <= self.entries@.len(),
                r@.len() == i,
                forall|j: int| 0 <= j < i ==> (#[trigger] r@[j])@ == self.pairs()[j].0,
            decreases self.entries@.len() - i,
        {
            r.push(self.entries[i].0.as_str());
            i = i + 1;
        }
        r
    }
}

/// The pairs of a slice of string slices.
pub open spec fn str_pairs(v: Seq<(&str, &str)>) -> Pairs {
    Seq::new(v.len(), |i: int| (v[i].0@, v[i].1@))
}

/// Replacing a value keeps the order and replaces it in the map.
proof fn lemma_replace(before: Pairs, i: int, v: Seq<char>)
    requires
        ascending(before),
        0 <= i < before.len(),
    ensures
        ascending(before.update(i, (before[i].0, v))),
        map_of(before.update(i, (before[i].0, v))) == map_of(before).insert(before[i].0, v),
{
    let after = before.update(i, (before[i].0, v));
    assert forall|a: int, b: int| 0 <= a < b < after.len() implies precedes(
        #[trigger] after[a].0,
        #[trigger] after[b].0,
    ) by {
        assert(after[a].0 == before[a].0 && after[b].0 == before[b].0);
    }
    lemma_map_of(before);
    lemma_map_of(after);
    let want = map_of(before).insert(before[i].0, v);
    assert forall|k: Seq<char>| map_of(after).contains_key(k) == want.contains_key(k) by {
        if map_of(after).contains_key(k) {
            let j = choose|j: int| 0 <= j < after.len() && #[trigger] after[j].0 == k;
            assert(before[j].0 == k);
        }
        if want.contains_key(k) {
            if k == before[i].0 {
                assert(after[i].0 == k);
            } else {
                let j = choose|j: int| 0 <= j < before.len() && #[trigger] before[j].0 == k;
                assert(after[j].0 == k);
            }
        }
    }
    assert forall|k: Seq<char>| map_of(after).contains_key(k) implies map_of(after)[k] == want[k] by {
        let j = choose|j: int| 0 <= j < after.len() && #[trigger] after[j].0 == k;
        assert(before[j].0 == k);
        if j != i {
            lemma_precedes_irreflexive(before[i].0);
            if j < i {
                assert(precedes(before[j].0, before[i].0));
            } else {
                assert(precedes(before[i].0, before[j].0));
            }
        }
    }
    assert(map_of(after) =~= want);
}

/// Inserting a new key at its place keeps the order and adds it to the map.
proof fn lemma_insert(before: Pairs, i: int, k: Seq<char>, v: Seq<char>)
    requires
        ascending(before),
        0 <= i <= before.len(),
        forall|j: int| 0 <= j < i ==> precedes(#[trigger] before[j].0, k),
        i < before.len() ==> before[i].0 != k && !precedes(before[i].0, k),
    ensures
        ascending(before.insert(i, (k, v))),
        map_of(before.insert(i, (k, v))) == map_of(before).insert(k, v),
{
    let after = before.insert(i, (k, v));
    assert forall|j: int| i <= j < before.len() implies precedes(k, #[trigger] before[j].0) by {
        lemma_precedes_total(before[i].0, k);
        if j > i {
            lemma_precedes_transitive(k, before[i].0, before[j].0);
        }
    }
    assert forall|a: int, b: int| 0 <= a < b < after.len() implies precedes(
        #[trigger] after[a].0,
        #[trigger] after[b].0,
    ) by {
        if a < i {
            assert(after[a] == before[a]);
        } else if a > i {
            assert(after[a] == before[a - 1]);
        }
        if b < i {
            assert(after[b] == before[b]);
        } else if b > i {
            assert(after[b] == before[b - 1]);
        }
    }
    lemma_map_of(before);
    lemma_map_of(after);
    let want = map_of(before).insert(k, v);
    assert forall|q: Seq<char>| map_of(after).contains_key(q) == want.contains_key(q) by {
        if map_of(after).contains_key(q) {
            let j = choose|j: int| 0 <= j < after.len() && #[trigger] after[j].0 == q;
            if j < i {
                assert(before[j].0 == q);
            } else if j > i {
                assert(before[j - 1].0 == q);
            }
        }
        if want.contains_key(q) {
            if q == k {
                assert(after[i].0 == q);
            } else {
                let j = choose|j: int| 0 <= j < before.len() && #[trigger] before[j].0 == q;
                if j < i {
                    assert(after[j].0 == q);
                } else {
                    assert(after[j + 1].0 == q);
                }
            }
        }
    }
    assert forall|q: Seq<char>| map_of(after).contains_key(q) implies map_of(after)[q] == want[q] by {
        let j = choose|j: int| 0 <= j < after.len() && #[trigger] after[j].0 == q;
        lemma_precedes_irreflexive(k);
        if j < i {
            assert(before[j].0 == q);
        } else if j > i {
            assert(before[j - 1].0 == q);
        }
    }
    assert(map_of(after) =~= want);
}

/// A set of texts, held in their order.
#[derive(Debug, PartialEq, Eq)]
pub struct TextSet {
    items: Vec<String>,
}

/// Whether each text stands before all later ones.
pub open spec fn ascending_texts(s: Seq<Seq<char>>) -> bool {
    forall|i: int, j: int| 0 <= i < j < s.len() ==> precedes(#[trigger] s[i], #[trigger] s[j])
}

impl View for TextSet {
    type V = Set<Seq<char>>;

    open spec fn view(&self) -> Set<Seq<char>> {
        self.in_turn().to_set()
    }
}

impl TextSet {
    /// The texts, in order.
    pub closed spec fn in_turn(&self) -> Seq<Seq<char>> {
        texts(self.items@)
    }

    #[verifier::type_invariant]
    spec fn in_order(self) -> bool {
        ascending_texts(self.in_turn())
    }

    /// An empty set.
    pub fn new() -> (r: TextSet)
        ensures
            r@ == Set::<Seq<char>>::empty(),
            r.in_turn() == Seq::<Seq<char>>::empty(),
    {
        let r = TextSet { items: Vec::new() };
        assert(r.in_turn() =~= Seq::<Seq<char>>::empty());
        assert(r@ =~= Set::<Seq<char>>::empty());
        r
    }

    /// How many texts there are.
    pub fn len(&self) -> (n: usize)
        ensures
            n == self.in_turn().len(),
            ascending_texts(self.in_turn()),
    {
        proof {
            use_type_invariant(self);
        }
        self.items.len()
    }

    /// The text at place `i`.
    pub fn item(&self, i: usize) -> (r: &str)
        requires
            i < self.in_turn().len(),
        ensures
            r@ == self.in_turn()[i as int],
    {
        self.items[i].as_str()
    }

    /// Whether `text` is in the set.
    pub fn contains(&self, text: &str) -> (r: bool)
        ensures
            r == self@.contains(text@),
    {
        let mut i: usize = 0;
        while i < self.items.len()
            invariant
                i <= self.items@.len(),
                forall|j: int| 0 <= j < i ==> #[trigger] self.in_turn()[j] != text@,
            decreases self.items@.len() - i,
        {
            if same(self.items[i].as_str(), text) {
                assert(self.in_turn()[i as int] == text@);
                return true;
            }
            i = i + 1;
        }
        false
    }

    /// Put `text` into the set.
    pub fn insert(&mut self, text: String)
        ensures
            final(self)@ == old(self)@.insert(text@),
    {
        proof {
            use_type_invariant(&*self);
        }
        let ghost before = self.in_turn();
        let mut items: Vec<String> = Vec::new();
        std::mem::swap(&mut self.items, &mut items);
        assert(texts(items@) == before);
        let mut i: usize = 0;
        while i < items.len() && stands_before(items[i].as_str(), text.as_str())
            invariant
                i <= items@.len(),
                texts(items@) == before,
                forall|j: int| 0 <= j < i ==> precedes(#[trigger] before[j], text@),
            decreases items@.len() - i,
        {
            assert(before[i as int] == items@[i as int]@);
            i = i + 1;
        }
        let ghost t = text@;
        if i < items.len() && same(items[i].as_str(), text.as_str()) {
            assert(before[i as int] == t);
            assert(before.to_set().insert(t) =~= before.to_set());
        } else {
            if i < items.len() {
                assert(before[i as int] == items@[i as int]@);
            }
            items.insert(i, text);
            proof {
                let now = texts(items@);
                assert(now =~= before.insert(i as int, t));
                assert forall|j: int| i <= j < before.len() implies precedes(
                    t,
                    #[trigger] before[j],
                ) by {
                    lemma_precedes_total(before[i as int], t);
                    if j > i {
                        lemma_precedes_transitive(t, before[i as int], before[j]);
                    }
                }
                assert forall|a: int, b: int| 0 <= a < b < now.len() implies precedes(
                    #[trigger] now[a],
                    #[trigger] now[b],
                ) by {
                    if a < i {
                        assert(now[a] == before[a]);
                    } else if a > i {
                        assert(now[a] == before[a - 1]);
                    }
                    if b < i {
                        assert(now[b] == before[b]);
                    } else if b > i {
                        assert(now[b] == before[b - 1]);
                    }
                }
                assert forall|x: Seq<char>| now.to_set().contains(x) == before.to_set().insert(
                    t,
                ).contains(x) by {
                    if now.contains(x) {
                        let j = choose|j: int| 0 <= j < now.len() && now[j] == x;
                        if j < i {
                            assert(before[j] == x);
                        } else if j > i {
                            assert(before[j - 1] == x);
                        }
                    }
                    if before.contains(x) {
                        let j = choose|j: int| 0 <= j < before.len() && before[j] == x;
                        if j < i {
                            assert(now[j] == x);
                        } else {
                            assert(now[j + 1] == x);
                        }
                    }
                    if x == t {
                        assert(now[i as int] == x);
                    }
                }
                assert(now.to_set() =~= before.to_set().insert(t));
            }
        }
        self.items = items;
    }
}

impl Clone for TextSet {
    /// A copy with the same texts.
    fn clone(&self) -> (r: TextSet)
        ensures
            r.in_turn() == self.in_turn(),
    {
        proof {
            use_type_invariant(self);
        }
        let mut items: Vec<String> = Vec::new();
        let mut i: usize = 0;
        while i < self.items.len()
            invariant
                i <= self.items@.len(),
                items@.len() == i,
                forall|j: int| 0 <= j < i ==> (#[trigger] items@[j])@ == self.items@[j]@,
            decreases self.items@.len() - i,
        {
            items.push(self.items[i].clone());
            i = i + 1;
        }
        assert(texts(items@) =~= self.in_turn());
        TextSet { items }
    }
}

/// A map that pairs spell out holds each of their keys and no other, with the value of the
/// last pair that has it.
pub proof fn law_the_last_pair_counts(pairs: Pairs, k: Seq<char>, v: Seq<char>)
    ensures
        map_of(pairs.push((k, v))) == map_of(pairs).insert(k, v),
        map_of(pairs).contains_key(k) <==> exists|i: int|
            0 <= i < pairs.len() && (#[trigger] pairs[i]).0 == k,
        map_of(pairs).contains_key(k) ==> exists|i: int|
            {
                &&& 0 <= i < pairs.len()
                &&& #[trigger] pairs[i] == (k, map_of(pairs)[k])
                &&& forall|j: int| i < j < pairs.len() ==> (#[trigger] pairs[j]).0 != k
            },
    decreases pairs.len(),
{
    assert(pairs.push((k, v)).drop_last() =~= pairs);
    if pairs.len() > 0 {
        let front = pairs.drop_last();
        let n = pairs.len() - 1;
        law_the_last_pair_counts(front, k, v);
        if pairs[n].0 == k {
            assert(pairs[n] == (k, map_of(pairs)[k]));
        } else {
            if exists|i: int| 0 <= i < pairs.len() && (#[trigger] pairs[i]).0 == k {
                let i = choose|i: int| 0 <= i < pairs.len() && (#[trigger] pairs[i]).0 == k;
                assert(front[i].0 == k);
            }
            if map_of(front).contains_key(k) {
                let i = choose|i: int|
                    {
                        &&& 0 <= i < front.len()
                        &&& #[trigger] front[i] == (k, map_of(front)[k])
                        &&& forall|j: int| i < j < front.len() ==> (#[trigger] front[j]).0 != k
                    };
                assert(pairs[i] == (k, map_of(pairs)[k]));
                assert forall|j: int| i < j < pairs.len() implies (#[trigger] pairs[j]).0 != k by {
                    if j < n {
                        assert(front[j] == pairs[j]);
                    }
                }
            }
        }
    }
}

/// Pairs that are in order stand in the order of their keys, no key twice, and so do texts. The
/// pairs of a list of slices are its pairs, in its order.
pub proof fn law_what_is_in_order(
    pairs: Pairs,
    items: Seq<Seq<char>>,
    slices: Seq<(&str, &str)>,
    i: int,
    j: int,
)
    ensures
        ascending(pairs) && 0 <= i < j < pairs.len() ==> precedes(pairs[i].0, pairs[j].0)
            && pairs[i].0 != pairs[j].0,
        ascending_texts(items) && 0 <= i < j < items.len() ==> precedes(items[i], items[j])
            && items[i] != items[j],
        str_pairs(slices).len() == slices.len(),
        0 <= i < slices.len() ==> str_pairs(slices)[i] == (slices[i].0@, slices[i].1@),
{
    if ascending(pairs) && 0 <= i < j < pairs.len() {
        assert(precedes(pairs[i].0, pairs[j].0));
        lemma_precedes_irreflexive(pairs[i].0);
    }
    if ascending_texts(items) && 0 <= i < j < items.len() {
        assert(precedes(items[i], items[j]));
        lemma_precedes_irreflexive(items[i]);
    }
}

} // verus!
