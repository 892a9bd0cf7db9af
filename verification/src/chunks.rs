//! What a place file has to be for it to be read.
//!
//! A place file is a header and a run of chunks, most of them compressed. The reader
//! takes some things for granted that the bytes may not keep: that a chunk unpacks to
//! the length that it announces, that a parent is declared before it is named, that
//! nothing is put into the tree twice. So the chunks are gone through before the bytes
//! are handed over, as far as that takes.

use crate::catalogue::{hidden, is_hidden, is_readable, readable};
use crate::reflection::{classes_of, Classes};
use crate::text::decoded_text;
use rbx_reflection::ReflectionDatabase;
use std::collections::HashMap;
use vstd::prelude::*;
use vstd::slice::slice_subrange;
use vstd::std_specs::hash::group_hash_axioms;
use vstd::utf8::{decode_utf8, valid_utf8};

verus! {

broadcast use group_hash_axioms;

// ---------------------------------------------------------------------------
// Numbers
// ---------------------------------------------------------------------------

/// The number that four bytes write, the least significant one first.
pub open spec fn number_at(bytes: Seq<u8>, at: int) -> nat {
    (bytes[at] + 0x100 * bytes[at + 1] + 0x1_0000 * bytes[at + 2] + 0x100_0000 * bytes[at
        + 3]) as nat
}

/// The smaller of two places.
pub open spec fn at_most(a: int, b: int) -> int {
    if a <= b {
        a
    } else {
        b
    }
}

/// The number that stands at place `i` among `count` numbers: their first bytes come
/// first, all of them, then their second bytes, and so on.
pub open spec fn woven(bytes: Seq<u8>, at: int, count: int, i: int) -> nat {
    (0x100_0000 * bytes[at + i] + 0x1_0000 * bytes[at + count + i] + 0x100 * bytes[at + 2 * count
        + i] + bytes[at + 3 * count + i]) as nat
}

/// The signed number that a number stands for: 0, -1, 1, -2, 2 and so on.
pub open spec fn signed(n: nat) -> int {
    if n % 2 == 0 {
        (n / 2) as int
    } else {
        -((n / 2) as int) - 1
    }
}

/// The sum of the first `n` of `count` signed numbers. References are written by how
/// much each differs from the one before it.
pub open spec fn sum_upto(bytes: Seq<u8>, at: int, count: int, n: int) -> int
    decreases n,
{
    if n <= 0 {
        0
    } else {
        sum_upto(bytes, at, count, n - 1) + signed(woven(bytes, at, count, n - 1))
    }
}

/// Whether the first `n` of `count` references have 32 bits.
pub open spec fn fit(bytes: Seq<u8>, at: int, count: int, n: int) -> bool {
    forall|i: int|
        0 < i <= n ==> i32::MIN <= #[trigger] sum_upto(bytes, at, count, i) <= i32::MAX
}

/// The reference at place `i` among `count`.
pub open spec fn referent(bytes: Seq<u8>, at: int, count: int, i: int) -> i32 {
    sum_upto(bytes, at, count, i + 1) as i32
}

/// The `count` references from a place on.
pub open spec fn referents(bytes: Seq<u8>, at: int, count: int) -> Seq<i32> {
    Seq::new(count as nat, |i: int| referent(bytes, at, count, i))
}

/// The number that four bytes write.
fn read_number(bytes: &[u8], at: usize) -> (r: u64)
    requires
        at + 4 <= bytes@.len(),
    ensures
        r == number_at(bytes@, at as int),
        r < 0x1_0000_0000,
{
    bytes[at] as u64 + 0x100 * (bytes[at + 1] as u64) + 0x1_0000 * (bytes[at + 2] as u64)
        + 0x100_0000 * (bytes[at + 3] as u64)
}

/// The signed number at place `i` among `count`.
fn read_signed(bytes: &[u8], at: usize, count: usize, i: usize) -> (r: i64)
    requires
        at + 4 * count <= bytes@.len(),
        i < count,
    ensures
        r == signed(woven(bytes@, at as int, count as int, i as int)),
        i32::MIN <= r <= i32::MAX,
{
    let size: usize = bytes.len();
    assert(at + 4 * count <= size);
    let n: u64 = 0x100_0000 * (bytes[at + i] as u64) + 0x1_0000 * (bytes[at + count + i] as u64)
        + 0x100 * (bytes[at + 2 * count + i] as u64) + bytes[at + 3 * count + i] as u64;
    if n % 2 == 0 {
        (n / 2) as i64
    } else {
        -((n / 2) as i64) - 1
    }
}

/// The `count` references from a place on, where all of them have 32 bits.
fn read_referents(bytes: &[u8], at: usize, count: usize) -> (r: Option<Vec<i32>>)
    requires
        at + 4 * count <= bytes@.len(),
    ensures
        match r {
            Some(v) => {
                &&& fit(bytes@, at as int, count as int, count as int)
                &&& v@ == referents(bytes@, at as int, count as int)
            },
            None => !fit(bytes@, at as int, count as int, count as int),
        },
{
    let mut v: Vec<i32> = Vec::new();
    let mut sum: i64 = 0;
    let mut i: usize = 0;
    while i < count
        invariant
            at + 4 * count <= bytes@.len(),
            i <= count,
            v@.len() == i,
            i32::MIN <= sum <= i32::MAX,
            sum == sum_upto(bytes@, at as int, count as int, i as int),
            fit(bytes@, at as int, count as int, i as int),
            forall|k: int|
                0 <= k < i ==> #[trigger] v@[k] == referent(bytes@, at as int, count as int, k),
        decreases count - i,
    {
        sum = sum + read_signed(bytes, at, count, i);
        assert(sum == sum_upto(bytes@, at as int, count as int, i as int + 1));
        if sum < i32::MIN as i64 || sum > i32::MAX as i64 {
            return None;
        }
        v.push(sum as i32);
        i = i + 1;
    }
    assert(v@ =~= referents(bytes@, at as int, count as int));
    Some(v)
}

// ---------------------------------------------------------------------------
// Unpacking
// ---------------------------------------------------------------------------

/// What `packed` unpacks to by LZ4, into no more than `size` bytes, if it does.
pub uninterp spec fn lz4_unpacked(packed: Seq<u8>, size: nat) -> Option<Seq<u8>>;

/// What `packed` unpacks to by Zstandard, into no more than `size` bytes, if it does.
pub uninterp spec fn zstd_unpacked(packed: Seq<u8>, size: nat) -> Option<Seq<u8>>;

/// `lz4_flex::block::decompress`: unpack a block into at most `size` bytes.
#[verifier::external_body]
fn lz4_unpack(packed: &[u8], size: usize) -> (r: Option<Vec<u8>>)
    ensures
        match r {
            Some(data) => lz4_unpacked(packed@, size as nat) == Some(data@),
            None => lz4_unpacked(packed@, size as nat) is None,
        },
{
    lz4_flex::block::decompress(packed, size).ok()
}

/// `zstd::bulk::decompress`: unpack a block into at most `size` bytes.
#[verifier::external_body]
fn zstd_unpack(packed: &[u8], size: usize) -> (r: Option<Vec<u8>>)
    ensures
        match r {
            Some(data) => zstd_unpacked(packed@, size as nat) == Some(data@),
            None => zstd_unpacked(packed@, size as nat) is None,
        },
{
    zstd::bulk::decompress(packed, size).ok()
}

/// What a chunk comes to when it is unpacked.
pub enum Unpacked {
    /// It is not what it announces.
    Broken,
    /// It cannot be unpacked, which the reader says in its own words.
    Refused,
    /// These bytes.
    Data(Seq<u8>),
}

/// Whether a block is one of Zstandard: the four bytes that it begins with tell.
pub open spec fn is_zstd(packed: Seq<u8>) -> bool {
    packed[0] == 0x28 && packed[1] == 0xb5 && packed[2] == 0x2f && packed[3] == 0xfd
}

/// How many bytes follow the header of the chunk at a place: its compressed length,
/// or its length where it is not compressed.
pub open spec fn chunk_size(bytes: Seq<u8>, at: int) -> nat {
    if number_at(bytes, at + 4) == 0 {
        number_at(bytes, at + 8)
    } else {
        number_at(bytes, at + 4)
    }
}

/// Where the chunk at a place ends.
pub open spec fn chunk_end(bytes: Seq<u8>, at: int) -> int {
    at_most(at + 16 + chunk_size(bytes, at), bytes.len() as int)
}

/// What the chunk at a place holds. One that is not compressed has to be all there;
/// of one that is, what is there has to be enough.
pub open spec fn unpacked(bytes: Seq<u8>, at: int) -> Unpacked {
    let size = number_at(bytes, at + 8);
    let body = bytes.subrange(at + 16, chunk_end(bytes, at));
    if number_at(bytes, at + 4) == 0 {
        if body.len() == size {
            Unpacked::Data(body)
        } else {
            Unpacked::Broken
        }
    } else if body.len() < 4 {
        Unpacked::Broken
    } else {
        let data = if is_zstd(body) {
            zstd_unpacked(body, size)
        } else {
            lz4_unpacked(body, size)
        };
        match data {
            None => Unpacked::Refused,
            Some(data) => if data.len() == size {
                Unpacked::Data(data)
            } else {
                Unpacked::Broken
            },
        }
    }
}

// ---------------------------------------------------------------------------
// What is declared
// ---------------------------------------------------------------------------

/// What the chunks so far declare.
#[verifier::ext_equal]
pub struct Outline {
    /// How many instances there are of each type, by the number of the type.
    pub counts: Map<u32, nat>,
    /// The class that each type is, by the number of the type.
    pub classes: Map<u32, Seq<char>>,
    /// The instances, with the children that were named for each.
    pub children: Map<i32, Seq<i32>>,
    /// The instances that were named to stand at the top.
    pub tops: Seq<i32>,
}

/// What a chunk leads to.
pub enum Step {
    /// The reader would break on it.
    Breaks,
    /// The reader says in its own words that it stops here, or is done.
    Stops,
    /// It goes on, with this declared.
    Goes(Outline),
}

/// Where the text at a place ends. One that is cut short is as long as it can be.
pub open spec fn text_end(data: Seq<u8>, at: int) -> int {
    at_most(at + 4 + number_at(data, at), data.len() as int)
}

/// The instances with new ones, unless one is there already.
pub open spec fn declared(children: Map<i32, Seq<i32>>, fresh: Seq<i32>) -> Option<
    Map<i32, Seq<i32>>,
>
    decreases fresh.len(),
{
    if fresh.len() == 0 {
        Some(children)
    } else {
        match declared(children, fresh.drop_last()) {
            None => None,
            Some(before) => if before.contains_key(fresh.last()) {
                None
            } else {
                Some(before.insert(fresh.last(), Seq::empty()))
            },
        }
    }
}

/// The bytes of the text at a place.
pub open spec fn text_bytes(data: Seq<u8>, at: int) -> Seq<u8> {
    data.subrange(at + 4, text_end(data, at))
}

/// A chunk that declares instances: the number of their type, the name of their class, a
/// byte, how many they are, and their references.
pub open spec fn instances_step(o: Outline, data: Seq<u8>) -> Step {
    if data.len() < 8 || !valid_utf8(text_bytes(data, 4)) {
        Step::Stops
    } else {
        let at = text_end(data, 4) + 1;
        let class = decode_utf8(text_bytes(data, 4));
        if at + 4 > data.len() {
            Step::Stops
        } else {
            let count = number_at(data, at) as int;
            if at + 4 + 4 * count > data.len() {
                Step::Stops
            } else if !fit(data, at + 4, count, count) {
                Step::Breaks
            } else {
                let id = number_at(data, 0) as u32;
                match declared(o.children, referents(data, at + 4, count)) {
                    None => Step::Stops,
                    Some(children) => if o.counts.contains_key(id) {
                        Step::Stops
                    } else {
                        Step::Goes(
                            Outline {
                                counts: o.counts.insert(id, count as nat),
                                classes: o.classes.insert(id, class),
                                children,
                                ..o
                            },
                        )
                    },
                }
            }
        }
    }
}

/// Where the `n` texts from a place on end, if they are all there.
pub open spec fn texts_end(data: Seq<u8>, at: int, n: int) -> Option<int>
    decreases n,
{
    if n <= 0 {
        Some(at)
    } else if at + 4 > data.len() {
        None
    } else {
        texts_end(data, text_end(data, at), n - 1)
    }
}

/// How many of the first `n` of `count` signed numbers are `kind`.
pub open spec fn tally(data: Seq<u8>, at: int, count: int, n: int, kind: int) -> nat
    decreases n,
{
    if n <= 0 {
        0
    } else {
        tally(data, at, count, n - 1, kind) + (if signed(woven(data, at, count, n - 1)) == kind {
            1nat
        } else {
            0
        })
    }
}

/// Whether the values of a property that holds contents are what they announce. For
/// each instance there is a number: 1 for a URI, 2 for a reference. Then come the URIs,
/// the references, and how many there are of a third kind. Where one of these is cut
/// short, the reader says so, but for the last.
pub open spec fn contents_hold(data: Seq<u8>, at: int, count: int) -> bool {
    let kinds_end = at + 4 * count;
    if kinds_end + 4 > data.len() {
        true
    } else {
        let uris = number_at(data, kinds_end) as int;
        if kinds_end + 4 + 4 * uris > data.len() {
            false
        } else {
            match texts_end(data, kinds_end + 4, uris) {
                None => true,
                Some(uris_end) => if uris_end + 4 > data.len() {
                    true
                } else {
                    let objects = number_at(data, uris_end) as int;
                    let objects_end = uris_end + 4 + 4 * objects;
                    if objects_end > data.len() {
                        true
                    } else {
                        &&& fit(data, uris_end + 4, objects, objects)
                        &&& objects_end + 4 <= data.len()
                        &&& tally(data, at, count, count, 1) <= uris
                        &&& tally(data, at, count, count, 2) <= objects
                    }
                },
            }
        }
    }
}

/// Whether the text at a place is `Name`.
pub open spec fn is_name(data: Seq<u8>, at: int) -> bool {
    &&& number_at(data, at) >= 4
    &&& text_end(data, at) == at + 8
    &&& data[at + 4] == 0x4e
    &&& data[at + 5] == 0x61
    &&& data[at + 6] == 0x6d
    &&& data[at + 7] == 0x65
}

/// Whether there is a type of value with this number.
pub open spec fn value_type(number: u8) -> bool {
    ||| 0x01 <= number <= 0x0e
    ||| number == 0x10
    ||| 0x12 <= number <= 0x1c
    ||| 0x1e <= number <= 0x22
}

/// A chunk that gives values of a property: the number of a type, the name of the
/// property, the type of the values, and the values. Values of a type that is not known
/// are not looked at, and a name has values of its own form. The database has to be in
/// order as far as it is asked about any other property; where it says that the property
/// is not written, its values are not looked at. What is wrong with other values the
/// reader says in its own words.
pub open spec fn values_step(known: Classes, o: Outline, data: Seq<u8>) -> Step {
    if data.len() < 8 || !valid_utf8(text_bytes(data, 4)) || !o.counts.contains_key(
        number_at(data, 0) as u32,
    ) {
        Step::Stops
    } else {
        let at = text_end(data, 4);
        let count = o.counts[number_at(data, 0) as u32] as int;
        let class = o.classes[number_at(data, 0) as u32];
        let prop = decode_utf8(text_bytes(data, 4));
        if at < data.len() && value_type(data[at]) && !is_name(data, 4) && {
            ||| !readable(known, class, prop)
            ||| !hidden(known, class, prop) && {
                ||| data[at] == 0x13 && at + 1 + 4 * count <= data.len() && !fit(
                    data,
                    at + 1,
                    count,
                    count,
                )
                ||| data[at] == 0x22 && !contents_hold(data, at + 1, count)
            }
        } {
            Step::Breaks
        } else {
            Step::Goes(o)
        }
    }
}

/// What is declared once a child was put under its parent, or at the top where that
/// is -1: `None` where there is no such parent.
pub open spec fn adopted(o: Outline, child: i32, parent: i32) -> Option<Outline> {
    if parent == -1 {
        Some(Outline { tops: o.tops.push(child), ..o })
    } else if o.children.contains_key(parent) {
        Some(
            Outline { children: o.children.insert(parent, o.children[parent].push(child)), ..o },
        )
    } else {
        None
    }
}

/// What is declared once the first `n` children were put under their parents.
pub open spec fn adopted_upto(
    o: Outline,
    children: Seq<i32>,
    parents: Seq<i32>,
    n: int,
) -> Option<Outline>
    decreases n,
{
    if n <= 0 {
        Some(o)
    } else {
        match adopted_upto(o, children, parents, n - 1) {
            None => None,
            Some(before) => adopted(before, children[n - 1], parents[n - 1]),
        }
    }
}

/// A chunk that says which instance lies under which: a version, how many there are,
/// the children, and the parents.
pub open spec fn parents_step(o: Outline, data: Seq<u8>) -> Step {
    if data.len() < 5 || data[0] != 0 {
        Step::Stops
    } else {
        let count = number_at(data, 1) as int;
        if 5 + 8 * count > data.len() {
            Step::Stops
        } else if !fit(data, 5, count, count) || !fit(data, 5 + 4 * count, count, count) {
            Step::Breaks
        } else {
            match adopted_upto(
                o,
                referents(data, 5, count),
                referents(data, 5 + 4 * count, count),
                count,
            ) {
                None => Step::Breaks,
                Some(o) => Step::Goes(o),
            }
        }
    }
}

/// Whether instances can be put into the tree one after the other, each with its
/// children after all that wait: each of them is declared, and none comes twice.
pub open spec fn plantable(waiting: Seq<i32>, children: Map<i32, Seq<i32>>) -> bool
    decreases children.dom().len(), waiting.len(),
    when children.dom().finite()
{
    if waiting.len() == 0 {
        true
    } else if !children.contains_key(waiting[0]) {
        false
    } else {
        plantable(waiting.skip(1) + children[waiting[0]], children.remove(waiting[0]))
    }
}

/// Whether the chunk at a place is called by these four bytes.
pub open spec fn called(bytes: Seq<u8>, at: int, a: u8, b: u8, c: u8, d: u8) -> bool {
    bytes[at] == a && bytes[at + 1] == b && bytes[at + 2] == c && bytes[at + 3] == d
}

/// What the chunk at a place leads to, when it holds these bytes: `INST`, `PROP`,
/// `PRNT` and `END` count, and no other.
pub open spec fn chunk_step(
    known: Classes,
    o: Outline,
    bytes: Seq<u8>,
    at: int,
    data: Seq<u8>,
) -> Step {
    if called(bytes, at, 0x49, 0x4e, 0x53, 0x54) {
        instances_step(o, data)
    } else if called(bytes, at, 0x50, 0x52, 0x4f, 0x50) {
        values_step(known, o, data)
    } else if called(bytes, at, 0x50, 0x52, 0x4e, 0x54) {
        parents_step(o, data)
    } else if called(bytes, at, 0x45, 0x4e, 0x44, 0) {
        if plantable(o.tops, o.children) {
            Step::Stops
        } else {
            Step::Breaks
        }
    } else {
        Step::Goes(o)
    }
}

/// Whether the chunks from a place on can be read, or are refused in the reader's own
/// words, when this was declared before them.
pub open spec fn holds_from(known: Classes, bytes: Seq<u8>, at: int, o: Outline) -> bool
    decreases bytes.len() - at,
{
    if at < 0 || at + 16 > bytes.len() {
        true
    } else if number_at(bytes, at + 12) != 0 {
        false
    } else {
        match unpacked(bytes, at) {
            Unpacked::Broken => false,
            Unpacked::Refused => true,
            Unpacked::Data(data) => match chunk_step(known, o, bytes, at, data) {
                Step::Breaks => false,
                Step::Stops => true,
                Step::Goes(o) => holds_from(known, bytes, chunk_end(bytes, at), o),
            },
        }
    }
}

/// Whether the bytes begin with the 32 bytes of the header of a place file: fourteen
/// that are always the same, a version, two numbers, and eight zeros.
pub open spec fn headed(bytes: Seq<u8>) -> bool {
    &&& bytes.len() >= 32
    &&& called(bytes, 0, 0x3c, 0x72, 0x6f, 0x62)
    &&& called(bytes, 4, 0x6c, 0x6f, 0x78, 0x21)
    &&& called(bytes, 8, 0x89, 0xff, 0x0d, 0x0a)
    &&& called(bytes, 12, 0x1a, 0x0a, 0, 0)
    &&& called(bytes, 24, 0, 0, 0, 0)
    &&& called(bytes, 28, 0, 0, 0, 0)
}

/// Nothing is declared yet.
pub open spec fn nothing_declared() -> Outline {
    Outline {
        counts: Map::empty(),
        classes: Map::empty(),
        children: Map::empty(),
        tops: Seq::empty(),
    }
}

/// Whether the bytes can be handed over for reading: either they do not begin like a
/// place file, or their chunks hold.
pub open spec fn presentable(known: Classes, bytes: Seq<u8>) -> bool {
    headed(bytes) ==> holds_from(known, bytes, 32, nothing_declared())
}

// ---------------------------------------------------------------------------
// Going through the chunks
// ---------------------------------------------------------------------------

/// The lists of a map of vectors.
pub open spec fn lists(m: Map<i32, Vec<i32>>) -> Map<i32, Seq<i32>> {
    Map::new(|k: i32| m.contains_key(k), |k: i32| m[k]@)
}

/// The numbers of a map of machine integers.
pub open spec fn numbers(m: Map<u32, usize>) -> Map<u32, nat> {
    Map::new(|k: u32| m.contains_key(k), |k: u32| m[k] as nat)
}

/// The texts of a map of strings.
pub open spec fn names(m: Map<u32, String>) -> Map<u32, Seq<char>> {
    Map::new(|k: u32| m.contains_key(k), |k: u32| m[k]@)
}

/// What the chunks so far declare.
struct Declared {
    counts: HashMap<u32, usize>,
    classes: HashMap<u32, String>,
    children: HashMap<i32, Vec<i32>>,
    tops: Vec<i32>,
}

impl Declared {
    /// Whether every type has a class.
    spec fn wf(self) -> bool {
        self.counts@.dom() == self.classes@.dom()
    }

    /// What is declared.
    spec fn outline(self) -> Outline {
        Outline {
            counts: numbers(self.counts@),
            classes: names(self.classes@),
            children: lists(self.children@),
            tops: self.tops@,
        }
    }
}

/// What a chunk leads to.
enum Lead {
    Breaks,
    Stops,
    Goes,
}

/// Whether a chunk led to `step`, and left this declared.
spec fn led(lead: Lead, after: Declared, step: Step) -> bool {
    match step {
        Step::Breaks => lead is Breaks,
        Step::Stops => lead is Stops,
        Step::Goes(o) => lead is Goes && after.outline() == o,
    }
}

/// Where the text at a place ends.
fn read_text_end(data: &[u8], at: usize) -> (r: usize)
    requires
        at + 4 <= data@.len(),
    ensures
        r == text_end(data@, at as int),
        at + 4 <= r <= data@.len(),
{
    let size: u64 = read_number(data, at);
    let left: usize = data.len() - at - 4;
    if size <= left as u64 {
        at + 4 + size as usize
    } else {
        data.len()
    }
}

/// Where some new instances are there already, all of them have one that is.
proof fn lemma_declared_fails(children: Map<i32, Seq<i32>>, fresh: Seq<i32>, n: int)
    requires
        0 <= n <= fresh.len(),
        declared(children, fresh.take(n)) is None,
    ensures
        declared(children, fresh) is None,
    decreases fresh.len() - n,
{
    if n < fresh.len() {
        assert(fresh.take(n + 1).drop_last() =~= fresh.take(n));
        lemma_declared_fails(children, fresh, n + 1);
    } else {
        assert(fresh.take(n) =~= fresh);
    }
}

/// Declare instances.
#[verifier::spinoff_prover]
#[verifier::rlimit(40)]
fn take_instances(d: &mut Declared, data: &[u8]) -> (r: Lead)
    requires
        old(d).wf(),
    ensures
        led(r, *final(d), instances_step(old(d).outline(), data@)),
        r is Goes ==> final(d).wf(),
{
    if data.len() < 8 {
        return Lead::Stops;
    }
    let name_end: usize = read_text_end(data, 4);
    let class: String = match decoded_text(slice_subrange(data, 8, name_end)) {
        Some(class) => class,
        None => {
            return Lead::Stops;
        },
    };
    if data.len() - name_end < 5 {
        return Lead::Stops;
    }
    let at: usize = name_end + 1;
    let count: u64 = read_number(data, at);
    if 4 * count > (data.len() - at - 4) as u64 {
        return Lead::Stops;
    }
    let count: usize = count as usize;
    let fresh: Vec<i32> = match read_referents(data, at + 4, count) {
        Some(fresh) => fresh,
        None => {
            return Lead::Breaks;
        },
    };
    let id: u32 = read_number(data, 0) as u32;
    let ghost before = d.outline();
    assert(fresh@.take(0) =~= Seq::<i32>::empty());
    let mut i: usize = 0;
    while i < fresh.len()
        invariant
            i <= fresh@.len(),
            d.counts == old(d).counts,
            d.classes == old(d).classes,
            d.tops == old(d).tops,
            before == old(d).outline(),
            declared(before.children, fresh@) is None ==> instances_step(before, data@)
                == Step::Stops,
            declared(before.children, fresh@.take(i as int)) == Some(lists(d.children@)),
        decreases fresh@.len() - i,
    {
        let ghost upto = fresh@.take(i as int + 1);
        assert(upto.drop_last() =~= fresh@.take(i as int));
        assert(upto.last() == fresh@[i as int]);
        if d.children.contains_key(&fresh[i]) {
            assert(lists(d.children@).contains_key(fresh@[i as int]));
            proof {
                lemma_declared_fails(before.children, fresh@, i as int + 1);
            }
            return Lead::Stops;
        }
        let none: Vec<i32> = Vec::new();
        let ghost children = d.children@;
        d.children.insert(fresh[i], none);
        assert(lists(d.children@) =~= lists(children).insert(fresh@[i as int], none@));
        assert(none@ =~= Seq::<i32>::empty());
        i = i + 1;
    }
    assert(fresh@.take(fresh@.len() as int) =~= fresh@);
    if d.counts.contains_key(&id) {
        assert(before.counts.contains_key(id));
        return Lead::Stops;
    }
    let ghost counts = d.counts@;
    let ghost classes = d.classes@;
    assert(!before.counts.contains_key(id));
    d.counts.insert(id, count);
    assert(numbers(d.counts@) =~= numbers(counts).insert(id, count as nat));
    d.classes.insert(id, class);
    assert(names(d.classes@) =~= names(classes).insert(id, class@));
    assert(d.counts@.dom() =~= d.classes@.dom());
    Lead::Goes
}

/// Where the `n` texts from a place on end.
fn read_texts_end(data: &[u8], at: usize, n: u64) -> (r: Option<usize>)
    requires
        at <= data@.len(),
    ensures
        match r {
            Some(end) => texts_end(data@, at as int, n as int) == Some(end as int) && end
                <= data@.len(),
            None => texts_end(data@, at as int, n as int) is None,
        },
{
    let mut at2: usize = at;
    let mut left: u64 = n;
    while left > 0
        invariant
            at2 <= data@.len(),
            texts_end(data@, at2 as int, left as int) == texts_end(data@, at as int, n as int),
        decreases left,
    {
        if data.len() - at2 < 4 {
            return None;
        }
        at2 = read_text_end(data, at2);
        left = left - 1;
    }
    Some(at2)
}

/// How many of `count` signed numbers are `kind`.
fn count_kind(data: &[u8], at: usize, count: usize, kind: i64) -> (r: usize)
    requires
        at + 4 * count <= data@.len(),
    ensures
        r == tally(data@, at as int, count as int, count as int, kind as int),
{
    let mut found: usize = 0;
    let mut i: usize = 0;
    while i < count
        invariant
            at + 4 * count <= data@.len(),
            i <= count,
            found <= i,
            found == tally(data@, at as int, count as int, i as int, kind as int),
        decreases count - i,
    {
        if read_signed(data, at, count, i) == kind {
            found = found + 1;
        }
        i = i + 1;
    }
    found
}

/// Whether the values of a property that holds contents are what they announce.
fn check_contents(data: &[u8], at: usize, count: usize) -> (r: bool)
    requires
        at <= data@.len(),
    ensures
        r == contents_hold(data@, at as int, count as int),
{
    let size: u64 = data.len() as u64;
    let kinds_end: u128 = at as u128 + 4 * (count as u128);
    if kinds_end + 4 > size as u128 {
        return true;
    }
    let kinds_end: usize = kinds_end as usize;
    let uris: u64 = read_number(data, kinds_end);
    if 4 * uris > (data.len() - kinds_end - 4) as u64 {
        return false;
    }
    let uris_end: usize = match read_texts_end(data, kinds_end + 4, uris) {
        Some(end) => end,
        None => {
            return true;
        },
    };
    if data.len() - uris_end < 4 {
        return true;
    }
    let objects: u64 = read_number(data, uris_end);
    if 4 * objects > (data.len() - uris_end - 4) as u64 {
        return true;
    }
    let objects: usize = objects as usize;
    let objects_end: usize = uris_end + 4 + 4 * objects;
    if read_referents(data, uris_end + 4, objects).is_none() {
        return false;
    }
    if data.len() - objects_end < 4 {
        return false;
    }
    count_kind(data, at, count, 1) as u64 <= uris && count_kind(data, at, count, 2) <= objects
}

/// Whether there is a type of value with this number.
fn is_value_type(number: u8) -> (r: bool)
    ensures
        r == value_type(number),
{
    (0x01 <= number && number <= 0x0e) || number == 0x10 || (0x12 <= number && number <= 0x1c) || (
    0x1e <= number && number <= 0x22)
}

/// Look at values of a property.
fn take_values(
    db: &'static ReflectionDatabase<'static>,
    d: &Declared,
    data: &[u8],
) -> (r: Lead)
    requires
        d.wf(),
    ensures
        led(r, *d, values_step(classes_of(*db), d.outline(), data@)),
{
    if data.len() < 8 {
        return Lead::Stops;
    }
    let at: usize = read_text_end(data, 4);
    let prop: String = match decoded_text(slice_subrange(data, 8, at)) {
        Some(prop) => prop,
        None => {
            return Lead::Stops;
        },
    };
    let id: u32 = read_number(data, 0) as u32;
    let count: usize = match d.counts.get(&id) {
        Some(count) => *count,
        None => {
            assert(!d.outline().counts.contains_key(id));
            return Lead::Stops;
        },
    };
    assert(d.outline().counts.contains_key(id));
    if at >= data.len() {
        return Lead::Goes;
    }
    if at == 12 && data[8] == 0x4e && data[9] == 0x61 && data[10] == 0x6d && data[11] == 0x65 {
        assert(is_name(data@, 4));
        return Lead::Goes;
    }
    assert(!is_name(data@, 4));
    if !is_value_type(data[at]) {
        return Lead::Goes;
    }
    match d.classes.get(&id) {
        Some(class) => {
            assert(d.outline().classes[id] == class@);
            if !is_readable(db, class.as_str(), prop.as_str()) {
                return Lead::Breaks;
            }
            if is_hidden(db, class.as_str(), prop.as_str()) {
                return Lead::Goes;
            }
        },
        None => {
            assert(d.counts@.dom().contains(id));
            assert(d.classes@.dom().contains(id));
        },
    }
    if data[at] == 0x13 {
        if 4 * (count as u128) <= (data.len() - at - 1) as u128 && read_referents(
            data,
            at + 1,
            count,
        ).is_none() {
            return Lead::Breaks;
        }
    } else if data[at] == 0x22 {
        if !check_contents(data, at + 1, count) {
            return Lead::Breaks;
        }
    }
    Lead::Goes
}

/// Where some children find no parent, not all of them do.
proof fn lemma_adopted_fails(
    o: Outline,
    children: Seq<i32>,
    parents: Seq<i32>,
    n: int,
    m: int,
)
    requires
        n <= m,
        adopted_upto(o, children, parents, n) is None,
    ensures
        adopted_upto(o, children, parents, m) is None,
    decreases m,
{
    if n < m && m > 0 {
        lemma_adopted_fails(o, children, parents, n, m - 1);
    }
}

/// Put children under their parents.
#[verifier::spinoff_prover]
#[verifier::rlimit(40)]
fn take_parents(d: &mut Declared, data: &[u8]) -> (r: Lead)
    requires
        old(d).wf(),
    ensures
        led(r, *final(d), parents_step(old(d).outline(), data@)),
        r is Goes ==> final(d).wf(),
{
    if data.len() < 5 || data[0] != 0 {
        return Lead::Stops;
    }
    let count: u64 = read_number(data, 1);
    if 8 * count > (data.len() - 5) as u64 {
        return Lead::Stops;
    }
    let count: usize = count as usize;
    let children: Vec<i32> = match read_referents(data, 5, count) {
        Some(children) => children,
        None => {
            return Lead::Breaks;
        },
    };
    let parents: Vec<i32> = match read_referents(data, 5 + 4 * count, count) {
        Some(parents) => parents,
        None => {
            return Lead::Breaks;
        },
    };
    let ghost before = d.outline();
    let mut i: usize = 0;
    while i < count
        invariant
            i <= count,
            children@.len() == count,
            parents@.len() == count,
            d.wf(),
            before == old(d).outline(),
            adopted_upto(before, children@, parents@, count as int) is None ==> parents_step(
                before,
                data@,
            ) == Step::Breaks,
            adopted_upto(before, children@, parents@, i as int) == Some(d.outline()),
        decreases count - i,
    {
        let ghost o = d.outline();
        let ghost step = adopted(o, children@[i as int], parents@[i as int]);
        assert(adopted_upto(before, children@, parents@, i as int + 1) == step);
        if parents[i] == -1 {
            d.tops.push(children[i]);
            assert(Some(d.outline()) == step);
        } else {
            let ghost lists_before = d.children@;
            match d.children.remove(&parents[i]) {
                Some(list) => {
                    assert(o.children.contains_key(parents@[i as int]));
                    let mut list = list;
                    list.push(children[i]);
                    d.children.insert(parents[i], list);
                    assert(lists(d.children@) =~= lists(lists_before).insert(
                        parents@[i as int],
                        list@,
                    ));
                    assert(Some(d.outline()) == step);
                },
                None => {
                    assert(!o.children.contains_key(parents@[i as int]));
                    proof {
                        lemma_adopted_fails(
                            before,
                            children@,
                            parents@,
                            i as int + 1,
                            count as int,
                        );
                    }
                    return Lead::Breaks;
                },
            }
        }
        i = i + 1;
    }
    Lead::Goes
}

/// The lists of a map of vectors are as many as the vectors.
proof fn lemma_lists_finite(m: Map<i32, Vec<i32>>)
    requires
        m.dom().finite(),
    ensures
        lists(m).dom().finite(),
        lists(m).dom() == m.dom(),
{
    assert(lists(m).dom() =~= m.dom());
}

/// Whether what was declared can be put into a tree.
fn can_plant(d: Declared) -> (r: bool)
    ensures
        r == plantable(d.outline().tops, d.outline().children),
{
    let ghost o = d.outline();
    let mut children: HashMap<i32, Vec<i32>> = d.children;
    let mut waiting: Vec<i32> = d.tops;
    let mut next: usize = 0;
    assert(waiting@.skip(0) =~= waiting@);
    while next < waiting.len()
        invariant
            next <= waiting@.len(),
            o == d.outline(),
            plantable(waiting@.skip(next as int), lists(children@)) == plantable(
                o.tops,
                o.children,
            ),
        decreases children@.dom().len(), waiting@.len() - next,
    {
        let ghost left = waiting@.skip(next as int);
        let ghost lists_before = children@;
        proof {
            lemma_lists_finite(children@);
            assert(left[0] == waiting@[next as int]);
        }
        let list: Vec<i32> = match children.remove(&waiting[next]) {
            Some(list) => list,
            None => {
                assert(!lists(lists_before).contains_key(left[0]));
                return false;
            },
        };
        assert(lists(lists_before).contains_key(left[0]));
        assert(lists(children@) =~= lists(lists_before).remove(left[0]));
        let ghost queue = waiting@;
        let mut list = list;
        let ghost added = list@;
        waiting.append(&mut list);
        next = next + 1;
        assert(waiting@.skip(next as int) =~= left.skip(1) + added);
    }
    proof {
        lemma_lists_finite(children@);
        assert(waiting@.skip(next as int) =~= Seq::<i32>::empty());
    }
    true
}

/// Whether the bytes begin with the header of a place file.
fn has_header(bytes: &[u8]) -> (r: bool)
    ensures
        r == headed(bytes@),
{
    bytes.len() >= 32 && is_called(bytes, 0, 0x3c, 0x72, 0x6f, 0x62) && is_called(
        bytes,
        4,
        0x6c,
        0x6f,
        0x78,
        0x21,
    ) && is_called(bytes, 8, 0x89, 0xff, 0x0d, 0x0a) && is_called(bytes, 12, 0x1a, 0x0a, 0, 0)
        && is_called(bytes, 24, 0, 0, 0, 0) && is_called(bytes, 28, 0, 0, 0, 0)
}

/// Whether these four bytes stand at a place.
fn is_called(bytes: &[u8], at: usize, a: u8, b: u8, c: u8, d: u8) -> (r: bool)
    requires
        at + 4 <= bytes@.len(),
    ensures
        r == called(bytes@, at as int, a, b, c, d),
{
    bytes[at] == a && bytes[at + 1] == b && bytes[at + 2] == c && bytes[at + 3] == d
}

/// Look at a chunk that holds these bytes.
fn take_chunk(
    db: &'static ReflectionDatabase<'static>,
    d: &mut Declared,
    bytes: &[u8],
    at: usize,
    data: &[u8],
) -> (r: Lead)
    requires
        old(d).wf(),
        at + 16 <= bytes@.len(),
        !called(bytes@, at as int, 0x45, 0x4e, 0x44, 0),
    ensures
        led(
            r,
            *final(d),
            chunk_step(classes_of(*db), old(d).outline(), bytes@, at as int, data@),
        ),
        r is Goes ==> final(d).wf(),
{
    if is_called(bytes, at, 0x49, 0x4e, 0x53, 0x54) {
        take_instances(d, data)
    } else if is_called(bytes, at, 0x50, 0x52, 0x4f, 0x50) {
        take_values(db, d, data)
    } else if is_called(bytes, at, 0x50, 0x52, 0x4e, 0x54) {
        take_parents(d, data)
    } else {
        Lead::Goes
    }
}

/// Whether the bytes can be handed over for reading.
pub fn is_presentable(db: &'static ReflectionDatabase<'static>, bytes: &[u8]) -> (r: bool)
    ensures
        r == presentable(classes_of(*db), bytes@),
{
    if !has_header(bytes) {
        return true;
    }
    let mut d = Declared {
        counts: HashMap::new(),
        classes: HashMap::new(),
        children: HashMap::new(),
        tops: Vec::new(),
    };
    assert(d.counts@.dom() =~= d.classes@.dom());
    assert(d.outline() =~= nothing_declared());
    let end: usize = bytes.len();
    let mut at: usize = 32;
    while end - at >= 16
        invariant
            32 <= at <= end,
            end == bytes@.len(),
            headed(bytes@),
            d.wf(),
            holds_from(classes_of(*db), bytes@, 32, nothing_declared()) == holds_from(
                classes_of(*db),
                bytes@,
                at as int,
                d.outline(),
            ),
        decreases end - at,
    {
        if read_number(bytes, at + 12) != 0 {
            return false;
        }
        let packed: u64 = read_number(bytes, at + 4);
        let size: u64 = read_number(bytes, at + 8);
        let follows: u64 = if packed == 0 {
            size
        } else {
            packed
        };
        let next: usize = if follows <= (end - at - 16) as u64 {
            at + 16 + follows as usize
        } else {
            end
        };
        assert(next == chunk_end(bytes@, at as int));
        let body: &[u8] = slice_subrange(bytes, at + 16, next);
        let held: Vec<u8>;
        let data: &[u8] = if packed == 0 {
            body
        } else {
            if body.len() < 4 {
                return false;
            }
            let zstd: bool = is_called(body, 0, 0x28, 0xb5, 0x2f, 0xfd);
            let found: Option<Vec<u8>> = if zstd {
                zstd_unpack(body, size as usize)
            } else {
                lz4_unpack(body, size as usize)
            };
            match found {
                Some(found) => {
                    held = found;
                    held.as_slice()
                },
                None => {
                    return true;
                },
            }
        };
        if data.len() as u64 != size {
            return false;
        }
        assert(unpacked(bytes@, at as int) == Unpacked::Data(data@));
        if is_called(bytes, at, 0x45, 0x4e, 0x44, 0) {
            return can_plant(d);
        }
        match take_chunk(db, &mut d, bytes, at, data) {
            Lead::Breaks => {
                return false;
            },
            Lead::Stops => {
                return true;
            },
            Lead::Goes => {},
        }
        at = next;
    }
    true
}

// ---------------------------------------------------------------------------
// Laws
// ---------------------------------------------------------------------------

/// Bytes that do not begin like a place file can be handed over: the reader says so itself. The
/// chunks of one that does can be read where the first can and the rest can, and a chunk that
/// the reader stops at ends it.
pub proof fn law_chunks_are_read_in_order(known: Classes, bytes: Seq<u8>, at: int, o: Outline)
    requires
        0 <= at,
    ensures
        bytes.len() < 32 || bytes[0] != 0x3c || bytes[1] != 0x72 ==> presentable(known, bytes),
        headed(bytes) ==> presentable(known, bytes) == holds_from(
            known,
            bytes,
            32,
            nothing_declared(),
        ),
        at + 16 > bytes.len() ==> holds_from(known, bytes, at, o),
        at + 16 <= bytes.len() && number_at(bytes, at + 12) == 0 ==> holds_from(
            known,
            bytes,
            at,
            o,
        ) == match unpacked(bytes, at) {
            Unpacked::Broken => false,
            Unpacked::Refused => true,
            Unpacked::Data(data) => match chunk_step(known, o, bytes, at, data) {
                Step::Breaks => false,
                Step::Stops => true,
                Step::Goes(more) => holds_from(known, bytes, chunk_end(bytes, at), more),
            },
        },
        at + 16 + number_at(bytes, at + 8) <= bytes.len() && number_at(bytes, at + 4) == 0
            ==> unpacked(bytes, at) == Unpacked::Data(
            bytes.subrange(at + 16, at + 16 + number_at(bytes, at + 8)),
        ),
{
}

/// A chunk that is called by none of the four names that count is passed over, whatever it
/// holds.
pub proof fn law_other_chunks_are_passed_over(
    known: Classes,
    o: Outline,
    bytes: Seq<u8>,
    at: int,
    data: Seq<u8>,
)
    requires
        !called(bytes, at, 0x49, 0x4e, 0x53, 0x54),
        !called(bytes, at, 0x50, 0x52, 0x4f, 0x50),
        !called(bytes, at, 0x50, 0x52, 0x4e, 0x54),
        !called(bytes, at, 0x45, 0x4e, 0x44, 0),
    ensures
        chunk_step(known, o, bytes, at, data) == Step::Goes(o),
{
}

/// Whether one of the sums of `count` numbers from a place on leaves 32 bits.
pub open spec fn sum_leaves(data: Seq<u8>, at: int, count: int) -> bool {
    exists|i: int|
        0 < i <= count && !(i32::MIN <= #[trigger] sum_upto(data, at, count, i) <= i32::MAX)
}

/// What values of a property can break on: a database that is not in order for the property, and
/// values that are references or contents. All others are left to the reader, and none changes
/// what is declared.
pub proof fn law_what_values_break_on(known: Classes, o: Outline, data: Seq<u8>)
    ensures
        values_step(known, o, data) matches Step::Goes(more) ==> more == o,
        values_step(known, o, data) is Breaks ==> {
            let id = number_at(data, 0) as u32;
            let prop = decode_utf8(text_bytes(data, 4));
            let at = text_end(data, 4);
            &&& data.len() >= 8 && o.counts.contains_key(id) && at < data.len()
            &&& {
                ||| !readable(known, o.classes[id], prop)
                ||| data[at] == 0x13 && sum_leaves(data, at + 1, o.counts[id] as int)
                ||| data[at] == 0x22 && !contents_hold(data, at + 1, o.counts[id] as int)
            }
        },
{
    if values_step(known, o, data) is Breaks {
        let count = o.counts[number_at(data, 0) as u32] as int;
        let at = text_end(data, 4) + 1;
        if !fit(data, at, count, count) {
            let i = choose|i: int|
                0 < i <= count && !(i32::MIN <= #[trigger] sum_upto(data, at, count, i)
                    <= i32::MAX);
            assert(!(i32::MIN <= sum_upto(data, at, count, i) <= i32::MAX));
        }
    }
}

/// What a chunk that declares instances can break on: references that leave 32 bits. Where it
/// does not stop the reader, its type has as many instances as it announces, of the class that it
/// names, and these are declared without children.
pub proof fn law_what_instances_break_on(o: Outline, data: Seq<u8>)
    ensures
        instances_step(o, data) is Breaks ==> {
            let at = text_end(data, 4) + 1;
            at + 4 <= data.len() && sum_leaves(data, at + 4, number_at(data, at) as int)
        },
        instances_step(o, data) matches Step::Goes(more) ==> {
            let at = text_end(data, 4) + 1;
            let id = number_at(data, 0) as u32;
            let fresh = referents(data, at + 4, number_at(data, at) as int);
            &&& more.tops == o.tops
            &&& more.counts == o.counts.insert(id, number_at(data, at))
            &&& more.classes == o.classes.insert(id, decode_utf8(text_bytes(data, 4)))
            &&& forall|r: i32| #[trigger]
                more.children.contains_key(r) <==> o.children.contains_key(r) || fresh.contains(r)
            &&& forall|r: i32| #[trigger]
                o.children.contains_key(r) ==> more.children[r] == o.children[r]
            &&& forall|r: i32| #[trigger] fresh.contains(r) ==> more.children[r].len() == 0
        },
{
    let at = text_end(data, 4) + 1;
    let count = number_at(data, at) as int;
    if instances_step(o, data) is Breaks {
        let i = choose|i: int|
            0 < i <= count && !(i32::MIN <= #[trigger] sum_upto(data, at + 4, count, i)
                <= i32::MAX);
        assert(!(i32::MIN <= sum_upto(data, at + 4, count, i) <= i32::MAX));
    }
    if instances_step(o, data) is Goes {
        lemma_declared(o.children, referents(data, at + 4, count));
    }
}

proof fn lemma_declared(children: Map<i32, Seq<i32>>, fresh: Seq<i32>)
    requires
        declared(children, fresh) is Some,
    ensures
        forall|r: i32| #[trigger]
            declared(children, fresh)->0.contains_key(r) <==> children.contains_key(r)
                || fresh.contains(r),
        forall|r: i32| #[trigger]
            children.contains_key(r) ==> declared(children, fresh)->0[r] == children[r],
        forall|r: i32| #[trigger]
            fresh.contains(r) ==> declared(children, fresh)->0[r].len() == 0 && !children.contains_key(
                r,
            ),
    decreases fresh.len(),
{
    if fresh.len() > 0 {
        let front = fresh.drop_last();
        let last = fresh.last();
        lemma_declared(children, front);
        assert forall|r: i32| #[trigger] fresh.contains(r) <==> front.contains(r) || r == last by {
            if fresh.contains(r) {
                let i = choose|i: int| 0 <= i < fresh.len() && fresh[i] == r;
                if i < front.len() {
                    assert(front[i] == r);
                }
            }
            if front.contains(r) {
                let i = choose|i: int| 0 <= i < front.len() && front[i] == r;
                assert(fresh[i] == r);
            }
            assert(fresh[fresh.len() - 1] == last);
        }
    }
}

/// What a chunk that says what lies where can break on: references that leave 32 bits, and a
/// parent that was not declared.
pub proof fn law_what_parents_break_on(o: Outline, data: Seq<u8>)
    ensures
        parents_step(o, data) is Breaks ==> {
            let count = number_at(data, 1) as int;
            let parents = referents(data, 5 + 4 * count, count);
            ||| sum_leaves(data, 5, count)
            ||| sum_leaves(data, 5 + 4 * count, count)
            ||| exists|i: int|
                {
                    &&& 0 <= i < count
                    &&& #[trigger] parents[i] != -1
                    &&& !o.children.contains_key(parents[i])
                }
        },
{
    let count = number_at(data, 1) as int;
    if parents_step(o, data) is Breaks {
        if !fit(data, 5, count, count) {
            let i = choose|i: int|
                0 < i <= count && !(i32::MIN <= #[trigger] sum_upto(data, 5, count, i)
                    <= i32::MAX);
            assert(!(i32::MIN <= sum_upto(data, 5, count, i) <= i32::MAX));
        } else if !fit(data, 5 + 4 * count, count, count) {
            let at = 5 + 4 * count;
            let i = choose|i: int|
                0 < i <= count && !(i32::MIN <= #[trigger] sum_upto(data, at, count, i)
                    <= i32::MAX);
            assert(!(i32::MIN <= sum_upto(data, at, count, i) <= i32::MAX));
        } else {
            lemma_adopted(
                o,
                referents(data, 5, count),
                referents(data, 5 + 4 * count, count),
                count,
            );
        }
    }
}

proof fn lemma_adopted(o: Outline, children: Seq<i32>, parents: Seq<i32>, n: int)
    requires
        n <= parents.len(),
    ensures
        match adopted_upto(o, children, parents, n) {
            Some(more) => more.children.dom() == o.children.dom(),
            None => exists|i: int|
                {
                    &&& 0 <= i < n
                    &&& #[trigger] parents[i] != -1
                    &&& !o.children.contains_key(parents[i])
                },
        },
    decreases n,
{
    if n > 0 {
        lemma_adopted(o, children, parents, n - 1);
        match adopted_upto(o, children, parents, n - 1) {
            Some(before) => {
                assert(before.children.contains_key(parents[n - 1]) == o.children.contains_key(
                    parents[n - 1],
                ));
                if let Some(more) = adopted(before, children[n - 1], parents[n - 1]) {
                    assert(more.children.dom() =~= o.children.dom());
                }
            },
            None => {},
        }
    }
}

/// How instances are put into the tree: the first that waits is put there, has to be declared,
/// and its children wait after all others; it cannot be put there again.
pub proof fn law_instances_are_planted_once(
    first: i32,
    waiting: Seq<i32>,
    children: Map<i32, Seq<i32>>,
)
    requires
        children.dom().finite(),
    ensures
        plantable(Seq::empty(), children),
        plantable(seq![first] + waiting, children) == (children.contains_key(first) && plantable(
            waiting + children[first],
            children.remove(first),
        )),
{
    let all = seq![first] + waiting;
    assert(all.skip(1) =~= waiting);
    assert(all[0] == first);
}

/// How numbers stand in a file: the first byte counts least, and a signed number is doubled, with one
/// less than that for a negative one, so that numbers close to zero are small.
pub proof fn law_how_numbers_stand_in_a_file(bytes: Seq<u8>, at: int, n: nat)
    requires
        0 <= at,
        at + 4 <= bytes.len(),
    ensures
        number_at(bytes, at) == bytes[at] as nat + 256 * (bytes[at + 1] as nat + 256 * (bytes[at
            + 2] as nat + 256 * bytes[at + 3] as nat)),
        signed(2 * n) == n as int,
        signed((2 * n + 1) as nat) == -(n as int) - 1,
{
}

/// Values of a property that is known and not written are not looked at, and those of a property that
/// is not known, or that is written, are.
pub proof fn law_what_is_not_looked_at(known: Classes, class: Seq<char>, prop: Seq<char>)
    requires
        known.dom().finite(),
        known.contains_key(class),
        known[class].props.contains_key(prop),
    ensures
        known[class].props[prop].form is Hidden ==> hidden(known, class, prop),
        known[class].props[prop].form is Plain || known[class].props[prop].form is As
            || known[class].props[prop].form is Moves || known[class].props[prop].form is Unknown
            ==> !hidden(known, class, prop),
{
    if known.dom().len() == 0 {
        known.dom().lemma_len0_is_empty();
    }
}

/// What cannot be handed over: a chunk whose header does not end in zeros, one that is not compressed
/// and not all there, and one that is compressed and does not unpack to the length that it announces.
pub proof fn law_what_is_not_what_it_announces(
    known: Classes,
    bytes: Seq<u8>,
    at: int,
    o: Outline,
)
    requires
        0 <= at,
        at + 16 <= bytes.len(),
    ensures
        number_at(bytes, at + 12) != 0 ==> !holds_from(known, bytes, at, o),
        number_at(bytes, at + 4) == 0 && at + 16 + number_at(bytes, at + 8) > bytes.len()
            ==> unpacked(bytes, at) is Broken,
        number_at(bytes, at + 4) >= 4 && at + 16 + number_at(bytes, at + 4) <= bytes.len() ==> {
            let size = number_at(bytes, at + 8);
            let body = bytes.subrange(at + 16, at + 16 + number_at(bytes, at + 4));
            let data = if body[0] == 0x28 && body[1] == 0xb5 && body[2] == 0x2f && body[3] == 0xfd {
                zstd_unpacked(body, size)
            } else {
                lz4_unpacked(body, size)
            };
            match data {
                None => unpacked(bytes, at) is Refused,
                Some(data) => if data.len() == size {
                    unpacked(bytes, at) == Unpacked::Data(data)
                } else {
                    unpacked(bytes, at) is Broken
                },
            }
        },
        unpacked(bytes, at) is Broken ==> !holds_from(known, bytes, at, o),
{
}

/// What the chunks break on that count: references that leave 32 bits, where all of them are there, a
/// parent that was not declared, values of a property for which the database is not in order, and a
/// tree in which something is not declared or put twice.
pub proof fn law_what_chunks_break_on(known: Classes, o: Outline, bytes: Seq<u8>, at: int, data: Seq<u8>)
    ensures
        called(bytes, at, 0x45, 0x4e, 0x44, 0) ==> (chunk_step(known, o, bytes, at, data) is Breaks)
            == !plantable(o.tops, o.children),
        data.len() >= 5 && data[0] == 0 && 5 + 8 * number_at(data, 1) <= data.len() ==> {
            let count = number_at(data, 1) as int;
            sum_leaves(data, 5, count) || sum_leaves(data, 5 + 4 * count, count) ==> parents_step(
                o,
                data,
            ) is Breaks
        },
        data.len() >= 8 && valid_utf8(text_bytes(data, 4)) && text_end(data, 4) + 5 <= data.len() ==> {
            let start = text_end(data, 4) + 1;
            let count = number_at(data, start) as int;
            start + 4 + 4 * count <= data.len() && sum_leaves(data, start + 4, count)
                ==> instances_step(o, data) is Breaks
        },
        data.len() >= 8 && valid_utf8(text_bytes(data, 4)) && o.counts.contains_key(
            number_at(data, 0) as u32,
        ) && text_end(data, 4) < data.len() && !is_name(data, 4) ==> {
            let id = number_at(data, 0) as u32;
            let prop = decode_utf8(text_bytes(data, 4));
            let start = text_end(data, 4);
            let count = o.counts[id] as int;
            &&& 0x01 <= data[start] <= 0x0e && !readable(known, o.classes[id], prop) ==> values_step(
                known,
                o,
                data,
            ) is Breaks
            &&& data[start] == 0x13 && !hidden(known, o.classes[id], prop) && start + 1 + 4 * count
                <= data.len() && sum_leaves(data, start + 1, count) ==> values_step(known, o, data)
                is Breaks
        },
{
    assert forall|start: int, count: int| #[trigger] sum_leaves(data, start, count) implies !fit(
        data,
        start,
        count,
        count,
    ) by {
        let i = choose|i: int|
            0 < i <= count && !(i32::MIN <= #[trigger] sum_upto(data, start, count, i)
                <= i32::MAX);
        assert(!(i32::MIN <= sum_upto(data, start, count, i) <= i32::MAX));
    }
}

} // verus!
