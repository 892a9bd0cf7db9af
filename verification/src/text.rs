//! Plain text: characters, order, splitting and decimal numbers.
//!
//! A text is modelled by the sequence of its characters. Everything the rules
//! of this library read out of a path, a key or a value goes through here.

use vstd::prelude::*;
use vstd::string::*;
use vstd::utf8::{decode_utf8, valid_utf8};

verus! {

/// `String::push`: the character is added at the end, nothing else changes.
pub assume_specification[ String::push ](s: &mut String, c: char)
    ensures
        final(s)@ == old(s)@.push(c),
;

/// `str::from_utf8`: the text that bytes encode, if they encode one.
#[verifier::external_body]
pub(crate) fn decoded_text(bytes: &[u8]) -> (r: Option<String>)
    ensures
        match r {
            Some(s) => valid_utf8(bytes@) && s@ == decode_utf8(bytes@),
            None => !valid_utf8(bytes@),
        },
{
    std::str::from_utf8(bytes).ok().map(|s| s.to_owned())
}

// ---------------------------------------------------------------------------
// Characters
// ---------------------------------------------------------------------------

/// The characters of `s`, in order.
pub fn chars_of(s: &str) -> (v: Vec<char>)
    ensures
        v@ == s@,
{
    let mut v: Vec<char> = Vec::new();
    for c in it: s.chars()
        invariant
            it.seq() == s@,
            v@ == s@.take(it.index() as int),
    {
        v.push(c);
        assert(s@.take(it.index() as int + 1) =~= s@.take(it.index() as int).push(c));
    }
    assert(s@.take(s@.len() as int) =~= s@);
    v
}

/// The text made of `chars[from..to]`.
pub fn text_of(chars: &Vec<char>, from: usize, to: usize) -> (s: String)
    requires
        from <= to <= chars@.len(),
    ensures
        s@ == chars@.subrange(from as int, to as int),
{
    let mut s: String = String::new();
    let mut i: usize = from;
    assert(s@ =~= chars@.subrange(from as int, from as int));
    while i < to
        invariant
            from <= i <= to <= chars@.len(),
            s@ == chars@.subrange(from as int, i as int),
        decreases to - i,
    {
        s.push(chars[i]);
        assert(chars@.subrange(from as int, i as int + 1) =~= chars@.subrange(
            from as int,
            i as int,
        ).push(chars@[i as int]));
        i = i + 1;
    }
    s
}

/// Whether two texts are the same.
pub fn same(a: &str, b: &str) -> (r: bool)
    ensures
        r == (a@ == b@),
{
    let x: Vec<char> = chars_of(a);
    let y: Vec<char> = chars_of(b);
    if x.len() != y.len() {
        return false;
    }
    let mut i: usize = 0;
    while i < x.len()
        invariant
            x@ == a@,
            y@ == b@,
            x@.len() == y@.len(),
            i <= x@.len(),
            forall|j: int| 0 <= j < i ==> x@[j] == y@[j],
        decreases x@.len() - i,
    {
        if x[i] != y[i] {
            return false;
        }
        i = i + 1;
    }
    assert(a@ =~= b@);
    true
}

// ---------------------------------------------------------------------------
// Prefixes
// ---------------------------------------------------------------------------

/// Whether `s` begins with `prefix`.
pub open spec fn begins(s: Seq<char>, prefix: Seq<char>) -> bool {
    prefix.len() <= s.len() && s.take(prefix.len() as int) == prefix
}

/// What follows the first `prefix.len()` characters.
pub open spec fn after(s: Seq<char>, prefix: Seq<char>) -> Seq<char> {
    s.skip(prefix.len() as int)
}

/// `Some` of what follows `prefix`, or `None` when `s` does not begin with it.
pub open spec fn stripped(s: Seq<char>, prefix: Seq<char>) -> Option<Seq<char>> {
    if begins(s, prefix) {
        Some(after(s, prefix))
    } else {
        None
    }
}

/// `s` without the copies of `prefix` that it begins with, however many.
pub open spec fn trimmed(s: Seq<char>, prefix: Seq<char>) -> Seq<char>
    decreases s.len(),
{
    if prefix.len() > 0 && begins(s, prefix) {
        trimmed(after(s, prefix), prefix)
    } else {
        s
    }
}

/// Whether `s` begins with `prefix`.
pub fn starts_with(s: &str, prefix: &str) -> (r: bool)
    ensures
        r == begins(s@, prefix@),
{
    let x: Vec<char> = chars_of(s);
    let p: Vec<char> = chars_of(prefix);
    if p.len() > x.len() {
        return false;
    }
    let mut i: usize = 0;
    while i < p.len()
        invariant
            x@ == s@,
            p@ == prefix@,
            p@.len() <= x@.len(),
            i <= p@.len(),
            forall|j: int| 0 <= j < i ==> x@[j] == p@[j],
        decreases p@.len() - i,
    {
        if x[i] != p[i] {
            assert(s@.take(prefix@.len() as int)[i as int] == s@[i as int]);
            return false;
        }
        i = i + 1;
    }
    assert(s@.take(prefix@.len() as int) =~= prefix@);
    true
}

/// What follows `prefix`, if `s` begins with it.
pub fn strip_prefix(s: &str, prefix: &str) -> (r: Option<String>)
    ensures
        match r {
            Some(rest) => stripped(s@, prefix@) == Some(rest@),
            None => stripped(s@, prefix@) is None,
        },
{
    if starts_with(s, prefix) {
        let x: Vec<char> = chars_of(s);
        let n: usize = prefix.unicode_len();
        let rest: String = text_of(&x, n, x.len());
        assert(rest@ =~= after(s@, prefix@));
        Some(rest)
    } else {
        None
    }
}

/// `s` without the copies of `prefix` that it begins with.
pub fn trim_prefixes(s: &str, prefix: &str) -> (r: String)
    requires
        prefix@.len() > 0,
    ensures
        r@ == trimmed(s@, prefix@),
{
    let mut cur: String = s.to_owned();
    loop
        invariant
            prefix@.len() > 0,
            trimmed(cur@, prefix@) == trimmed(s@, prefix@),
        decreases cur@.len(),
    {
        match strip_prefix(cur.as_str(), prefix) {
            Some(rest) => {
                cur = rest;
            },
            None => {
                return cur;
            },
        }
    }
}

// ---------------------------------------------------------------------------
// Splitting and joining
// ---------------------------------------------------------------------------

/// The pieces of `s` between the occurrences of `sep`: always at least one.
pub open spec fn split(s: Seq<char>, sep: char) -> Seq<Seq<char>>
    decreases s.len(),
{
    if s.len() == 0 {
        seq![Seq::<char>::empty()]
    } else {
        let pieces = split(s.drop_last(), sep);
        if s.last() == sep {
            pieces.push(Seq::<char>::empty())
        } else {
            pieces.drop_last().push(pieces.last().push(s.last()))
        }
    }
}

/// The pieces with `sep` between each two.
pub open spec fn join(pieces: Seq<Seq<char>>, sep: Seq<char>) -> Seq<char>
    decreases pieces.len(),
{
    if pieces.len() == 0 {
        Seq::<char>::empty()
    } else if pieces.len() == 1 {
        pieces[0]
    } else {
        join(pieces.drop_last(), sep) + sep + pieces.last()
    }
}

/// The texts of a list of strings.
pub open spec fn texts(v: Seq<String>) -> Seq<Seq<char>> {
    Seq::new(v.len(), |i: int| v[i]@)
}

/// Splitting yields at least one piece.
pub proof fn lemma_split_nonempty(s: Seq<char>, sep: char)
    ensures
        split(s, sep).len() >= 1,
    decreases s.len(),
{
    if s.len() > 0 {
        lemma_split_nonempty(s.drop_last(), sep);
    }
}

/// Joining what splitting gave back with the same separator restores the text,
/// and no piece holds the separator.
pub proof fn law_split_then_join(s: Seq<char>, sep: char)
    ensures
        join(split(s, sep), seq![sep]) == s,
        forall|i: int|
            0 <= i < split(s, sep).len() ==> !(#[trigger] split(s, sep)[i]).contains(sep),
    decreases s.len(),
{
    if s.len() > 0 {
        let before = s.drop_last();
        let pieces = split(before, sep);
        lemma_split_nonempty(before, sep);
        law_split_then_join(before, sep);
        assert(s =~= before.push(s.last()));
        let now = split(s, sep);
        if s.last() == sep {
            assert(now.drop_last() =~= pieces);
            assert(join(now, seq![sep]) =~= join(pieces, seq![sep]) + seq![sep]
                + Seq::<char>::empty());
            assert(join(now, seq![sep]) =~= s);
        } else {
            assert(now.drop_last() =~= pieces.drop_last());
            if pieces.len() == 1 {
                assert(join(now, seq![sep]) =~= s);
            } else {
                assert(join(now, seq![sep]) =~= join(pieces.drop_last(), seq![sep]) + seq![sep]
                    + pieces.last().push(s.last()));
                assert(join(now, seq![sep]) =~= join(pieces, seq![sep]).push(s.last()));
            }
            assert forall|i: int| 0 <= i < now.len() implies !(#[trigger] now[i]).contains(sep) by {
                if i < now.len() - 1 {
                    assert(now[i] == pieces[i]);
                } else {
                    assert(!pieces[i].contains(sep));
                    let last = pieces[i].push(s.last());
                    assert(now[i] == last);
                    if last.contains(sep) {
                        let k = choose|k: int| 0 <= k < last.len() && last[k] == sep;
                        assert(k < pieces[i].len());
                        assert(pieces[i][k] == sep);
                    }
                }
            }
        }
    } else {
        assert(split(s, sep) =~= seq![Seq::<char>::empty()]);
        assert(join(split(s, sep), seq![sep]) =~= s);
    }
}

/// The pieces of `s` between the occurrences of `sep`.
pub fn split_at_each(s: &str, sep: char) -> (r: Vec<String>)
    ensures
        texts(r@) == split(s@, sep),
        r@.len() >= 1,
{
    let chars: Vec<char> = chars_of(s);
    let mut pieces: Vec<String> = Vec::new();
    let mut piece: String = String::new();
    let mut i: usize = 0;
    assert(texts(pieces@).push(piece@) =~= split(s@.take(0), sep));
    while i < chars.len()
        invariant
            chars@ == s@,
            i <= chars@.len(),
            texts(pieces@).push(piece@) == split(s@.take(i as int), sep),
        decreases chars@.len() - i,
    {
        let c: char = chars[i];
        let ghost upto = s@.take(i as int + 1);
        let ghost before = texts(pieces@);
        let ghost piece_before = piece@;
        assert(upto.drop_last() =~= s@.take(i as int));
        assert(upto.last() == c);
        assert(before.push(piece_before).drop_last() =~= before);
        if c == sep {
            pieces.push(piece);
            piece = String::new();
            assert(texts(pieces@) =~= before.push(piece_before));
            assert(texts(pieces@).push(piece@) =~= split(upto, sep));
        } else {
            piece.push(c);
            assert(texts(pieces@).push(piece@) =~= split(upto, sep));
        }
        i = i + 1;
    }
    assert(s@.take(s@.len() as int) =~= s@);
    let ghost before = texts(pieces@);
    let ghost last = piece@;
    pieces.push(piece);
    assert(texts(pieces@) =~= before.push(last));
    pieces
}

/// The pieces with `sep` between each two.
pub fn join_with(pieces: &Vec<String>, sep: &str) -> (r: String)
    ensures
        r@ == join(texts(pieces@), sep@),
{
    let mut out: String = String::new();
    let mut i: usize = 0;
    assert(texts(pieces@).take(0) =~= Seq::<Seq<char>>::empty());
    while i < pieces.len()
        invariant
            i <= pieces@.len(),
            out@ == join(texts(pieces@).take(i as int), sep@),
        decreases pieces@.len() - i,
    {
        let ghost upto = texts(pieces@).take(i as int + 1);
        assert(upto.drop_last() =~= texts(pieces@).take(i as int));
        assert(upto.last() == pieces@[i as int]@);
        if i > 0 {
            out.append(sep);
        }
        let ghost o = out@;
        out.append(pieces[i].as_str());
        if i == 0 {
            assert(out@ =~= pieces@[0]@);
        }
        i = i + 1;
    }
    assert(texts(pieces@).take(pieces@.len() as int) =~= texts(pieces@));
    out
}

// ---------------------------------------------------------------------------
// Order
// ---------------------------------------------------------------------------

/// `a` stands before `b`: the first character in which they differ is the
/// smaller code point in `a`, or `a` is a proper beginning of `b`.
pub open spec fn precedes(a: Seq<char>, b: Seq<char>) -> bool
    decreases a.len(),
{
    if b.len() == 0 {
        false
    } else if a.len() == 0 {
        true
    } else if a[0] != b[0] {
        a[0] < b[0]
    } else {
        precedes(a.drop_first(), b.drop_first())
    }
}

/// No text stands before itself.
pub proof fn lemma_precedes_irreflexive(a: Seq<char>)
    ensures
        !precedes(a, a),
    decreases a.len(),
{
    if a.len() > 0 {
        lemma_precedes_irreflexive(a.drop_first());
    }
}

/// The order is transitive.
pub proof fn lemma_precedes_transitive(a: Seq<char>, b: Seq<char>, c: Seq<char>)
    requires
        precedes(a, b),
        precedes(b, c),
    ensures
        precedes(a, c),
    decreases a.len(),
{
    if a.len() > 0 && a[0] == b[0] && b[0] == c[0] {
        lemma_precedes_transitive(a.drop_first(), b.drop_first(), c.drop_first());
    }
}

/// Of two different texts, one stands before the other.
pub proof fn lemma_precedes_total(a: Seq<char>, b: Seq<char>)
    requires
        a != b,
    ensures
        precedes(a, b) || precedes(b, a),
    decreases a.len(),
{
    if a.len() > 0 && b.len() > 0 {
        if a[0] == b[0] {
            if a.drop_first() == b.drop_first() {
                assert(a =~= seq![a[0]] + a.drop_first());
                assert(b =~= seq![b[0]] + b.drop_first());
                assert(a =~= b);
            } else {
                lemma_precedes_total(a.drop_first(), b.drop_first());
            }
        }
    } else if a.len() == 0 && b.len() == 0 {
        assert(a =~= b);
    }
}

/// Whether `a` stands before `b`.
pub fn stands_before(a: &str, b: &str) -> (r: bool)
    ensures
        r == precedes(a@, b@),
{
    let x: Vec<char> = chars_of(a);
    let y: Vec<char> = chars_of(b);
    let mut i: usize = 0;
    assert(a@.skip(0) =~= a@);
    assert(b@.skip(0) =~= b@);
    loop
        invariant
            x@ == a@,
            y@ == b@,
            i <= x@.len(),
            i <= y@.len(),
            precedes(a@.skip(i as int), b@.skip(i as int)) == precedes(a@, b@),
        decreases x@.len() - i,
    {
        if i >= y.len() {
            return false;
        }
        if i >= x.len() {
            return true;
        }
        if x[i] != y[i] {
            return x[i] < y[i];
        }
        assert(a@.skip(i as int).drop_first() =~= a@.skip(i as int + 1));
        assert(b@.skip(i as int).drop_first() =~= b@.skip(i as int + 1));
        i = i + 1;
    }
}

// ---------------------------------------------------------------------------
// Decimal numbers
// ---------------------------------------------------------------------------

/// Whether `c` is one of `0` to `9`.
pub open spec fn is_digit(c: char) -> bool {
    '0' <= c && c <= '9'
}

/// The number a digit stands for.
pub open spec fn digit_value(c: char) -> nat {
    (c as u32 - '0' as u32) as nat
}

/// The digit for a number below ten.
pub open spec fn digit_char(d: nat) -> char {
    (('0' as u32) + d) as char
}

/// `n` in decimal, without leading zeros.
pub open spec fn nat_text(n: nat) -> Seq<char>
    decreases n,
{
    if n < 10 {
        seq![digit_char(n)]
    } else {
        nat_text(n / 10).push(digit_char(n % 10))
    }
}

/// `i` in decimal, with a minus sign when it is negative.
pub open spec fn int_text(i: int) -> Seq<char> {
    if i < 0 {
        seq!['-'] + nat_text((-i) as nat)
    } else {
        nat_text(i as nat)
    }
}

/// Whether `s` holds digits only.
pub open spec fn all_digits(s: Seq<char>) -> bool {
    forall|i: int| 0 <= i < s.len() ==> is_digit(#[trigger] s[i])
}

/// The number that a run of digits stands for.
pub open spec fn digits_value(s: Seq<char>) -> nat
    decreases s.len(),
{
    if s.len() == 0 {
        0
    } else {
        digits_value(s.drop_last()) * 10 + digit_value(s.last())
    }
}

/// The integer that `s` writes in decimal, if it writes one from `lo` to `hi`:
/// an optional sign, then at least one digit. A minus sign counts as a sign only
/// where negative numbers are in the range.
pub open spec fn parsed_int(s: Seq<char>, lo: int, hi: int) -> Option<int> {
    let negative = s.len() > 0 && s[0] == '-' && lo < 0;
    let signed = negative || (s.len() > 0 && s[0] == '+');
    let digits = if signed {
        s.skip(1)
    } else {
        s
    };
    if digits.len() == 0 || !all_digits(digits) {
        None
    } else {
        let value = if negative {
            -(digits_value(digits) as int)
        } else {
            digits_value(digits) as int
        };
        if lo <= value <= hi {
            Some(value)
        } else {
            None
        }
    }
}

/// A run of digits stands for at least what its first `n` digits stand for.
proof fn lemma_digits_value_grows(s: Seq<char>, n: int)
    requires
        0 <= n <= s.len(),
    ensures
        digits_value(s) >= digits_value(s.take(n)),
    decreases s.len(),
{
    if n < s.len() {
        lemma_digits_value_grows(s.drop_last(), n);
        assert(s.drop_last().take(n) =~= s.take(n));
    } else {
        assert(s.take(n) =~= s);
    }
}

/// Writing a number in decimal and reading it back gives the number.
pub proof fn law_nat_text_reads_back(n: nat)
    ensures
        digits_value(nat_text(n)) == n,
        nat_text(n).len() >= 1,
        all_digits(nat_text(n)),
    decreases n,
{
    if n < 10 {
        assert(nat_text(n).drop_last() =~= Seq::<char>::empty());
        assert(digits_value(Seq::<char>::empty()) == 0);
    } else {
        law_nat_text_reads_back(n / 10);
        assert(nat_text(n).drop_last() =~= nat_text(n / 10));
    }
}

/// An integer that is written in decimal reads back.
pub proof fn law_int_text_reads_back(i: int, lo: int, hi: int)
    requires
        lo <= i <= hi,
        lo < 0,
    ensures
        parsed_int(int_text(i), lo, hi) == Some(i),
{
    if i < 0 {
        law_nat_text_reads_back((-i) as nat);
        let s = int_text(i);
        assert(s.skip(1) =~= nat_text((-i) as nat));
    } else {
        law_nat_text_reads_back(i as nat);
        let s = int_text(i);
        assert(is_digit(s[0]));
    }
}

/// Add `n` in decimal at the end of `out`.
pub fn append_nat(out: &mut String, n: u64)
    ensures
        final(out)@ == old(out)@ + nat_text(n as nat),
    decreases n,
{
    if n >= 10 {
        append_nat(out, n / 10);
    }
    let d: u8 = (n % 10) as u8;
    out.push((48u8 + d) as char);
    assert(out@ =~= old(out)@ + nat_text(n as nat));
}

/// Add `i` in decimal at the end of `out`.
pub fn append_int(out: &mut String, i: i64)
    ensures
        final(out)@ == old(out)@ + int_text(i as int),
{
    if i < 0 {
        out.push('-');
        let magnitude: u64 = (-(i as i128)) as u64;
        append_nat(out, magnitude);
        assert(out@ =~= old(out)@ + int_text(i as int));
    } else {
        append_nat(out, i as u64);
    }
}

/// The integer that `s` writes in decimal, if it writes one from `lo` to `hi`.
pub fn parse_int(s: &str, lo: i128, hi: i128) -> (r: Option<i128>)
    requires
        -0x1_0000_0000_0000_0000 <= lo <= 0,
        0 <= hi <= 0x1_0000_0000_0000_0000,
    ensures
        match r {
            Some(v) => parsed_int(s@, lo as int, hi as int) == Some(v as int),
            None => parsed_int(s@, lo as int, hi as int) is None,
        },
{
    let chars: Vec<char> = chars_of(s);
    let negative: bool = chars.len() > 0 && chars[0] == '-' && lo < 0;
    let signed: bool = negative || (chars.len() > 0 && chars[0] == '+');
    let start: usize = if signed {
        1
    } else {
        0
    };
    let ghost digits = s@.skip(start as int);
    assert(s@.skip(0) =~= s@);
    if start == chars.len() {
        return None;
    }
    let mut magnitude: i128 = 0;
    let mut i: usize = start;
    assert(digits.take(0) =~= Seq::<char>::empty());
    while i < chars.len()
        invariant
            chars@ == s@,
            start <= i <= chars@.len(),
            start < chars@.len(),
            digits == s@.skip(start as int),
            -0x1_0000_0000_0000_0000 <= lo <= 0,
            0 <= hi <= 0x1_0000_0000_0000_0000,
            start == if signed {
                1int
            } else {
                0int
            },
            negative == (s@.len() > 0 && s@[0] == '-' && lo < 0),
            signed == (negative || (s@.len() > 0 && s@[0] == '+')),
            s@.skip(0) == s@,
            0 <= magnitude <= 0x1_0000_0000_0000_0000,
            magnitude == digits_value(digits.take(i - start)),
            forall|j: int| 0 <= j < i - start ==> is_digit(#[trigger] digits[j]),
        decreases chars@.len() - i,
    {
        let c: char = chars[i];
        assert(digits[i - start] == c);
        if !('0' <= c && c <= '9') {
            assert(!is_digit(digits[i - start]));
            assert(!all_digits(digits));
            return None;
        }
        let d: i128 = (c as u32 - 48) as i128;
        assert(digits.take(i - start + 1).drop_last() =~= digits.take(i - start));
        magnitude = magnitude * 10 + d;
        proof {
            lemma_digits_value_grows(digits, i - start + 1);
        }
        assert(magnitude == digits_value(digits.take(i - start + 1)));
        if magnitude > 0x1_0000_0000_0000_0000 {
            return None;
        }
        i = i + 1;
    }
    assert(digits.take(digits.len() as int) =~= digits);
    let value: i128 = if negative {
        -magnitude
    } else {
        magnitude
    };
    if lo <= value && value <= hi {
        Some(value)
    } else {
        None
    }
}

// ---------------------------------------------------------------------------
// Laws
// ---------------------------------------------------------------------------

/// A text put in front of another is what that begins with, and what follows it is the
/// other. A text that begins with one is that one with what follows put behind it.
pub proof fn law_a_prefix_can_be_told(prefix: Seq<char>, rest: Seq<char>)
    ensures
        begins(prefix + rest, prefix),
        stripped(prefix + rest, prefix) == Some(rest),
        begins(rest, prefix) ==> prefix + stripped(rest, prefix)->0 == rest,
        begins(rest, prefix) <==> exists|more: Seq<char>| rest == #[trigger] (prefix + more),
        begins(rest, prefix) == stripped(rest, prefix) is Some,
{
    let s = prefix + rest;
    assert(s.take(prefix.len() as int) =~= prefix);
    assert(s.skip(prefix.len() as int) =~= rest);
    if begins(rest, prefix) {
        assert(prefix + rest.skip(prefix.len() as int) =~= rest);
    }
    if exists|more: Seq<char>| rest == #[trigger] (prefix + more) {
        let more = choose|more: Seq<char>| rest == #[trigger] (prefix + more);
        assert((prefix + more).take(prefix.len() as int) =~= prefix);
    }
}

/// `n` copies of a text.
pub open spec fn repeated(piece: Seq<char>, n: nat) -> Seq<char>
    decreases n,
{
    if n == 0 {
        Seq::empty()
    } else {
        piece + repeated(piece, (n - 1) as nat)
    }
}

/// A text is copies of the prefix and then what is left when they are trimmed, which does
/// not begin with the prefix. However many copies are put in front, the same is left.
pub proof fn law_trimming_takes_all_copies(s: Seq<char>, prefix: Seq<char>)
    requires
        prefix.len() > 0,
    ensures
        exists|n: nat| s == #[trigger] repeated(prefix, n) + trimmed(s, prefix),
        !begins(trimmed(s, prefix), prefix),
        forall|n: nat| trimmed(#[trigger] repeated(prefix, n) + s, prefix) == trimmed(s, prefix),
        !begins(s, prefix) ==> trimmed(s, prefix) == s,
    decreases s.len(),
{
    if begins(s, prefix) {
        let rest = after(s, prefix);
        law_trimming_takes_all_copies(rest, prefix);
        let n = choose|n: nat| rest == #[trigger] repeated(prefix, n) + trimmed(rest, prefix);
        assert(repeated(prefix, n + 1) == prefix + repeated(prefix, n));
        assert(s =~= prefix + rest);
        assert(s =~= repeated(prefix, n + 1) + trimmed(s, prefix));
    } else {
        assert(s =~= repeated(prefix, 0) + s);
    }
    assert forall|n: nat| trimmed(#[trigger] repeated(prefix, n) + s, prefix) == trimmed(
        s,
        prefix,
    ) by {
        lemma_trimmed_copies(s, prefix, n);
    }
}

proof fn lemma_trimmed_copies(s: Seq<char>, prefix: Seq<char>, n: nat)
    requires
        prefix.len() > 0,
    ensures
        trimmed(repeated(prefix, n) + s, prefix) == trimmed(s, prefix),
    decreases n,
{
    if n == 0 {
        assert(repeated(prefix, n) + s =~= s);
    } else {
        let less = repeated(prefix, (n - 1) as nat) + s;
        lemma_trimmed_copies(s, prefix, (n - 1) as nat);
        assert(repeated(prefix, n) + s =~= prefix + less);
        law_a_prefix_can_be_told(prefix, less);
    }
}

/// One piece is joined to itself, and the joined pieces of two lists have the separator
/// between them.
pub proof fn law_joining(a: Seq<Seq<char>>, b: Seq<Seq<char>>, piece: Seq<char>, sep: Seq<char>)
    ensures
        join(seq![piece], sep) == piece,
        a.len() > 0 && b.len() > 0 ==> join(a + b, sep) == join(a, sep) + sep + join(b, sep),
        join(Seq::empty(), sep).len() == 0,
    decreases b.len(),
{
    if a.len() > 0 && b.len() > 0 {
        assert((a + b).drop_last() =~= a + b.drop_last());
        assert((a + b).last() == b.last());
        if b.len() == 1 {
            assert(a + b.drop_last() =~= a);
        } else {
            law_joining(a, b.drop_last(), piece, sep);
            assert(join(a + b, sep) =~= join(a, sep) + sep + join(b, sep));
        }
    }
}

/// Pieces that do not hold the separator are what the joined text is split into.
pub proof fn law_join_then_split(pieces: Seq<Seq<char>>, sep: char)
    requires
        pieces.len() > 0,
        forall|i: int| 0 <= i < pieces.len() ==> !(#[trigger] pieces[i]).contains(sep),
    ensures
        split(join(pieces, seq![sep]), sep) == pieces,
    decreases pieces.len(),
{
    let last = pieces.last();
    assert(!pieces[pieces.len() - 1].contains(sep));
    if pieces.len() == 1 {
        lemma_split_piece(Seq::empty(), last, sep);
        assert(Seq::<char>::empty() + last =~= last);
        assert(split(last, sep) =~= pieces);
    } else {
        let front = pieces.drop_last();
        assert forall|i: int| 0 <= i < front.len() implies !(#[trigger] front[i]).contains(sep) by {
            assert(front[i] == pieces[i]);
        }
        law_join_then_split(front, sep);
        let so_far = join(front, seq![sep]) + seq![sep];
        assert(so_far.drop_last() =~= join(front, seq![sep]));
        lemma_split_piece(so_far, last, sep);
        assert(split(so_far, sep) =~= front.push(Seq::empty()));
        assert(split(join(pieces, seq![sep]), sep) =~= pieces);
    }
}

/// A piece that does not hold the separator goes to the end of the last piece.
proof fn lemma_split_piece(s: Seq<char>, piece: Seq<char>, sep: char)
    requires
        !piece.contains(sep),
    ensures
        split(s + piece, sep) == split(s, sep).drop_last().push(split(s, sep).last() + piece),
    decreases piece.len(),
{
    lemma_split_nonempty(s, sep);
    let all = split(s, sep);
    if piece.len() == 0 {
        assert(s + piece =~= s);
        assert(all.last() + piece =~= all.last());
        assert(all.drop_last().push(all.last()) =~= all);
    } else {
        let front = piece.drop_last();
        assert(!front.contains(sep)) by {
            if front.contains(sep) {
                let i = choose|i: int| 0 <= i < front.len() && front[i] == sep;
                assert(piece[i] == sep);
            }
        }
        assert(piece.contains(piece.last())) by {
            assert(piece[piece.len() - 1] == piece.last());
        }
        lemma_split_piece(s, front, sep);
        assert((s + piece).drop_last() =~= s + front);
        let before = split(s + front, sep);
        assert(before.drop_last() =~= all.drop_last());
        assert(before.last().push(piece.last()) =~= all.last() + piece);
    }
}

/// Texts stand in the order of the first characters in which they differ, by code point,
/// and a text stands before whatever it is only the beginning of.
pub proof fn law_first_difference_decides(
    head: Seq<char>,
    a: char,
    x: Seq<char>,
    b: char,
    y: Seq<char>,
)
    ensures
        precedes(head, head + seq![a] + x),
        !precedes(head + seq![a] + x, head),
        a < b ==> precedes(head + seq![a] + x, head + seq![b] + y),
        a < b ==> !precedes(head + seq![b] + y, head + seq![a] + x),
    decreases head.len(),
{
    let p = head + seq![a] + x;
    let q = head + seq![b] + y;
    if head.len() > 0 {
        let less = head.drop_first();
        law_first_difference_decides(less, a, x, b, y);
        assert(p.drop_first() =~= less + seq![a] + x);
        assert(q.drop_first() =~= less + seq![b] + y);
        assert(p[0] == head[0] && q[0] == head[0]);
    } else {
        assert(p[0] == a && q[0] == b);
    }
}

/// What an integer in decimal is: at least one digit, after a sign at most, of a value in
/// the range. Zeros in front and a plus sign change nothing, and each digit more is worth
/// ten times what stands before it and itself.
pub proof fn law_decimal_numbers(digits: Seq<char>, c: char, lo: int, hi: int)
    requires
        lo <= 0 <= hi,
    ensures
        parsed_int(digits, lo, hi) is Some ==> {
            &&& forall|i: int| 0 < i < digits.len() ==> '0' <= #[trigger] digits[i] && digits[i] <= '9'
            &&& digits[0] == '+' || digits[0] == '-' || ('0' <= digits[0] && digits[0] <= '9')
        },
        parsed_int(Seq::empty(), lo, hi) is None,
        parsed_int(seq!['+'], lo, hi) is None,
        parsed_int(seq!['-'], lo, hi) is None,
        all_digits(digits) && digits.len() > 0 ==> {
            &&& parsed_int(seq!['+'] + digits, lo, hi) == parsed_int(digits, lo, hi)
            &&& parsed_int(seq!['0'] + digits, lo, hi) == parsed_int(digits, lo, hi)
            &&& parsed_int(digits, lo, hi) == (if digits_value(digits) <= hi {
                Some(digits_value(digits) as int)
            } else {
                None
            })
            &&& parsed_int(seq!['-'] + digits, lo, hi) == (if lo < 0 && lo <= -digits_value(
                digits,
            ) {
                Some(-digits_value(digits))
            } else {
                None
            })
        },
        digits_value(digits.push(c)) == 10 * digits_value(digits) + (c as u32 - 48) as nat,
        digits_value(Seq::empty()) == 0,
{
    let more = digits.push(c);
    assert(more.drop_last() =~= digits);
    assert(more[more.len() - 1] == c);
    if parsed_int(digits, lo, hi) is Some {
        assert forall|i: int| 0 < i < digits.len() implies is_digit(#[trigger] digits[i]) by {
            assert(digits.skip(1)[i - 1] == digits[i]);
        }
    }
    let plus = seq!['+'] + digits;
    let minus = seq!['-'] + digits;
    let zero = seq!['0'] + digits;
    assert(plus.skip(1) =~= digits && minus.skip(1) =~= digits);
    assert(seq!['+'].skip(1).len() == 0 && seq!['-'].skip(1).len() == 0);
    if all_digits(digits) && digits.len() > 0 {
        lemma_leading_zero(digits);
        assert(is_digit(digits[0]));
        assert(all_digits(zero)) by {
            assert forall|i: int| 0 <= i < zero.len() implies is_digit(#[trigger] zero[i]) by {
                if i > 0 {
                    assert(zero[i] == digits[i - 1]);
                }
            }
        }
        assert(minus[0] == '-');
        if lo >= 0 {
            assert(!is_digit(minus[0]));
        }
    }
    assert(!is_digit('-'));
    assert(!is_digit(seq!['-'][0]));
}

proof fn lemma_leading_zero(digits: Seq<char>)
    ensures
        digits_value(seq!['0'] + digits) == digits_value(digits),
    decreases digits.len(),
{
    let zero = seq!['0'] + digits;
    if digits.len() == 0 {
        assert(zero.drop_last() =~= Seq::<char>::empty());
        assert(digits_value(Seq::<char>::empty()) == 0);
    } else {
        lemma_leading_zero(digits.drop_last());
        assert(zero.drop_last() =~= seq!['0'] + digits.drop_last());
    }
}

/// A number is written without zeros in front.
pub proof fn law_numbers_are_written_short(n: nat)
    ensures
        n > 0 ==> nat_text(n)[0] != '0',
        nat_text(0) == seq!['0'],
        int_text(n as int) == nat_text(n),
        n > 0 ==> int_text(-n) == seq!['-'] + nat_text(n),
    decreases n,
{
    if n >= 10 {
        law_numbers_are_written_short(n / 10);
        law_nat_text_reads_back(n / 10);
    }
}

} // verus!
