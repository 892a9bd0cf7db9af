//! How Luau reads a table that is written out as data, and that it reads back what
//! was printed.

use crate::lua::{lookup, LuaHeap, LuaValue};
use crate::luau_order::{in_turn, law_in_turn_is_sorted, number_form};
use crate::luau_print::{key_text, lemma_room, line_text, lines_of, lines_text};
use crate::luau_print::{listed, module_text, room, value_text, Line, Refusal};
use crate::luau_text::{escaped, escapes, identifier, keyword, law_quoted_reads_back, name_char};
use crate::luau_text::{digit_follows, full_number_of, lemma_numbered_digits, number_of, numbered};
use crate::luau_text::{quoted, unescaped};
use crate::text::{all_digits, int_text, is_digit, join, law_nat_text_reads_back, nat_text};
use vstd::prelude::*;

verus! {

/// A value that is written out in full.
pub enum Literal {
    Nil,
    Boolean(bool),
    Number(Seq<char>),
    Text(Seq<char>),
    /// Values, each with its key where that is written out. A value without one
    /// goes to the next place of the list.
    Table(Seq<(Option<Literal>, Literal)>),
}

/// A field of a table.
pub type Field = (Option<Literal>, Literal);

/// Whether `c` is a space between two words of a source.
pub open spec fn blank(c: char) -> bool {
    c == ' ' || c == '\t' || c == '\n' || c == '\r'
}

/// What is left after the blanks at the front.
pub open spec fn unspaced(t: Seq<char>) -> Seq<char>
    decreases t.len(),
{
    if t.len() > 0 && blank(t[0]) {
        unspaced(t.skip(1))
    } else {
        t
    }
}

/// How many characters at the front can stand in a name.
pub open spec fn name_run(t: Seq<char>) -> int
    decreases t.len(),
{
    if t.len() > 0 && name_char(t[0]) {
        1 + name_run(t.skip(1))
    } else {
        0
    }
}

/// Whether `c` can stand in a number.
pub open spec fn number_char(c: char) -> bool {
    is_digit(c) || c == '.' || c == '-'
}

/// How many characters at the front can stand in a number.
pub open spec fn number_run(t: Seq<char>) -> int
    decreases t.len(),
{
    if t.len() > 0 && number_char(t[0]) {
        1 + number_run(t.skip(1))
    } else {
        0
    }
}

/// Whether `t` is a decimal number: digits, and after a point more digits.
pub open spec fn magnitude(t: Seq<char>) -> bool {
    ||| t.len() > 0 && all_digits(t)
    ||| exists|i: int|
        0 < i < t.len() - 1 && t[i] == '.' && all_digits(#[trigger] t.take(i)) && all_digits(
            t.skip(i + 1),
        )
}

/// Whether `t` is a decimal number, with a minus sign at most in front.
pub open spec fn number_literal(t: Seq<char>) -> bool {
    if t.len() > 0 && t[0] == '-' {
        magnitude(t.skip(1))
    } else {
        magnitude(t)
    }
}

/// The place of the quote that ends a string, after the one that begins it.
pub open spec fn string_end(t: Seq<char>) -> Option<int>
    decreases t.len(),
{
    if t.len() == 0 {
        None
    } else if t[0] == '"' {
        Some(0)
    } else if t[0] == '\\' {
        if t.len() < 2 {
            None
        } else {
            match string_end(t.skip(2)) {
                Some(i) => Some(i + 2),
                None => None,
            }
        }
    } else {
        match string_end(t.skip(1)) {
            Some(i) => Some(i + 1),
            None => None,
        }
    }
}

/// What is read, and what is left to read.
pub type Reading = Option<(Literal, Seq<char>)>;

/// Read a string, after the quote that begins it.
pub open spec fn read_string(t: Seq<char>) -> Reading {
    match string_end(t) {
        Some(i) => match unescaped(t.take(i)) {
            Some(s) => Some((Literal::Text(s), t.skip(i + 1))),
            None => None,
        },
        None => None,
    }
}

/// Read a number.
pub open spec fn read_number(t: Seq<char>) -> Reading {
    let n = number_run(t);
    if number_literal(t.take(n)) {
        Some((Literal::Number(t.take(n)), t.skip(n)))
    } else {
        None
    }
}

/// Read one of the words that stand for a value.
pub open spec fn read_word(t: Seq<char>) -> Reading {
    let n = name_run(t);
    let word = t.take(n);
    if word == "nil"@ {
        Some((Literal::Nil, t.skip(n)))
    } else if word == "true"@ {
        Some((Literal::Boolean(true), t.skip(n)))
    } else if word == "false"@ {
        Some((Literal::Boolean(false), t.skip(n)))
    } else {
        None
    }
}

/// Read a value. No more than `steps` values and fields are gone into.
pub open spec fn read_value(source: Seq<char>, steps: nat) -> Reading
    decreases steps,
{
    let t = unspaced(source);
    if steps == 0 || t.len() == 0 {
        None
    } else if t[0] == '{' {
        match read_fields(t.skip(1), (steps - 1) as nat) {
            Some((fields, rest)) => Some((Literal::Table(fields), rest)),
            None => None,
        }
    } else if t[0] == '"' {
        read_string(t.skip(1))
    } else if is_digit(t[0]) || t[0] == '-' {
        read_number(t)
    } else {
        read_word(t)
    }
}

/// Read a field of a table: `[key] = value`, `name = value` or a value alone.
pub open spec fn read_field(source: Seq<char>, steps: nat) -> Option<(Field, Seq<char>)>
    decreases steps,
{
    let t = unspaced(source);
    let n = name_run(t);
    if steps == 0 || t.len() == 0 {
        None
    } else if t[0] == '[' {
        match read_value(t.skip(1), (steps - 1) as nat) {
            Some((key, behind)) => {
                let b = unspaced(behind);
                let e = unspaced(b.skip(1));
                if b.len() > 0 && b[0] == ']' && e.len() > 0 && e[0] == '=' {
                    match read_value(e.skip(1), (steps - 1) as nat) {
                        Some((value, rest)) => Some(((Some(key), value), rest)),
                        None => None,
                    }
                } else {
                    None
                }
            },
            None => None,
        }
    } else if identifier(t.take(n)) && unspaced(t.skip(n)).len() > 0 && unspaced(t.skip(n))[0]
        == '=' {
        match read_value(unspaced(t.skip(n)).skip(1), (steps - 1) as nat) {
            Some((value, rest)) => Some(((Some(Literal::Text(t.take(n))), value), rest)),
            None => None,
        }
    } else {
        match read_value(t, (steps - 1) as nat) {
            Some((value, rest)) => Some(((None, value), rest)),
            None => None,
        }
    }
}

/// Read the fields of a table and the brace that ends it. Fields are separated by
/// commas; one may stand after the last field.
pub open spec fn read_fields(source: Seq<char>, steps: nat) -> Option<(Seq<Field>, Seq<char>)>
    decreases steps,
{
    let t = unspaced(source);
    if steps == 0 || t.len() == 0 {
        None
    } else if t[0] == '}' {
        Some((Seq::empty(), t.skip(1)))
    } else {
        match read_field(t, (steps - 1) as nat) {
            Some((field, behind)) => {
                let b = unspaced(behind);
                if b.len() > 0 && b[0] == ',' {
                    match read_fields(b.skip(1), (steps - 1) as nat) {
                        Some((fields, rest)) => Some((seq![field] + fields, rest)),
                        None => None,
                    }
                } else if b.len() > 0 && b[0] == '}' {
                    Some((seq![field], b.skip(1)))
                } else {
                    None
                }
            },
            None => None,
        }
    }
}

/// Read a module that returns a value and does nothing else.
pub open spec fn read_module(source: Seq<char>) -> Option<Literal> {
    let t = unspaced(source);
    let n = name_run(t);
    if t.take(n) == "return"@ {
        match read_value(t.skip(n), source.len()) {
            Some((value, rest)) => if unspaced(rest).len() == 0 {
                Some(value)
            } else {
                None
            },
            None => None,
        }
    } else {
        None
    }
}

// ---------------------------------------------------------------------------
// What is printed
// ---------------------------------------------------------------------------

/// Whether a value is printed as a literal that can be read: a number is a decimal
/// number, not infinite and not none at all, and a table is one of `within`.
pub open spec fn legible(within: Set<mlua::Table>, value: LuaValue) -> bool {
    match value {
        LuaValue::Number(text) => number_literal(number_form(text)),
        LuaValue::Table(t) => within.contains(t),
        _ => true,
    }
}

/// Whether all that the tables `within` hold is legible.
pub open spec fn all_legible(heap: LuaHeap, within: Set<mlua::Table>) -> bool {
    forall|t: mlua::Table, i: int|
        within.contains(t) && 0 <= i < heap[t].pairs.len() ==> legible(
            within,
            (#[trigger] heap[t].pairs[i]).0,
        ) && legible(within, heap[t].pairs[i].1)
}

/// A value, written out in full: of a list the values from 1 on, of any other table
/// the keys with their values.
pub open spec fn spelled(heap: LuaHeap, above: Set<mlua::Table>, value: LuaValue) -> Literal
    decreases room(heap, above), 0nat,
{
    match value {
        LuaValue::Nil => Literal::Nil,
        LuaValue::Boolean(b) => Literal::Boolean(b),
        LuaValue::Integer(i) => Literal::Number(int_text(i as int)),
        LuaValue::Number(text) => Literal::Number(number_form(text)),
        LuaValue::Text(s) => Literal::Text(s),
        LuaValue::Table(t) => if above.contains(t) || !heap.contains_key(t)
            || !heap.dom().finite() {
            Literal::Nil
        } else {
            proof {
                lemma_room(heap, above, t);
            }
            Literal::Table(spelled_lines(heap, above.insert(t), lines_of(heap[t].pairs)))
        },
        _ => Literal::Nil,
    }
}

/// Lines, written out in full.
pub open spec fn spelled_lines(heap: LuaHeap, above: Set<mlua::Table>, lines: Seq<Line>) -> Seq<
    Field,
>
    decreases room(heap, above), 1nat,
{
    Seq::new(
        lines.len(),
        |i: int|
            (
                match lines[i].0 {
                    Some(key) => Some(spelled(heap, above, key)),
                    None => None,
                },
                spelled(heap, above, lines[i].1),
            ),
    )
}

/// Whether there are blanks only.
pub open spec fn blanks(t: Seq<char>) -> bool {
    forall|i: int| 0 <= i < t.len() ==> blank(#[trigger] t[i])
}

/// Whether what comes next ends a word or a number.
pub open spec fn stops(rest: Seq<char>) -> bool {
    rest.len() > 0 ==> !name_char(rest[0]) && !number_char(rest[0])
}

/// Blanks at the front make no difference.
proof fn lemma_unspaced(b: Seq<char>, t: Seq<char>)
    requires
        blanks(b),
    ensures
        unspaced(b + t) == unspaced(t),
    decreases b.len(),
{
    if b.len() > 0 {
        assert((b + t).skip(1) =~= b.skip(1) + t);
        assert((b + t)[0] == b[0]);
        assert forall|i: int| 0 <= i < b.skip(1).len() implies blank(#[trigger] b.skip(1)[i]) by {
            assert(b.skip(1)[i] == b[i + 1]);
        }
        lemma_unspaced(b.skip(1), t);
    } else {
        assert(b + t =~= t);
    }
}

/// A name ends where something else begins.
proof fn lemma_name_run(s: Seq<char>, rest: Seq<char>)
    requires
        forall|i: int| 0 <= i < s.len() ==> name_char(#[trigger] s[i]),
        rest.len() > 0 ==> !name_char(rest[0]),
    ensures
        name_run(s + rest) == s.len(),
        (s + rest).take(s.len() as int) == s,
        (s + rest).skip(s.len() as int) == rest,
    decreases s.len(),
{
    assert((s + rest).take(s.len() as int) =~= s);
    assert((s + rest).skip(s.len() as int) =~= rest);
    if s.len() > 0 {
        assert((s + rest).skip(1) =~= s.skip(1) + rest);
        assert((s + rest)[0] == s[0]);
        assert forall|i: int| 0 <= i < s.skip(1).len() implies name_char(
            #[trigger] s.skip(1)[i],
        ) by {
            assert(s.skip(1)[i] == s[i + 1]);
        }
        lemma_name_run(s.skip(1), rest);
    } else {
        assert(s + rest =~= rest);
    }
}

/// A number ends where something else begins.
proof fn lemma_number_run(s: Seq<char>, rest: Seq<char>)
    requires
        forall|i: int| 0 <= i < s.len() ==> number_char(#[trigger] s[i]),
        rest.len() > 0 ==> !number_char(rest[0]),
    ensures
        number_run(s + rest) == s.len(),
        (s + rest).take(s.len() as int) == s,
        (s + rest).skip(s.len() as int) == rest,
    decreases s.len(),
{
    assert((s + rest).take(s.len() as int) =~= s);
    assert((s + rest).skip(s.len() as int) =~= rest);
    if s.len() > 0 {
        assert((s + rest).skip(1) =~= s.skip(1) + rest);
        assert((s + rest)[0] == s[0]);
        assert forall|i: int| 0 <= i < s.skip(1).len() implies number_char(
            #[trigger] s.skip(1)[i],
        ) by {
            assert(s.skip(1)[i] == s[i + 1]);
        }
        lemma_number_run(s.skip(1), rest);
    } else {
        assert(s + rest =~= rest);
    }
}

/// The characters of a decimal number.
proof fn lemma_magnitude(t: Seq<char>)
    requires
        magnitude(t),
    ensures
        t.len() > 0,
        is_digit(t[0]),
        forall|i: int| 0 <= i < t.len() ==> number_char(#[trigger] t[i]),
{
    if !all_digits(t) {
        let k = choose|i: int|
            0 < i < t.len() - 1 && t[i] == '.' && all_digits(#[trigger] t.take(i)) && all_digits(
                t.skip(i + 1),
            );
        assert(t.take(k)[0] == t[0]);
        assert forall|i: int| 0 <= i < t.len() implies number_char(#[trigger] t[i]) by {
            if i < k {
                assert(t.take(k)[i] == t[i]);
            } else if i > k {
                assert(t.skip(k + 1)[i - k - 1] == t[i]);
            }
        }
    }
}

/// A decimal number is read as what it is.
proof fn lemma_read_number(s: Seq<char>, rest: Seq<char>, steps: nat)
    requires
        number_literal(s),
        stops(rest),
        steps > 0,
    ensures
        read_value(s + rest, steps) == Some((Literal::Number(s), rest)),
        s.len() > 0,
        is_digit(s[0]) || s[0] == '-',
{
    if s.len() > 0 && s[0] == '-' {
        let m = s.skip(1);
        lemma_magnitude(m);
        assert forall|i: int| 0 <= i < s.len() implies number_char(#[trigger] s[i]) by {
            if i > 0 {
                assert(m[i - 1] == s[i]);
            }
        }
    } else {
        lemma_magnitude(s);
    }
    lemma_number_run(s, rest);
    assert((s + rest)[0] == s[0]);
    assert(unspaced(s + rest) == s + rest);
}

/// An integer is a decimal number.
proof fn lemma_int_literal(i: int)
    ensures
        number_literal(int_text(i)),
{
    let n = if i < 0 {
        (-i) as nat
    } else {
        i as nat
    };
    law_nat_text_reads_back(n);
    assert(magnitude(nat_text(n)));
    if i < 0 {
        assert(int_text(i).skip(1) =~= nat_text(n));
    } else {
        assert(is_digit(nat_text(n)[0]));
    }
}

/// A word that stands for a value is read as that value.
proof fn lemma_read_word(word: Seq<char>, rest: Seq<char>, steps: nat)
    requires
        word == "nil"@ || word == "true"@ || word == "false"@,
        stops(rest),
        steps > 0,
    ensures
        read_value(word + rest, steps) == Some(
            (
                if word == "nil"@ {
                    Literal::Nil
                } else {
                    Literal::Boolean(word == "true"@)
                },
                rest,
            ),
        ),
        word.len() > 0,
        word[0] == 'n' || word[0] == 't' || word[0] == 'f',
        forall|i: int| 0 <= i < word.len() ==> name_char(#[trigger] word[i]),
{
    reveal_strlit("nil");
    reveal_strlit("true");
    reveal_strlit("false");
    assert("nil"@.len() != "true"@.len());
    assert("nil"@.len() != "false"@.len());
    assert("true"@.len() != "false"@.len());
    assert forall|i: int| 0 <= i < word.len() implies name_char(#[trigger] word[i]) by {}
    lemma_name_run(word, rest);
    assert((word + rest)[0] == word[0]);
    assert(unspaced(word + rest) == word + rest);
}

/// The quote that ends a string is the first that is not escaped.
proof fn lemma_string_end(s: Seq<char>, rest: Seq<char>)
    ensures
        string_end(escapes(s) + seq!['"'] + rest) == Some(escapes(s).len() as int),
    decreases s.len(),
{
    let quote = seq!['"'];
    let t = escapes(s) + quote + rest;
    if s.len() == 0 {
        assert(t[0] == '"');
    } else {
        let c = s[0];
        let e = escaped(c, digit_follows(s));
        let tail = escapes(s.drop_first()) + quote + rest;
        lemma_string_end(s.drop_first(), rest);
        assert(t =~= e + tail);
        lemma_escape_shape(c, digit_follows(s));
        if e.len() == 1 {
            assert(t[0] == c);
            assert(t.skip(1) =~= tail);
        } else if e.len() == 2 {
            assert(t[0] == '\\');
            assert(t.skip(2) =~= tail);
        } else {
            assert(t[0] == '\\');
            let u = t.skip(2);
            assert(u =~= e.skip(2) + tail);
            assert(u[0] == e[2]);
            if e.len() == 3 {
                assert(u.skip(1) =~= tail);
            } else {
                assert(u.skip(1)[0] == e[3]);
                assert(u.skip(1).skip(1) =~= tail);
                assert(string_end(u.skip(1)) == Some(escapes(s.drop_first()).len() as int + 1));
            }
            assert(string_end(u) == Some(escapes(s.drop_first()).len() as int + e.len() - 2));
        }
    }
}

/// What an escape looks like.
proof fn lemma_escape_shape(c: char, tight: bool)
    ensures
        1 <= escaped(c, tight).len() <= 4,
        escaped(c, tight).len() == 1 ==> escaped(c, tight)[0] == c && c != '"' && c != '\\',
        escaped(c, tight).len() > 1 ==> escaped(c, tight)[0] == '\\',
        forall|i: int|
            2 <= i < escaped(c, tight).len() ==> is_digit(#[trigger] escaped(c, tight)[i]),
{
    if numbered(c) {
        lemma_numbered_digits(c);
        let digits = if tight {
            full_number_of(c)
        } else {
            number_of(c)
        };
        assert(escaped(c, tight) =~= seq!['\\'] + digits);
        assert forall|i: int| 2 <= i < escaped(c, tight).len() implies is_digit(
            #[trigger] escaped(c, tight)[i],
        ) by {
            assert(escaped(c, tight)[i] == digits[i - 1]);
        }
    }
}

/// A quoted text is read as the text.
proof fn lemma_read_string(s: Seq<char>, rest: Seq<char>, steps: nat)
    requires
        steps > 0,
    ensures
        read_value(quoted(s) + rest, steps) == Some((Literal::Text(s), rest)),
{
    let t = quoted(s) + rest;
    assert(t[0] == '"');
    assert(unspaced(t) == t);
    let u = t.skip(1);
    assert(u =~= escapes(s) + seq!['"'] + rest);
    lemma_string_end(s, rest);
    assert(u.take(escapes(s).len() as int) =~= escapes(s));
    assert(u.skip(escapes(s).len() as int + 1) =~= rest);
    law_quoted_reads_back(s);
}

/// What a printed value begins with: no blank, nothing that begins a key, and no
/// brace that ends a table.
pub open spec fn begins_value(s: Seq<char>, rest: Seq<char>) -> bool {
    &&& s.len() > 0
    &&& !blank(s[0])
    &&& s[0] != '['
    &&& s[0] != '}'
    &&& !identifier((s + rest).take(name_run(s + rest)))
}

proof fn lemma_begins_value(s: Seq<char>, rest: Seq<char>)
    requires
        s.len() > 0,
        is_digit(s[0]) || s[0] == '-' || s[0] == '"' || s[0] == '{',
    ensures
        begins_value(s, rest),
{
    let t = s + rest;
    assert(t[0] == s[0]);
    if is_digit(s[0]) {
        lemma_run_is_within(t.skip(1));
        assert(name_run(t) >= 1);
        assert(t.take(name_run(t))[0] == t[0]);
    } else {
        assert(name_run(t) == 0);
    }
}

proof fn lemma_run_is_within(t: Seq<char>)
    ensures
        0 <= name_run(t) <= t.len(),
    decreases t.len(),
{
    if t.len() > 0 {
        lemma_run_is_within(t.skip(1));
    }
}

/// A value alone is a field without a key.
proof fn lemma_field_alone(v: Seq<char>, rest: Seq<char>, steps: nat, value: Literal)
    requires
        begins_value(v, rest),
        read_value(v + rest, steps) == Some((value, rest)),
    ensures
        read_field(v + rest, steps + 1) == Some(((None::<Literal>, value), rest)),
{
    let t = v + rest;
    assert(t[0] == v[0]);
    assert(unspaced(t) == t);
}

/// A name, an equals sign and a value.
proof fn lemma_field_named(
    name: Seq<char>,
    v: Seq<char>,
    rest: Seq<char>,
    steps: nat,
    value: Literal,
)
    requires
        identifier(name),
        read_value(v + rest, steps) == Some((value, rest)),
    ensures
        read_field(name + " = "@ + v + rest, steps + 1) == Some(
            ((Some(Literal::Text(name)), value), rest),
        ),
{
    reveal_strlit(" = ");
    let t = name + " = "@ + v + rest;
    let behind = " = "@ + v + rest;
    assert(t =~= name + behind);
    assert(name_char(name[0]));
    assert(t[0] == name[0]);
    assert(unspaced(t) == t);
    assert(behind[0] == ' ');
    lemma_name_run(name, behind);
    let equals = seq!['=', ' '] + v + rest;
    assert(behind =~= seq![' '] + equals);
    lemma_unspaced(seq![' '], equals);
    assert(equals[0] == '=');
    assert(unspaced(equals) == equals);
    assert(equals.skip(1) =~= seq![' '] + (v + rest));
    lemma_unspaced(seq![' '], v + rest);
    assert(read_value(equals.skip(1), steps) == read_value(v + rest, steps));
}

/// A key in brackets, an equals sign and a value.
proof fn lemma_field_bracketed(
    k: Seq<char>,
    v: Seq<char>,
    rest: Seq<char>,
    steps: nat,
    key: Literal,
    value: Literal,
)
    requires
        read_value(k + ("]"@ + " = "@ + v + rest), steps) == Some(
            (key, "]"@ + " = "@ + v + rest),
        ),
        read_value(v + rest, steps) == Some((value, rest)),
    ensures
        read_field("["@ + k + "]"@ + " = "@ + v + rest, steps + 1) == Some(
            ((Some(key), value), rest),
        ),
{
    reveal_strlit(" = ");
    reveal_strlit("[");
    reveal_strlit("]");
    let t = "["@ + k + "]"@ + " = "@ + v + rest;
    let behind = "]"@ + " = "@ + v + rest;
    assert(t[0] == '[');
    assert(unspaced(t) == t);
    assert(t.skip(1) =~= k + behind);
    assert(behind[0] == ']');
    assert(unspaced(behind) == behind);
    let equals = seq!['=', ' '] + v + rest;
    assert(behind.skip(1) =~= seq![' '] + equals);
    lemma_unspaced(seq![' '], equals);
    assert(equals[0] == '=');
    assert(unspaced(equals) == equals);
    assert(equals.skip(1) =~= seq![' '] + (v + rest));
    lemma_unspaced(seq![' '], v + rest);
    assert(read_value(equals.skip(1), steps) == read_value(v + rest, steps));
}

/// A field, a comma and more fields.
proof fn lemma_fields_step(
    b: Seq<char>,
    f: Seq<char>,
    more: Seq<char>,
    steps: nat,
    field: Field,
    fields: Seq<Field>,
    rest: Seq<char>,
)
    requires
        blanks(b),
        f.len() > 0,
        !blank(f[0]),
        f[0] != '}',
        read_field(f + (","@ + "\n"@ + more), steps) == Some((field, ","@ + "\n"@ + more)),
        read_fields(more, steps) == Some((fields, rest)),
    ensures
        read_fields(b + f + ","@ + "\n"@ + more, steps + 1) == Some((seq![field] + fields, rest)),
{
    reveal_strlit(",");
    reveal_strlit("\n");
    let behind = ","@ + "\n"@ + more;
    let t = b + f + ","@ + "\n"@ + more;
    assert(t =~= b + (f + behind));
    lemma_unspaced(b, f + behind);
    assert((f + behind)[0] == f[0]);
    assert(unspaced(f + behind) == f + behind);
    assert(behind[0] == ',');
    assert(unspaced(behind) == behind);
    assert(behind.skip(1) =~= seq!['\n'] + more);
    lemma_unspaced(seq!['\n'], more);
    assert(read_fields(behind.skip(1), steps) == read_fields(more, steps));
}

/// The lines from place `k` on, each with a line break.
pub open spec fn spans(lines: Seq<Seq<char>>, k: int) -> Seq<char>
    decreases lines.len() - k,
{
    if k < 0 || k >= lines.len() {
        Seq::empty()
    } else {
        lines[k] + "\n"@ + spans(lines, k + 1)
    }
}

/// One more line.
proof fn lemma_spans_push(lines: Seq<Seq<char>>, line: Seq<char>, k: int)
    requires
        0 <= k <= lines.len(),
    ensures
        spans(lines.push(line), k) == spans(lines, k) + line + "\n"@,
    decreases lines.len() - k,
{
    let more = lines.push(line);
    if k < lines.len() {
        lemma_spans_push(lines, line, k + 1);
        assert(more[k] == lines[k]);
        assert(spans(more, k) =~= spans(lines, k) + line + "\n"@);
    } else {
        assert(more[k] == line);
        assert(spans(more, k + 1) =~= Seq::<char>::empty());
        assert(spans(more, k) =~= spans(lines, k) + line + "\n"@);
    }
}

/// Lines that are joined with line breaks, and one at the end.
proof fn lemma_spans_join(lines: Seq<Seq<char>>)
    requires
        lines.len() > 0,
    ensures
        join(lines, "\n"@) + "\n"@ == spans(lines, 0),
    decreases lines.len(),
{
    let front = lines.drop_last();
    assert(lines =~= front.push(lines.last()));
    lemma_spans_push(front, lines.last(), 0);
    if lines.len() == 1 {
        assert(front =~= Seq::<Seq<char>>::empty());
        assert(spans(front, 0) =~= Seq::<char>::empty());
        assert(join(lines, "\n"@) + "\n"@ =~= spans(lines, 0));
    } else {
        lemma_spans_join(front);
        assert(join(lines, "\n"@) + "\n"@ =~= spans(lines, 0));
    }
}

/// What each line is made of.
proof fn lemma_line(
    heap: LuaHeap,
    above: Set<mlua::Table>,
    lines: Seq<Line>,
    indent: Seq<char>,
    k: int,
)
    requires
        lines_text(heap, above, lines, indent) is Ok,
        0 <= k < lines.len(),
    ensures
        lines_text(heap, above, lines, indent)->Ok_0.len() == lines.len(),
        line_text(
            indent,
            match lines[k].0 {
                Some(key) => Some(key_text(heap, above, key, indent)),
                None => None,
            },
            value_text(heap, above, lines[k].1, indent),
        ) == Ok::<Seq<char>, Refusal>(lines_text(heap, above, lines, indent)->Ok_0[k]),
    decreases lines.len(),
{
    let front = lines.drop_last();
    reveal_with_fuel(lines_text, 2);
    if front.len() > 0 {
        lemma_line(heap, above, front, indent, if k < front.len() {
            k
        } else {
            0
        });
    }
    if k < front.len() {
        assert(front[k] == lines[k]);
    } else {
        assert(lines[k] == lines.last());
    }
}

/// Whether all that the lines hold is legible.
pub open spec fn lines_legible(within: Set<mlua::Table>, lines: Seq<Line>) -> bool {
    forall|i: int|
        0 <= i < lines.len() ==> {
            &&& (#[trigger] lines[i]).0 matches Some(key) ==> legible(within, key)
            &&& legible(within, lines[i].1)
        }
}

/// The lines of a table hold what the table holds.
proof fn lemma_lines_legible(heap: LuaHeap, within: Set<mlua::Table>, t: mlua::Table)
    requires
        all_legible(heap, within),
        within.contains(t),
    ensures
        lines_legible(within, lines_of(heap[t].pairs)),
{
    let pairs = heap[t].pairs;
    let lines = lines_of(pairs);
    if listed(pairs) {
        assert forall|i: int| 0 <= i < lines.len() implies {
            &&& (#[trigger] lines[i]).0 matches Some(key) ==> legible(within, key)
            &&& legible(within, lines[i].1)
        } by {
            let key = LuaValue::Integer((i + 1) as i32);
            if crate::lua::has_key(pairs, key) {
                assert(exists|j: int|
                    0 <= j < pairs.len() && (#[trigger] pairs[j]).1 == lookup(pairs, key));
                let j = choose|j: int|
                    0 <= j < pairs.len() && (#[trigger] pairs[j]).1 == lookup(pairs, key);
                assert(heap[t].pairs[j] == pairs[j]);
            }
        }
    } else {
        let turn = in_turn(pairs);
        law_in_turn_is_sorted(pairs);
        pairs.to_multiset_ensures();
        turn.to_multiset_ensures();
        assert forall|i: int| 0 <= i < lines.len() implies {
            &&& (#[trigger] lines[i]).0 matches Some(key) ==> legible(within, key)
            &&& legible(within, lines[i].1)
        } by {
            assert(turn.contains(turn[i]));
            assert(pairs.to_multiset().count(turn[i]) > 0);
            assert(pairs.contains(turn[i]));
            let j = choose|j: int| 0 <= j < pairs.len() && pairs[j] == turn[i];
            assert(heap[t].pairs[j] == turn[i]);
        }
    }
}

/// A printed value is read as what it is.
proof fn lemma_read_value(
    heap: LuaHeap,
    within: Set<mlua::Table>,
    above: Set<mlua::Table>,
    value: LuaValue,
    indent: Seq<char>,
    rest: Seq<char>,
    steps: nat,
)
    requires
        all_legible(heap, within),
        legible(within, value),
        blanks(indent),
        stops(rest),
        value_text(heap, above, value, indent) is Ok,
        steps > value_text(heap, above, value, indent)->Ok_0.len(),
    ensures
        ({
            let s = value_text(heap, above, value, indent)->Ok_0;
            &&& begins_value(s, rest)
            &&& read_value(s + rest, steps) == Some((spelled(heap, above, value), rest))
        }),
    decreases room(heap, above), 0nat, 0nat,
{
    let s = value_text(heap, above, value, indent)->Ok_0;
    match value {
        LuaValue::Nil | LuaValue::Boolean(_) => {
            lemma_read_word(s, rest, steps);
            lemma_name_run(s, rest);
            assert(keyword(s));
            reveal_strlit("true");
            reveal_strlit("nil");
            reveal_strlit("false");
        },
        LuaValue::Integer(i) => {
            lemma_int_literal(i as int);
            lemma_read_number(s, rest, steps);
            lemma_begins_value(s, rest);
        },
        LuaValue::Number(text) => {
            lemma_read_number(s, rest, steps);
            lemma_begins_value(s, rest);
        },
        LuaValue::Text(text) => {
            lemma_read_string(text, rest, steps);
            assert(s[0] == '"');
            lemma_begins_value(s, rest);
        },
        LuaValue::Table(t) => {
            let pairs = heap[t].pairs;
            let lines = lines_of(pairs);
            reveal_strlit("{}");
            reveal_strlit("{\n");
            reveal_strlit("}");
            reveal_strlit("\t");
            reveal_strlit("\n");
            assert(s[0] == '{');
            lemma_begins_value(s, rest);
            assert((s + rest)[0] == '{');
            assert(unspaced(s + rest) == s + rest);
            lemma_room(heap, above, t);
            if pairs.len() == 0 {
                let t1 = (s + rest).skip(1);
                assert(t1 =~= seq!['}'] + rest);
                assert(t1[0] == '}');
                assert(unspaced(t1) == t1);
                assert(t1.skip(1) =~= rest);
                assert(spelled_lines(heap, above.insert(t), lines) =~= Seq::<Field>::empty());
            } else {
                let inner = indent + "\t"@;
                let lt = lines_text(heap, above.insert(t), lines, inner)->Ok_0;
                lemma_lines_legible(heap, within, t);
                assert forall|i: int| 0 <= i < inner.len() implies blank(#[trigger] inner[i]) by {
                    if i < indent.len() {
                        assert(inner[i] == indent[i]);
                    }
                }
                lemma_line(heap, above.insert(t), lines, inner, 0);
                lemma_spans_join(lt);
                let body = spans(lt, 0) + indent + "}"@;
                assert(s =~= "{\n"@ + body);
                let t1 = (s + rest).skip(1);
                assert(t1 =~= seq!['\n'] + (body + rest));
                lemma_unspaced(seq!['\n'], body + rest);
                let fewer = (steps - 1) as nat;
                assert(read_fields(t1, fewer) == read_fields(body + rest, fewer));
                lemma_read_fields(
                    heap,
                    within,
                    above.insert(t),
                    lines,
                    inner,
                    indent,
                    rest,
                    0,
                    fewer,
                );
                let fields = spelled_lines(heap, above.insert(t), lines);
                assert(fields.skip(0) =~= fields);
            }
        },
        _ => {},
    }
}

/// A line without what it begins and ends with.
pub open spec fn field_text(
    heap: LuaHeap,
    above: Set<mlua::Table>,
    line: Line,
    indent: Seq<char>,
) -> Seq<char> {
    let v = value_text(heap, above, line.1, indent)->Ok_0;
    match line.0 {
        Some(key) => key_text(heap, above, key, indent)->Ok_0 + " = "@ + v,
        None => v,
    }
}

/// A printed line is read as the field that it is.
proof fn lemma_read_field(
    heap: LuaHeap,
    within: Set<mlua::Table>,
    above: Set<mlua::Table>,
    lines: Seq<Line>,
    inner: Seq<char>,
    behind: Seq<char>,
    k: int,
    steps: nat,
)
    requires
        all_legible(heap, within),
        lines_legible(within, lines),
        blanks(inner),
        stops(behind),
        lines_text(heap, above, lines, inner) is Ok,
        0 <= k < lines.len(),
        steps > field_text(heap, above, lines[k], inner).len(),
    ensures
        ({
            let f = field_text(heap, above, lines[k], inner);
            &&& lines_text(heap, above, lines, inner)->Ok_0[k] == inner + f + ","@
            &&& f.len() > 0
            &&& !blank(f[0])
            &&& f[0] != '}'
            &&& read_field(f + behind, steps + 1) == Some(
                (spelled_lines(heap, above, lines)[k], behind),
            )
        }),
    decreases room(heap, above), 1nat, 0nat,
{
    lemma_line(heap, above, lines, inner, k);
    let f = field_text(heap, above, lines[k], inner);
    let line = lines_text(heap, above, lines, inner)->Ok_0[k];
    let v = value_text(heap, above, lines[k].1, inner)->Ok_0;
    let value = spelled(heap, above, lines[k].1);
    assert(legible(within, lines[k].1));
    lemma_read_value(heap, within, above, lines[k].1, inner, behind, steps);
    match lines[k].0 {
        None => {
            lemma_field_alone(v, behind, steps, value);
        },
        Some(key) => {
            reveal_strlit(" = ");
            reveal_strlit("[");
            reveal_strlit("]");
            let kt = key_text(heap, above, key, inner)->Ok_0;
            assert(line =~= inner + f + ","@);
            if key is Text && identifier(key->Text_0) {
                lemma_field_named(kt, v, behind, steps, value);
                assert(name_char(kt[0]));
                assert(f[0] == kt[0]);
            } else {
                let kv = value_text(heap, above, key, inner)->Ok_0;
                let after_key = "]"@ + " = "@ + v + behind;
                assert(kt == "["@ + kv + "]"@);
                assert(after_key[0] == ']');
                assert(stops(after_key));
                assert(legible(within, key));
                lemma_read_value(heap, within, above, key, inner, after_key, steps);
                lemma_field_bracketed(kv, v, behind, steps, spelled(heap, above, key), value);
                assert(f + behind =~= "["@ + kv + "]"@ + " = "@ + v + behind);
                assert(f[0] == '[');
            }
        },
    }
}

/// The printed lines from place `k` on, with the brace that ends the table, are
/// read as the fields that they are.
proof fn lemma_read_fields(
    heap: LuaHeap,
    within: Set<mlua::Table>,
    above: Set<mlua::Table>,
    lines: Seq<Line>,
    inner: Seq<char>,
    indent: Seq<char>,
    rest: Seq<char>,
    k: int,
    steps: nat,
)
    requires
        all_legible(heap, within),
        lines_legible(within, lines),
        blanks(inner),
        blanks(indent),
        lines_text(heap, above, lines, inner) is Ok,
        0 <= k <= lines.len(),
        steps >= (spans(lines_text(heap, above, lines, inner)->Ok_0, k) + indent + "}"@).len(),
    ensures
        read_fields(
            spans(lines_text(heap, above, lines, inner)->Ok_0, k) + indent + "}"@ + rest,
            steps,
        ) == Some((spelled_lines(heap, above, lines).skip(k), rest)),
    decreases room(heap, above), 2nat, lines.len() - k,
{
    reveal_strlit("}");
    reveal_strlit(",");
    reveal_strlit("\n");
    let lt = lines_text(heap, above, lines, inner)->Ok_0;
    let all = spelled_lines(heap, above, lines);
    if k == lines.len() {
        lemma_no_more_fields(indent, rest, steps);
        assert(lt.len() == lines.len()) by {
            if lines.len() > 0 {
                lemma_line(heap, above, lines, inner, 0);
            }
        }
        assert(spans(lt, k) + indent + "}"@ + rest =~= indent + ("}"@ + rest));
        assert(all.skip(k) =~= Seq::<Field>::empty());
    } else {
        lemma_line(heap, above, lines, inner, k);
        let more = spans(lt, k + 1) + indent + "}"@ + rest;
        let behind = ","@ + "\n"@ + more;
        assert(behind[0] == ',');
        let f = field_text(heap, above, lines[k], inner);
        let least = (steps - 2) as nat;
        assert(lt[k].len() >= f.len() + 1) by {
            lemma_line_length(heap, above, lines, inner, k);
        }
        lemma_read_field(heap, within, above, lines, inner, behind, k, least);
        let fewer = (steps - 1) as nat;
        lemma_read_fields(heap, within, above, lines, inner, indent, rest, k + 1, fewer);
        lemma_fields_step(inner, f, more, fewer, all[k], all.skip(k + 1), rest);
        assert(spans(lt, k) + indent + "}"@ + rest =~= inner + f + ","@ + "\n"@ + more);
        assert(all.skip(k) =~= seq![all[k]] + all.skip(k + 1));
    }
}

/// A line is longer than what it holds.
proof fn lemma_line_length(
    heap: LuaHeap,
    above: Set<mlua::Table>,
    lines: Seq<Line>,
    inner: Seq<char>,
    k: int,
)
    requires
        lines_text(heap, above, lines, inner) is Ok,
        0 <= k < lines.len(),
    ensures
        lines_text(heap, above, lines, inner)->Ok_0[k].len() == inner.len() + field_text(
            heap,
            above,
            lines[k],
            inner,
        ).len() + 1,
{
    lemma_line(heap, above, lines, inner, k);
    reveal_strlit(",");
}

/// A brace ends a table.
proof fn lemma_no_more_fields(indent: Seq<char>, rest: Seq<char>, steps: nat)
    requires
        blanks(indent),
        steps > 0,
    ensures
        read_fields(indent + ("}"@ + rest), steps) == Some((Seq::<Field>::empty(), rest)),
{
    reveal_strlit("}");
    lemma_unspaced(indent, "}"@ + rest);
    assert(("}"@ + rest)[0] == '}');
    assert(unspaced("}"@ + rest) == "}"@ + rest);
    assert(("}"@ + rest).skip(1) =~= rest);
}

/// What is printed is a module that Luau reads as the table that was printed: its
/// keys and values, or the values of a list in their order. Left out are tables
/// that hold what no literal stands for, an infinite number. `within` are the tables
/// that are printed.
pub proof fn law_a_printed_module_reads_back(
    heap: LuaHeap,
    within: Set<mlua::Table>,
    root: mlua::Table,
)
    requires
        all_legible(heap, within),
        within.contains(root),
        module_text(heap, root) is Ok,
    ensures
        read_module(module_text(heap, root)->Ok_0) == Some(
            spelled(heap, Set::empty(), LuaValue::Table(root)),
        ),
{
    reveal_strlit("return ");
    reveal_strlit("return");
    reveal_strlit("\n");
    let none = Seq::<char>::empty();
    let value = LuaValue::Table(root);
    let s = value_text(heap, Set::empty(), value, none)->Ok_0;
    let source = module_text(heap, root)->Ok_0;
    let word = "return"@;
    assert(source =~= word + (seq![' '] + (s + "\n"@)));
    assert(source[0] == 'r');
    assert(unspaced(source) == source);
    assert forall|i: int| 0 <= i < word.len() implies name_char(#[trigger] word[i]) by {}
    assert((seq![' '] + (s + "\n"@))[0] == ' ');
    lemma_name_run(word, seq![' '] + (s + "\n"@));
    lemma_unspaced(seq![' '], s + "\n"@);
    lemma_read_value(heap, within, Set::empty(), value, none, "\n"@, source.len());
    assert(unspaced("\n"@) =~= none) by {
        assert("\n"@ =~= seq!['\n'] + none);
        lemma_unspaced(seq!['\n'], none);
    }
}

} // verus!
