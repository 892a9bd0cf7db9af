//! Luau source text: identifiers, keywords and quoted strings.

use crate::text::{all_digits, append_nat, chars_of, digits_value, is_digit, law_nat_text_reads_back};
use crate::text::{nat_text, same};
use vstd::prelude::*;

verus! {

/// The words that Luau does not take as a name.
pub open spec fn keyword(s: Seq<char>) -> bool {
    ||| s == "and"@
    ||| s == "break"@
    ||| s == "do"@
    ||| s == "else"@
    ||| s == "elseif"@
    ||| s == "end"@
    ||| s == "false"@
    ||| s == "for"@
    ||| s == "function"@
    ||| s == "if"@
    ||| s == "in"@
    ||| s == "local"@
    ||| s == "nil"@
    ||| s == "not"@
    ||| s == "or"@
    ||| s == "repeat"@
    ||| s == "return"@
    ||| s == "then"@
    ||| s == "true"@
    ||| s == "until"@
    ||| s == "while"@
    ||| s == "continue"@
    ||| s == "export"@
    ||| s == "type"@
}

/// Whether `c` can stand in a name: an ASCII letter, a digit or an underscore.
pub open spec fn name_char(c: char) -> bool {
    ('a' <= c && c <= 'z') || ('A' <= c && c <= 'Z') || is_digit(c) || c == '_'
}

/// Whether `s` can stand as a bare name in Luau source.
pub open spec fn identifier(s: Seq<char>) -> bool {
    &&& s.len() > 0
    &&& !is_digit(s[0])
    &&& forall|i: int| 0 <= i < s.len() ==> name_char(#[trigger] s[i])
    &&& !keyword(s)
}

/// Whether `s` is a word that Luau does not take as a name.
pub fn is_keyword(s: &str) -> (r: bool)
    ensures
        r == keyword(s@),
{
    same(s, "and") || same(s, "break") || same(s, "do") || same(s, "else") || same(s, "elseif")
        || same(s, "end") || same(s, "false") || same(s, "for") || same(s, "function") || same(
        s,
        "if",
    ) || same(s, "in") || same(s, "local") || same(s, "nil") || same(s, "not") || same(s, "or")
        || same(s, "repeat") || same(s, "return") || same(s, "then") || same(s, "true") || same(
        s,
        "until",
    ) || same(s, "while") || same(s, "continue") || same(s, "export") || same(s, "type")
}

/// Whether `s` can stand as a bare name in Luau source.
pub fn is_identifier(s: &str) -> (r: bool)
    ensures
        r == identifier(s@),
{
    let chars: Vec<char> = chars_of(s);
    if chars.len() == 0 {
        return false;
    }
    if '0' <= chars[0] && chars[0] <= '9' {
        return false;
    }
    let mut i: usize = 0;
    while i < chars.len()
        invariant
            chars@ == s@,
            i <= chars@.len(),
            forall|j: int| 0 <= j < i ==> name_char(#[trigger] s@[j]),
        decreases chars@.len() - i,
    {
        let c: char = chars[i];
        let fits: bool = ('a' <= c && c <= 'z') || ('A' <= c && c <= 'Z') || ('0' <= c && c <= '9')
            || c == '_';
        if !fits {
            assert(!name_char(s@[i as int]));
            return false;
        }
        i = i + 1;
    }
    !is_keyword(s)
}

/// Whether `c` is written as a backslash and its code point in decimal.
pub open spec fn numbered(c: char) -> bool {
    ' ' > c && c != '\n' && c != '\r' && c != '\t'
}

/// The code point of a numbered character in decimal, as short as it can be.
pub open spec fn number_of(c: char) -> Seq<char> {
    nat_text(c as nat)
}

/// The same with three digits, so that no digit that follows is read as part of it.
pub open spec fn full_number_of(c: char) -> Seq<char> {
    if number_of(c).len() == 1 {
        seq!['0', '0'] + number_of(c)
    } else {
        seq!['0'] + number_of(c)
    }
}

/// How `c` is written between double quotes. `tight` is whether a digit follows.
pub open spec fn escaped(c: char, tight: bool) -> Seq<char> {
    if c == '"' {
        seq!['\\', '"']
    } else if c == '\\' {
        seq!['\\', '\\']
    } else if c == '\n' {
        seq!['\\', 'n']
    } else if c == '\r' {
        seq!['\\', 'r']
    } else if c == '\t' {
        seq!['\\', 't']
    } else if numbered(c) {
        seq!['\\'] + if tight {
            full_number_of(c)
        } else {
            number_of(c)
        }
    } else {
        seq![c]
    }
}

/// Whether `s` goes on with a digit after its first character.
pub open spec fn digit_follows(s: Seq<char>) -> bool {
    s.len() > 1 && is_digit(s[1])
}

/// How the characters of `s` are written between double quotes.
pub open spec fn escapes(s: Seq<char>) -> Seq<char>
    decreases s.len(),
{
    if s.len() == 0 {
        Seq::empty()
    } else {
        escaped(s[0], digit_follows(s)) + escapes(s.drop_first())
    }
}

/// `s` as a Luau string literal.
pub open spec fn quoted(s: Seq<char>) -> Seq<char> {
    seq!['"'] + escapes(s) + seq!['"']
}

/// Add `c` at the end of `out`, as it is written between double quotes.
fn append_escaped(out: &mut String, c: char, tight: bool)
    ensures
        final(out)@ == old(out)@ + escaped(c, tight),
{
    if c == '"' {
        out.push('\\');
        out.push('"');
    } else if c == '\\' {
        out.push('\\');
        out.push('\\');
    } else if c == '\n' {
        out.push('\\');
        out.push('n');
    } else if c == '\r' {
        out.push('\\');
        out.push('r');
    } else if c == '\t' {
        out.push('\\');
        out.push('t');
    } else if ' ' > c {
        proof {
            lemma_numbered_digits(c);
        }
        out.push('\\');
        if tight {
            out.push('0');
            if (c as u64) < 10 {
                out.push('0');
            }
        }
        append_nat(out, c as u64);
    } else {
        out.push(c);
    }
    assert(out@ =~= old(out)@ + escaped(c, tight));
}

/// `s` as a Luau string literal.
pub fn quote(s: &str) -> (r: String)
    ensures
        r@ == quoted(s@),
{
    let chars: Vec<char> = chars_of(s);
    let mut out: String = String::new();
    out.push('"');
    assert(s@.skip(0) =~= s@);
    assert(out@ + escapes(s@.skip(0)) =~= seq!['"'] + escapes(s@));
    let mut i: usize = 0;
    while i < chars.len()
        invariant
            chars@ == s@,
            i <= chars@.len(),
            out@ + escapes(s@.skip(i as int)) == seq!['"'] + escapes(s@),
        decreases chars@.len() - i,
    {
        let c: char = chars[i];
        let tight: bool = i + 1 < chars.len() && '0' <= chars[i + 1] && chars[i + 1] <= '9';
        let ghost before = out@;
        let ghost left = s@.skip(i as int);
        assert(left.drop_first() =~= s@.skip(i as int + 1));
        assert(tight == digit_follows(left));
        append_escaped(&mut out, c, tight);
        assert(out@ + escapes(left.drop_first()) =~= before + escapes(left));
        i = i + 1;
    }
    assert(s@.skip(s@.len() as int) =~= Seq::<char>::empty());
    assert(out@ =~= seq!['"'] + escapes(s@));
    out.push('"');
    assert(out@ =~= quoted(s@));
    out
}

/// How many digits a decimal escape takes from the front of `t`: at most three.
pub open spec fn escape_digits(t: Seq<char>) -> int {
    if t.len() < 1 || !is_digit(t[0]) {
        0
    } else if t.len() < 2 || !is_digit(t[1]) {
        1
    } else if t.len() < 3 || !is_digit(t[2]) {
        2
    } else {
        3
    }
}

/// What Luau reads between the double quotes of a literal: `None` where that is
/// no literal, or one that stands for something else than ASCII escapes.
pub open spec fn unescaped(t: Seq<char>) -> Option<Seq<char>>
    decreases t.len(),
{
    if t.len() == 0 {
        Some(Seq::empty())
    } else if t[0] == '"' || t[0] == '\n' || t[0] == '\r' {
        None
    } else if t[0] != '\\' {
        match unescaped(t.skip(1)) {
            Some(rest) => Some(seq![t[0]] + rest),
            None => None,
        }
    } else if t.len() < 2 {
        None
    } else {
        let taken = escape_digits(t.skip(1));
        let width = if taken > 0 {
            taken
        } else {
            1
        };
        let meant = if taken > 0 {
            if digits_value(t.subrange(1, 1 + taken)) < 128 {
                Some(digits_value(t.subrange(1, 1 + taken)) as char)
            } else {
                None
            }
        } else if t[1] == 'n' {
            Some('\n')
        } else if t[1] == 'r' {
            Some('\r')
        } else if t[1] == 't' {
            Some('\t')
        } else if t[1] == '"' || t[1] == '\\' {
            Some(t[1])
        } else {
            None
        };
        match (meant, unescaped(t.skip(1 + width))) {
            (Some(c), Some(rest)) => Some(seq![c] + rest),
            _ => None,
        }
    }
}

/// A character that is written as a number has one digit or two, and three where a
/// digit follows.
pub proof fn lemma_numbered_digits(c: char)
    requires
        numbered(c),
    ensures
        number_of(c).len() == if c as nat >= 10 {
            2int
        } else {
            1int
        },
        full_number_of(c).len() == 3,
        all_digits(number_of(c)),
        all_digits(full_number_of(c)),
        digits_value(number_of(c)) == c as nat,
        digits_value(full_number_of(c)) == c as nat,
        c as nat as char == c,
{
    law_nat_text_reads_back(c as nat);
    reveal_with_fuel(nat_text, 3);
    reveal_with_fuel(digits_value, 4);
    let short = number_of(c);
    let full = full_number_of(c);
    assert(full.len() == 3);
    assert forall|i: int| 0 <= i < 3 implies is_digit(#[trigger] full[i]) by {
        if i >= 3 - short.len() {
            assert(full[i] == short[i - (3 - short.len())]);
        }
    }
    assert(full.drop_last().drop_last().drop_last() =~= Seq::<char>::empty());
    assert(full.drop_last().drop_last().last() == full[0]);
    assert(full.drop_last().last() == full[1]);
    assert(short.last() == full[2]);
    if short.len() == 1 {
        assert(short.drop_last() =~= Seq::<char>::empty());
    } else {
        assert(short.drop_last().drop_last() =~= Seq::<char>::empty());
        assert(short.drop_last().last() == full[1]);
    }
}

/// A quoted text reads back as the text.
pub proof fn law_quoted_reads_back(s: Seq<char>)
    ensures
        unescaped(escapes(s)) == Some(s),
    decreases s.len(),
{
    if s.len() == 0 {
        assert(s =~= Seq::<char>::empty());
    } else {
        let c = s[0];
        let tight = digit_follows(s);
        let rest = s.drop_first();
        let tail = escapes(rest);
        law_quoted_reads_back(rest);
        let t = escapes(s);
        assert(t == escaped(c, tight) + tail);
        assert(s =~= seq![c] + rest);
        if numbered(c) {
            let digits = if tight {
                full_number_of(c)
            } else {
                number_of(c)
            };
            lemma_numbered_digits(c);
            if !tight {
                if rest.len() > 0 {
                    assert(!is_digit(s[1]));
                    assert(!is_digit(escaped(rest[0], digit_follows(rest))[0]));
                    assert(tail[0] == escaped(rest[0], digit_follows(rest))[0]);
                } else {
                    assert(tail =~= Seq::<char>::empty());
                }
            }
            assert(t.skip(1) =~= digits + tail);
            assert forall|i: int| 0 <= i < digits.len() implies is_digit(#[trigger] t.skip(1)[i]) by {
                assert(t.skip(1)[i] == digits[i]);
            }
            assert(escape_digits(t.skip(1)) == digits.len());
            assert(t.subrange(1, 1 + digits.len() as int) =~= digits);
            assert(t.skip(1 + digits.len() as int) =~= tail);
        } else if escaped(c, tight).len() == 2 {
            assert(t.skip(2) =~= tail);
            assert(t[0] == '\\');
            assert(t[1] == escaped(c, tight)[1]);
            assert(t.skip(1)[0] == t[1]);
            assert(escape_digits(t.skip(1)) == 0);
        } else {
            assert(t[0] == c);
            assert(t.skip(1) =~= tail);
        }
    }
}

/// The words that Luau keeps for itself.
pub open spec fn reserved_words() -> Seq<Seq<char>> {
    seq![
        "and"@, "break"@, "do"@, "else"@, "elseif"@, "end"@, "false"@, "for"@, "function"@,
        "if"@, "in"@, "local"@, "nil"@, "not"@, "or"@, "repeat"@, "return"@, "then"@, "true"@,
        "until"@, "while"@, "continue"@, "export"@, "type"@,
    ]
}

/// What is a name: a letter or an underscore, then letters, digits and underscores, all of
/// them ASCII and however many, unless it is one of the reserved words.
pub proof fn law_what_is_a_name(s: Seq<char>)
    ensures
        identifier(s) <==> {
            &&& s.len() > 0
            &&& ('a' <= s[0] && s[0] <= 'z') || ('A' <= s[0] && s[0] <= 'Z') || s[0] == '_'
            &&& forall|i: int|
                0 < i < s.len() ==> {
                    let c = #[trigger] s[i];
                    ('a' <= c && c <= 'z') || ('A' <= c && c <= 'Z') || ('0' <= c && c <= '9')
                        || c == '_'
                }
            &&& !reserved_words().contains(s)
        },
        keyword(s) == reserved_words().contains(s),
{
    let words = reserved_words();
    assert(words.len() == 24);
    if words.contains(s) {
        let i = choose|i: int| 0 <= i < words.len() && words[i] == s;
    }
    if keyword(s) {
        assert(words[0] == "and"@ && words[1] == "break"@ && words[2] == "do"@ && words[3]
            == "else"@ && words[4] == "elseif"@ && words[5] == "end"@ && words[6] == "false"@
            && words[7] == "for"@ && words[8] == "function"@ && words[9] == "if"@ && words[10]
            == "in"@ && words[11] == "local"@ && words[12] == "nil"@ && words[13] == "not"@
            && words[14] == "or"@ && words[15] == "repeat"@ && words[16] == "return"@ && words[17]
            == "then"@ && words[18] == "true"@ && words[19] == "until"@ && words[20] == "while"@
            && words[21] == "continue"@ && words[22] == "export"@ && words[23] == "type"@);
    }
    if s.len() > 0 && identifier(s) {
        assert(name_char(s[0]));
    }
}

/// What is written between quotes of two texts is what is written of the one and then of the
/// other, unless the one ends in a character that is written as a number and the other begins
/// with a digit.
pub proof fn law_characters_are_written_one_by_one(a: Seq<char>, b: Seq<char>)
    requires
        b.len() > 0 && '0' <= b[0] && b[0] <= '9' && a.len() > 0 ==> a.last() >= ' ' || a.last()
            == '\n' || a.last() == '\r' || a.last() == '\t',
    ensures
        escapes(a + b) == escapes(a) + escapes(b),
    decreases a.len(),
{
    let all = a + b;
    if a.len() == 0 {
        assert(all =~= b);
        assert(escapes(a) + escapes(b) =~= escapes(b));
    } else {
        assert(all.drop_first() =~= a.drop_first() + b);
        law_characters_are_written_one_by_one(a.drop_first(), b);
        if a.len() == 1 {
            assert(!digit_follows(a));
            assert(escaped(all[0], digit_follows(all)) == escaped(a[0], digit_follows(a)));
        } else {
            assert(all[1] == a[1]);
        }
        assert(escapes(all) =~= escapes(a) + escapes(b));
    }
}

/// How a single character is written between quotes. A quote, a backslash and the ends of
/// lines have escapes of their own, any other control character is written as its code point
/// in decimal, with three digits where a digit follows, and all else stands as it is.
pub proof fn law_how_a_character_is_written(c: char, digit: char)
    requires
        '0' <= digit && digit <= '9',
    ensures
        quoted(seq![c]) == "\""@ + escapes(seq![c]) + "\""@,
        c == '"' ==> escapes(seq![c]) == "\\\""@,
        c == '\\' ==> escapes(seq![c]) == "\\\\"@,
        c == '\n' ==> escapes(seq![c]) == "\\n"@,
        c == '\r' ==> escapes(seq![c]) == "\\r"@,
        c == '\t' ==> escapes(seq![c]) == "\\t"@,
        c >= ' ' && c != '"' && c != '\\' ==> escapes(seq![c]) == seq![c],
        c < ' ' && c != '\n' && c != '\r' && c != '\t' ==> {
            let tight = escapes(seq![c, digit]);
            &&& escapes(seq![c]) == seq!['\\'] + nat_text(c as nat)
            &&& tight.len() == 5 && tight[0] == '\\' && tight[4] == digit
            &&& all_digits(tight.subrange(1, 4))
            &&& digits_value(tight.subrange(1, 4)) == c as nat
        },
{
    reveal_strlit("\"");
    reveal_strlit("\\\"");
    reveal_strlit("\\\\");
    reveal_strlit("\\n");
    reveal_strlit("\\r");
    reveal_strlit("\\t");
    let one = seq![c];
    let two = seq![c, digit];
    assert(one.drop_first() =~= Seq::<char>::empty());
    assert(two.drop_first() =~= seq![digit]);
    assert(seq![digit].drop_first() =~= Seq::<char>::empty());
    reveal_with_fuel(escapes, 3);
    assert(escapes(one) =~= escaped(c, false));
    assert(quoted(one) =~= "\""@ + escapes(one) + "\""@);
    assert(escapes(seq![digit]) =~= seq![digit]);
    assert(escapes(two) =~= escaped(c, true) + seq![digit]);
    if c == '"' {
        assert(escapes(one) =~= "\\\""@);
    } else if c == '\\' {
        assert(escapes(one) =~= "\\\\"@);
    } else if c == '\n' {
        assert(escapes(one) =~= "\\n"@);
    } else if c == '\r' {
        assert(escapes(one) =~= "\\r"@);
    } else if c == '\t' {
        assert(escapes(one) =~= "\\t"@);
    } else if numbered(c) {
        lemma_numbered_digits(c);
        assert(escapes(two).subrange(1, 4) =~= full_number_of(c));
        assert(escapes(one) =~= seq!['\\'] + nat_text(c as nat));
    }
}

/// A text without quotes, backslashes and control characters is written as it is, between
/// quotes, whatever language it is in.
pub proof fn law_ordinary_text_is_written_as_it_is(s: Seq<char>)
    requires
        forall|i: int|
            0 <= i < s.len() ==> (#[trigger] s[i]) >= ' ' && s[i] != '"' && s[i] != '\\',
    ensures
        quoted(s) == "\""@ + s + "\""@,
        escapes(s) == s,
    decreases s.len(),
{
    reveal_strlit("\"");
    if s.len() > 0 {
        let rest = s.drop_first();
        assert forall|i: int| 0 <= i < rest.len() implies (#[trigger] rest[i]) >= ' ' && rest[i]
            != '"' && rest[i] != '\\' by {
            assert(rest[i] == s[i + 1]);
        }
        law_ordinary_text_is_written_as_it_is(rest);
        assert(s[0] >= ' ');
        assert(escapes(s) =~= s);
    } else {
        assert(escapes(s) =~= s);
    }
    assert(quoted(s) =~= "\""@ + s + "\""@);
}

} // verus!
