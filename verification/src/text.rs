//! Text made from numbers, numbers read from text, and words.

use vstd::prelude::*;

verus! {

/// The character of a decimal digit.
pub open spec fn digit(d: int) -> char {
    if d == 0 {
        '0'
    } else if d == 1 {
        '1'
    } else if d == 2 {
        '2'
    } else if d == 3 {
        '3'
    } else if d == 4 {
        '4'
    } else if d == 5 {
        '5'
    } else if d == 6 {
        '6'
    } else if d == 7 {
        '7'
    } else if d == 8 {
        '8'
    } else {
        '9'
    }
}

/// A number in decimal, without leading zeros.
pub open spec fn decimal(n: nat) -> Seq<char>
    decreases n,
{
    if n < 10 {
        seq![digit(n as int)]
    } else {
        decimal(n / 10).push(digit((n % 10) as int))
    }
}

fn digit_text(d: u64) -> (r: &'static str)
    requires
        d < 10,
    ensures
        r@ == seq![digit(d as int)],
{
    proof {
        reveal_strlit("0");
        reveal_strlit("1");
        reveal_strlit("2");
        reveal_strlit("3");
        reveal_strlit("4");
        reveal_strlit("5");
        reveal_strlit("6");
        reveal_strlit("7");
        reveal_strlit("8");
        reveal_strlit("9");
    }
    let r: &'static str = if d == 0 {
        "0"
    } else if d == 1 {
        "1"
    } else if d == 2 {
        "2"
    } else if d == 3 {
        "3"
    } else if d == 4 {
        "4"
    } else if d == 5 {
        "5"
    } else if d == 6 {
        "6"
    } else if d == 7 {
        "7"
    } else if d == 8 {
        "8"
    } else {
        "9"
    };
    assert(r@ =~= seq![digit(d as int)]);
    r
}

/// Appends a number in decimal.
pub fn push_decimal(out: &mut String, n: u64)
    ensures
        final(out)@ == old(out)@ + decimal(n as nat),
    decreases n,
{
    let ghost pre = out@;
    if n >= 10 {
        push_decimal(out, n / 10);
    }
    let ghost mid = out@;
    out.append(digit_text(n % 10));
    proof {
        let d = digit((n % 10) as int);
        if n >= 10 {
            assert(mid + seq![d] =~= pre + decimal((n / 10) as nat).push(d));
        } else {
            assert(n % 10 == n);
        }
    }
}

/// Appends a wide number in decimal.
pub fn push_wide_decimal(out: &mut String, n: u128)
    ensures
        final(out)@ == old(out)@ + decimal(n as nat),
    decreases n,
{
    let ghost pre = out@;
    if n >= 10 {
        push_wide_decimal(out, n / 10);
    }
    let ghost mid = out@;
    out.append(digit_text((n % 10) as u64));
    proof {
        let d = digit((n % 10) as int);
        if n >= 10 {
            assert(mid + seq![d] =~= pre + decimal((n / 10) as nat).push(d));
        } else {
            assert(n % 10 == n);
        }
    }
}

/// `prefix`, followed by a number in decimal.
pub fn numbered(prefix: &str, n: u64) -> (r: String)
    ensures
        r@ == prefix@ + decimal(n as nat),
{
    let mut out = prefix.to_owned();
    push_decimal(&mut out, n);
    out
}

pub(crate) fn same_text(a: &str, b: &str) -> (r: bool)
    ensures
        r == (a@ == b@),
{
    a.to_owned() == b.to_owned()
}

/// The characters of a text.
pub fn chars_of(s: &str) -> (r: Vec<char>)
    ensures
        r@ == s@,
{
    broadcast use vstd::string::axiom_spec_iter;

    let mut out: Vec<char> = Vec::new();
    for c in it: s.chars()
        invariant
            it.seq() == s@,
            out@ == s@.take(it.index()),
    {
        out.push(c);
        assert(out@ =~= s@.take(it.index() + 1));
    }
    assert(out@ =~= s@);
    out
}

/// Whether a character is a decimal digit.
pub open spec fn is_digit(c: char) -> bool {
    '0' <= c <= '9'
}

/// The number that some digits write.
pub open spec fn digits_value(s: Seq<char>) -> nat
    decreases s.len(),
{
    if s.len() == 0 {
        0
    } else {
        digits_value(s.drop_last()) * 10 + (s.last() as nat - '0' as nat) as nat
    }
}

/// The digits of a written number: what is left without one leading plus sign.
pub open spec fn unsigned_part(s: Seq<char>) -> Seq<char> {
    if s.len() > 0 && s[0] == '+' {
        s.skip(1)
    } else {
        s
    }
}

/// The natural number that a text writes: one digit or more, behind at most one
/// plus sign, and nothing else.
pub open spec fn natural_of(s: Seq<char>) -> Option<nat> {
    let d = unsigned_part(s);
    if d.len() > 0 && forall|i: int| 0 <= i < d.len() ==> is_digit(#[trigger] d[i]) {
        Some(digits_value(d))
    } else {
        None
    }
}

/// The number that a text writes, if it is one up to `max`.
pub open spec fn natural_up_to(s: Seq<char>, max: nat) -> Option<nat> {
    match natural_of(s) {
        Some(n) => if n <= max {
            Some(n)
        } else {
            None
        },
        None => None,
    }
}

/// More digits never write less.
proof fn digits_grow(s: Seq<char>, n: int)
    requires
        0 <= n <= s.len(),
        forall|i: int| 0 <= i < s.len() ==> is_digit(#[trigger] s[i]),
    ensures
        digits_value(s.take(n)) <= digits_value(s),
    decreases s.len() - n,
{
    if n < s.len() {
        digits_grow(s, n + 1);
        assert(s.take(n + 1).drop_last() =~= s.take(n));
    } else {
        assert(s.take(n) =~= s);
    }
}

fn digit_value(c: char) -> (r: u64)
    requires
        is_digit(c),
    ensures
        r == c as u64 - '0' as u64,
{
    (c as u64) - ('0' as u64)
}

/// Reads a natural number up to `max`.
pub fn parse_natural(s: &str, max: u64) -> (r: Option<u64>)
    ensures
        match r {
            Some(n) => natural_up_to(s@, max as nat) == Some(n as nat),
            None => natural_up_to(s@, max as nat) is None,
        },
{
    let chars = chars_of(s);
    let start: usize = if chars.len() > 0 && chars[0] == '+' {
        1
    } else {
        0
    };
    let ghost d = unsigned_part(s@);
    assert(d =~= s@.skip(start as int));
    if start >= chars.len() {
        return None;
    }
    let mut n: u64 = 0;
    let mut over: bool = false;
    let mut i: usize = start;
    assert(d.take(0) =~= Seq::<char>::empty());
    while i < chars.len()
        invariant
            chars@ == s@,
            start <= i <= chars@.len(),
            d == s@.skip(start as int),
            d == unsigned_part(s@),
            forall|j: int| 0 <= j < i - start ==> is_digit(#[trigger] d[j]),
            !over ==> n == digits_value(d.take(i - start)),
            over ==> digits_value(d.take(i - start)) > max,
        decreases chars@.len() - i,
    {
        let c = chars[i];
        assert(c == d[i - start]);
        if !('0' <= c && c <= '9') {
            assert(!is_digit(d[i - start]));
            return None;
        }
        let v: u64 = digit_value(c);
        proof {
            assert(d.take(i - start + 1).drop_last() =~= d.take(i - start));
        }
        if !over {
            if n > (u64::MAX - v) / 10 {
                over = true;
            } else {
                n = n * 10 + v;
                over = n > max;
            }
        }
        i = i + 1;
    }
    assert(d.take(i - start) =~= d);
    if over || n > max {
        None
    } else {
        Some(n)
    }
}

/// The character of a hexadecimal digit.
pub open spec fn hex_digit(d: int) -> char {
    if d < 10 {
        digit(d)
    } else if d == 10 {
        'a'
    } else if d == 11 {
        'b'
    } else if d == 12 {
        'c'
    } else if d == 13 {
        'd'
    } else if d == 14 {
        'e'
    } else {
        'f'
    }
}

/// The `width` lowest hexadecimal digits of a number.
pub open spec fn hexadecimal(n: nat, width: nat) -> Seq<char>
    decreases width,
{
    if width == 0 {
        Seq::empty()
    } else {
        hexadecimal(n / 16, (width - 1) as nat).push(hex_digit((n % 16) as int))
    }
}

fn hex_text(d: u64) -> (r: &'static str)
    requires
        d < 16,
    ensures
        r@ == seq![hex_digit(d as int)],
{
    if d < 10 {
        digit_text(d)
    } else {
        proof {
            reveal_strlit("a");
            reveal_strlit("b");
            reveal_strlit("c");
            reveal_strlit("d");
            reveal_strlit("e");
            reveal_strlit("f");
        }
        let r: &'static str = if d == 10 {
            "a"
        } else if d == 11 {
            "b"
        } else if d == 12 {
            "c"
        } else if d == 13 {
            "d"
        } else if d == 14 {
            "e"
        } else {
            "f"
        };
        assert(r@ =~= seq![hex_digit(d as int)]);
        r
    }
}

/// Appends the `width` lowest hexadecimal digits of a number.
pub fn push_hexadecimal(out: &mut String, n: u64, width: u32)
    ensures
        final(out)@ == old(out)@ + hexadecimal(n as nat, width as nat),
    decreases width,
{
    let ghost pre = out@;
    if width > 0 {
        push_hexadecimal(out, n / 16, width - 1);
        let ghost mid = out@;
        out.append(hex_text(n % 16));
        assert(mid + seq![hex_digit((n % 16) as int)] =~= pre + hexadecimal(
            n as nat,
            width as nat,
        ));
    } else {
        assert(out@ =~= pre + hexadecimal(n as nat, 0));
    }
}

/// A number in hexadecimal, without leading zeros.
pub open spec fn hex_number(n: nat) -> Seq<char>
    decreases n,
{
    if n < 16 {
        seq![hex_digit(n as int)]
    } else {
        hex_number(n / 16).push(hex_digit((n % 16) as int))
    }
}

/// A number in hexadecimal, without leading zeros and marked as such.
pub open spec fn short_hexadecimal(n: nat) -> Seq<char> {
    "0x"@ + hex_number(n)
}

fn push_hex_number(out: &mut String, n: u64)
    ensures
        final(out)@ == old(out)@ + hex_number(n as nat),
    decreases n,
{
    let ghost pre = out@;
    if n >= 16 {
        push_hex_number(out, n / 16);
    }
    let ghost mid = out@;
    out.append(hex_text(n % 16));
    proof {
        let d = hex_digit((n % 16) as int);
        if n >= 16 {
            assert(mid + seq![d] =~= pre + hex_number((n / 16) as nat).push(d));
        } else {
            assert(n % 16 == n);
        }
    }
}

/// Appends a number in hexadecimal, without leading zeros and marked as such.
pub fn push_short_hexadecimal(out: &mut String, n: u64)
    ensures
        final(out)@ == old(out)@ + short_hexadecimal(n as nat),
{
    let ghost pre = out@;
    out.append("0x");
    push_hex_number(out, n);
    assert(pre + "0x"@ + hex_number(n as nat) =~= pre + short_hexadecimal(n as nat));
}

/// Texts as plain values.
pub open spec fn texts(parts: Seq<&str>) -> Seq<Seq<char>> {
    parts.map_values(|s: &str| s@)
}

/// Texts in a row, with `between` between them.
pub open spec fn joined(parts: Seq<Seq<char>>, between: Seq<char>) -> Seq<char>
    decreases parts.len(),
{
    if parts.len() == 0 {
        Seq::empty()
    } else if parts.len() == 1 {
        parts[0]
    } else {
        joined(parts.drop_last(), between) + between + parts.last()
    }
}

/// Texts in a row, with `between` between them.
pub fn join(parts: &Vec<&str>, between: &str) -> (r: String)
    ensures
        r@ == joined(texts(parts@), between@),
{
    let mut out = String::new();
    let mut i: usize = 0;
    proof {
        assert(texts(parts@.take(0)) =~= Seq::empty());
        reveal_strlit("");
        assert(out@ =~= Seq::empty());
    }
    while i < parts.len()
        invariant
            i <= parts@.len(),
            out@ == joined(texts(parts@.take(i as int)), between@),
        decreases parts@.len() - i,
    {
        let ghost now = texts(parts@.take(i + 1));
        proof {
            assert(now.drop_last() =~= texts(parts@.take(i as int)));
            assert(now.last() == parts@[i as int]@);
        }
        if i > 0 {
            out.append(between);
        }
        out.append(parts[i]);
        proof {
            if i == 0 {
                assert(out@ =~= now[0]);
            }
        }
        i = i + 1;
    }
    assert(parts@.take(i as int) =~= parts@);
    out
}

/// Texts as plain values.
pub open spec fn views(v: Seq<String>) -> Seq<Seq<char>> {
    v.map_values(|s: String| s@)
}

/// Copies of some texts.
pub(crate) fn copies(v: &Vec<String>) -> (r: Vec<String>)
    ensures
        views(r@) == views(v@),
{
    let mut out: Vec<String> = Vec::new();
    let mut i: usize = 0;
    while i < v.len()
        invariant
            i <= v@.len(),
            out@.len() == i,
            forall|j: int| 0 <= j < i ==> (#[trigger] out@[j])@ == v@[j]@,
        decreases v@.len() - i,
    {
        out.push(v[i].as_str().to_owned());
        i = i + 1;
    }
    assert(views(out@) =~= views(v@));
    out
}

/// Whether a text begins with another.
pub(crate) fn starts_with(s: &str, prefix: &str) -> (r: bool)
    ensures
        r == prefix@.is_prefix_of(s@),
{
    let a = chars_of(s);
    let b = chars_of(prefix);
    if b.len() > a.len() {
        return false;
    }
    let mut i: usize = 0;
    while i < b.len()
        invariant
            i <= b@.len() <= a@.len(),
            a@ == s@,
            b@ == prefix@,
            forall|j: int| 0 <= j < i ==> a@[j] == b@[j],
        decreases b@.len() - i,
    {
        if a[i] != b[i] {
            assert(s@.take(b@.len() as int)[i as int] == s@[i as int]);
            return false;
        }
        i = i + 1;
    }
    assert(s@.take(b@.len() as int) =~= prefix@);
    true
}

/// Whether Unicode calls a character white space.
pub open spec fn is_white(c: char) -> bool {
    ||| '\u{9}' <= c <= '\u{d}'
    ||| c == ' '
    ||| c == '\u{85}'
    ||| c == '\u{a0}'
    ||| c == '\u{1680}'
    ||| '\u{2000}' <= c <= '\u{200a}'
    ||| c == '\u{2028}'
    ||| c == '\u{2029}'
    ||| c == '\u{202f}'
    ||| c == '\u{205f}'
    ||| c == '\u{3000}'
}

/// A text of white space alone.
pub open spec fn is_blank(s: Seq<char>) -> bool {
    forall|i: int| 0 <= i < s.len() ==> is_white(#[trigger] s[i])
}

/// Whether Unicode calls a character white space.
pub(crate) fn white(c: char) -> (r: bool)
    ensures
        r == is_white(c),
{
    ('\u{9}' <= c && c <= '\u{d}') || c == ' ' || c == '\u{85}' || c == '\u{a0}' || c
        == '\u{1680}' || ('\u{2000}' <= c && c <= '\u{200a}') || c == '\u{2028}' || c == '\u{2029}'
        || c == '\u{202f}' || c == '\u{205f}' || c == '\u{3000}'
}

/// Whether a text is of white space alone.
pub fn blank(s: &str) -> (r: bool)
    ensures
        r == is_blank(s@),
{
    let chars = chars_of(s);
    let mut i: usize = 0;
    while i < chars.len()
        invariant
            i <= chars@.len(),
            chars@ == s@,
            forall|j: int| 0 <= j < i ==> is_white(#[trigger] s@[j]),
        decreases chars@.len() - i,
    {
        if !white(chars[i]) {
            assert(!is_white(s@[i as int]));
            return false;
        }
        i = i + 1;
    }
    true
}

/// A letter from A to Z as a small letter; any other character as it is.
pub open spec fn small(c: char) -> char {
    if 'A' <= c <= 'Z' {
        ((c as u32) + 32) as char
    } else {
        c
    }
}

/// A text in small letters, as far as they are from A to Z.
pub open spec fn small_letters(s: Seq<char>) -> Seq<char> {
    s.map_values(|c: char| small(c))
}

/// Whether a text is another one, whichever of its letters from A to Z are
/// capitals.
pub fn same_letters(s: &str, other: &str) -> (r: bool)
    ensures
        r == (small_letters(s@) == other@),
{
    let a = chars_of(s);
    let b = chars_of(other);
    if a.len() != b.len() {
        assert(small_letters(s@).len() == a@.len());
        return false;
    }
    let mut i: usize = 0;
    while i < a.len()
        invariant
            i <= a@.len() == b@.len(),
            a@ == s@,
            b@ == other@,
            forall|j: int| 0 <= j < i ==> small(s@[j]) == #[trigger] other@[j],
        decreases a@.len() - i,
    {
        let x: char = a[i];
        let y: char = b[i];
        let same: bool = if 'A' <= x && x <= 'Z' {
            'a' <= y && y <= 'z' && (x as u32) + 32 == y as u32
        } else {
            x == y
        };
        assert(same == (small(x) == y));
        if !same {
            assert(small_letters(s@)[i as int] == small(s@[i as int]));
            return false;
        }
        i = i + 1;
    }
    assert(small_letters(s@) =~= other@);
    true
}

/// The words of a text up to its last white space, and the word that it ends
/// with, which may be empty.
pub open spec fn word_split(s: Seq<char>) -> (Seq<Seq<char>>, Seq<char>)
    decreases s.len(),
{
    if s.len() == 0 {
        (Seq::empty(), Seq::empty())
    } else {
        let (words, tail) = word_split(s.drop_last());
        if !is_white(s.last()) {
            (words, tail.push(s.last()))
        } else if tail.len() == 0 {
            (words, tail)
        } else {
            (words.push(tail), Seq::empty())
        }
    }
}

/// The words of a text: what white space leaves.
pub open spec fn words_of(s: Seq<char>) -> Seq<Seq<char>> {
    let (words, tail) = word_split(s);
    if tail.len() == 0 {
        words
    } else {
        words.push(tail)
    }
}

/// Words do not reach across a space.
pub proof fn words_at_space(a: Seq<char>, b: Seq<char>)
    ensures
        words_of(a + " "@ + b) == words_of(a) + words_of(b),
{
    reveal_strlit(" ");
    let head = a + " "@;
    assert(head.drop_last() =~= a);
    assert(head.last() == ' ');
    assert(word_split(head).0 =~= words_of(a));
    assert(word_split(head).1 =~= Seq::empty());
    split_continues(head, b);
    let (x, tail) = word_split(b);
    assert(words_of(head + b) =~= words_of(a) + words_of(b));
}

/// Behind white space the words start afresh.
proof fn split_continues(a: Seq<char>, b: Seq<char>)
    requires
        word_split(a).1.len() == 0,
    ensures
        word_split(a + b).0 == word_split(a).0 + word_split(b).0,
        word_split(a + b).1 == word_split(b).1,
    decreases b.len(),
{
    if b.len() == 0 {
        assert(a + b =~= a);
        assert(word_split(a).0 + word_split(b).0 =~= word_split(a).0);
        assert(word_split(a).1 =~= word_split(b).1);
    } else {
        split_continues(a, b.drop_last());
        assert((a + b).drop_last() =~= a + b.drop_last());
        assert((a + b).last() == b.last());
        let (words, tail) = word_split(b.drop_last());
        assert(word_split(a).0 + words.push(tail) =~= (word_split(a).0 + words).push(tail));
    }
}

/// A number that is written in decimal is read again: its digits are digits, none is a
/// leading zero, and they write the number.
pub proof fn written_numbers_are_read(n: nat)
    ensures
        decimal(n).len() > 0,
        forall|i: int| 0 <= i < decimal(n).len() ==> is_digit(#[trigger] decimal(n)[i]),
        decimal(n)[0] == '0' ==> n == 0 && decimal(n).len() == 1,
        digits_value(decimal(n)) == n,
        natural_of(decimal(n)) == Some(n),
    decreases n,
{
    let d = decimal(n);
    if n < 10 {
        assert(d.drop_last() =~= Seq::empty());
        assert(digits_value(d.drop_last()) == 0);
    } else {
        written_numbers_are_read(n / 10);
        let init = decimal(n / 10);
        assert(d.drop_last() =~= init);
        assert forall|i: int| 0 <= i < d.len() implies is_digit(#[trigger] d[i]) by {
            if i < init.len() {
                assert(is_digit(init[i]));
            }
        }
        assert(d[0] == init[0]);
    }
    assert(is_digit(d[0]));
    assert(unsigned_part(d) == d);
}

/// No two numbers are written alike.
pub proof fn numbers_are_told_apart(m: nat, n: nat)
    requires
        decimal(m) == decimal(n),
    ensures
        m == n,
{
    written_numbers_are_read(m);
    written_numbers_are_read(n);
}

/// The part stands somewhere in the text.
pub open spec fn within(part: Seq<char>, text: Seq<char>) -> bool {
    exists|i: int|
        0 <= i && i + part.len() <= text.len() && part == #[trigger] text.subrange(
            i,
            i + part.len(),
        )
}

/// What stands between two texts stands in the text that they make.
pub proof fn middles_are_within(a: Seq<char>, part: Seq<char>, b: Seq<char>)
    ensures
        within(part, a + part + b),
        within(part, a + part),
{
    let i = a.len() as int;
    assert(part =~= (a + part + b).subrange(i, i + part.len()));
    assert(part =~= (a + part).subrange(i, i + part.len()));
}

/// The number that hexadecimal digits write.
pub open spec fn hex_value(s: Seq<char>) -> int
    decreases s.len(),
{
    if s.len() == 0 {
        0
    } else {
        let c = s.last();
        let d = if c <= '9' {
            c as int - '0' as int
        } else {
            c as int - 'a' as int + 10
        };
        16 * hex_value(s.drop_last()) + d
    }
}

/// A number is written with as many hexadecimal digits as asked for, and where they are
/// enough they write the number.
pub proof fn written_digits_are_read(n: nat, width: nat)
    ensures
        hexadecimal(n, width).len() == width,
        hex_value(hexadecimal(n, width)) <= n,
        n < vstd::arithmetic::power::pow(16, width) ==> hex_value(hexadecimal(n, width)) == n,
    decreases width,
{
    reveal(vstd::arithmetic::power::pow);
    if width > 0 {
        let w = (width - 1) as nat;
        written_digits_are_read(n / 16, w);
        let s = hexadecimal(n, width);
        assert(s.drop_last() =~= hexadecimal(n / 16, w));
        let p = vstd::arithmetic::power::pow(16, w);
        assert(vstd::arithmetic::power::pow(16, width) == 16 * p);
        if n < 16 * p {
            assert(n / 16 < p);
        }
    }
}

/// A number that is written in hexadecimal is read again, and its digits are not led by a
/// zero.
pub proof fn short_digits_are_read(n: nat)
    ensures
        hex_number(n).len() > 0,
        hex_value(hex_number(n)) == n,
        hex_number(n)[0] == '0' ==> n == 0 && hex_number(n).len() == 1,
        short_hexadecimal(n) == "0x"@ + hex_number(n),
    decreases n,
{
    let s = hex_number(n);
    if n < 16 {
        assert(s.drop_last() =~= Seq::empty());
        assert(hex_value(s.drop_last()) == 0);
    } else {
        short_digits_are_read(n / 16);
        assert(s.drop_last() =~= hex_number(n / 16));
        assert(s[0] == hex_number(n / 16)[0]);
    }
}

/// A letter and its capital differ by the case alone; no other characters are alike.
pub proof fn letters_differ_in_case(a: char, b: char)
    ensures
        'A' <= a <= 'Z' && b as int == a as int + 32 ==> small(a) == b && small(b) == b,
        !('A' <= a <= 'Z') ==> small(a) == a,
        small(a) == small(b) ==> a == b || a as int == b as int + 32 || b as int == a as int + 32,
{
    if 'A' <= a <= 'Z' {
        assert(small(a) as int == a as int + 32);
    }
    if 'A' <= b <= 'Z' {
        assert(small(b) as int == b as int + 32);
    }
}

/// Words are what stands between white space: none is empty, none has white space in it.
pub proof fn words_are_not_blank(s: Seq<char>, i: int, j: int)
    ensures
        0 <= i < words_of(s).len() ==> words_of(s)[i].len() > 0,
        0 <= i < words_of(s).len() && 0 <= j < words_of(s)[i].len() ==> !is_white(
            words_of(s)[i][j],
        ),
{
    split_words_are_not_blank(s, i, j);
}

proof fn split_words_are_not_blank(s: Seq<char>, i: int, j: int)
    ensures
        0 <= i < word_split(s).0.len() ==> word_split(s).0[i].len() > 0,
        0 <= i < word_split(s).0.len() && 0 <= j < word_split(s).0[i].len() ==> !is_white(
            word_split(s).0[i][j],
        ),
        0 <= j < word_split(s).1.len() ==> !is_white(word_split(s).1[j]),
    decreases s.len(),
{
    if s.len() > 0 {
        split_words_are_not_blank(s.drop_last(), i, j);
        let (words, tail) = word_split(s.drop_last());
        if i == words.len() {
            assert(words.push(tail)[i] == tail);
        }
    }
}

/// Text without white space is one word.
pub proof fn unbroken_text_is_one_word(s: Seq<char>)
    requires
        s.len() > 0,
        forall|i: int| 0 <= i < s.len() ==> !is_white(#[trigger] s[i]),
    ensures
        words_of(s) == seq![s],
{
    unbroken_split(s);
    assert(words_of(s) =~= seq![s]);
}

proof fn unbroken_split(s: Seq<char>)
    requires
        forall|i: int| 0 <= i < s.len() ==> !is_white(#[trigger] s[i]),
    ensures
        word_split(s) == (Seq::<Seq<char>>::empty(), s),
    decreases s.len(),
{
    if s.len() > 0 {
        let init = s.drop_last();
        assert forall|i: int| 0 <= i < init.len() implies !is_white(#[trigger] init[i]) by {
            assert(init[i] == s[i]);
        }
        unbroken_split(init);
        assert(!is_white(s[s.len() - 1]));
        assert(init.push(s.last()) =~= s);
    }
}

/// Small letters are taken one for one.
pub proof fn letters_are_taken_one_for_one(s: Seq<char>, i: int)
    ensures
        small_letters(s).len() == s.len(),
        0 <= i < s.len() && !('A' <= s[i] <= 'Z') ==> small_letters(s)[i] == s[i],
        0 <= i < s.len() && 'A' <= s[i] <= 'Z' ==> small_letters(s)[i] as int == s[i] as int + 32,
{
}

/// A number may have a sign in front of it, and zeros; it may have nothing else, and it has
/// to be there. One that is too large is none.
pub proof fn numbers_may_have_a_sign(n: nat, s: Seq<char>, i: int, max: nat)
    ensures
        natural_of(seq!['+'] + decimal(n)) == Some(n),
        natural_of(seq!['0'] + decimal(n)) == Some(n),
        natural_of(Seq::empty()) is None,
        natural_of(seq!['+']) is None,
        0 <= i < s.len() && !('0' <= s[i] <= '9') && !(i == 0 && s[0] == '+') ==> natural_of(
            s,
        ) is None,
        natural_up_to(decimal(n), max) == if n <= max {
            Some(n)
        } else {
            None
        },
{
    let d = decimal(n);
    written_numbers_are_read(n);
    let plus = seq!['+'] + d;
    assert(plus.skip(1) =~= d);
    assert(unsigned_part(plus) == d);
    let zero = seq!['0'] + d;
    assert(unsigned_part(zero) == zero);
    assert forall|j: int| 0 <= j < zero.len() implies is_digit(#[trigger] zero[j]) by {
        if j > 0 {
            assert(is_digit(d[j - 1]));
        }
    }
    zeros_add_nothing(d);
    assert(seq!['+'].skip(1) =~= Seq::empty());
    if 0 <= i < s.len() && !('0' <= s[i] <= '9') && !(i == 0 && s[0] == '+') {
        let u = unsigned_part(s);
        if s[0] == '+' && u != s {
            assert(u[i - 1] == s[i]);
        } else {
            assert(u[i] == s[i]);
        }
    }
}

proof fn zeros_add_nothing(d: Seq<char>)
    ensures
        digits_value(seq!['0'] + d) == digits_value(d),
    decreases d.len(),
{
    let z = seq!['0'] + d;
    if d.len() == 0 {
        assert(z.drop_last() =~= Seq::empty());
        assert(digits_value(z.drop_last()) == 0);
    } else {
        zeros_add_nothing(d.drop_last());
        assert(z.drop_last() =~= seq!['0'] + d.drop_last());
        assert(z.last() == d.last());
    }
}

/// White space is what Unicode says: in ASCII the space and the characters from tab to
/// carriage return, and a few beyond it.
pub proof fn white_space_is_unicodes(c: char)
    ensures
        c as int <= 0x7f ==> (is_white(c) <==> c as int == 0x20 || 0x09 <= c as int <= 0x0d),
        0x7f < c as int <= 0xff ==> (is_white(c) <==> c as int == 0x85 || c as int == 0xa0),
        c as int > 0xff ==> (is_white(c) <==> c as int == 0x1680 || 0x2000 <= c as int <= 0x200a
            || c as int == 0x2028 || c as int == 0x2029 || c as int == 0x202f || c as int == 0x205f
            || c as int == 0x3000),
{
}

} // verus!
