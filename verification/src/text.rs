//! Text made of numbers, padding and joined parts.
use vstd::prelude::*;

verus! {

/// `String::push` puts one character behind what the string holds.
pub assume_specification[ String::push ](s: &mut String, c: char)
    ensures
        final(s)@ == old(s)@.push(c),
;

/// The character of a decimal digit.
pub open spec fn digit_char(d: nat) -> char {
    (48 + d) as char
}

/// A number in decimal, without leading zeros.
pub open spec fn decimal(n: nat) -> Seq<char>
    decreases n,
{
    if n < 10 {
        seq![digit_char(n)]
    } else {
        decimal(n / 10).push(digit_char(n % 10))
    }
}

/// The character of a hexadecimal digit, in upper case.
pub open spec fn hex_char(d: nat) -> char {
    if d < 10 {
        (48 + d) as char
    } else {
        (55 + d) as char
    }
}

/// A number in hexadecimal, in upper case and without leading zeros.
pub open spec fn hexadecimal(n: nat) -> Seq<char>
    decreases n,
{
    if n < 16 {
        seq![hex_char(n)]
    } else {
        hexadecimal(n / 16).push(hex_char(n % 16))
    }
}

/// `n` copies of one character.
pub open spec fn repeated(c: char, n: nat) -> Seq<char> {
    Seq::new(n, |i: int| c)
}

/// A text filled up on its left to at least `width` characters.
pub open spec fn padded_left(t: Seq<char>, width: nat, c: char) -> Seq<char> {
    if t.len() < width {
        repeated(c, (width - t.len()) as nat) + t
    } else {
        t
    }
}

/// A text filled up on its right with blanks to at least `width` characters.
pub open spec fn padded_right(t: Seq<char>, width: nat) -> Seq<char> {
    if t.len() < width {
        t + repeated(' ', (width - t.len()) as nat)
    } else {
        t
    }
}

/// The parts, one after the other, with `sep` between neighbours.
pub open spec fn joined(parts: Seq<Seq<char>>, sep: Seq<char>) -> Seq<char>
    decreases parts.len(),
{
    if parts.len() == 0 {
        Seq::empty()
    } else if parts.len() == 1 {
        parts[0]
    } else {
        joined(parts.drop_last(), sep) + sep + parts.last()
    }
}

/// The texts that a list of strings holds.
pub open spec fn texts(parts: Seq<String>) -> Seq<Seq<char>> {
    parts.map_values(|s: String| s@)
}

/// Writes `n` in decimal.
pub fn decimal_text(n: u64) -> (r: String)
    ensures
        r@ == decimal(n as nat),
    decreases n,
{
    if n < 10 {
        let mut s = String::new();
        s.push((48 + n as u8) as char);
        assert(s@ =~= seq![digit_char(n as nat)]);
        s
    } else {
        let mut s = decimal_text(n / 10);
        s.push((48 + (n % 10) as u8) as char);
        s
    }
}

/// Writes `n` in upper-case hexadecimal.
pub fn hexadecimal_text(n: u64) -> (r: String)
    ensures
        r@ == hexadecimal(n as nat),
    decreases n,
{
    let d: u8 = (n % 16) as u8;
    let c: u8 = if d < 10 {
        48 + d
    } else {
        55 + d
    };
    if n < 16 {
        let mut s = String::new();
        s.push(c as char);
        assert(s@ =~= seq![hex_char(n as nat)]);
        s
    } else {
        let mut s = hexadecimal_text(n / 16);
        s.push(c as char);
        s
    }
}

/// Makes a text of `n` equal characters.
pub fn repeat_char(c: char, n: usize) -> (r: String)
    ensures
        r@ == repeated(c, n as nat),
{
    let mut s = String::new();
    let mut i: usize = 0;
    while i < n
        invariant
            i <= n,
            s@ =~= repeated(c, i as nat),
        decreases n - i,
    {
        s.push(c);
        i += 1;
    }
    s
}

/// Fills `t` up on its left.
pub fn pad_left(t: &str, width: usize, c: char) -> (r: String)
    ensures
        r@ == padded_left(t@, width as nat, c),
{
    let len: usize = t.unicode_len();
    if len < width {
        let mut s = repeat_char(c, width - len);
        s.append(t);
        s
    } else {
        t.to_string()
    }
}

/// Fills `t` up on its right with blanks.
pub fn pad_right(t: &str, width: usize) -> (r: String)
    ensures
        r@ == padded_right(t@, width as nat),
{
    let len: usize = t.unicode_len();
    let mut s = t.to_string();
    if len < width {
        let fill = repeat_char(' ', width - len);
        s.append(fill.as_str());
    }
    s
}

/// Joins `parts` with `sep` between neighbours.
pub fn join(parts: &Vec<String>, sep: &str) -> (r: String)
    ensures
        r@ == joined(texts(parts@), sep@),
{
    let mut s = String::new();
    let mut i: usize = 0;
    while i < parts.len()
        invariant
            i <= parts.len(),
            s@ =~= joined(texts(parts@).take(i as int), sep@),
        decreases parts.len() - i,
    {
        proof {
            let t = texts(parts@);
            assert(t.take(i + 1).drop_last() =~= t.take(i as int));
            assert(t.take(i + 1).last() == parts@[i as int]@);
        }
        if i > 0 {
            s.append(sep);
        }
        s.append(parts[i].as_str());
        i += 1;
    }
    assert(texts(parts@).take(i as int) =~= texts(parts@));
    s
}

/// Compares two texts.
pub fn same_text(a: &str, b: &str) -> (r: bool)
    ensures
        r == (a@ == b@),
{
    let n: usize = a.unicode_len();
    if n != b.unicode_len() {
        return false;
    }
    let mut i: usize = 0;
    while i < n
        invariant
            i <= n,
            n == a@.len(),
            n == b@.len(),
            forall|j: int| 0 <= j < i ==> a@[j] == b@[j],
        decreases n - i,
    {
        if a.get_char(i) != b.get_char(i) {
            return false;
        }
        i += 1;
    }
    assert(a@ =~= b@);
    true
}

/// A character with ASCII capitals made small.
pub open spec fn ascii_small(c: char) -> char {
    if 'A' <= c <= 'Z' {
        (c as u32 + 32) as char
    } else {
        c
    }
}

/// Whether two texts differ at most in the case of ASCII letters.
pub open spec fn same_but_for_case(a: Seq<char>, b: Seq<char>) -> bool {
    &&& a.len() == b.len()
    &&& forall|i: int| 0 <= i < a.len() ==> ascii_small(a[i]) == ascii_small(b[i])
}

/// Makes an ASCII capital small.
fn to_ascii_small(c: char) -> (r: char)
    ensures
        r == ascii_small(c),
{
    if 'A' <= c && c <= 'Z' {
        (c as u8 + 32) as char
    } else {
        c
    }
}

/// Compares two texts without regard to the case of ASCII letters.
pub fn equal_but_for_case(a: &str, b: &str) -> (r: bool)
    ensures
        r == same_but_for_case(a@, b@),
{
    let n: usize = a.unicode_len();
    if n != b.unicode_len() {
        return false;
    }
    let mut i: usize = 0;
    while i < n
        invariant
            i <= n,
            n == a@.len(),
            n == b@.len(),
            forall|j: int| 0 <= j < i ==> ascii_small(a@[j]) == ascii_small(b@[j]),
        decreases n - i,
    {
        if to_ascii_small(a.get_char(i)) != to_ascii_small(b.get_char(i)) {
            return false;
        }
        i += 1;
    }
    true
}

/// Whether a character is a decimal digit.
pub open spec fn is_digit(c: char) -> bool {
    '0' <= c <= '9'
}

/// The number that decimal digits make.
pub open spec fn digits_number(t: Seq<char>) -> nat
    decreases t.len(),
{
    if t.len() == 0 {
        0
    } else {
        10 * digits_number(t.drop_last()) + (t.last() as nat - 48) as nat
    }
}

/// A number in decimal consists of digits that make the number.
pub proof fn lemma_decimal_digits(n: nat)
    ensures
        decimal(n).len() > 0,
        forall|i: int| 0 <= i < decimal(n).len() ==> is_digit(#[trigger] decimal(n)[i]),
        digits_number(decimal(n)) == n,
    decreases n,
{
    let t = decimal(n);
    if n < 10 {
        assert(t.drop_last() =~= Seq::<char>::empty());
        assert(digits_number(t.drop_last()) == 0);
    } else {
        lemma_decimal_digits(n / 10);
        assert(t.drop_last() =~= decimal(n / 10));
        assert forall|i: int| 0 <= i < t.len() implies is_digit(#[trigger] t[i]) by {
            if i < decimal(n / 10).len() {
                assert(t[i] == decimal(n / 10)[i]);
            }
        }
    }
}

/// The number that upper-case hexadecimal digits make.
pub open spec fn hex_number(t: Seq<char>) -> nat
    decreases t.len(),
{
    if t.len() == 0 {
        0
    } else {
        let c = t.last() as nat;
        16 * hex_number(t.drop_last()) + (if c <= 57 {
            (c - 48) as nat
        } else {
            (c - 55) as nat
        })
    }
}

/// A number in hexadecimal consists of the digits `0` to `9` and `A` to `F`, which make
/// the number.
pub proof fn lemma_hexadecimal_digits(n: nat)
    ensures
        hexadecimal(n).len() > 0,
        forall|i: int|
            0 <= i < hexadecimal(n).len() ==> '0' <= (#[trigger] hexadecimal(n)[i]) <= '9' || 'A'
                <= hexadecimal(n)[i] <= 'F',
        hex_number(hexadecimal(n)) == n,
    decreases n,
{
    let t = hexadecimal(n);
    if n < 16 {
        assert(t.drop_last() =~= Seq::<char>::empty());
        assert(hex_number(t.drop_last()) == 0);
    } else {
        lemma_hexadecimal_digits(n / 16);
        assert(t.drop_last() =~= hexadecimal(n / 16));
        assert forall|i: int| 0 <= i < t.len() implies '0' <= (#[trigger] t[i]) <= '9' || 'A' <= t[i]
            <= 'F' by {
            if i < hexadecimal(n / 16).len() {
                assert(t[i] == hexadecimal(n / 16)[i]);
            }
        }
    }
}

/// Two numbers that read alike in decimal are the same.
pub proof fn lemma_decimal_is_unique(a: nat, b: nat)
    requires
        decimal(a) == decimal(b),
    ensures
        a == b,
{
    lemma_decimal_digits(a);
    lemma_decimal_digits(b);
}

/// Adds a line.
pub(crate) fn say(lines: &mut Vec<String>, line: String)
    ensures
        texts(final(lines)@) == texts(old(lines)@).push(line@),
{
    let ghost before = texts(lines@);
    lines.push(line);
    assert(texts(lines@) =~= before.push(line@));
}

} // verus!
