//! Text as sequences of characters: numbers, comparison and a few ASCII rules.

use vstd::prelude::*;
use vstd::string::*;

verus! {

/// `String::push` appends one character.
pub assume_specification[ String::push ](text: &mut String, c: char)
    ensures
        final(text)@ == old(text)@.push(c),
;

/// The characters of a text.
pub fn chars_of(text: &str) -> (r: Vec<char>)
    ensures
        r@ == text@,
{
    let mut r: Vec<char> = Vec::new();
    for c in it: text.chars()
        invariant
            r@ == it.seq().take(it.index() as int),
            it.seq() == text@,
    {
        assert(it.seq().take(it.index() + 1) =~= it.seq().take(it.index() as int).push(c));
        r.push(c);
    }
    assert(r@ =~= text@);
    r
}

/// The text made of the characters from `from` up to `to`.
pub fn string_of(chars: &Vec<char>, from: usize, to: usize) -> (r: String)
    requires
        from <= to <= chars@.len(),
    ensures
        r@ == chars@.subrange(from as int, to as int),
{
    let mut r = String::new();
    for i in from..to
        invariant
            to <= chars@.len(),
            r@ =~= chars@.subrange(from as int, i as int),
    {
        r.push(chars[i]);
    }
    r
}

/// Whether two texts are equal.
pub fn same_text(a: &str, b: &str) -> (r: bool)
    ensures
        r == (a@ == b@),
{
    let x = chars_of(a);
    let y = chars_of(b);
    if x.len() != y.len() {
        return false;
    }
    let n: usize = x.len();
    for i in 0..n
        invariant
            n == x@.len() == y@.len(),
            x@ == a@,
            y@ == b@,
            forall|j: int| 0 <= j < i ==> x@[j] == y@[j],
    {
        if x[i] != y[i] {
            return false;
        }
    }
    assert(x@ =~= y@);
    true
}

/// Whether `chars` has `part` at position `at`.
pub open spec fn has_at(chars: Seq<char>, part: Seq<char>, at: int) -> bool {
    0 <= at && at + part.len() <= chars.len() && chars.subrange(at, at + part.len()) == part
}

/// Whether `chars` has `part` at position `at`.
pub fn is_at(chars: &Vec<char>, part: &Vec<char>, at: usize) -> (r: bool)
    requires
        at <= chars@.len(),
    ensures
        r == has_at(chars@, part@, at as int),
{
    let n: usize = part.len();
    let total: usize = chars.len();
    if total - at < n {
        return false;
    }
    for i in 0..n
        invariant
            n == part@.len(),
            total == chars@.len(),
            at + n <= total,
            forall|j: int| 0 <= j < i ==> chars@[at + j] == part@[j],
    {
        if chars[at + i] != part[i] {
            assert(chars@.subrange(at as int, at + n)[i as int] != part@[i as int]);
            return false;
        }
    }
    assert(chars@.subrange(at as int, at + n) =~= part@);
    true
}

/// Whether `text` starts with `prefix`.
pub open spec fn has_prefix(text: Seq<char>, prefix: Seq<char>) -> bool {
    prefix.is_prefix_of(text)
}

/// The rest of `text` behind `prefix`, where it starts with it.
pub fn strip_prefix(text: &str, prefix: &str) -> (r: Option<String>)
    ensures
        r is Some == has_prefix(text@, prefix@),
        r is Some ==> r->0@ == text@.skip(prefix@.len() as int),
{
    let chars = chars_of(text);
    let part = chars_of(prefix);
    if is_at(&chars, &part, 0) {
        let rest = string_of(&chars, part.len(), chars.len());
        assert(rest@ =~= text@.skip(prefix@.len() as int));
        assert(prefix@ =~= text@.subrange(0, prefix@.len() as int));
        Some(rest)
    } else {
        assert(has_prefix(text@, prefix@) ==> has_at(text@, prefix@, 0));
        None
    }
}

/// The first position at or behind `from` that holds `c`, or the length.
pub open spec fn next_of(chars: Seq<char>, c: char, from: int) -> int
    decreases chars.len() - from,
{
    if from >= chars.len() || chars[from] == c {
        from
    } else {
        next_of(chars, c, from + 1)
    }
}

/// What the next position of a character is.
pub proof fn lemma_next_of(chars: Seq<char>, c: char, from: int)
    requires
        0 <= from <= chars.len(),
    ensures
        from <= next_of(chars, c, from) <= chars.len(),
        next_of(chars, c, from) < chars.len() ==> chars[next_of(chars, c, from)] == c,
        forall|j: int| from <= j < next_of(chars, c, from) ==> chars[j] != c,
    decreases chars.len() - from,
{
    if from < chars.len() && chars[from] != c {
        lemma_next_of(chars, c, from + 1);
    }
}

/// The first position at or behind `from` that holds `c`, or the length.
pub fn find_next(chars: &Vec<char>, c: char, from: usize) -> (r: usize)
    requires
        from <= chars@.len(),
    ensures
        r == next_of(chars@, c, from as int),
        from <= r <= chars@.len(),
{
    let mut i: usize = from;
    while i < chars.len() && chars[i] != c
        invariant
            from <= i <= chars@.len(),
            next_of(chars@, c, i as int) == next_of(chars@, c, from as int),
        decreases chars@.len() - i,
    {
        i += 1;
    }
    i
}

/// The value of a digit.
pub open spec fn digit_value(c: char, radix: nat) -> Option<nat> {
    let v = if '0' <= c <= '9' {
        c as int - '0' as int
    } else if 'a' <= c <= 'z' {
        c as int - 'a' as int + 10
    } else if 'A' <= c <= 'Z' {
        c as int - 'A' as int + 10
    } else {
        36
    };
    if v < radix {
        Some(v as nat)
    } else {
        None
    }
}

/// Why a text is not a number.
#[derive(Clone, Copy, Debug, PartialEq, Eq, Structural)]
pub enum NumberError {
    Empty,
    InvalidDigit,
    Overflow,
}

impl NumberError {
    /// The words for the error.
    pub open spec fn words(self) -> Seq<char> {
        match self {
            NumberError::Empty => "cannot parse integer from empty string"@,
            NumberError::InvalidDigit => "invalid digit found in string"@,
            NumberError::Overflow => "number too large to fit in target type"@,
        }
    }

    pub fn as_str(self) -> (r: &'static str)
        ensures
            r@ == self.words(),
    {
        match self {
            NumberError::Empty => "cannot parse integer from empty string",
            NumberError::InvalidDigit => "invalid digit found in string",
            NumberError::Overflow => "number too large to fit in target type",
        }
    }
}

/// The number that digits stand for, read from the left: the first character that is no digit or
/// takes the number over `max` decides the error.
pub open spec fn digits_number(digits: Seq<char>, radix: nat, max: nat) -> Result<nat, NumberError>
    decreases digits.len(),
{
    if digits.len() == 0 {
        Ok(0)
    } else {
        match digits_number(digits.drop_last(), radix, max) {
            Err(e) => Err(e),
            Ok(v) => match digit_value(digits.last(), radix) {
                None => Err(NumberError::InvalidDigit),
                Some(d) => if v * radix + d > max {
                    Err(NumberError::Overflow)
                } else {
                    Ok(v * radix + d)
                },
            },
        }
    }
}

/// The number that a text stands for: digits, which a plus sign may precede.
pub open spec fn number_of(text: Seq<char>, radix: nat, max: nat) -> Result<nat, NumberError> {
    if text.len() == 0 {
        Err(NumberError::Empty)
    } else if text[0] == '+' && text.len() > 1 {
        digits_number(text.skip(1), radix, max)
    } else {
        digits_number(text, radix, max)
    }
}

/// The value of a digit.
fn value_of_digit(c: char, radix: u64) -> (r: Option<u64>)
    ensures
        r is Some == digit_value(c, radix as nat) is Some,
        r is Some ==> r->0 == digit_value(c, radix as nat)->0,
{
    let code: u64 = c as u64;
    let v: u64 = if '0' <= c && c <= '9' {
        code - 48
    } else if 'a' <= c && c <= 'z' {
        code - 97 + 10
    } else if 'A' <= c && c <= 'Z' {
        code - 65 + 10
    } else {
        36
    };
    if v < radix {
        Some(v)
    } else {
        None
    }
}

/// Once digits fail, more of them fail in the same way.
proof fn lemma_digits_fail(digits: Seq<char>, radix: nat, max: nat, n: int)
    requires
        0 <= n <= digits.len(),
        digits_number(digits.take(n), radix, max) is Err,
    ensures
        digits_number(digits, radix, max) == digits_number(digits.take(n), radix, max),
    decreases digits.len(),
{
    if n == digits.len() {
        assert(digits.take(n) =~= digits);
    } else {
        assert(digits.drop_last().take(n) =~= digits.take(n));
        lemma_digits_fail(digits.drop_last(), radix, max, n);
    }
}

/// Reads a number.
pub fn parse_number(text: &str, radix: u64, max: u64) -> (r: Result<u64, NumberError>)
    requires
        2 <= radix <= 36,
    ensures
        match number_of(text@, radix as nat, max as nat) {
            Ok(n) => r == Ok::<u64, NumberError>(n as u64) && n <= max,
            Err(e) => r == Err::<u64, NumberError>(e),
        },
{
    let chars = chars_of(text);
    if chars.len() == 0 {
        return Err(NumberError::Empty);
    }
    let start: usize = if chars[0] == '+' && chars.len() > 1 { 1 } else { 0 };
    let ghost digits = text@.skip(start as int);
    assert(text@.skip(0) =~= text@);
    assert(digits.take(0) =~= Seq::<char>::empty());
    let mut value: u64 = 0;
    let n: usize = chars.len();
    for i in start..n
        invariant
            n == chars@.len(),
            chars@ == text@,
            2 <= radix <= 36,
            digits == text@.skip(start as int),
            number_of(text@, radix as nat, max as nat) == digits_number(
                digits,
                radix as nat,
                max as nat,
            ),
            value <= max,
            digits_number(digits.take(i - start), radix as nat, max as nat) == Ok::<nat, NumberError>(
                value as nat,
            ),
    {
        let ghost k = i - start;
        proof {
            assert(digits.take(k + 1).drop_last() =~= digits.take(k));
            assert(digits.take(k + 1).last() == chars@[i as int]);
        }
        match value_of_digit(chars[i], radix) {
            None => {
                proof {
                    lemma_digits_fail(digits, radix as nat, max as nat, k + 1);
                }
                return Err(NumberError::InvalidDigit);
            },
            Some(d) => {
                assert(0 <= value * radix <= u64::MAX * 36) by (nonlinear_arith)
                    requires
                        0 <= value <= u64::MAX,
                        0 <= radix <= 36,
                ;
                let wide: u128 = value as u128 * radix as u128 + d as u128;
                if wide > max as u128 {
                    proof {
                        lemma_digits_fail(digits, radix as nat, max as nat, k + 1);
                    }
                    return Err(NumberError::Overflow);
                }
                value = wide as u64;
            },
        }
    }
    assert(digits.take(n - start) =~= digits);
    Ok(value)
}

/// Reads a count in decimal digits.
pub fn parse_usize(text: &str) -> (r: Result<usize, NumberError>)
    ensures
        match number_of(text@, 10, usize::MAX as nat) {
            Ok(n) => r == Ok::<usize, NumberError>(n as usize) && n <= usize::MAX,
            Err(e) => r == Err::<usize, NumberError>(e),
        },
{
    match parse_number(text, 10, usize::MAX as u64) {
        Ok(n) => Ok(n as usize),
        Err(e) => Err(e),
    }
}

/// The digit for a value below sixteen.
pub open spec fn digit_char(v: nat) -> char {
    if v < 10 {
        (v + '0' as int) as char
    } else {
        (v - 10 + 'a' as int) as char
    }
}

/// A number in decimal digits.
pub open spec fn decimal(n: nat) -> Seq<char>
    decreases n,
{
    if n < 10 {
        seq![digit_char(n)]
    } else {
        decimal(n / 10).push(digit_char(n % 10))
    }
}

/// The digit for a value below sixteen.
fn char_of_digit(v: u64) -> (r: char)
    requires
        v < 16,
    ensures
        r == digit_char(v as nat),
{
    if v < 10 {
        (v as u8 + 48) as char
    } else {
        (v as u8 - 10 + 97) as char
    }
}

/// Appends a number in decimal digits.
pub fn push_decimal(text: &mut String, n: u64)
    ensures
        final(text)@ == old(text)@ + decimal(n as nat),
    decreases n,
{
    if n < 10 {
        text.push(char_of_digit(n));
    } else {
        push_decimal(text, n / 10);
        text.push(char_of_digit(n % 10));
        assert(text@ =~= old(text)@ + decimal(n as nat));
    }
}

/// A number in decimal digits.
pub fn decimal_text(n: usize) -> (r: String)
    ensures
        r@ == decimal(n as nat),
{
    let mut r = String::new();
    push_decimal(&mut r, n as u64);
    assert(r@ =~= decimal(n as nat));
    r
}

/// Decimal digits read back as the number that they were written for.
pub proof fn law_decimal_reads_back(n: nat, max: nat)
    requires
        n <= max,
    ensures
        number_of(decimal(n), 10, max) == Ok::<nat, NumberError>(n),
{
    lemma_decimal_digits(n, max);
    lemma_decimal_start(n);
}

/// Decimal digits stand for their number.
proof fn lemma_decimal_digits(n: nat, max: nat)
    requires
        n <= max,
    ensures
        digits_number(decimal(n), 10, max) == Ok::<nat, NumberError>(n),
    decreases n,
{
    if n < 10 {
        assert(decimal(n).drop_last() =~= Seq::<char>::empty());
        reveal_with_fuel(digits_number, 2);
        assert(digit_value(digit_char(n), 10) == Some(n));
    } else {
        lemma_decimal_digits(n / 10, max);
        assert(decimal(n).drop_last() =~= decimal(n / 10));
        assert(digit_value(digit_char(n % 10), 10) == Some(n % 10));
    }
}

/// Decimal digits start with a digit.
proof fn lemma_decimal_start(n: nat)
    ensures
        decimal(n).len() > 0,
        '0' <= decimal(n)[0] <= '9',
    decreases n,
{
    if n >= 10 {
        lemma_decimal_start(n / 10);
    }
}

/// A list of `n` zeros.
pub open spec fn zeros(n: int) -> Seq<char> {
    Seq::new(
        if n < 0 {
            0
        } else {
            n as nat
        },
        |i: int| '0',
    )
}

/// A number in decimal digits, filled up with zeros to a width.
pub open spec fn padded(n: nat, width: nat) -> Seq<char> {
    zeros(width - decimal(n).len()) + decimal(n)
}

/// A number in decimal digits, filled up with zeros to a width.
pub fn padded_text(n: usize, width: usize) -> (r: String)
    ensures
        r@ == padded(n as nat, width as nat),
{
    let digits = decimal_text(n);
    let len: usize = digits.as_str().unicode_len();
    let fill: usize = if len < width { width - len } else { 0 };
    let mut r = String::new();
    for i in 0..fill
        invariant
            r@ =~= zeros(i as int),
    {
        r.push('0');
    }
    r.append(digits.as_str());
    assert(r@ =~= padded(n as nat, width as nat));
    r
}

/// The lowest `count` hexadecimal digits of a number.
pub open spec fn hex(n: nat, count: nat) -> Seq<char>
    decreases count,
{
    if count == 0 {
        Seq::empty()
    } else {
        hex(n / 16, (count - 1) as nat).push(digit_char(n % 16))
    }
}

/// Appends the lowest `count` hexadecimal digits of a number.
pub fn push_hex(text: &mut String, n: u64, count: usize)
    ensures
        final(text)@ == old(text)@ + hex(n as nat, count as nat),
    decreases count,
{
    if count > 0 {
        push_hex(text, n / 16, count - 1);
        text.push(char_of_digit(n % 16));
    }
    assert(text@ =~= old(text)@ + hex(n as nat, count as nat));
}

/// A character with ASCII capitals made small.
pub open spec fn ascii_lower(c: char) -> char {
    if 'A' <= c <= 'Z' {
        (c as int + 32) as char
    } else {
        c
    }
}

/// A text with ASCII capitals made small.
pub open spec fn ascii_lowered(text: Seq<char>) -> Seq<char> {
    text.map_values(|c: char| ascii_lower(c))
}

/// Makes ASCII capitals small.
pub fn to_ascii_lower(text: &str) -> (r: String)
    ensures
        r@ == ascii_lowered(text@),
        r@.len() == text@.len(),
        forall|i: int|
            0 <= i < text@.len() ==> #[trigger] r@[i] as int == if 0x41 <= text@[i] as int <= 0x5a {
                text@[i] as int + 32
            } else {
                text@[i] as int
            },
{
    let chars = chars_of(text);
    let n: usize = chars.len();
    let mut r = String::new();
    for i in 0..n
        invariant
            n == chars@.len(),
            chars@ == text@,
            r@ =~= ascii_lowered(text@).take(i as int),
    {
        let c: char = chars[i];
        if 'A' <= c && c <= 'Z' {
            r.push((c as u8 + 32) as char);
        } else {
            r.push(c);
        }
    }
    assert(r@ =~= ascii_lowered(text@));
    r
}

/// Whether `a` comes before `b` or is `b`, character by character.
pub open spec fn text_le(a: Seq<char>, b: Seq<char>) -> bool
    decreases a.len(),
{
    if a.len() == 0 {
        true
    } else if b.len() == 0 {
        false
    } else if a[0] == b[0] {
        text_le(a.skip(1), b.skip(1))
    } else {
        a[0] < b[0]
    }
}

/// Every text is in order with itself.
pub proof fn lemma_text_le_reflexive(a: Seq<char>)
    ensures
        text_le(a, a),
    decreases a.len(),
{
    if a.len() > 0 {
        lemma_text_le_reflexive(a.skip(1));
    }
}

/// Two texts are in order one way or the other.
pub proof fn lemma_text_le_total(a: Seq<char>, b: Seq<char>)
    ensures
        text_le(a, b) || text_le(b, a),
    decreases a.len(),
{
    if a.len() > 0 && b.len() > 0 && a[0] == b[0] {
        lemma_text_le_total(a.skip(1), b.skip(1));
    }
}

/// Texts in order both ways are equal.
pub proof fn lemma_text_le_antisymmetric(a: Seq<char>, b: Seq<char>)
    requires
        text_le(a, b),
        text_le(b, a),
    ensures
        a == b,
    decreases a.len(),
{
    if a.len() > 0 && b.len() > 0 {
        lemma_text_le_antisymmetric(a.skip(1), b.skip(1));
        assert(a =~= seq![a[0]] + a.skip(1));
        assert(b =~= seq![b[0]] + b.skip(1));
    } else {
        assert(a =~= b);
    }
}

/// The order of texts is transitive.
pub proof fn lemma_text_le_transitive(a: Seq<char>, b: Seq<char>, c: Seq<char>)
    requires
        text_le(a, b),
        text_le(b, c),
    ensures
        text_le(a, c),
    decreases a.len(),
{
    if a.len() > 0 && b.len() > 0 && c.len() > 0 && a[0] == b[0] && b[0] == c[0] {
        lemma_text_le_transitive(a.skip(1), b.skip(1), c.skip(1));
    }
}

/// Compares two texts from position `i` on.
proof fn lemma_text_le_suffix(a: Seq<char>, b: Seq<char>, i: int)
    requires
        0 <= i <= a.len(),
        i <= b.len(),
        forall|j: int| 0 <= j < i ==> a[j] == b[j],
    ensures
        text_le(a, b) == text_le(a.skip(i), b.skip(i)),
    decreases i,
{
    if i == 0 {
        assert(a.skip(0) =~= a);
        assert(b.skip(0) =~= b);
    } else {
        lemma_text_le_suffix(a.skip(1), b.skip(1), i - 1);
        assert(a.skip(1).skip(i - 1) =~= a.skip(i));
        assert(b.skip(1).skip(i - 1) =~= b.skip(i));
    }
}

/// Whether `a` comes before `b` or is `b`.
pub fn is_text_le(a: &str, b: &str) -> (r: bool)
    ensures
        r == text_le(a@, b@),
{
    let x = chars_of(a);
    let y = chars_of(b);
    let mut i: usize = 0;
    while i < x.len() && i < y.len()
        invariant
            x@ == a@,
            y@ == b@,
            i <= x@.len(),
            i <= y@.len(),
            forall|j: int| 0 <= j < i ==> x@[j] == y@[j],
        decreases x@.len() - i,
    {
        if x[i] != y[i] {
            proof {
                lemma_text_le_suffix(a@, b@, i as int);
            }
            return x[i] < y[i];
        }
        i += 1;
    }
    proof {
        lemma_text_le_suffix(a@, b@, i as int);
    }
    i == x.len()
}

/// A character that `char::is_whitespace` accepts.
pub open spec fn is_space(c: char) -> bool {
    let v = c as int;
    ||| 9 <= v <= 13
    ||| v == 0x20
    ||| v == 0x85
    ||| v == 0xa0
    ||| v == 0x1680
    ||| 0x2000 <= v <= 0x200a
    ||| v == 0x2028
    ||| v == 0x2029
    ||| v == 0x202f
    ||| v == 0x205f
    ||| v == 0x3000
}

/// Whether a character is white space.
pub fn is_whitespace(c: char) -> (r: bool)
    ensures
        r == is_space(c),
{
    let v: u32 = c as u32;
    (9 <= v && v <= 13) || v == 0x20 || v == 0x85 || v == 0xa0 || v == 0x1680 || (0x2000 <= v && v
        <= 0x200a) || v == 0x2028 || v == 0x2029 || v == 0x202f || v == 0x205f || v == 0x3000
}

/// Whether a text is nothing but white space.
pub open spec fn is_blank(text: Seq<char>) -> bool {
    forall|i: int| 0 <= i < text.len() ==> is_space(#[trigger] text[i])
}

/// Whether a text is nothing but white space.
pub fn is_blank_text(text: &str) -> (r: bool)
    ensures
        r == is_blank(text@),
{
    let chars = chars_of(text);
    let n: usize = chars.len();
    for i in 0..n
        invariant
            n == chars@.len(),
            chars@ == text@,
            forall|j: int| 0 <= j < i ==> is_space(#[trigger] text@[j]),
    {
        if !is_whitespace(chars[i]) {
            assert(!is_space(text@[i as int]));
            return false;
        }
    }
    true
}

/// Texts are ordered by the first character in which they differ, and a text comes before those
/// that continue it.
pub proof fn law_first_difference_orders_texts(
    common: Seq<char>,
    a: char,
    b: char,
    x: Seq<char>,
    y: Seq<char>,
)
    requires
        a < b,
    ensures
        text_le(common + seq![a] + x, common + seq![b] + y),
        !text_le(common + seq![b] + y, common + seq![a] + x),
        text_le(common, common + y),
        y.len() > 0 ==> !text_le(common + y, common),
{
    let n = common.len() as int;
    let p = common + seq![a] + x;
    let q = common + seq![b] + y;
    lemma_text_le_suffix(p, q, n);
    lemma_text_le_suffix(q, p, n);
    assert(p.skip(n)[0] == a && q.skip(n)[0] == b);
    lemma_text_le_suffix(common, common + y, n);
    lemma_text_le_suffix(common + y, common, n);
    assert(common.skip(n).len() == 0);
    assert((common + y).skip(n) =~= y);
}

/// The digits stand for zero to nine, and letters of either size for ten and more.
pub proof fn law_digits_have_their_values(v: nat)
    requires
        v < 36,
    ensures
        v < 10 ==> digit_value((0x30 + v) as char, 36) == Some(v),
        v >= 10 ==> digit_value((0x61 + v - 10) as char, 36) == Some(v),
        v >= 10 ==> digit_value((0x41 + v - 10) as char, 36) == Some(v),
        digit_value('+', 36) is None,
        digit_value(' ', 36) is None,
        digit_value('-', 36) is None,
        digit_value('_', 36) is None,
        forall|c: char, radix: nat|
            radix <= 36 ==> #[trigger] digit_value(c, radix) == (match digit_value(c, 36) {
                Some(d) => if d < radix {
                    Some(d)
                } else {
                    None
                },
                None => None,
            }),
{
}

/// A further digit multiplies a number by the radix and adds its value; over the largest number
/// that is an overflow. What is no digit is invalid.
pub proof fn law_a_digit_continues_a_number(digits: Seq<char>, c: char, radix: nat, max: nat, v: nat)
    requires
        digits_number(digits, radix, max) == Ok::<nat, NumberError>(v),
    ensures
        digit_value(c, radix) is None ==> digits_number(digits.push(c), radix, max) == Err::<
            nat,
            NumberError,
        >(NumberError::InvalidDigit),
        digit_value(c, radix) is Some && v * radix + digit_value(c, radix)->0 <= max
            ==> digits_number(digits.push(c), radix, max) == Ok::<nat, NumberError>(
            v * radix + digit_value(c, radix)->0,
        ),
        digit_value(c, radix) is Some && v * radix + digit_value(c, radix)->0 > max
            ==> digits_number(digits.push(c), radix, max) == Err::<nat, NumberError>(
            NumberError::Overflow,
        ),
{
    assert(digits.push(c).drop_last() =~= digits);
}

/// A number may start with a plus sign, which changes nothing; an empty text is no number, and
/// neither is a sign alone.
pub proof fn law_a_plus_sign_changes_nothing(digits: Seq<char>, radix: nat, max: nat)
    requires
        radix <= 36,
    ensures
        number_of(Seq::empty(), radix, max) == Err::<nat, NumberError>(NumberError::Empty),
        number_of(seq!['+'], radix, max) == Err::<nat, NumberError>(NumberError::InvalidDigit),
        digits.len() > 0 && digits[0] != '+' ==> number_of(seq!['+'] + digits, radix, max)
            == number_of(digits, radix, max),
        digits.len() > 0 && digits[0] != '+' ==> number_of(digits, radix, max) == digits_number(
            digits,
            radix,
            max,
        ),
        digits_number(Seq::empty(), radix, max) == Ok::<nat, NumberError>(0),
{
    assert((seq!['+'] + digits).skip(1) =~= digits);
    assert(seq!['+'].drop_last() =~= Seq::<char>::empty());
    reveal_with_fuel(digits_number, 2);
}

/// Decimal digits come from the highest to the lowest, without zeros in front.
pub proof fn law_decimal_ends_with_its_last_digit(n: nat)
    ensures
        decimal(n).last() == (0x30 + n % 10) as char,
        n < 10 ==> decimal(n).len() == 1,
        n >= 10 ==> decimal(n).drop_last() == decimal(n / 10),
        n > 0 ==> decimal(n)[0] != '0',
    decreases n,
{
    if n >= 10 {
        law_decimal_ends_with_its_last_digit(n / 10);
        assert(decimal(n).drop_last() =~= decimal(n / 10));
        lemma_decimal_start(n / 10);
    }
}

/// A number that is filled up has at least the width, keeps its digits at the end, and has zeros
/// alone in front of them.
pub proof fn law_padding_fills_with_zeros(n: nat, width: nat)
    ensures
        padded(n, width).len() >= width,
        padded(n, width).len() >= decimal(n).len(),
        padded(n, width).len() == width || padded(n, width) == decimal(n),
        padded(n, width).skip(padded(n, width).len() - decimal(n).len()) == decimal(n),
        forall|i: int|
            0 <= i < padded(n, width).len() - decimal(n).len() ==> #[trigger] padded(n, width)[i]
                == '0',
{
    let all = padded(n, width);
    let digits = decimal(n);
    assert(all.skip(all.len() - digits.len()) =~= digits);
    if digits.len() >= width {
        assert(all =~= digits);
    }
}

/// Hexadecimal digits come from the highest to the lowest, as many as are asked for, with small
/// letters.
pub proof fn law_hex_ends_with_its_last_digit(n: nat, count: nat)
    requires
        count > 0,
    ensures
        hex(n, count).len() == count,
        hex(n, count).drop_last() == hex(n / 16, (count - 1) as nat),
        n % 16 < 10 ==> hex(n, count).last() == (0x30 + n % 16) as char,
        n % 16 >= 10 ==> hex(n, count).last() == (0x61 + n % 16 - 10) as char,
    decreases count,
{
    if count > 1 {
        law_hex_ends_with_its_last_digit(n / 16, (count - 1) as nat);
    }
    assert(hex(n, count).drop_last() =~= hex(n / 16, (count - 1) as nat));
}

} // verus!
