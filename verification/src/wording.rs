//! Text: comparing it, and writing numbers into it.
use vstd::arithmetic::div_mod::*;
use vstd::arithmetic::mul::*;
use vstd::arithmetic::power2::*;
use vstd::prelude::*;

use crate::double::Double;
use crate::ieee;
use crate::order;
use crate::rounding;
use crate::rounding::binary64;

verus! {

/// `String::push` appends one character and leaves the rest alone.
pub assume_specification[ String::push ](s: &mut String, c: char)
    ensures
        final(s)@ == old(s)@.push(c),
;

/// Whether two texts are the same.
pub fn same(a: &str, b: &str) -> (r: bool)
    ensures
        r == (a@ == b@),
{
    let n = a.unicode_len();
    if b.unicode_len() != n {
        return false;
    }
    let mut i: usize = 0;
    while i < n
        invariant
            i <= n,
            n == a@.len(),
            n == b@.len(),
            forall|j: int| 0 <= j < i ==> a@[j] == b@[j],
        decreases n - i,
    {
        if a.get_char(i) != b.get_char(i) {
            return false;
        }
        i = i + 1;
    }
    assert(a@ =~= b@);
    true
}

pub open spec fn begins_with_spec(text: Seq<char>, start: Seq<char>) -> bool {
    start.len() <= text.len() && text.take(start.len() as int) == start
}

/// Whether a text begins with another.
pub fn begins_with(text: &str, start: &str) -> (r: bool)
    ensures
        r == begins_with_spec(text@, start@),
{
    let n = start.unicode_len();
    if text.unicode_len() < n {
        return false;
    }
    let mut i: usize = 0;
    while i < n
        invariant
            i <= n,
            n == start@.len(),
            n <= text@.len(),
            forall|j: int| 0 <= j < i ==> text@[j] == start@[j],
        decreases n - i,
    {
        if text.get_char(i) != start.get_char(i) {
            assert(text@.take(n as int)[i as int] != start@[i as int]);
            return false;
        }
        i = i + 1;
    }
    assert(text@.take(n as int) =~= start@);
    true
}

pub open spec fn ends_with_spec(text: Seq<char>, end: Seq<char>) -> bool {
    end.len() <= text.len() && text.skip(text.len() - end.len()) == end
}

/// Whether a text ends with another.
pub fn ends_with(text: &str, end: &str) -> (r: bool)
    ensures
        r == ends_with_spec(text@, end@),
{
    let n = end.unicode_len();
    let total = text.unicode_len();
    if total < n {
        return false;
    }
    let from = total - n;
    let mut i: usize = 0;
    while i < n
        invariant
            i <= n,
            n == end@.len(),
            total == text@.len(),
            from == total - n,
            n <= total,
            forall|j: int| 0 <= j < i ==> text@[from + j] == end@[j],
        decreases n - i,
    {
        if text.get_char(from + i) != end.get_char(i) {
            assert(text@.skip(from as int)[i as int] != end@[i as int]);
            return false;
        }
        i = i + 1;
    }
    assert(text@.skip(from as int) =~= end@);
    true
}

/// Whether a text comes before another in the order of their
/// characters.
pub open spec fn precedes_spec(a: Seq<char>, b: Seq<char>) -> bool
    decreases a.len(),
{
    b.len() > 0 && (a.len() == 0 || (a[0] as int) < (b[0] as int) || (a[0] == b[0]
        && precedes_spec(a.drop_first(), b.drop_first())))
}

/// Whether a text comes before another in the order of their
/// characters.
pub fn precedes(a: &str, b: &str) -> (r: bool)
    ensures
        r == precedes_spec(a@, b@),
{
    let n = a.unicode_len();
    let m = b.unicode_len();
    let mut i: usize = 0;
    proof {
        assert(a@.skip(0) =~= a@);
        assert(b@.skip(0) =~= b@);
    }
    while i < n && i < m
        invariant
            n == a@.len(),
            m == b@.len(),
            i <= n,
            i <= m,
            precedes_spec(a@, b@) == precedes_spec(a@.skip(i as int), b@.skip(i as int)),
        decreases n - i,
    {
        proof {
            assert(a@.skip(i as int)[0] == a@[i as int]);
            assert(b@.skip(i as int)[0] == b@[i as int]);
            assert(a@.skip(i as int).drop_first() =~= a@.skip(i + 1));
            assert(b@.skip(i as int).drop_first() =~= b@.skip(i + 1));
        }
        let x: u32 = a.get_char(i) as u32;
        let y: u32 = b.get_char(i) as u32;
        if x < y {
            return true;
        }
        if y < x {
            return false;
        }
        i = i + 1;
    }
    i < m
}

/// No text comes before itself, and of two texts one comes first.
pub proof fn lemma_precedes_total(a: Seq<char>, b: Seq<char>)
    ensures
        precedes_spec(a, b) ==> !precedes_spec(b, a) && a != b,
        a == b || precedes_spec(a, b) || precedes_spec(b, a),
    decreases a.len(),
{
    if a.len() > 0 && b.len() > 0 {
        lemma_precedes_total(a.drop_first(), b.drop_first());
        if a[0] == b[0] && a.drop_first() == b.drop_first() {
            assert(a =~= seq![a[0]] + a.drop_first());
            assert(b =~= seq![b[0]] + b.drop_first());
        }
    } else if a.len() == 0 && b.len() == 0 {
        assert(a =~= b);
    }
}

/// The order of texts is transitive.
pub proof fn lemma_precedes_transitive(a: Seq<char>, b: Seq<char>, c: Seq<char>)
    requires
        precedes_spec(a, b),
        precedes_spec(b, c),
    ensures
        precedes_spec(a, c),
    decreases a.len(),
{
    if a.len() > 0 && a[0] == b[0] && b[0] == c[0] {
        lemma_precedes_transitive(a.drop_first(), b.drop_first(), c.drop_first());
    }
}

/// A text filled up with spaces behind it to a width.
pub open spec fn left_in_spec(text: Seq<char>, width: nat) -> Seq<char> {
    if text.len() >= width {
        text
    } else {
        text + Seq::new((width - text.len()) as nat, |i: int| ' ')
    }
}

/// A text filled up with spaces before it to a width.
pub open spec fn right_in_spec(text: Seq<char>, width: nat) -> Seq<char> {
    if text.len() >= width {
        text
    } else {
        Seq::new((width - text.len()) as nat, |i: int| ' ') + text
    }
}

/// Appends a text, filled up with spaces behind it to a width.
pub fn push_left_in(text: &mut String, part: &str, width: usize)
    ensures
        final(text)@ == old(text)@ + left_in_spec(part@, width as nat),
{
    text.append(part);
    let n = part.unicode_len();
    let ghost start = text@;
    let mut i: usize = n;
    while i < width
        invariant
            n == part@.len(),
            n <= i,
            i <= width || i == n,
            text@ == start + Seq::new((i - n) as nat, |j: int| ' '),
        decreases width - i,
    {
        text.push(' ');
        assert(text@ =~= start + Seq::new((i + 1 - n) as nat, |j: int| ' '));
        i = i + 1;
    }
    assert(text@ =~= old(text)@ + left_in_spec(part@, width as nat));
}

/// Appends a text, filled up with spaces before it to a width.
pub fn push_right_in(text: &mut String, part: &str, width: usize)
    ensures
        final(text)@ == old(text)@ + right_in_spec(part@, width as nat),
{
    let n = part.unicode_len();
    let ghost start = text@;
    let mut i: usize = n;
    while i < width
        invariant
            n == part@.len(),
            n <= i,
            i <= width || i == n,
            text@ == start + Seq::new((i - n) as nat, |j: int| ' '),
        decreases width - i,
    {
        text.push(' ');
        assert(text@ =~= start + Seq::new((i + 1 - n) as nat, |j: int| ' '));
        i = i + 1;
    }
    text.append(part);
    assert(text@ =~= old(text)@ + right_in_spec(part@, width as nat));
}

// Integers.
/// The character of a decimal digit.
pub open spec fn digit(n: nat) -> char {
    (48 + n) as char
}

/// An integer in decimal, without leading zeros.
pub open spec fn digits(n: nat) -> Seq<char>
    decreases n,
{
    if n < 10 {
        seq![digit(n)]
    } else {
        digits(n / 10).push(digit(n % 10))
    }
}

/// The low `width` decimal digits of an integer, zeros included.
pub open spec fn padded(n: nat, width: nat) -> Seq<char>
    decreases width,
{
    if width == 0 {
        Seq::<char>::empty()
    } else {
        padded(n / 10, (width - 1) as nat).push(digit(n % 10))
    }
}

fn digit_char(n: u8) -> (c: char)
    requires
        n < 10,
    ensures
        c == digit(n as nat),
{
    (48 + n) as char
}

/// Appends an integer in decimal.
pub fn push_digits(text: &mut String, n: u128)
    ensures
        final(text)@ == old(text)@ + digits(n as nat),
    decreases n,
{
    if n < 10 {
        text.push(digit_char(n as u8));
        assert(text@ =~= old(text)@ + digits(n as nat));
    } else {
        push_digits(text, n / 10);
        text.push(digit_char((n % 10) as u8));
        assert(text@ =~= old(text)@ + digits(n as nat));
    }
}

/// An integer in decimal.
pub fn decimal(n: u64) -> (text: String)
    ensures
        text@ == digits(n as nat),
{
    let mut text = String::new();
    push_digits(&mut text, n as u128);
    assert(text@ =~= digits(n as nat));
    text
}

// Reading integers.
/// Why a text is no integer.
#[derive(Debug, Clone, Copy, PartialEq, Eq, Structural)]
pub enum NumberError {
    Empty,
    InvalidDigit,
    TooLarge,
}

impl NumberError {
    pub open spec fn text_spec(self) -> Seq<char> {
        match self {
            NumberError::Empty => "cannot parse integer from empty string"@,
            NumberError::InvalidDigit => "invalid digit found in string"@,
            NumberError::TooLarge => "number too large to fit in target type"@,
        }
    }

    /// The reason in words.
    pub fn to_text(self) -> (text: &'static str)
        ensures
            text@ == self.text_spec(),
    {
        match self {
            NumberError::Empty => "cannot parse integer from empty string",
            NumberError::InvalidDigit => "invalid digit found in string",
            NumberError::TooLarge => "number too large to fit in target type",
        }
    }
}

/// Whether a character is a decimal digit.
pub open spec fn is_digit(c: char) -> bool {
    48 <= c as int <= 57
}

/// The integer the first `n` characters of a text are, up to `max`; the
/// first character that is no digit or takes it over `max` decides why
/// not.
pub open spec fn read_digits(text: Seq<char>, n: int, max: nat) -> Result<nat, NumberError>
    decreases n,
{
    if n <= 0 {
        Ok(0)
    } else {
        match read_digits(text, n - 1, max) {
            Err(e) => Err(e),
            Ok(v) => {
                let c = text[n - 1];
                if !is_digit(c) {
                    Err(NumberError::InvalidDigit)
                } else if 10 * v + (c as int - 48) > max {
                    Err(NumberError::TooLarge)
                } else {
                    Ok((10 * v + (c as int - 48)) as nat)
                }
            },
        }
    }
}

/// The integer a text is, up to `max`: decimal digits, with or without
/// a plus sign before them.
pub open spec fn read_spec(text: Seq<char>, max: nat) -> Result<nat, NumberError> {
    if text.len() == 0 {
        Err(NumberError::Empty)
    } else if text[0] == '+' {
        if text.len() == 1 {
            Err(NumberError::InvalidDigit)
        } else {
            read_digits(text.skip(1), text.len() - 1, max)
        }
    } else {
        read_digits(text, text.len() as int, max)
    }
}

/// The integer a part of a text is, up to `max`.
pub fn read(text: &str, from: usize, to: usize, max: u64) -> (r: Result<u64, NumberError>)
    requires
        from <= to <= text@.len(),
    ensures
        match read_spec(text@.subrange(from as int, to as int), max as nat) {
            Ok(v) => r == Ok::<u64, NumberError>(v as u64) && v <= max,
            Err(e) => r == Err::<u64, NumberError>(e),
        },
{
    let ghost part = text@.subrange(from as int, to as int);
    if from == to {
        return Err(NumberError::Empty);
    }
    let signed = text.get_char(from) == '+';
    assert(part[0] == text@[from as int]);
    if signed && to - from == 1 {
        return Err(NumberError::InvalidDigit);
    }
    let start = if signed {
        from + 1
    } else {
        from
    };
    let ghost body = text@.subrange(start as int, to as int);
    proof {
        if signed {
            assert(body =~= part.skip(1));
        }
    }
    let mut v: u64 = 0;
    let mut i: usize = start;
    while i < to
        invariant
            start <= i <= to <= text@.len(),
            part == text@.subrange(from as int, to as int),
            body == text@.subrange(start as int, to as int),
            read_spec(part, max as nat) == read_digits(body, to - start, max as nat),
            read_digits(body, i - start, max as nat) == Ok::<nat, NumberError>(v as nat),
            v <= max,
        decreases to - i,
    {
        let c = text.get_char(i);
        assert(c == body[i - start]);
        let code: u32 = c as u32;
        let ghost next = read_digits(body, i + 1 - start, max as nat);
        if code < 48 || code > 57 {
            assert(next == Err::<nat, NumberError>(NumberError::InvalidDigit));
            proof {
                lemma_read_stops(body, i + 1 - start, to - start, max as nat);
            }
            return Err(NumberError::InvalidDigit);
        }
        let w: u128 = 10 * (v as u128) + (code - 48) as u128;
        if w > max as u128 {
            assert(next == Err::<nat, NumberError>(NumberError::TooLarge));
            proof {
                lemma_read_stops(body, i + 1 - start, to - start, max as nat);
            }
            return Err(NumberError::TooLarge);
        }
        v = w as u64;
        i = i + 1;
    }
    Ok(v)
}

/// What stops a reading stops it for good.
proof fn lemma_read_stops(text: Seq<char>, n: int, m: int, max: nat)
    requires
        0 <= n <= m,
        read_digits(text, n, max) is Err,
    ensures
        read_digits(text, m, max) == read_digits(text, n, max),
    decreases m - n,
{
    if n < m {
        lemma_read_stops(text, n, m - 1, max);
    }
}

/// What is read is within its limit.
pub proof fn lemma_read_bounds(text: Seq<char>, max: nat)
    ensures
        read_spec(text, max) matches Ok(v) ==> v <= max,
{
    if text.len() > 0 && text[0] == '+' {
        lemma_read_digits_bounds(text.skip(1), text.len() - 1, max);
    } else {
        lemma_read_digits_bounds(text, text.len() as int, max);
    }
}

proof fn lemma_read_digits_bounds(text: Seq<char>, n: int, max: nat)
    ensures
        read_digits(text, n, max) matches Ok(v) ==> v <= max,
    decreases n,
{
    if n > 0 {
        lemma_read_digits_bounds(text, n - 1, max);
    }
}

proof fn lemma_digits_read(n: nat, max: nat)
    requires
        n <= max,
    ensures
        digits(n).len() > 0,
        is_digit(digits(n)[0]),
        read_digits(digits(n), digits(n).len() as int, max) == Ok::<nat, NumberError>(n),
    decreases n,
{
    if n >= 10 {
        let high = digits(n / 10);
        lemma_digits_read(n / 10, max);
        assert(digits(n) == high.push(digit(n % 10)));
        lemma_read_prefix(high, digits(n), high.len() as int, max);
        assert(digits(n)[0] == high[0]);
        assert(10 * (n / 10) + n % 10 == n);
        assert(digits(n).last() as int - 48 == n % 10);
    } else {
        assert(digits(n).last() as int - 48 == n);
        assert(read_digits(digits(n), 0, max) == Ok::<nat, NumberError>(0));
    }
}

/// A reading depends on the characters read.
proof fn lemma_read_prefix(a: Seq<char>, b: Seq<char>, n: int, max: nat)
    requires
        n <= a.len(),
        n <= b.len(),
        forall|i: int| 0 <= i < n ==> a[i] == b[i],
    ensures
        read_digits(a, n, max) == read_digits(b, n, max),
    decreases n,
{
    if n > 0 {
        lemma_read_prefix(a, b, n - 1, max);
    }
}

/// An integer written in decimal reads back as itself.
pub proof fn lemma_decimal_reads_back(n: nat, max: nat)
    requires
        n <= max,
    ensures
        read_spec(digits(n), max) == Ok::<nat, NumberError>(n),
{
    lemma_digits_read(n, max);
}

/// Where a character first is in a text, from `i` up.
pub open spec fn place_of(text: Seq<char>, c: char, i: int) -> Option<int>
    decreases text.len() - i,
{
    if i >= text.len() {
        None
    } else if text[i] == c {
        Some(i)
    } else {
        place_of(text, c, i + 1)
    }
}

/// Where a character first is in a text.
pub fn place(text: &str, c: char) -> (at: Option<usize>)
    ensures
        match at {
            Some(i) => i < text@.len() <= usize::MAX && text@[i as int] == c && place_of(
                text@,
                c,
                0,
            ) == Some(i as int),
            None => place_of(text@, c, 0) is None,
        },
{
    let n = text.unicode_len();
    let mut i: usize = 0;
    while i < n
        invariant
            n == text@.len(),
            i <= n,
            place_of(text@, c, 0) == place_of(text@, c, i as int),
        decreases n - i,
    {
        if text.get_char(i) == c {
            return Some(i);
        }
        i = i + 1;
    }
    None
}

/// Where a character last is in the first `n` characters of a text.
pub open spec fn last_place_of(text: Seq<char>, c: char, n: int) -> Option<int>
    decreases n,
{
    if n <= 0 {
        None
    } else if text[n - 1] == c {
        Some(n - 1)
    } else {
        last_place_of(text, c, n - 1)
    }
}

/// What is behind the last of a character in a text, or the whole text
/// where there is none.
pub open spec fn behind_last_spec(text: Seq<char>, c: char) -> Seq<char> {
    match last_place_of(text, c, text.len() as int) {
        Some(i) => text.skip(i + 1),
        None => text,
    }
}

/// What is behind the last of a character in a text, or the whole text
/// where there is none.
pub fn behind_last(text: &str, c: char) -> (tail: String)
    ensures
        tail@ == behind_last_spec(text@, c),
{
    let n = text.unicode_len();
    let mut at: usize = n;
    while at > 0 && text.get_char(at - 1) != c
        invariant
            n == text@.len(),
            at <= n,
            last_place_of(text@, c, n as int) == last_place_of(text@, c, at as int),
        decreases at,
    {
        at = at - 1;
    }
    let mut tail = String::new();
    let mut i: usize = at;
    proof {
        assert(tail@ =~= text@.subrange(at as int, at as int));
    }
    while i < n
        invariant
            n == text@.len(),
            at <= i <= n,
            tail@ == text@.subrange(at as int, i as int),
        decreases n - i,
    {
        tail.push(text.get_char(i));
        assert(tail@ =~= text@.subrange(at as int, i + 1));
        i = i + 1;
    }
    assert(tail@ =~= behind_last_spec(text@, c));
    tail
}

// Large integers, as decimal digits from the lowest.
/// The integer with these low digits and `top` above them.
pub open spec fn number_of(low: Seq<u8>, top: nat) -> nat
    decreases low.len(),
{
    if low.len() == 0 {
        top
    } else {
        low[0] as nat + 10 * number_of(low.drop_first(), top)
    }
}

/// Decimal digits, the highest of them not zero unless it is alone.
spec fn are_digits(s: Seq<u8>) -> bool {
    &&& s.len() > 0
    &&& forall|i: int| 0 <= i < s.len() ==> s[i] < 10
    &&& s.len() > 1 ==> s.last() > 0
}

proof fn lemma_number_push(low: Seq<u8>, d: u8, top: nat)
    ensures
        number_of(low.push(d), top) == number_of(low, d as nat + 10 * top),
    decreases low.len(),
{
    if low.len() == 0 {
        assert(low.push(d).drop_first() =~= Seq::<u8>::empty());
        assert(number_of(Seq::<u8>::empty(), top) == top);
    } else {
        assert(low.push(d).drop_first() =~= low.drop_first().push(d));
        lemma_number_push(low.drop_first(), d, top);
    }
}

proof fn lemma_number_positive(s: Seq<u8>)
    requires
        s.len() > 0,
        s.last() > 0,
    ensures
        number_of(s, 0) > 0,
    decreases s.len(),
{
    if s.len() > 1 {
        assert(s.drop_first().last() == s.last());
        lemma_number_positive(s.drop_first());
    }
}

/// The decimal digits of an integer.
fn digits_of(n: u64) -> (v: Vec<u8>)
    ensures
        are_digits(v@),
        number_of(v@, 0) == n,
{
    let mut v: Vec<u8> = Vec::new();
    let mut rest: u64 = n;
    while rest >= 10
        invariant
            forall|i: int| 0 <= i < v@.len() ==> v@[i] < 10,
            number_of(v@, rest as nat) == n,
            v@.len() > 0 ==> rest > 0,
        decreases rest,
    {
        let d = (rest % 10) as u8;
        proof {
            lemma_number_push(v@, d, (rest / 10) as nat);
        }
        v.push(d);
        rest = rest / 10;
    }
    proof {
        lemma_number_push(v@, rest as u8, 0);
    }
    v.push(rest as u8);
    v
}

/// Twice an integer, digit by digit.
fn doubled(v: &Vec<u8>) -> (r: Vec<u8>)
    requires
        are_digits(v@),
    ensures
        are_digits(r@),
        number_of(r@, 0) == 2 * number_of(v@, 0),
{
    let mut r: Vec<u8> = Vec::new();
    let mut carry: u8 = 0;
    let mut i: usize = 0;
    proof {
        assert(v@.skip(0) =~= v@);
    }
    while i < v.len()
        invariant
            i <= v@.len(),
            are_digits(v@),
            r@.len() == i,
            carry <= 1,
            forall|j: int| 0 <= j < i ==> r@[j] < 10,
            number_of(r@, carry as nat + 2 * number_of(v@.skip(i as int), 0)) == 2 * number_of(
                v@,
                0,
            ),
            i == v@.len() && i > 1 && carry == 0 ==> r@.last() > 0,
        decreases v@.len() - i,
    {
        let t: u8 = carry + 2 * v[i];
        let d = t % 10;
        proof {
            let rest = v@.skip(i as int);
            assert(rest.drop_first() =~= v@.skip(i + 1));
            assert(rest[0] == v@[i as int]);
            lemma_number_push(
                r@,
                d,
                (t / 10) as nat + 2 * number_of(v@.skip(i + 1), 0),
            );
        }
        r.push(d);
        carry = t / 10;
        i = i + 1;
    }
    proof {
        assert(v@.skip(v@.len() as int) =~= Seq::<u8>::empty());
    }
    if carry > 0 {
        proof {
            lemma_number_push(r@, carry, 0);
        }
        r.push(carry);
    }
    r
}

/// Appends the integer of the digits from `i` up.
fn push_number(text: &mut String, v: &Vec<u8>, i: usize)
    requires
        i < v@.len(),
        are_digits(v@.skip(i as int)),
    ensures
        final(text)@ == old(text)@ + digits(number_of(v@.skip(i as int), 0)),
    decreases v@.len() - i,
{
    let ghost rest = v@.skip(i as int);
    proof {
        assert(rest.drop_first() =~= v@.skip(i + 1));
        assert(rest[0] == v@[i as int]);
    }
    if i == v.len() - 1 {
        proof {
            assert(rest.drop_first() =~= Seq::<u8>::empty());
            assert(number_of(Seq::<u8>::empty(), 0) == 0);
        }
        text.push(digit_char(v[i]));
        assert(text@ =~= old(text)@ + digits(number_of(rest, 0)));
    } else {
        proof {
            assert(v@.skip(i + 1).last() == rest.last());
            let above = v@.skip(i + 1);
            assert forall|j: int| 0 <= j < above.len() implies #[trigger] above[j] < 10 by {
                assert(above[j] == rest[j + 1]);
            }
            lemma_number_positive(v@.skip(i + 1));
        }
        push_number(text, v, i + 1);
        text.push(digit_char(v[i]));
        assert(text@ =~= old(text)@ + digits(number_of(rest, 0)));
    }
}

/// Appends `m * 2^e` in decimal.
fn push_scaled(text: &mut String, m: u64, e: u32)
    ensures
        final(text)@ == old(text)@ + digits(m as nat * pow2(e as nat)),
{
    let mut v = digits_of(m);
    let mut i: u32 = 0;
    proof {
        lemma2_to64();
        assert(m * pow2(0) == m);
    }
    while i < e
        invariant
            i <= e,
            are_digits(v@),
            number_of(v@, 0) == m * pow2(i as nat),
        decreases e - i,
    {
        v = doubled(&v);
        proof {
            lemma_pow2_unfold((i + 1) as nat);
            assert(m * (2 * pow2(i as nat)) == 2 * (m * pow2(i as nat))) by (nonlinear_arith);
        }
        i = i + 1;
    }
    proof {
        assert(v@.skip(0) =~= v@);
    }
    push_number(text, &v, 0);
}

// Numbers with a fixed count of decimals.
/// `10^n`.
pub open spec fn pow10(n: nat) -> nat
    decreases n,
{
    if n == 0 {
        1
    } else {
        10 * pow10((n - 1) as nat)
    }
}

/// An integer count of `10^-decimals`, with its point.
pub open spec fn pointed(n: nat, decimals: nat) -> Seq<char> {
    if decimals == 0 {
        digits(n)
    } else {
        digits(n / pow10(decimals)).push('.') + padded(n % pow10(decimals), decimals)
    }
}

/// A number with a fixed count of decimals: the nearest multiple of
/// `10^-decimals`, a tie to the even one.
pub open spec fn fixed_spec(x: Double, decimals: nat) -> Seq<char> {
    let n = x.num();
    if x.is_nan() {
        seq!['N', 'a', 'N']
    } else {
        (if n.neg {
            seq!['-']
        } else {
            Seq::<char>::empty()
        }) + (if !x.is_finite() {
            seq!['i', 'n', 'f']
        } else {
            pointed(
                rounding::half_even(
                    binary64().units(n.mag as nat) * pow10(decimals),
                    pow2(1074),
                ),
                decimals,
            )
        })
    }
}

proof fn lemma_pow10_positive(n: nat)
    ensures
        pow10(n) > 0,
    decreases n,
{
    if n > 0 {
        lemma_pow10_positive((n - 1) as nat);
    }
}

/// Digits above digits.
proof fn lemma_number_append(low: Seq<u8>, high: Seq<u8>)
    ensures
        number_of(low + high, 0) == number_of(low, number_of(high, 0)),
    decreases low.len(),
{
    if low.len() == 0 {
        assert(low + high =~= high);
    } else {
        assert((low + high).drop_first() =~= low.drop_first() + high);
        lemma_number_append(low.drop_first(), high);
    }
}

/// Zeros under an integer are a power of ten of it.
proof fn lemma_number_zeros(low: Seq<u8>, top: nat)
    requires
        forall|i: int| 0 <= i < low.len() ==> low[i] == 0,
    ensures
        number_of(low, top) == pow10(low.len()) * top,
    decreases low.len(),
{
    if low.len() == 0 {
        lemma_mul_basics(top as int);
    } else {
        lemma_number_zeros(low.drop_first(), top);
        let t = pow10((low.len() - 1) as nat);
        assert(10 * (t * top) == (10 * t) * top) by (nonlinear_arith);
    }
}

/// The digits from `w` up are the integer without its low `w` digits.
proof fn lemma_number_without_low(v: Seq<u8>, w: nat)
    requires
        w <= v.len(),
        forall|i: int| 0 <= i < v.len() ==> v[i] < 10,
    ensures
        number_of(v.skip(w as int), 0) == number_of(v, 0) / pow10(w),
    decreases w,
{
    if w == 0 {
        assert(v.skip(0) =~= v);
        lemma_div_basics(number_of(v, 0) as int);
    } else {
        let rest = v.drop_first();
        let t = pow10((w - 1) as nat);
        assert(rest.skip(w - 1) =~= v.skip(w as int));
        lemma_number_without_low(rest, (w - 1) as nat);
        lemma_pow10_positive((w - 1) as nat);
        let n = number_of(v, 0);
        lemma_div_denominator(n as int, 10, t as int);
    }
}

/// The low digits of an integer are those of its remainder.
proof fn lemma_padded_remainder(n: nat, w: nat)
    ensures
        padded(n % pow10(w), w) == padded(n, w),
    decreases w,
{
    if w > 0 {
        let t = pow10((w - 1) as nat);
        lemma_pow10_positive((w - 1) as nat);
        let (a, b) = (n / 10, n % 10);
        let (q, r) = (a / t, a % t);
        lemma_fundamental_div_mod(a as int, t as int);
        lemma_mod_bound(a as int, t as int);
        assert(n == q * (10 * t) + (10 * r + b)) by (nonlinear_arith)
            requires
                n == 10 * a + b,
                a == t * q + r,
        ;
        lemma_fundamental_div_mod_converse(
            n as int,
            (10 * t) as int,
            q as int,
            (10 * r + b) as int,
        );
        assert(n % pow10(w) == 10 * r + b);
        assert((10 * r + b) / 10 == r && (10 * r + b) % 10 == b);
        lemma_padded_remainder(a, (w - 1) as nat);
    }
}

/// The digits below `w` from the highest down are the low digits.
proof fn lemma_padded_digits(v: Seq<u8>, w: nat)
    requires
        w <= v.len(),
        forall|i: int| 0 <= i < v.len() ==> v[i] < 10,
    ensures
        padded(number_of(v, 0), w) =~= Seq::new(w, |i: int| digit(v[w - 1 - i] as nat)),
    decreases w,
{
    if w > 0 {
        let rest = v.drop_first();
        let n = number_of(v, 0);
        assert(n / 10 == number_of(rest, 0) && n % 10 == v[0]);
        lemma_padded_digits(rest, (w - 1) as nat);
    }
}

/// Halves an integer, digit by digit, and says what was left over.
fn halve(v: &mut Vec<u8>) -> (odd: bool)
    requires
        forall|i: int| 0 <= i < old(v)@.len() ==> old(v)@[i] < 10,
    ensures
        final(v)@.len() == old(v)@.len(),
        forall|i: int| 0 <= i < final(v)@.len() ==> final(v)@[i] < 10,
        number_of(old(v)@, 0) == 2 * number_of(final(v)@, 0) + if odd {
            1nat
        } else {
            0
        },
{
    let ghost was = v@;
    let mut rest: u8 = 0;
    let mut i: usize = v.len();
    proof {
        assert(was.skip(i as int) =~= Seq::<u8>::empty());
    }
    while i > 0
        invariant
            i <= v@.len() == was.len(),
            rest <= 1,
            forall|j: int| 0 <= j < was.len() ==> was[j] < 10,
            forall|j: int| 0 <= j < v@.len() ==> v@[j] < 10,
            forall|j: int| 0 <= j < i ==> v@[j] == was[j],
            number_of(was.skip(i as int), 0) == 2 * number_of(v@.skip(i as int), 0) + rest,
        decreases i,
    {
        let ghost before = v@;
        let t: u8 = 10 * rest + v[i - 1];
        v.set(i - 1, t / 2);
        rest = t % 2;
        i = i - 1;
        proof {
            assert(was.skip(i as int).drop_first() =~= was.skip(i + 1));
            assert(v@.skip(i as int).drop_first() =~= before.skip(i + 1));
            assert(was.skip(i as int)[0] == was[i as int]);
            assert(v@.skip(i as int)[0] == t / 2);
        }
    }
    proof {
        assert(was.skip(0) =~= was);
        assert(v@.skip(0) =~= v@);
    }
    rest == 1
}

/// Adds one to an integer, digit by digit.
fn increment(v: &mut Vec<u8>)
    requires
        forall|i: int| 0 <= i < old(v)@.len() ==> old(v)@[i] < 10,
    ensures
        final(v)@.len() >= old(v)@.len(),
        forall|i: int| 0 <= i < final(v)@.len() ==> final(v)@[i] < 10,
        number_of(final(v)@, 0) == number_of(old(v)@, 0) + 1,
{
    let ghost was = v@;
    let mut i: usize = 0;
    proof {
        assert(was.skip(0) =~= was);
        assert(v@.take(0) =~= Seq::<u8>::empty());
    }
    while i < v.len() && v[i] == 9
        invariant
            i <= v@.len() == was.len(),
            forall|j: int| 0 <= j < was.len() ==> was[j] < 10,
            forall|j: int| 0 <= j < v@.len() ==> v@[j] < 10,
            forall|j: int| i <= j < v@.len() ==> v@[j] == was[j],
            number_of(v@.take(i as int), number_of(was.skip(i as int), 0) + 1) == number_of(was, 0)
                + 1,
        decreases v@.len() - i,
    {
        proof {
            let rest = was.skip(i as int);
            assert(rest.drop_first() =~= was.skip(i + 1));
            assert(rest[0] == was[i as int]);
            lemma_number_push(v@.take(i as int), 0, number_of(was.skip(i + 1), 0) + 1);
        }
        let ghost before = v@;
        v.set(i, 0);
        assert(v@.take(i + 1) =~= before.take(i as int).push(0));
        i = i + 1;
    }
    if i < v.len() {
        let d = v[i];
        let ghost before = v@;
        v.set(i, d + 1);
        proof {
            let rest = was.skip(i as int);
            assert(rest.drop_first() =~= was.skip(i + 1));
            assert(rest[0] == was[i as int]);
            let now = v@.skip(i as int);
            assert(now.drop_first() =~= was.skip(i + 1));
            assert(v@ =~= before.take(i as int) + now);
            lemma_number_append(before.take(i as int), now);
        }
    } else {
        proof {
            assert(was.skip(i as int) =~= Seq::<u8>::empty());
            assert(v@.take(i as int) =~= v@);
            lemma_number_push(v@, 1, 0);
        }
        v.push(1);
    }
}

/// The digits of the multiple of `10^-decimals` nearest to
/// `m * 2^-e`, a tie to the even one, at least one of them above the
/// decimals.
fn nearest_multiple(m: u64, e: u32, decimals: u32) -> (v: Vec<u8>)
    requires
        e > 0,
    ensures
        v@.len() > decimals,
        forall|i: int| 0 <= i < v@.len() ==> v@[i] < 10,
        number_of(v@, 0) == rounding::half_even(
            m as nat * pow10(decimals as nat),
            pow2(e as nat),
        ),
{
    let mut v: Vec<u8> = Vec::new();
    let mut i: u32 = 0;
    while i < decimals
        invariant
            i <= decimals,
            v@.len() == i,
            forall|j: int| 0 <= j < v@.len() ==> v@[j] == 0,
        decreases decimals - i,
    {
        v.push(0);
        i = i + 1;
    }
    let ghost zeros = v@;
    let mut high = digits_of(m);
    let ghost above = high@;
    v.append(&mut high);
    let ghost x = m as nat * pow10(decimals as nat);
    proof {
        assert(v@ =~= zeros + above);
        lemma_number_append(zeros, above);
        lemma_number_zeros(zeros, m as nat);
        lemma_mul_is_commutative(m as int, pow10(decimals as nat) as int);
        lemma2_to64();
        assert(number_of(v@, 0) == x);
    }
    let mut half: bool = false;
    let mut more: bool = false;
    let ghost mut r: nat = 0;
    i = 0;
    while i < e
        invariant
            i <= e,
            v@.len() > decimals,
            forall|j: int| 0 <= j < v@.len() ==> v@[j] < 10,
            x == pow2(i as nat) * number_of(v@, 0) + r,
            r < pow2(i as nat),
            (half || more) == (r > 0),
            i > 0 ==> half == (2 * r >= pow2(i as nat)),
            i > 0 ==> (half ==> more == (2 * r > pow2(i as nat))),
        decreases e - i,
    {
        let ghost was = number_of(v@, 0);
        more = half || more;
        half = halve(&mut v);
        proof {
            let now = number_of(v@, 0);
            let t = pow2(i as nat);
            let bit: nat = if half {
                1
            } else {
                0
            };
            lemma_pow2_unfold((i + 1) as nat);
            assert(t * (2 * now + bit) == (2 * t) * now + t * bit) by (nonlinear_arith);
            lemma_mul_basics(t as int);
            r = r + t * bit;
        }
        i = i + 1;
    }
    proof {
        let step = pow2(e as nat);
        lemma_pow2_pos(e as nat);
        let q = number_of(v@, 0);
        lemma_mul_is_commutative(step as int, q as int);
        lemma_fundamental_div_mod_converse(x as int, step as int, q as int, r as int);
        assert(q == v@[0] + 10 * number_of(v@.drop_first(), 0));
    }
    if half && (more || v[0] % 2 == 1) {
        increment(&mut v);
    }
    v
}

/// Appends an integer count of `10^-decimals`, from its digits, with
/// its point.
fn push_pointed(text: &mut String, v: Vec<u8>, decimals: u32)
    requires
        v@.len() > decimals,
        forall|i: int| 0 <= i < v@.len() ==> v@[i] < 10,
    ensures
        final(text)@ == old(text)@ + pointed(number_of(v@, 0), decimals as nat),
{
    let ghost n = number_of(v@, 0);
    let ghost before = text@;
    let w = decimals as usize;
    let mut v = v;
    while v.len() > w + 1 && v[v.len() - 1] == 0
        invariant
            w == decimals,
            v@.len() > w,
            forall|i: int| 0 <= i < v@.len() ==> v@[i] < 10,
            number_of(v@, 0) == n,
        decreases v@.len(),
    {
        proof {
            lemma_number_push(v@.drop_last(), 0, 0);
            assert(v@.drop_last().push(0) =~= v@);
        }
        v.pop();
    }
    proof {
        lemma_number_without_low(v@, w as nat);
        assert(v@.skip(w as int).last() == v@.last());
    }
    push_number(text, &v, w);
    if w > 0 {
        text.push('.');
        let ghost whole = text@;
        let mut j: usize = w;
        let ghost low = Seq::new(w as nat, |i: int| digit(v@[w - 1 - i] as nat));
        assert(text@ =~= whole + low.take(0));
        while j > 0
            invariant
                j <= w < v@.len(),
                forall|i: int| 0 <= i < v@.len() ==> v@[i] < 10,
                low == Seq::new(w as nat, |i: int| digit(v@[w - 1 - i] as nat)),
                text@ == whole + low.take(w - j),
            decreases j,
        {
            text.push(digit_char(v[j - 1]));
            assert(low.take(w - j + 1) =~= low.take(w - j).push(low[w - j]));
            assert(text@ =~= whole + low.take(w - j + 1));
            j = j - 1;
        }
        proof {
            assert(low.take(w as int) =~= low);
            lemma_padded_digits(v@, w as nat);
            lemma_padded_remainder(n, w as nat);
            assert(low =~= padded(n % pow10(w as nat), w as nat));
        }
        assert(text@ =~= before + pointed(n, w as nat));
    } else {
        assert(n / 1 == n);
        assert(text@ =~= before + pointed(n, 0));
    }
}

/// Appends zeros.
fn push_zeros(text: &mut String, width: u32)
    ensures
        final(text)@ == old(text)@ + padded(0, width as nat),
{
    let mut i: u32 = 0;
    assert(text@ =~= old(text)@ + padded(0, 0));
    while i < width
        invariant
            i <= width,
            text@ == old(text)@ + padded(0, i as nat),
        decreases width - i,
    {
        text.push('0');
        assert(text@ =~= old(text)@ + padded(0, (i + 1) as nat));
        i = i + 1;
    }
}

/// Appends a number with a fixed count of decimals.
pub fn push_fixed(text: &mut String, x: Double, decimals: u32)
    ensures
        final(text)@ == old(text)@ + fixed_spec(x, decimals as nat),
{
    let ghost before = text@;
    let f = binary64();
    if x.is_nan() {
        text.push('N');
        text.push('a');
        text.push('N');
        assert(text@ =~= before + fixed_spec(x, decimals as nat));
        return;
    }
    let negative = x.bits >= 0x8000_0000_0000_0000;
    let mag: u64 = x.magnitude().bits;
    proof {
        ieee::lemma_format_bounds(f);
    }
    if negative {
        text.push('-');
    }
    let ghost sign = if negative {
        seq!['-']
    } else {
        Seq::<char>::empty()
    };
    assert(text@ =~= before + sign);
    if !x.is_finite() {
        text.push('i');
        text.push('n');
        text.push('f');
        assert(text@ =~= before + fixed_spec(x, decimals as nat));
        return;
    }
    let (m, k) = ieee::split(f, mag);
    let ghost units = f.units(mag as nat);
    let ghost tens = pow10(decimals as nat);
    let ghost n = rounding::half_even(units * tens, pow2(1074));
    proof {
        lemma_pow10_positive(decimals as nat);
        lemma_pow2_pos(1074);
        lemma_pow2_pos(k as nat);
    }
    if k >= 1074 {
        let e = k - 1074;
        proof {
            lemma_pow2_adds(e as nat, 1074);
            let v = m as nat * pow2(e as nat);
            assert(units * tens == (v * tens) * pow2(1074)) by (nonlinear_arith)
                requires
                    units == m * (pow2(e as nat) * pow2(1074)),
                    v == m * pow2(e as nat),
            ;
            rounding::lemma_half_even_exact(v * tens, pow2(1074));
            lemma_div_multiples_vanish(v as int, tens as int);
            lemma_mul_is_commutative(v as int, tens as int);
            lemma_mod_multiples_basic(v as int, tens as int);
            assert(n == v * tens);
            assert(n / tens == v);
            assert(n % tens == 0);
            assert(v * 1 == v);
        }
        push_scaled(text, m, e);
        if decimals > 0 {
            text.push('.');
            push_zeros(text, decimals);
        }
        assert(text@ =~= before + fixed_spec(x, decimals as nat));
    } else {
        let e: u32 = 1074 - k;
        let v = nearest_multiple(m, e, decimals);
        proof {
            lemma_pow2_adds(e as nat, k as nat);
            lemma_pow2_pos(e as nat);
            let pk = pow2(k as nat);
            assert(units * tens == (m * tens) * pk) by (nonlinear_arith)
                requires
                    units == m * pk,
            ;
            rounding::lemma_half_even_scaled(m as nat * tens, pow2(e as nat), pk);
            assert(n == number_of(v@, 0));
        }
        push_pointed(text, v, decimals);
        assert(text@ =~= before + fixed_spec(x, decimals as nat));
    }
}

/// A number with a fixed count of decimals.
pub fn fixed(x: Double, decimals: u32) -> (text: String)
    ensures
        text@ == fixed_spec(x, decimals as nat),
{
    let mut text = String::new();
    push_fixed(&mut text, x, decimals);
    assert(text@ =~= fixed_spec(x, decimals as nat));
    text
}

/// A number with a fixed count of decimals and its sign, plus or minus.
pub open spec fn signed_spec(x: Double, decimals: nat) -> Seq<char> {
    if x.is_nan() || x.num().neg {
        fixed_spec(x, decimals)
    } else {
        seq!['+'] + fixed_spec(x, decimals)
    }
}

/// Appends a number with a fixed count of decimals and its sign.
pub fn push_signed(text: &mut String, x: Double, decimals: u32)
    ensures
        final(text)@ == old(text)@ + signed_spec(x, decimals as nat),
{
    if !x.is_nan() && x.bits < 0x8000_0000_0000_0000 {
        text.push('+');
    }
    push_fixed(text, x, decimals);
    assert(text@ =~= old(text)@ + signed_spec(x, decimals as nat));
}

// What the words are.
/// A text filled up to a width starts with the text and goes on in
/// spaces, or ends with it behind spaces; a longer one is left whole.
pub proof fn lemma_filled_up_with_spaces(text: Seq<char>, width: nat, i: int)
    ensures
        ({
            let (left, right) = (left_in_spec(text, width), right_in_spec(text, width));
            let n = if text.len() > width {
                text.len()
            } else {
                width
            };
            &&& left.len() == n
            &&& right.len() == n
            &&& left.take(text.len() as int) == text
            &&& right.skip(n - text.len()) == text
            &&& text.len() <= i < n ==> left[i] == ' '
            &&& 0 <= i < n - text.len() ==> right[i] == ' '
        }),
{
    let (left, right) = (left_in_spec(text, width), right_in_spec(text, width));
    assert(left.take(text.len() as int) =~= text);
    assert(right.skip(right.len() - text.len()) =~= text);
}

/// What is behind the last of a character has none of it, and the text
/// ends in the character and that; where there is none of it, it is the
/// whole text.
pub proof fn lemma_behind_the_last(text: Seq<char>, c: char)
    ensures
        !behind_last_spec(text, c).contains(c),
        text.contains(c) ==> text.len() > behind_last_spec(text, c).len() && text.skip(
            text.len() - behind_last_spec(text, c).len() - 1,
        ) == seq![c] + behind_last_spec(text, c),
        !text.contains(c) ==> behind_last_spec(text, c) == text,
{
    lemma_last_place(text, c, text.len() as int);
    let tail = behind_last_spec(text, c);
    match last_place_of(text, c, text.len() as int) {
        Some(i) => {
            assert(text[i] == c);
            assert(text.contains(c));
            assert forall|k: int| 0 <= k < tail.len() implies tail[k] != c by {
                assert(tail[k] == text[i + 1 + k]);
            }
            assert(text.skip(i) =~= seq![c] + tail);
        },
        None => {},
    }
}

proof fn lemma_last_place(text: Seq<char>, c: char, n: int)
    requires
        0 <= n <= text.len(),
    ensures
        match last_place_of(text, c, n) {
            Some(i) => 0 <= i < n && text[i] == c && forall|k: int| i < k < n ==> text[k] != c,
            None => forall|k: int| 0 <= k < n ==> text[k] != c,
        },
    decreases n,
{
    if n > 0 {
        lemma_last_place(text, c, n - 1);
    }
}

/// A character is found where it first stands.
pub proof fn lemma_where_a_character_stands(text: Seq<char>, c: char, from: int, i: int)
    requires
        0 <= from,
    ensures
        from <= i < text.len() && text[i] == c && (forall|j: int| from <= j < i ==> text[j] != c)
            ==> place_of(text, c, from) == Some(i),
        (forall|j: int| from <= j < text.len() ==> text[j] != c) ==> place_of(
            text,
            c,
            from,
        ) is None,
    decreases text.len() - from,
{
    if from < text.len() {
        lemma_where_a_character_stands(text, c, from + 1, i);
    }
}

/// Texts are in the order of their first characters that differ, a
/// start before the whole.
pub proof fn lemma_the_order_of_texts(a: Seq<char>, b: Seq<char>, i: int)
    requires
        0 <= i <= a.len(),
        i <= b.len(),
        forall|j: int| 0 <= j < i ==> a[j] == b[j],
    ensures
        i < a.len() && i < b.len() && (a[i] as int) < (b[i] as int) ==> precedes_spec(a, b)
            && !precedes_spec(b, a),
        i == a.len() && i < b.len() ==> precedes_spec(a, b) && !precedes_spec(b, a),
        i == a.len() && i == b.len() ==> !precedes_spec(a, b),
    decreases i,
{
    if i > 0 {
        assert(a[0] == b[0]);
        assert forall|j: int| 0 <= j < i - 1 implies a.drop_first()[j] == b.drop_first()[j] by {
            assert(a[j + 1] == b[j + 1]);
        }
        lemma_the_order_of_texts(a.drop_first(), b.drop_first(), i - 1);
    }
}

/// A number's sign is written: a minus where it is negative, a plus
/// where it is not, before the same number.
pub proof fn lemma_a_sign_is_written(x: Double, decimals: nat)
    requires
        !x.is_nan(),
    ensures
        x.bits < 0x8000_0000_0000_0000 ==> signed_spec(x, decimals) == seq!['+'] + fixed_spec(
            x,
            decimals,
        ),
        x.bits >= 0x8000_0000_0000_0000 ==> signed_spec(x, decimals) == fixed_spec(x, decimals)
            && fixed_spec(x, decimals) == seq!['-'] + fixed_spec(x.magnitude(), decimals),
{
    if x.bits >= 0x8000_0000_0000_0000 {
        let m = x.magnitude();
        let rest = fixed_spec(m, decimals);
        assert(m.num().mag == x.num().mag && !m.num().neg);
        assert(Seq::<char>::empty() + rest =~= rest);
        assert(fixed_spec(x, decimals) =~= seq!['-'] + rest);
    }
}

/// What is written of a number is the nearest of that many decimals: no
/// further from it than half of the last, and even where two are as
/// near.
pub proof fn lemma_the_nearest_decimal_is_written(x: Double, decimals: nat)
    requires
        x.is_finite(),
        x.bits < 0x8000_0000_0000_0000,
    ensures
        exists|n: nat|
            {
                let (exact, one) = (order::units(x) * pow10(decimals), pow2(1074) as int);
                &&& fixed_spec(x, decimals) == #[trigger] pointed(n, decimals)
                &&& 2 * (n * one - exact) <= one
                &&& 2 * (exact - n * one) <= one
                &&& (2 * (n * one - exact) == one || 2 * (exact - n * one) == one) ==> n % 2 == 0
            },
{
    let u = binary64().units(x.num().mag as nat);
    let a = u * pow10(decimals);
    let d = pow2(1074);
    lemma_pow2_pos(1074);
    let n = rounding::half_even(a, d);
    lemma_fundamental_div_mod(a as int, d as int);
    let (q, r) = ((a / d) as int, (a % d) as int);
    assert(d * q == q * d) by (nonlinear_arith);
    assert((q + 1) * d == q * d + d) by (nonlinear_arith);
    assert(Seq::<char>::empty() + pointed(n, decimals) =~= pointed(n, decimals));
    assert(fixed_spec(x, decimals) == pointed(n, decimals));
}

/// A count of tenths, hundredths and so on is written as its whole part,
/// the point, and that many digits.
pub proof fn lemma_how_decimals_are_written(n: nat, decimals: nat)
    ensures
        pointed(n, 0) == digits(n),
        decimals > 0 ==> ({
            let text = pointed(n, decimals);
            let whole = digits(n / pow10(decimals));
            &&& text.len() == whole.len() + 1 + decimals
            &&& text.take(whole.len() as int) == whole
            &&& text[whole.len() as int] == '.'
            &&& read_digits(
                text.skip(whole.len() as int + 1),
                decimals as int,
                pow10(decimals),
            ) == Ok::<nat, NumberError>(n % pow10(decimals))
        }),
{
    if decimals > 0 {
        lemma_pow10_positive(decimals);
        let low = n % pow10(decimals);
        let whole = digits(n / pow10(decimals));
        lemma_mod_bound(n as int, pow10(decimals) as int);
        lemma_padded_reads(low, decimals, pow10(decimals));
        let text = pointed(n, decimals);
        assert(text.take(whole.len() as int) =~= whole);
        assert(text.skip(whole.len() as int + 1) =~= padded(low, decimals));
    }
}

proof fn lemma_padded_reads(n: nat, width: nat, max: nat)
    requires
        n < pow10(width),
        n <= max,
    ensures
        padded(n, width).len() == width,
        read_digits(padded(n, width), width as int, max) == Ok::<nat, NumberError>(n),
    decreases width,
{
    if width > 0 {
        let high = padded(n / 10, (width - 1) as nat);
        lemma_padded_reads(n / 10, (width - 1) as nat, max);
        let all = padded(n, width);
        assert(all == high.push(digit(n % 10)));
        lemma_read_prefix(high, all, width - 1, max);
        assert(10 * (n / 10) + n % 10 == n);
        assert(all[width - 1] as int - 48 == n % 10);
    }
}

/// An integer in decimal is all digits, at least one; the first is zero
/// of nothing but zero; and there are no more than it takes.
pub proof fn lemma_digits_are_digits(n: nat)
    ensures
        digits(n).len() > 0,
        forall|i: int| 0 <= i < digits(n).len() ==> is_digit(#[trigger] digits(n)[i]),
        n > 0 ==> digits(n)[0] != '0',
        n < 10 ==> digits(n).len() == 1,
        n < 1000 ==> digits(n).len() <= 3,
    decreases n,
{
    if n >= 10 {
        let high = digits(n / 10);
        lemma_digits_are_digits(n / 10);
        let all = digits(n);
        assert(all == high.push(digit(n % 10)));
        assert forall|i: int| 0 <= i < all.len() implies is_digit(#[trigger] all[i]) by {
            if i < high.len() {
                assert(all[i] == high[i]);
            }
        }
        assert(all[0] == high[0]);
        if n < 1000 {
            if n / 10 >= 10 {
                lemma_digits_are_digits(n / 100);
                assert(n / 10 / 10 == n / 100);
                assert(digits(n / 10) == digits(n / 100).push(digit((n / 10) % 10)));
            }
        }
    } else {
        assert(digits(n)[0] as int == 48 + n);
    }
}

/// An integer reads the same behind a plus; one over the limit is too
/// large; nothing is empty; and a text that starts with anything else
/// but a digit has an invalid one.
pub proof fn lemma_what_reads_as_an_integer(n: nat, max: nat, text: Seq<char>)
    ensures
        n <= max ==> read_spec(seq!['+'] + digits(n), max) == Ok::<nat, NumberError>(n),
        n > max ==> read_spec(digits(n), max) == Err::<nat, NumberError>(NumberError::TooLarge),
        read_spec(Seq::<char>::empty(), max) == Err::<nat, NumberError>(NumberError::Empty),
        text.len() > 0 && text[0] != '+' && !(48 <= text[0] as int <= 57) ==> read_spec(text, max)
            == Err::<nat, NumberError>(NumberError::InvalidDigit),
        text.len() == 1 && text[0] == '+' ==> read_spec(text, max) == Err::<nat, NumberError>(
            NumberError::InvalidDigit,
        ),
{
    let plus = seq!['+'] + digits(n);
    assert(plus.skip(1) =~= digits(n));
    if n <= max {
        lemma_digits_read(n, max);
    } else {
        lemma_too_large(n, max);
        lemma_digits_are_digits(n);
        assert(is_digit(digits(n)[0]));
    }
    if text.len() > 0 && text[0] != '+' && !(48 <= text[0] as int <= 57) {
        lemma_stays_invalid(text, text.len() as int, max);
    }
}

proof fn lemma_too_large(n: nat, max: nat)
    requires
        n > max,
    ensures
        read_digits(digits(n), digits(n).len() as int, max) == Err::<nat, NumberError>(
            NumberError::TooLarge,
        ),
    decreases n,
{
    let all = digits(n);
    if n >= 10 {
        let high = digits(n / 10);
        assert(all == high.push(digit(n % 10)));
        lemma_read_prefix(high, all, high.len() as int, max);
        assert(all.last() as int - 48 == n % 10);
        assert(10 * (n / 10) + n % 10 == n);
        if n / 10 <= max {
            lemma_digits_read(n / 10, max);
        } else {
            lemma_too_large(n / 10, max);
        }
    } else {
        assert(all.last() as int - 48 == n);
        assert(read_digits(all, 0, max) == Ok::<nat, NumberError>(0));
    }
}

proof fn lemma_stays_invalid(text: Seq<char>, n: int, max: nat)
    requires
        1 <= n <= text.len(),
        !is_digit(text[0]),
    ensures
        read_digits(text, n, max) == Err::<nat, NumberError>(NumberError::InvalidDigit),
    decreases n,
{
    if n > 1 {
        lemma_stays_invalid(text, n - 1, max);
    } else {
        assert(read_digits(text, 0, max) == Ok::<nat, NumberError>(0));
    }
}

} // verus!
