//! Socket addresses in text: an IPv4 address and a port, such as
//! `127.0.0.1:7786`, or an IPv6 address in brackets and a port, such as
//! `[::1]:7786`.
use vstd::prelude::*;

use crate::wording;

verus! {

/// A decimal digit.
pub open spec fn is_digit_spec(c: char) -> bool {
    48 <= c as int <= 57
}

/// A hexadecimal digit.
pub open spec fn is_hex_spec(c: char) -> bool {
    is_digit_spec(c) || 65 <= c as int <= 70 || 97 <= c as int <= 102
}

fn is_digit(c: char) -> (r: bool)
    ensures
        r == is_digit_spec(c),
{
    let n = c as u32;
    48 <= n && n <= 57
}

fn is_hex(c: char) -> (r: bool)
    ensures
        r == is_hex_spec(c),
{
    let n = c as u32;
    is_digit(c) || (65 <= n && n <= 70) || (97 <= n && n <= 102)
}

/// The number that decimal digits are.
pub open spec fn value(s: Seq<char>) -> int
    decreases s.len(),
{
    if s.len() == 0 {
        0
    } else {
        10 * value(s.drop_last()) + (s.last() as int - 48)
    }
}

/// A decimal number up to a limit, leading zeros and all.
pub open spec fn is_number_spec(s: Seq<char>, max: int) -> bool {
    &&& s.len() > 0
    &&& forall|i: int| 0 <= i < s.len() ==> is_digit_spec(#[trigger] s[i])
    &&& value(s) <= max
}

/// The first digits of a number are no greater than the number.
proof fn lemma_value_of_prefix(s: Seq<char>, n: int)
    requires
        0 <= n <= s.len(),
        forall|i: int| 0 <= i < s.len() ==> is_digit_spec(#[trigger] s[i]),
    ensures
        0 <= value(s.take(n)) <= value(s),
    decreases s.len(),
{
    if n < s.len() {
        lemma_value_of_prefix(s.drop_last(), n);
        assert(s.drop_last().take(n) =~= s.take(n));
    } else {
        assert(s.take(n) =~= s);
        if s.len() > 0 {
            lemma_value_of_prefix(s.drop_last(), s.len() - 1);
            assert(s.drop_last().take(s.len() - 1) =~= s.drop_last());
        }
    }
}

/// Whether a text is a decimal number up to a limit.
fn is_number(text: &str, max: u64) -> (r: bool)
    requires
        max <= 0xffff_ffff,
    ensures
        r == is_number_spec(text@, max as int),
{
    let n = text.unicode_len();
    if n == 0 {
        return false;
    }
    let mut all: bool = true;
    let mut i: usize = 0;
    while i < n
        invariant
            i <= n == text@.len(),
            all == forall|j: int| 0 <= j < i ==> is_digit_spec(#[trigger] text@[j]),
        decreases n - i,
    {
        if !is_digit(text.get_char(i)) {
            all = false;
            assert(!is_digit_spec(text@[i as int]));
        }
        i = i + 1;
    }
    if !all {
        return false;
    }
    let mut v: u64 = 0;
    i = 0;
    while i < n
        invariant
            i <= n == text@.len(),
            forall|j: int| 0 <= j < n ==> is_digit_spec(#[trigger] text@[j]),
            v == value(text@.take(i as int)),
            v <= max <= 0xffff_ffff,
        decreases n - i,
    {
        proof {
            let next = text@.take(i + 1);
            assert(next.drop_last() =~= text@.take(i as int));
            assert(next.last() == text@[i as int]);
            assert(is_digit_spec(text@[i as int]));
            lemma_value_of_prefix(text@, i + 1);
        }
        v = 10 * v + (text.get_char(i) as u32 - 48) as u64;
        if v > max {
            return false;
        }
        i = i + 1;
    }
    assert(text@.take(n as int) =~= text@);
    true
}

/// One of the four numbers of an IPv4 address: up to three digits, no
/// leading zero, at most 255.
pub open spec fn is_octet_spec(s: Seq<char>) -> bool {
    s.len() <= 3 && is_number_spec(s, 255) && (s.len() == 1 || s[0] != '0')
}

fn is_octet(text: &str) -> (r: bool)
    ensures
        r == is_octet_spec(text@),
{
    let n = text.unicode_len();
    n <= 3 && is_number(text, 255) && (n == 1 || text.get_char(0) != '0')
}

/// Part of a text.
fn cut(text: &str, from: usize, to: usize) -> (part: String)
    requires
        from <= to <= text@.len(),
    ensures
        part@ == text@.subrange(from as int, to as int),
{
    let mut part = String::new();
    let mut i: usize = from;
    assert(part@ =~= text@.subrange(from as int, from as int));
    while i < to
        invariant
            from <= i <= to <= text@.len(),
            part@ == text@.subrange(from as int, i as int),
        decreases to - i,
    {
        part.push(text.get_char(i));
        assert(part@ =~= text@.subrange(from as int, i + 1));
        i = i + 1;
    }
    part
}

/// What stands before a place in a text.
fn before(text: &str, at: usize) -> (part: String)
    requires
        at <= text@.len(),
    ensures
        part@ == text@.take(at as int),
{
    let part = cut(text, 0, at);
    assert(part@ =~= text@.take(at as int));
    part
}

/// What stands from a place on in a text.
fn from(text: &str, at: usize) -> (part: String)
    requires
        at <= text@.len(),
    ensures
        part@ == text@.skip(at as int),
{
    let part = cut(text, at, text.unicode_len());
    assert(part@ =~= text@.skip(at as int));
    part
}

/// This many octets with dots between them.
pub open spec fn are_octets(s: Seq<char>, n: nat) -> bool
    decreases n,
{
    match wording::place_of(s, '.', 0) {
        None => n == 1 && is_octet_spec(s),
        Some(i) => n > 1 && is_octet_spec(s.take(i)) && are_octets(s.skip(i + 1), (n - 1) as nat),
    }
}

/// An IPv4 address.
pub open spec fn is_ipv4_spec(s: Seq<char>) -> bool {
    are_octets(s, 4)
}

fn octets(text: &str, n: u32) -> (r: bool)
    ensures
        r == are_octets(text@, n as nat),
    decreases n,
{
    match wording::place(text, '.') {
        None => n == 1 && is_octet(text),
        Some(i) => {
            n > 1 && is_octet(before(text, i).as_str()) && octets(
                from(text, i + 1).as_str(),
                n - 1,
            )
        },
    }
}

/// One of the groups of an IPv6 address: up to four hexadecimal digits.
pub open spec fn is_group_spec(s: Seq<char>) -> bool {
    1 <= s.len() <= 4 && forall|i: int| 0 <= i < s.len() ==> is_hex_spec(#[trigger] s[i])
}

fn is_group(text: &str) -> (r: bool)
    ensures
        r == is_group_spec(text@),
{
    let n = text.unicode_len();
    if n < 1 || n > 4 {
        return false;
    }
    let mut i: usize = 0;
    while i < n
        invariant
            i <= n == text@.len(),
            forall|j: int| 0 <= j < i ==> is_hex_spec(#[trigger] text@[j]),
        decreases n - i,
    {
        if !is_hex(text.get_char(i)) {
            assert(!is_hex_spec(text@[i as int]));
            return false;
        }
        i = i + 1;
    }
    true
}

/// How many groups stand in a text with colons between them, where the
/// last may be an IPv4 address and count for two; None where something
/// else stands there.
pub open spec fn listed(s: Seq<char>, ipv4: bool) -> Option<nat>
    decreases s.len(),
{
    match wording::place_of(s, ':', 0) {
        None => if is_group_spec(s) {
            Some(1nat)
        } else if ipv4 && is_ipv4_spec(s) {
            Some(2nat)
        } else {
            None
        },
        Some(i) => if 0 <= i < s.len() && is_group_spec(s.take(i)) {
            match listed(s.skip(i + 1), ipv4) {
                Some(n) => Some(n + 1),
                None => None,
            }
        } else {
            None
        },
    }
}

/// How many groups stand in a text, which may be none.
pub open spec fn groups_spec(s: Seq<char>, ipv4: bool) -> Option<nat> {
    if s.len() == 0 {
        Some(0nat)
    } else {
        listed(s, ipv4)
    }
}

/// Where two colons first stand side by side in a text, from `i` up.
pub open spec fn gap_from(s: Seq<char>, i: int) -> Option<int>
    decreases s.len() - i,
{
    if i + 1 >= s.len() {
        None
    } else if s[i] == ':' && s[i + 1] == ':' {
        Some(i)
    } else {
        gap_from(s, i + 1)
    }
}

/// An IPv6 address: eight groups, or fewer around two colons that stand
/// for the rest.
pub open spec fn is_ipv6_spec(s: Seq<char>) -> bool {
    match gap_from(s, 0) {
        None => groups_spec(s, true) == Some(8nat),
        Some(i) => match (groups_spec(s.take(i), false), groups_spec(s.skip(i + 2), true)) {
            (Some(head), Some(tail)) => head + tail <= 7,
            _ => false,
        },
    }
}

/// The groups of a text, no more than nine of them counted.
fn groups(text: &str, ipv4: bool) -> (r: Option<u32>)
    ensures
        match groups_spec(text@, ipv4) {
            None => r is None,
            Some(n) => r == Some(
                if n < 9 {
                    n as u32
                } else {
                    9
                },
            ),
        },
{
    if text.unicode_len() == 0 {
        Some(0)
    } else {
        list(text, ipv4)
    }
}

fn list(text: &str, ipv4: bool) -> (r: Option<u32>)
    ensures
        match listed(text@, ipv4) {
            None => r is None,
            Some(n) => r == Some(
                if n < 9 {
                    n as u32
                } else {
                    9
                },
            ),
        },
    decreases text@.len(),
{
    match wording::place(text, ':') {
        None => if is_group(text) {
            Some(1)
        } else if ipv4 && octets(text, 4) {
            Some(2)
        } else {
            None
        },
        Some(i) => {
            if !is_group(before(text, i).as_str()) {
                return None;
            }
            let rest = from(text, i + 1);
            match list(rest.as_str(), ipv4) {
                Some(n) => Some(
                    if n < 9 {
                        n + 1
                    } else {
                        9
                    },
                ),
                None => None,
            }
        },
    }
}

fn gap(text: &str) -> (r: Option<usize>)
    ensures
        match r {
            Some(i) => gap_from(text@, 0) == Some(i as int) && i + 2 <= text@.len() <= usize::MAX,
            None => gap_from(text@, 0) is None,
        },
{
    let n = text.unicode_len();
    if n < 2 {
        return None;
    }
    let mut i: usize = 0;
    while i < n - 1
        invariant
            2 <= n == text@.len(),
            i <= n - 1,
            gap_from(text@, 0) == gap_from(text@, i as int),
        decreases n - i,
    {
        if text.get_char(i) == ':' && text.get_char(i + 1) == ':' {
            return Some(i);
        }
        i = i + 1;
    }
    None
}

fn is_ipv6(text: &str) -> (r: bool)
    ensures
        r == is_ipv6_spec(text@),
{
    match gap(text) {
        None => match groups(text, true) {
            Some(n) => n == 8,
            None => false,
        },
        Some(i) => {
            match (
                groups(before(text, i).as_str(), false),
                groups(from(text, i + 2).as_str(), true),
            ) {
                (Some(head), Some(tail)) => head + tail <= 7,
                _ => false,
            }
        },
    }
}

/// An IPv6 address, or one with a numbered scope behind a percent sign.
pub open spec fn is_scoped_spec(s: Seq<char>) -> bool {
    match wording::place_of(s, '%', 0) {
        None => is_ipv6_spec(s),
        Some(i) => is_ipv6_spec(s.take(i)) && is_number_spec(s.skip(i + 1), u32::MAX as int),
    }
}

fn is_scoped(text: &str) -> (r: bool)
    ensures
        r == is_scoped_spec(text@),
{
    match wording::place(text, '%') {
        None => is_ipv6(text),
        Some(i) => {
            is_ipv6(before(text, i).as_str()) && is_number(
                from(text, i + 1).as_str(),
                u32::MAX as u64,
            )
        },
    }
}

/// A socket address: an IPv4 address, or an IPv6 address in brackets,
/// and behind a colon the port.
pub open spec fn is_socket_address_spec(s: Seq<char>) -> bool {
    if s.len() > 0 && s[0] == '[' {
        match wording::place_of(s, ']', 0) {
            None => false,
            Some(i) => {
                &&& is_scoped_spec(s.subrange(1, i))
                &&& i + 1 < s.len()
                &&& s[i + 1] == ':'
                &&& is_number_spec(s.skip(i + 2), u16::MAX as int)
            },
        }
    } else {
        match wording::place_of(s, ':', 0) {
            None => false,
            Some(i) => is_ipv4_spec(s.take(i)) && is_number_spec(s.skip(i + 1), u16::MAX as int),
        }
    }
}

/// Whether a text is a socket address.
pub fn is_socket_address(text: &str) -> (r: bool)
    ensures
        r == is_socket_address_spec(text@),
{
    let n = text.unicode_len();
    if n > 0 && text.get_char(0) == '[' {
        match wording::place(text, ']') {
            None => false,
            Some(i) => {
                assert(i != 0);
                is_scoped(cut(text, 1, i).as_str()) && i + 1 < n && text.get_char(i + 1) == ':'
                    && is_number(from(text, i + 2).as_str(), u16::MAX as u64)
            },
        }
    } else {
        match wording::place(text, ':') {
            None => false,
            Some(i) => {
                octets(before(text, i).as_str(), 4) && is_number(
                    from(text, i + 1).as_str(),
                    u16::MAX as u64,
                )
            },
        }
    }
}

// Which addresses are taken.
/// Four numbers with dots between them.
pub open spec fn dotted(a: nat, b: nat, c: nat, d: nat) -> Seq<char> {
    wording::digits(a).push('.') + (wording::digits(b).push('.') + (wording::digits(c).push('.')
        + wording::digits(d)))
}

/// Four numbers with dots between them, a colon and a number are a
/// socket address just where the four are up to 255 and the last up to
/// 65535.
pub proof fn lemma_which_ipv4_addresses_are_taken(a: nat, b: nat, c: nat, d: nat, port: nat)
    ensures
        is_socket_address_spec(dotted(a, b, c, d).push(':') + wording::digits(port)) <==> a <= 255
            && b <= 255 && c <= 255 && d <= 255 && port <= 65535,
{
    let host = dotted(a, b, c, d);
    let end = wording::digits(port);
    let text = host.push(':') + end;
    let n = host.len() as int;
    lemma_dotted(a, b, c, d);
    lemma_decimal(port);
    assert forall|i: int| 0 <= i < n implies text[i] != ':' by {
        assert(text[i] == host[i]);
    }
    assert(text[n] == ':');
    wording::lemma_where_a_character_stands(text, ':', 0, n);
    assert(text.take(n) =~= host);
    assert(text.skip(n + 1) =~= end);
    assert(text[0] == host[0]);
}

/// A number in decimal is one up to any limit it is not over.
proof fn lemma_decimal(n: nat)
    ensures
        ({
            let s = wording::digits(n);
            &&& s.len() > 0
            &&& forall|i: int| 0 <= i < s.len() ==> is_digit_spec(#[trigger] s[i])
            &&& value(s) == n
            &&& is_octet_spec(s) <==> n <= 255
        }),
{
    let s = wording::digits(n);
    wording::lemma_digits_are_digits(n);
    lemma_value_of_digits(n);
    assert forall|i: int| 0 <= i < s.len() implies is_digit_spec(#[trigger] s[i]) by {
        assert(wording::is_digit(s[i]));
    }
}

proof fn lemma_value_of_digits(n: nat)
    ensures
        value(wording::digits(n)) == n,
    decreases n,
{
    if n >= 10 {
        lemma_value_of_digits(n / 10);
        let s = wording::digits(n);
        assert(s.drop_last() =~= wording::digits(n / 10));
        assert(s.last() as int - 48 == n % 10);
        assert(10 * (n / 10) + n % 10 == n);
    } else {
        let s = wording::digits(n);
        assert(value(s.drop_last()) == 0);
        assert(s.last() as int - 48 == n);
    }
}

/// A number before a dot and what is behind it.
proof fn lemma_one_octet_more(n: nat, rest: Seq<char>, count: nat)
    requires
        count > 1,
    ensures
        are_octets(wording::digits(n).push('.') + rest, count) <==> n <= 255 && are_octets(
            rest,
            (count - 1) as nat,
        ),
{
    let s = wording::digits(n);
    let text = s.push('.') + rest;
    let at = s.len() as int;
    lemma_decimal(n);
    assert forall|i: int| 0 <= i < at implies text[i] != '.' by {
        assert(is_digit_spec(s[i]));
        assert(text[i] == s[i]);
    }
    assert(text[at] == '.');
    wording::lemma_where_a_character_stands(text, '.', 0, at);
    assert(text.take(at) =~= s);
    assert(text.skip(at + 1) =~= rest);
}

#[verifier::rlimit(50)]
proof fn lemma_dotted(a: nat, b: nat, c: nat, d: nat)
    ensures
        is_ipv4_spec(dotted(a, b, c, d)) <==> a <= 255 && b <= 255 && c <= 255 && d <= 255,
        dotted(a, b, c, d).len() > 0,
        dotted(a, b, c, d)[0] != '[',
        forall|i: int| 0 <= i < dotted(a, b, c, d).len() ==> dotted(a, b, c, d)[i] != ':',
{
    let (p, q, r, s) = (
        wording::digits(a),
        wording::digits(b),
        wording::digits(c),
        wording::digits(d),
    );
    lemma_decimal(a);
    lemma_decimal(b);
    lemma_decimal(c);
    lemma_decimal(d);
    let third = r.push('.') + s;
    let second = q.push('.') + third;
    let all = dotted(a, b, c, d);
    lemma_one_octet_more(a, second, 4);
    lemma_one_octet_more(b, third, 3);
    lemma_one_octet_more(c, s, 2);
    assert(are_octets(s, 1) <==> d <= 255) by {
        assert forall|i: int| 0 <= i < s.len() implies s[i] != '.' by {
            assert(is_digit_spec(s[i]));
        }
        wording::lemma_where_a_character_stands(s, '.', 0, 0);
    }
    assert(all[0] == p[0] && is_digit_spec(p[0]));
    assert forall|i: int| 0 <= i < all.len() implies all[i] != ':' by {
        let (j, k) = (p.len() as int + 1, p.len() as int + 1 + q.len() + 1);
        let l = k + r.len() + 1;
        if i < p.len() {
            assert(all[i] == p[i] && is_digit_spec(p[i]));
        } else if i < j {
            assert(all[i] == '.');
        } else if i < k - 1 {
            assert(all[i] == q[i - j] && is_digit_spec(q[i - j]));
        } else if i < k {
            assert(all[i] == '.');
        } else if i < l - 1 {
            assert(all[i] == r[i - k] && is_digit_spec(r[i - k]));
        } else if i < l {
            assert(all[i] == '.');
        } else {
            assert(all[i] == s[i - l] && is_digit_spec(s[i - l]));
        }
    }
}

proof fn lemma_place_is_inside(s: Seq<char>, c: char, from: int)
    requires
        0 <= from,
    ensures
        wording::place_of(s, c, from) matches Some(i) ==> from <= i < s.len(),
    decreases s.len() - from,
{
    if from < s.len() {
        lemma_place_is_inside(s, c, from + 1);
    }
}

/// Without a colon there is no port, and so no socket address; and one
/// in brackets needs an IPv6 address between them and a port behind.
pub proof fn lemma_an_address_needs_a_port(s: Seq<char>, i: int)
    ensures
        !s.contains(':') ==> !is_socket_address_spec(s),
        s.len() > 0 && s[0] == '[' && !s.contains(']') ==> !is_socket_address_spec(s),
        0 < i < s.len() && s[0] == '[' && s[i] == ']' && (forall|j: int|
            0 <= j < i ==> s[j] != ']') ==> (is_socket_address_spec(s) <==> i + 1 < s.len() && s[i
            + 1] == ':' && is_scoped_spec(s.subrange(1, i)) && is_number_spec(
            s.skip(i + 2),
            65535,
        )),
{
    if !s.contains(':') {
        assert forall|j: int| 0 <= j < s.len() implies s[j] != ':' by {}
        wording::lemma_where_a_character_stands(s, ':', 0, 0);
        lemma_place_is_inside(s, ']', 0);
        if let Some(k) = wording::place_of(s, ']', 0) {
            assert(k + 1 < s.len() ==> s[k + 1] != ':');
        }
    }
    if !s.contains(']') {
        assert forall|j: int| 0 <= j < s.len() implies s[j] != ']' by {}
        wording::lemma_where_a_character_stands(s, ']', 0, 0);
    }
    wording::lemma_where_a_character_stands(s, ']', 0, i);
}

/// The groups of an IPv6 address are counted one by one between its
/// colons, each of one to four hexadecimal digits; anything else there
/// spoils the count, but an IPv4 address at the end counts for two.
pub proof fn lemma_how_groups_are_counted(g: Seq<char>, rest: Seq<char>, ipv4: bool)
    requires
        !g.contains(':'),
    ensures
        ({
            let group = 1 <= g.len() <= 4 && forall|i: int|
                0 <= i < g.len() ==> {
                    let c = #[trigger] g[i] as int;
                    48 <= c <= 57 || 65 <= c <= 70 || 97 <= c <= 102
                };
            &&& group ==> listed(g, ipv4) == Some(1nat)
            &&& !group && ipv4 && is_ipv4_spec(g) ==> listed(g, ipv4) == Some(2nat)
            &&& !group && !(ipv4 && is_ipv4_spec(g)) ==> listed(g, ipv4) is None
            &&& !group ==> listed(g.push(':') + rest, ipv4) is None
            &&& group && listed(rest, ipv4) is None ==> listed(g.push(':') + rest, ipv4) is None
            &&& group && listed(rest, ipv4) is Some ==> listed(g.push(':') + rest, ipv4) == Some(
                listed(rest, ipv4)->0 + 1,
            )
        }),
{
    let all = g.push(':') + rest;
    let n = g.len() as int;
    assert forall|j: int| 0 <= j < n implies g[j] != ':' by {}
    wording::lemma_where_a_character_stands(g, ':', 0, 0);
    assert forall|j: int| 0 <= j < n implies all[j] != ':' by {
        assert(all[j] == g[j]);
    }
    assert(all[n] == ':');
    wording::lemma_where_a_character_stands(all, ':', 0, n);
    assert(all.take(n) =~= g);
    assert(all.skip(n + 1) =~= rest);
}

/// An IPv6 address has eight groups, or fewer than eight around the
/// first two colons side by side, where either part may have none.
pub proof fn lemma_which_ipv6_addresses_are_taken(s: Seq<char>, i: int)
    ensures
        (forall|j: int| 0 <= j < s.len() - 1 ==> !(#[trigger] s[j] == ':' && s[j + 1] == ':'))
            ==> (is_ipv6_spec(s) <==> s.len() > 0 && listed(s, true) == Some(8nat)),
        0 <= i < s.len() - 1 && s[i] == ':' && s[i + 1] == ':' && (forall|j: int|
            0 <= j < i ==> !(#[trigger] s[j] == ':' && s[j + 1] == ':')) ==> ({
            let (head, tail) = (s.take(i), s.skip(i + 2));
            let before = if head.len() == 0 {
                Some(0nat)
            } else {
                listed(head, false)
            };
            let behind = if tail.len() == 0 {
                Some(0nat)
            } else {
                listed(tail, true)
            };
            is_ipv6_spec(s) <==> before is Some && behind is Some && before->0 + behind->0 < 8
        }),
{
    lemma_where_the_gap_is(s, 0, i);
}

proof fn lemma_where_the_gap_is(s: Seq<char>, from: int, i: int)
    requires
        0 <= from,
    ensures
        (forall|j: int| from <= j < s.len() - 1 ==> !(#[trigger] s[j] == ':' && s[j + 1] == ':'))
            ==> gap_from(s, from) is None,
        from <= i < s.len() - 1 && s[i] == ':' && s[i + 1] == ':' && (forall|j: int|
            from <= j < i ==> !(#[trigger] s[j] == ':' && s[j + 1] == ':')) ==> gap_from(s, from)
            == Some(i),
    decreases s.len() - from,
{
    if from < s.len() {
        lemma_where_the_gap_is(s, from + 1, i);
    }
}

} // verus!
