use vstd::prelude::*;
use vstd::string::*;

verus! {

/// Why a decimal number could not be read from a piece of text.
#[derive(Debug, Clone, Copy, PartialEq, Eq, Structural)]
pub enum PortParseError {
    /// The text is empty.
    Empty,
    /// The text holds something other than a decimal digit (after an optional leading `+`).
    InvalidDigit,
    /// The number is larger than the type can hold.
    PosOverflow,
}

pub open spec fn is_ascii_digit(c: char) -> bool {
    '0' <= c && c <= '9'
}

pub open spec fn digit_value(c: char) -> int {
    (c as int) - ('0' as int)
}

/// Reads decimal digits left to right onto `acc`, failing at the first character
/// that is not a digit or at the first digit that takes the value above `max`.
pub open spec fn fold_digits(s: Seq<char>, acc: int, max: int) -> Result<int, PortParseError>
    decreases s.len(),
{
    if s.len() == 0 {
        Ok(acc)
    } else if !is_ascii_digit(s[0]) {
        Err(PortParseError::InvalidDigit)
    } else if acc * 10 + digit_value(s[0]) > max {
        Err(PortParseError::PosOverflow)
    } else {
        fold_digits(s.drop_first(), acc * 10 + digit_value(s[0]), max)
    }
}

/// The unsigned decimal grammar of `str::parse` for an integer type whose largest value
/// is `max`: an optional `+`, then one or more ASCII digits; the first offending
/// character decides the error.
pub open spec fn spec_parse_uint(s: Seq<char>, max: int) -> Result<int, PortParseError> {
    if s.len() == 0 {
        Err(PortParseError::Empty)
    } else if s.len() == 1 && (s[0] == '+' || s[0] == '-') {
        Err(PortParseError::InvalidDigit)
    } else if s[0] == '+' {
        fold_digits(s.drop_first(), 0, max)
    } else {
        fold_digits(s, 0, max)
    }
}

pub open spec fn spec_parse_u16(s: Seq<char>) -> Result<u16, PortParseError> {
    match spec_parse_uint(s, 65535) {
        Ok(v) => Ok(v as u16),
        Err(e) => Err(e),
    }
}

pub open spec fn spec_parse_u8(s: Seq<char>) -> Result<u8, PortParseError> {
    match spec_parse_uint(s, 255) {
        Ok(v) => Ok(v as u8),
        Err(e) => Err(e),
    }
}

pub proof fn lemma_fold_digits_bounds(s: Seq<char>, acc: int, max: int)
    requires
        0 <= acc <= max,
    ensures
        fold_digits(s, acc, max) matches Ok(v) ==> acc <= v <= max,
    decreases s.len(),
{
    if s.len() > 0 && is_ascii_digit(s[0]) && acc * 10 + digit_value(s[0]) <= max {
        assert(acc <= acc * 10 + digit_value(s[0]));
        lemma_fold_digits_bounds(s.drop_first(), acc * 10 + digit_value(s[0]), max);
    }
}

pub proof fn lemma_parse_uint_bounds(s: Seq<char>, max: int)
    requires
        0 <= max,
    ensures
        spec_parse_uint(s, max) matches Ok(v) ==> 0 <= v <= max,
{
    if s.len() > 0 {
        lemma_fold_digits_bounds(s, 0, max);
        lemma_fold_digits_bounds(s.drop_first(), 0, max);
    }
}

/// The characters of `s`, in order.
pub fn chars_of(s: &str) -> (r: Vec<char>)
    ensures
        r@ == s@,
{
    let n = s.unicode_len();
    let mut r: Vec<char> = Vec::new();
    let mut i: usize = 0;
    while i < n
        invariant
            n == s@.len(),
            i <= n,
            r@ == s@.take(i as int),
        decreases n - i,
    {
        let c = s.get_char(i);
        r.push(c);
        i = i + 1;
        assert(r@ =~= s@.take(i as int));
    }
    assert(r@ =~= s@);
    r
}

/// Whether two texts hold the same characters.
pub fn same_text(a: &Vec<char>, b: &Vec<char>) -> (r: bool)
    ensures
        r == (a@ == b@),
{
    if a.len() != b.len() {
        return false;
    }
    let mut i: usize = 0;
    while i < a.len()
        invariant
            a.len() == b.len(),
            i <= a.len(),
            forall|j: int| 0 <= j < i ==> a@[j] == b@[j],
        decreases a.len() - i,
    {
        if a[i] != b[i] {
            return false;
        }
        i = i + 1;
    }
    assert(a@ =~= b@);
    true
}

/// Reads `cs[start..end]` as an unsigned decimal number no larger than `max`.
pub fn parse_uint(cs: &Vec<char>, start: usize, end: usize, max: u32) -> (r: Result<u32, PortParseError>)
    requires
        start <= end <= cs.len(),
        max <= 65535,
    ensures
        match r {
            Ok(v) => spec_parse_uint(cs@.subrange(start as int, end as int), max as int) == Ok::<int, PortParseError>(v as int),
            Err(e) => spec_parse_uint(cs@.subrange(start as int, end as int), max as int) == Err::<int, PortParseError>(e),
        },
{
    let ghost s = cs@.subrange(start as int, end as int);
    if start == end {
        return Err(PortParseError::Empty);
    }
    if end - start == 1 && (cs[start] == '+' || cs[start] == '-') {
        return Err(PortParseError::InvalidDigit);
    }
    let mut i: usize = start;
    if cs[start] == '+' {
        i = start + 1;
        assert(s.drop_first() =~= cs@.subrange(i as int, end as int));
    } else {
        assert(s =~= cs@.subrange(i as int, end as int));
    }
    let ghost goal = spec_parse_uint(s, max as int);
    let mut acc: u32 = 0;
    while i < end
        invariant
            start <= i <= end <= cs.len(),
            acc <= max <= 65535,
            s == cs@.subrange(start as int, end as int),
            goal == spec_parse_uint(s, max as int),
            goal == fold_digits(cs@.subrange(i as int, end as int), acc as int, max as int),
        decreases end - i,
    {
        let ghost rest = cs@.subrange(i as int, end as int);
        assert(rest[0] == cs@[i as int]);
        assert(rest.drop_first() =~= cs@.subrange(i + 1, end as int));
        let c = cs[i];
        if !(c >= '0' && c <= '9') {
            return Err(PortParseError::InvalidDigit);
        }
        let d: u32 = (c as u32) - ('0' as u32);
        let next: u32 = acc * 10 + d;
        if next > max {
            return Err(PortParseError::PosOverflow);
        }
        acc = next;
        i = i + 1;
    }
    assert(cs@.subrange(i as int, end as int).len() == 0);
    Ok(acc)
}

/// Reads `cs[start..end]` the way `str::parse::<u16>` does.
pub fn parse_u16(cs: &Vec<char>, start: usize, end: usize) -> (r: Result<u16, PortParseError>)
    requires
        start <= end <= cs.len(),
    ensures
        r == spec_parse_u16(cs@.subrange(start as int, end as int)),
{
    proof {
        lemma_parse_uint_bounds(cs@.subrange(start as int, end as int), 65535);
    }
    match parse_uint(cs, start, end, 65535) {
        Ok(v) => Ok(v as u16),
        Err(e) => Err(e),
    }
}

/// Reads `cs[start..end]` the way `str::parse::<u8>` does.
pub fn parse_u8(cs: &Vec<char>, start: usize, end: usize) -> (r: Result<u8, PortParseError>)
    requires
        start <= end <= cs.len(),
    ensures
        r == spec_parse_u8(cs@.subrange(start as int, end as int)),
{
    proof {
        lemma_parse_uint_bounds(cs@.subrange(start as int, end as int), 255);
    }
    match parse_uint(cs, start, end, 255) {
        Ok(v) => Ok(v as u8),
        Err(e) => Err(e),
    }
}


/// The pieces of `s` between occurrences of `c`, as `str::split` with a character
/// pattern yields them: there is always at least one piece, and two adjacent
/// separators give an empty piece.
pub open spec fn split_on(s: Seq<char>, c: char) -> Seq<Seq<char>>
    decreases s.len(),
{
    if s.len() == 0 {
        seq![Seq::<char>::empty()]
    } else {
        let init = split_on(s.drop_last(), c);
        if s.last() == c {
            init.push(Seq::<char>::empty())
        } else {
            init.update(init.len() - 1, init.last().push(s.last()))
        }
    }
}

/// Whether `s` holds the character `c`.
pub open spec fn has_char(s: Seq<char>, c: char) -> bool {
    exists|i: int| 0 <= i < s.len() && s[i] == c
}

/// The bounds `(start, end)` of the pieces of `cs` between occurrences of `c`.
pub fn split_bounds(cs: &Vec<char>, c: char) -> (r: Vec<(usize, usize)>)
    ensures
        r.len() == split_on(cs@, c).len(),
        forall|k: int| 0 <= k < r.len() ==> #[trigger] r@[k].0 <= r@[k].1 <= cs.len(),
        forall|k: int|
            0 <= k < r.len() ==> cs@.subrange(r@[k].0 as int, r@[k].1 as int) == #[trigger] split_on(
                cs@,
                c,
            )[k],
{
    let mut bounds: Vec<(usize, usize)> = Vec::new();
    let mut start: usize = 0;
    let mut i: usize = 0;
    proof {
        assert(cs@.take(0) =~= Seq::<char>::empty());
    }
    while i < cs.len()
        invariant
            start <= i <= cs.len(),
            split_on(cs@.take(i as int), c).len() == bounds.len() + 1,
            forall|k: int| 0 <= k < bounds.len() ==> #[trigger] bounds@[k].0 <= bounds@[k].1 <= i,
            forall|k: int|
                0 <= k < bounds.len() ==> cs@.subrange(bounds@[k].0 as int, bounds@[k].1 as int)
                    == #[trigger] split_on(cs@.take(i as int), c)[k],
            cs@.subrange(start as int, i as int) == split_on(cs@.take(i as int), c)[bounds.len() as int],
        decreases cs.len() - i,
    {
        let ghost pre = cs@.take(i as int);
        let ghost next = cs@.take(i + 1);
        assert(next.drop_last() =~= pre);
        assert(next.last() == cs@[i as int]);
        let ghost old_bounds = bounds@;
        let ghost old_i = i;
        let ghost old_start = start;
        if cs[i] == c {
            bounds.push((start, i));
            start = i + 1;
            assert(cs@.subrange(start as int, i + 1) =~= Seq::<char>::empty());
        } else {
            assert(cs@.subrange(start as int, i + 1) =~= cs@.subrange(start as int, i as int).push(cs@[i as int]));
        }
        i = i + 1;
        assert forall|k: int| 0 <= k < bounds.len() implies #[trigger] bounds@[k].0 <= bounds@[k].1 <= i by {
            if k < old_bounds.len() {
                assert(old_bounds[k] == bounds@[k]);
                assert(old_bounds[k].0 <= old_bounds[k].1 <= old_i);
            } else {
                assert(bounds@[k] == (old_start, old_i));
            }
        }
        assert forall|k: int| 0 <= k < bounds.len() implies cs@.subrange(
            bounds@[k].0 as int,
            bounds@[k].1 as int,
        ) == #[trigger] split_on(cs@.take(i as int), c)[k] by {
            if k < old_bounds.len() {
                assert(split_on(pre, c)[k] == split_on(cs@.take(i as int), c)[k]);
            }
        }
    }
    assert(cs@.take(i as int) =~= cs@);
    bounds.push((start, i));
    bounds
}


/// An IPv4 address, by its four octets in dotted order.
#[derive(Debug, Clone, Copy, PartialEq, Eq, Structural)]
pub struct Ipv4Address(pub u8, pub u8, pub u8, pub u8);

/// One group of a dotted-decimal IPv4 address: one to three ASCII digits, no leading
/// zero unless the group is `0` itself, and a value no larger than 255.
pub open spec fn spec_octet(p: Seq<char>) -> Option<u8> {
    if 1 <= p.len() <= 3 && !(p.len() > 1 && p[0] == '0') {
        match fold_digits(p, 0, 255) {
            Ok(v) => Some(v as u8),
            Err(_) => None,
        }
    } else {
        None
    }
}

/// The dotted-decimal grammar of `Ipv4Addr::from_str`: exactly four groups separated
/// by `.`, each one accepted by `spec_octet`, and nothing else.
pub open spec fn spec_parse_ipv4(s: Seq<char>) -> Option<Ipv4Address> {
    let parts = split_on(s, '.');
    if parts.len() == 4 && spec_octet(parts[0]) is Some && spec_octet(parts[1]) is Some
        && spec_octet(parts[2]) is Some && spec_octet(parts[3]) is Some {
        Some(
            Ipv4Address(
                spec_octet(parts[0])->0,
                spec_octet(parts[1])->0,
                spec_octet(parts[2])->0,
                spec_octet(parts[3])->0,
            ),
        )
    } else {
        None
    }
}

fn parse_octet(cs: &Vec<char>, start: usize, end: usize) -> (r: Option<u8>)
    requires
        start <= end <= cs.len(),
    ensures
        r == spec_octet(cs@.subrange(start as int, end as int)),
{
    let ghost p = cs@.subrange(start as int, end as int);
    if end - start < 1 || end - start > 3 {
        return None;
    }
    if end - start > 1 && cs[start] == '0' {
        return None;
    }
    if !(cs[start] >= '0' && cs[start] <= '9') {
        assert(p[0] == cs@[start as int]);
        return None;
    }
    assert(p[0] == cs@[start as int]);
    proof {
        lemma_fold_digits_bounds(p, 0, 255);
    }
    match parse_uint(cs, start, end, 255) {
        Ok(v) => Some(v as u8),
        Err(_) => None,
    }
}

/// Reads `cs` as a dotted-decimal IPv4 address.
pub fn parse_ipv4(cs: &Vec<char>) -> (r: Option<Ipv4Address>)
    ensures
        r == spec_parse_ipv4(cs@),
{
    let b = split_bounds(cs, '.');
    if b.len() != 4 {
        return None;
    }
    let ghost parts = split_on(cs@, '.');
    assert(cs@.subrange(b@[0].0 as int, b@[0].1 as int) == parts[0]);
    assert(cs@.subrange(b@[1].0 as int, b@[1].1 as int) == parts[1]);
    assert(cs@.subrange(b@[2].0 as int, b@[2].1 as int) == parts[2]);
    assert(cs@.subrange(b@[3].0 as int, b@[3].1 as int) == parts[3]);
    assert(b@[0].0 <= b@[0].1 <= cs.len());
    assert(b@[1].0 <= b@[1].1 <= cs.len());
    assert(b@[2].0 <= b@[2].1 <= cs.len());
    assert(b@[3].0 <= b@[3].1 <= cs.len());
    let o0 = parse_octet(cs, b[0].0, b[0].1);
    let o1 = parse_octet(cs, b[1].0, b[1].1);
    let o2 = parse_octet(cs, b[2].0, b[2].1);
    let o3 = parse_octet(cs, b[3].0, b[3].1);
    match (o0, o1, o2, o3) {
        (Some(a), Some(bb), Some(c), Some(d)) => Some(Ipv4Address(a, bb, c, d)),
        _ => None,
    }
}


/// Reads every piece as a `u16` in order; the first piece that fails decides the error.
pub open spec fn parse_all_u16(parts: Seq<Seq<char>>) -> Result<Seq<u16>, PortParseError>
    decreases parts.len(),
{
    if parts.len() == 0 {
        Ok(Seq::<u16>::empty())
    } else {
        match parse_all_u16(parts.drop_last()) {
            Err(e) => Err(e),
            Ok(vs) => match spec_parse_u16(parts.last()) {
                Err(e) => Err(e),
                Ok(v) => Ok(vs.push(v)),
            },
        }
    }
}

pub proof fn lemma_parse_all_u16_len(parts: Seq<Seq<char>>)
    ensures
        parse_all_u16(parts) matches Ok(vs) ==> vs.len() == parts.len(),
    decreases parts.len(),
{
    if parts.len() > 0 {
        lemma_parse_all_u16_len(parts.drop_last());
    }
}

/// Calls `String::push`, which appends the character.
#[verifier::external_body]
pub fn push_char(s: &mut String, c: char)
    ensures
        final(s)@ == old(s)@.push(c),
{
    s.push(c);
}

/// The decimal digit character of `d`.
pub open spec fn digit_char(d: int) -> char {
    if d == 0 {
        '0'
    } else if d == 1 {
        '1'
    } else if d == 2 {
        '2'
    } else if d == 3 {
        '3'
    } else if d == 4 {
        '4'
    } else if d == 5 {
        '5'
    } else if d == 6 {
        '6'
    } else if d == 7 {
        '7'
    } else if d == 8 {
        '8'
    } else {
        '9'
    }
}

/// The decimal text of `n`, without leading zeros, as `Display` writes integers.
pub open spec fn decimal(n: nat) -> Seq<char>
    decreases n,
{
    if n < 10 {
        seq![digit_char(n as int)]
    } else {
        decimal(n / 10).push(digit_char((n % 10) as int))
    }
}

fn digit_of(d: u64) -> (c: char)
    requires
        d < 10,
    ensures
        c == digit_char(d as int),
{
    if d == 0 {
        '0'
    } else if d == 1 {
        '1'
    } else if d == 2 {
        '2'
    } else if d == 3 {
        '3'
    } else if d == 4 {
        '4'
    } else if d == 5 {
        '5'
    } else if d == 6 {
        '6'
    } else if d == 7 {
        '7'
    } else if d == 8 {
        '8'
    } else {
        '9'
    }
}

/// Appends the decimal text of `n`.
pub fn push_decimal(s: &mut String, n: u64)
    ensures
        final(s)@ == old(s)@ + decimal(n as nat),
    decreases n,
{
    if n >= 10 {
        push_decimal(s, n / 10);
    }
    let c = digit_of(n % 10);
    push_char(s, c);
    proof {
        if n < 10 {
            assert(n % 10 == n);
        }
        assert(final(s)@ =~= old(s)@ + decimal(n as nat));
    }
}

/// The dotted-decimal text of an address, as `Display` writes it.
pub open spec fn address_text(a: Ipv4Address) -> Seq<char> {
    decimal(a.0 as nat) + seq!['.'] + decimal(a.1 as nat) + seq!['.'] + decimal(a.2 as nat)
        + seq!['.'] + decimal(a.3 as nat)
}

/// Appends the dotted-decimal text of an address.
pub fn push_address(s: &mut String, a: Ipv4Address)
    ensures
        final(s)@ == old(s)@ + address_text(a),
{
    let ghost s0 = s@;
    push_decimal(s, a.0 as u64);
    push_char(s, '.');
    push_decimal(s, a.1 as u64);
    push_char(s, '.');
    push_decimal(s, a.2 as u64);
    push_char(s, '.');
    push_decimal(s, a.3 as u64);
    assert(s@ =~= s0 + address_text(a));
}

proof fn lemma_fold_digits_push(s: Seq<char>, c: char, acc: int, max: int)
    requires
        fold_digits(s, acc, max) is Ok,
    ensures
        ({
            let v = fold_digits(s, acc, max)->Ok_0;
            fold_digits(s.push(c), acc, max) == if !is_ascii_digit(c) {
                Err(PortParseError::InvalidDigit)
            } else if v * 10 + digit_value(c) > max {
                Err(PortParseError::PosOverflow)
            } else {
                Ok(v * 10 + digit_value(c))
            }
        }),
    decreases s.len(),
{
    let t = s.push(c);
    if s.len() == 0 {
        let u = t.drop_first();
        assert(u =~= Seq::<char>::empty());
        assert(t[0] == c);
        assert(fold_digits(u, acc * 10 + digit_value(c), max) == Ok::<int, PortParseError>(acc * 10
            + digit_value(c)));
    } else {
        assert(t[0] == s[0]);
        assert(t.drop_first() =~= s.drop_first().push(c));
        lemma_fold_digits_push(s.drop_first(), c, acc * 10 + digit_value(s[0]), max);
    }
}

/// The decimal text of a number is one or more ASCII digits.
pub proof fn lemma_decimal_digits(n: nat)
    ensures
        decimal(n).len() >= 1,
        forall|i: int| 0 <= i < decimal(n).len() ==> is_ascii_digit(#[trigger] decimal(n)[i]),
    decreases n,
{
    if n >= 10 {
        lemma_decimal_digits(n / 10);
        assert forall|i: int| 0 <= i < decimal(n).len() implies is_ascii_digit(#[trigger] decimal(n)[i]) by {
            if i < decimal(n).len() - 1 {
                assert(decimal(n)[i] == decimal(n / 10)[i]);
            }
        }
    }
}

proof fn lemma_fold_decimal(n: nat, max: int)
    requires
        n <= max,
    ensures
        fold_digits(decimal(n), 0, max) == Ok::<int, PortParseError>(n as int),
    decreases n,
{
    if n < 10 {
        let t = decimal(n);
        assert(t == seq![digit_char(n as int)]);
        assert(t.len() == 1);
        assert(t[0] == digit_char(n as int));
        assert(is_ascii_digit(t[0]));
        assert(digit_value(digit_char(n as int)) == n);
        let u = t.drop_first();
        assert(u =~= Seq::<char>::empty());
        assert(fold_digits(u, n as int, max) == Ok::<int, PortParseError>(n as int));
    } else {
        lemma_fold_decimal(n / 10, max);
        lemma_fold_digits_push(decimal(n / 10), digit_char((n % 10) as int), 0, max);
        assert(digit_value(digit_char((n % 10) as int)) == n % 10);
        assert((n / 10) * 10 + n % 10 == n);
    }
}

/// Reading the decimal text of a number no larger than `max` gives the number back.
pub proof fn lemma_parse_decimal(n: nat, max: int)
    requires
        n <= max,
    ensures
        spec_parse_uint(decimal(n), max) == Ok::<int, PortParseError>(n as int),
{
    lemma_decimal_digits(n);
    assert(is_ascii_digit(decimal(n)[0]));
    lemma_fold_decimal(n, max);
}

/// Reading the decimal text of a port number gives the port number back.
pub proof fn lemma_parse_u16_decimal(n: u16)
    ensures
        spec_parse_u16(decimal(n as nat)) == Ok::<u16, PortParseError>(n),
{
    lemma_parse_decimal(n as nat, 65535);
}

/// Splitting always gives at least one piece.
pub proof fn lemma_split_on_nonempty(s: Seq<char>, c: char)
    ensures
        split_on(s, c).len() >= 1,
    decreases s.len(),
{
    if s.len() > 0 {
        lemma_split_on_nonempty(s.drop_last(), c);
    }
}

/// A text without the separator is a single piece.
pub proof fn lemma_split_on_without(s: Seq<char>, c: char)
    requires
        !has_char(s, c),
    ensures
        split_on(s, c) == seq![s],
    decreases s.len(),
{
    if s.len() > 0 {
        assert(!has_char(s.drop_last(), c)) by {
            if has_char(s.drop_last(), c) {
                let i = choose|i: int| 0 <= i < s.drop_last().len() && s.drop_last()[i] == c;
                assert(s[i] == c);
            }
        }
        lemma_split_on_without(s.drop_last(), c);
        assert(s[s.len() - 1] != c);
        assert(s.drop_last().push(s.last()) =~= s);
        assert(split_on(s, c) =~= seq![s]);
    } else {
        assert(s =~= Seq::<char>::empty());
    }
}

/// The pieces of `a`, the separator and `b` are the pieces of `a` followed by the
/// pieces of `b`.
pub proof fn lemma_split_on_join(a: Seq<char>, c: char, b: Seq<char>)
    ensures
        split_on(a + seq![c] + b, c) == split_on(a, c) + split_on(b, c),
    decreases b.len(),
{
    let t = a + seq![c] + b;
    if b.len() == 0 {
        assert(t.drop_last() =~= a);
        assert(split_on(b, c) =~= seq![Seq::<char>::empty()]);
        assert(split_on(t, c) =~= split_on(a, c) + split_on(b, c));
    } else {
        let b0 = b.drop_last();
        lemma_split_on_join(a, c, b0);
        lemma_split_on_nonempty(b0, c);
        assert(t.drop_last() =~= a + seq![c] + b0);
        assert(t.last() == b.last());
        assert(split_on(t, c) =~= split_on(a, c) + split_on(b, c));
    }
}

/// The decimal text of a number holds no character other than digits.
pub proof fn lemma_decimal_without(n: nat, c: char)
    requires
        !is_ascii_digit(c),
    ensures
        !has_char(decimal(n), c),
{
    lemma_decimal_digits(n);
    if has_char(decimal(n), c) {
        let i = choose|i: int| 0 <= i < decimal(n).len() && decimal(n)[i] == c;
        assert(is_ascii_digit(decimal(n)[i]));
    }
}

/// The decimal text of a number below 1000 has at most three digits, and that of a
/// number other than zero does not start with `0`.
pub proof fn lemma_decimal_shape(n: nat)
    ensures
        n < 10 ==> decimal(n).len() == 1,
        n < 100 ==> decimal(n).len() <= 2,
        n < 1000 ==> decimal(n).len() <= 3,
        n >= 1 ==> decimal(n)[0] != '0',
    decreases n,
{
    if n >= 10 {
        lemma_decimal_shape(n / 10);
        lemma_decimal_digits(n / 10);
        assert(decimal(n)[0] == decimal(n / 10)[0]);
    }
}

/// An octet's decimal text is read back as that octet.
pub proof fn lemma_octet_decimal(n: u8)
    ensures
        spec_octet(decimal(n as nat)) == Some(n),
{
    lemma_decimal_shape(n as nat);
    lemma_decimal_digits(n as nat);
    lemma_fold_decimal(n as nat, 255);
    if decimal(n as nat).len() > 1 {
        assert(n >= 10);
    }
}

/// Reading the dotted-decimal text of an address gives the address back.
pub proof fn lemma_address_text_reads_back(a: Ipv4Address)
    ensures
        spec_parse_ipv4(address_text(a)) == Some(a),
{
    let d0 = decimal(a.0 as nat);
    let d1 = decimal(a.1 as nat);
    let d2 = decimal(a.2 as nat);
    let d3 = decimal(a.3 as nat);
    lemma_decimal_without(a.0 as nat, '.');
    lemma_decimal_without(a.1 as nat, '.');
    lemma_decimal_without(a.2 as nat, '.');
    lemma_decimal_without(a.3 as nat, '.');
    lemma_split_on_without(d0, '.');
    lemma_split_on_without(d1, '.');
    lemma_split_on_without(d2, '.');
    lemma_split_on_without(d3, '.');
    let t1 = d0 + seq!['.'] + d1;
    let t2 = t1 + seq!['.'] + d2;
    let t3 = t2 + seq!['.'] + d3;
    assert(t3 == address_text(a));
    lemma_split_on_join(d0, '.', d1);
    lemma_split_on_join(t1, '.', d2);
    lemma_split_on_join(t2, '.', d3);
    let parts = split_on(t3, '.');
    assert(parts =~= seq![d0, d1, d2, d3]);
    lemma_octet_decimal(a.0);
    lemma_octet_decimal(a.1);
    lemma_octet_decimal(a.2);
    lemma_octet_decimal(a.3);
}

} // verus!