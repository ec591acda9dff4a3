use vstd::prelude::*;
use crate::text::{
    chars_of, decimal, has_char, is_ascii_digit, lemma_decimal_digits, lemma_parse_u16_decimal,
    lemma_split_on_join, lemma_split_on_without, parse_all_u16, parse_u16, spec_parse_u16,
    split_bounds, split_on, PortParseError,
};

verus! {

/// The character that separates the two ends of a port range.
pub const SEP: char = '-';

/// The job count of a newly read range.
pub const DEF_THREADS: u8 = 1;

/// An inclusive range of ports `low..=high`, how many ports it holds, and how many
/// scanning jobs it is split into.
#[derive(Debug, Clone, Copy)]
pub struct RangePorts {
    low: u16,
    high: u16,
    num: u16,
    threads_to_use: u8,
}

enum MergeMethod {
    SelfContainsOther,
    OtherContainsSelf,
    SelfIsLower,
    SelfIsHigher,
    SelfLowOtherHigh,
    SelfHighOtherLow,
    Wrong,
}

/// The text `RangePorts::from_str` reads: a leading `-` stands for `1-`, a trailing `-`
/// for `-65535`.
pub open spec fn spec_range_text(s: Seq<char>) -> Seq<char> {
    if s.len() > 0 && s[0] == '-' {
        seq!['1'] + s
    } else if s.len() > 0 && s.last() == '-' {
        s + seq!['6', '5', '5', '3', '5']
    } else {
        s
    }
}

/// The numbers of the `-`-separated pieces of the range text.
pub open spec fn spec_range_numbers(s: Seq<char>) -> Result<Seq<u16>, PortParseError> {
    parse_all_u16(split_on(spec_range_text(s), '-'))
}

pub open spec fn min_u16(a: u16, b: u16) -> u16 {
    if a <= b { a } else { b }
}

pub open spec fn max_u16(a: u16, b: u16) -> u16 {
    if a <= b { b } else { a }
}

/// `RangePorts::from_str` panics where every piece is a number but there is only one
/// piece, or where the range is `0..=65535`, whose size does not fit a `u16`.
pub open spec fn spec_from_str_panics(s: Seq<char>) -> bool {
    match spec_range_numbers(s) {
        Ok(v) => v.len() < 2 || (min_u16(v[0], v[1]) == 0 && max_u16(v[0], v[1]) == 65535),
        Err(_) => false,
    }
}

/// The ends `(low, high)` that `RangePorts::from_str` reads from `s`: the first two
/// pieces, in increasing order; further pieces are read but otherwise ignored.
pub open spec fn spec_from_str(s: Seq<char>) -> Result<(u16, u16), PortParseError> {
    match spec_range_numbers(s) {
        Ok(v) => Ok((min_u16(v[0], v[1]), max_u16(v[0], v[1]))),
        Err(e) => Err(e),
    }
}

/// The ends after `change_range_ports`, by the first case that applies: `other`
/// strictly around `self`, `self` strictly around `other`, strict overlaps on either
/// side, `self` starting right after `other`, `self` ending right before `other`;
/// otherwise nothing changes.
pub open spec fn spec_merged_ends(s_lo: u16, s_hi: u16, o_lo: u16, o_hi: u16) -> (u16, u16) {
    if o_lo < s_lo && s_hi < o_hi {
        (o_lo, o_hi)
    } else if s_lo < o_lo && o_hi < s_hi {
        (s_lo, s_hi)
    } else if s_lo < o_lo && s_hi < o_hi && o_lo < s_hi {
        (s_lo, o_hi)
    } else if o_lo < s_lo && o_hi < s_hi && s_lo < o_hi {
        (o_lo, s_hi)
    } else if s_lo == o_hi + 1 {
        (o_lo, s_hi)
    } else if s_hi == o_lo - 1 {
        (s_lo, o_hi)
    } else {
        (s_lo, s_hi)
    }
}

/// How `change_range_ports` merges `o` into `s`: the first case of `spec_merged_ends`
/// that applies.
spec fn spec_merge_method(s_lo: u16, s_hi: u16, o_lo: u16, o_hi: u16) -> MergeMethod {
    if o_lo < s_lo && s_hi < o_hi {
        MergeMethod::OtherContainsSelf
    } else if s_lo < o_lo && o_hi < s_hi {
        MergeMethod::SelfContainsOther
    } else if s_lo < o_lo && s_hi < o_hi && o_lo < s_hi {
        MergeMethod::SelfIsLower
    } else if o_lo < s_lo && o_hi < s_hi && s_lo < o_hi {
        MergeMethod::SelfIsHigher
    } else if s_lo == o_hi + 1 {
        MergeMethod::SelfLowOtherHigh
    } else if s_hi == o_lo - 1 {
        MergeMethod::SelfHighOtherLow
    } else {
        MergeMethod::Wrong
    }
}

/// Where the case analysis of `change_range_ports` stays inside `u16`: it computes
/// `other.high + 1` once the four containment and overlap cases fail, and
/// `other.low - 1` once the adjacency on the low side fails too.
pub open spec fn spec_merge_defined(s_lo: u16, s_hi: u16, o_lo: u16, o_hi: u16) -> bool {
    ||| (o_lo < s_lo && s_hi < o_hi)
    ||| (s_lo < o_lo && o_hi < s_hi)
    ||| (s_lo < o_lo && s_hi < o_hi && o_lo < s_hi)
    ||| (o_lo < s_lo && o_hi < s_hi && s_lo < o_hi)
    ||| (o_hi < 65535 && (s_lo == o_hi + 1 || o_lo > 0))
}

/// Whether the ranges `s` and `o` share a port.
pub open spec fn spec_overlap(s_lo: u16, s_hi: u16, o_lo: u16, o_hi: u16) -> bool {
    !(o_hi < s_lo || s_hi < o_lo)
}

/// `can_merge`: the ranges share a port, or one ends right before the other starts.
pub open spec fn spec_can_merge(s_lo: u16, s_hi: u16, o_lo: u16, o_hi: u16) -> bool {
    spec_overlap(s_lo, s_hi, o_lo, o_hi) || s_lo == o_hi + 1 || s_hi == o_lo - 1
}

/// Where `can_merge` stays inside `u16`: `other.high + 1` is computed when the ranges
/// do not overlap, and `other.low - 1` when, besides, `self` does not start right
/// after `other`.
pub open spec fn spec_can_merge_defined(s_lo: u16, s_hi: u16, o_lo: u16, o_hi: u16) -> bool {
    spec_overlap(s_lo, s_hi, o_lo, o_hi) || (o_hi < 65535 && (s_lo == o_hi + 1 || o_lo > 0))
}

impl RangePorts {
    pub closed spec fn lo(&self) -> u16 {
        self.low
    }

    pub closed spec fn hi(&self) -> u16 {
        self.high
    }

    pub closed spec fn count(&self) -> u16 {
        self.num
    }

    pub closed spec fn threads(&self) -> u8 {
        self.threads_to_use
    }

    /// The ends are in order and the count is the number of ports between them.
    pub open spec fn wf(&self) -> bool {
        self.lo() <= self.hi() && self.count() == self.hi() - self.lo() + 1
    }

    /// Whether `n` lies in the range.
    pub open spec fn has(&self, n: int) -> bool {
        self.lo() <= n <= self.hi()
    }

    /// The range between `low` and `high`, whichever of them is smaller, with one job.
    pub fn new(low: u16, high: u16) -> (r: Self)
        requires
            !(min_u16(low, high) == 0 && max_u16(low, high) == 65535),
        ensures
            r.lo() == min_u16(low, high),
            r.hi() == max_u16(low, high),
            r.threads() == DEF_THREADS,
            r.wf(),
    {
        let (low, high) = if low > high {
            (high, low)
        } else {
            (low, high)
        };
        Self { low, high, num: high - low + 1, threads_to_use: DEF_THREADS }
    }

    /// Reads a range from text such as `20-80`, `-80` (from port 1) or `20-` (up to
    /// port 65535).
    pub fn from_str(s: &str) -> (r: Result<Self, PortParseError>)
        requires
            !spec_from_str_panics(s@),
        ensures
            match r {
                Ok(rp) => spec_from_str(s@) == Ok::<(u16, u16), PortParseError>((rp.lo(), rp.hi()))
                    && rp.wf() && rp.threads() == DEF_THREADS,
                Err(e) => spec_from_str(s@) == Err::<(u16, u16), PortParseError>(e),
            },
    {
        let vnum = match range_numbers(s) {
            Ok(v) => v,
            Err(e) => {
                return Err(e);
            },
        };
        let a = vnum[0];
        let b = vnum[1];
        let (low, high) = if a > b {
            (b, a)
        } else {
            (a, b)
        };
        Ok(Self { low, high, num: high - low + 1, threads_to_use: DEF_THREADS })
    }

    pub fn get_low(&self) -> (r: u16)
        ensures
            r == self.lo(),
    {
        self.low
    }

    pub fn get_high(&self) -> (r: u16)
        ensures
            r == self.hi(),
    {
        self.high
    }

    pub fn get_num(&self) -> (r: u16)
        ensures
            r == self.count(),
    {
        self.num
    }

    /// Whether the range holds a single port.
    pub fn same_pair_port(&self) -> (r: bool)
        ensures
            r == (self.lo() == self.hi()),
    {
        self.low == self.high
    }

    pub fn get_threads_to_use(&self) -> (r: u8)
        ensures
            r == self.threads(),
    {
        self.threads_to_use
    }

    pub fn set_threads_to_use(&mut self, t: u8)
        ensures
            final(self).threads() == t,
            final(self).lo() == old(self).lo(),
            final(self).hi() == old(self).hi(),
            final(self).count() == old(self).count(),
    {
        self.threads_to_use = t;
    }

    pub fn contains(&self, n: u16) -> (r: bool)
        ensures
            r == self.has(n as int),
    {
        self.low <= n && n <= self.high
    }

    pub fn not_contains(&self, n: u16) -> (r: bool)
        ensures
            r == !self.has(n as int),
    {
        !(self.low <= n && n <= self.high)
    }

    /// Whether the two ranges share a port or one of them ends right before the other
    /// starts.
    pub fn can_merge(&self, other: &Self) -> (r: bool)
        requires
            spec_can_merge_defined(self.lo(), self.hi(), other.lo(), other.hi()),
        ensures
            r == spec_can_merge(self.lo(), self.hi(), other.lo(), other.hi()),
    {
        !(other.high < self.low || self.high < other.low) || (self.low == other.high + 1) || (
        self.high == other.low - 1)
    }

    /// Widens `self` towards `other` by the case analysis of `spec_merged_ends`.
    pub fn change_range_ports(&mut self, other: &Self)
        requires
            old(self).wf(),
            other.wf(),
            spec_merge_defined(old(self).lo(), old(self).hi(), other.lo(), other.hi()),
            spec_merged_ends(old(self).lo(), old(self).hi(), other.lo(), other.hi()).1
                - spec_merged_ends(old(self).lo(), old(self).hi(), other.lo(), other.hi()).0 < 65535,
        ensures
            (final(self).lo(), final(self).hi()) == spec_merged_ends(
                old(self).lo(),
                old(self).hi(),
                other.lo(),
                other.hi(),
            ),
            final(self).threads() == old(self).threads(),
            final(self).wf(),
    {
        match self.merge_method(other) {
            MergeMethod::OtherContainsSelf => {
                self.low = other.low;
                self.high = other.high;
                self.num = self.high - self.low + 1;
            },
            MergeMethod::SelfContainsOther => {},
            MergeMethod::SelfIsLower => {
                self.high = other.high;
                self.num = self.high - self.low + 1;
            },
            MergeMethod::SelfIsHigher => {
                self.low = other.low;
                self.num = self.high - self.low + 1;
            },
            MergeMethod::SelfLowOtherHigh => {
                self.low = other.low;
                self.num = self.high - self.low + 1;
            },
            MergeMethod::SelfHighOtherLow => {
                self.high = other.high;
                self.num = self.high - self.low + 1;
            },
            MergeMethod::Wrong => {},
        };
    }

    fn merge_method(&self, other: &Self) -> (m: MergeMethod)
        requires
            spec_merge_defined(self.lo(), self.hi(), other.lo(), other.hi()),
        ensures
            m == spec_merge_method(self.lo(), self.hi(), other.lo(), other.hi()),
    {
        if other.low < self.low && self.high < other.high {
            MergeMethod::OtherContainsSelf
        } else if self.low < other.low && other.high < self.high {
            MergeMethod::SelfContainsOther
        } else if self.low < other.low && self.high < other.high && other.low < self.high {
            MergeMethod::SelfIsLower
        } else if other.low < self.low && other.high < self.high && self.low < other.high {
            MergeMethod::SelfIsHigher
        } else if self.low == other.high + 1 {
            MergeMethod::SelfLowOtherHigh
        } else if self.high == other.low - 1 {
            MergeMethod::SelfHighOtherLow
        } else {
            MergeMethod::Wrong
        }
    }
}

proof fn lemma_parse_all_err_prefix(parts: Seq<Seq<char>>, n: int)
    requires
        0 <= n <= parts.len(),
        parse_all_u16(parts.take(n)) is Err,
    ensures
        parse_all_u16(parts) == parse_all_u16(parts.take(n)),
    decreases parts.len() - n,
{
    if n < parts.len() {
        assert(parts.take(n + 1).drop_last() =~= parts.take(n));
        lemma_parse_all_err_prefix(parts, n + 1);
    } else {
        assert(parts.take(n) =~= parts);
    }
}

/// The numbers of the `-`-separated pieces of the range text of `s`.
fn range_numbers(s: &str) -> (r: Result<Vec<u16>, PortParseError>)
    ensures
        match r {
            Ok(v) => spec_range_numbers(s@) == Ok::<Seq<u16>, PortParseError>(v@),
            Err(e) => spec_range_numbers(s@) == Err::<Seq<u16>, PortParseError>(e),
        },
{
    let cs = chars_of(s);
    let mut ports: Vec<char> = Vec::new();
    if cs.len() > 0 && cs[0] == SEP {
        ports.push('1');
        let mut i: usize = 0;
        while i < cs.len()
            invariant
                i <= cs.len(),
                ports@ == seq!['1'] + cs@.take(i as int),
            decreases cs.len() - i,
        {
            ports.push(cs[i]);
            i = i + 1;
            assert(ports@ =~= seq!['1'] + cs@.take(i as int));
        }
        assert(cs@.take(i as int) =~= cs@);
    } else {
        ports = cs.clone();
        if cs.len() > 0 && cs[cs.len() - 1] == SEP {
            ports.push('6');
            ports.push('5');
            ports.push('5');
            ports.push('3');
            ports.push('5');
            assert(ports@ =~= cs@ + seq!['6', '5', '5', '3', '5']);
        }
    }
    assert(ports@ == spec_range_text(s@));
    let bounds = split_bounds(&ports, SEP);
    let ghost parts = split_on(ports@, SEP);
    let mut vnum: Vec<u16> = Vec::new();
    let mut i: usize = 0;
    assert(parts.take(0) =~= Seq::<Seq<char>>::empty());
    while i < bounds.len()
        invariant
            i <= bounds.len() == parts.len(),
            parts == split_on(ports@, SEP),
            ports@ == spec_range_text(s@),
            forall|k: int| 0 <= k < bounds.len() ==> #[trigger] bounds@[k].0 <= bounds@[k].1 <= ports.len(),
            forall|k: int|
                0 <= k < bounds.len() ==> ports@.subrange(bounds@[k].0 as int, bounds@[k].1 as int)
                    == #[trigger] parts[k],
            parse_all_u16(parts.take(i as int)) == Ok::<Seq<u16>, PortParseError>(vnum@),
        decreases bounds.len() - i,
    {
        assert(parts.take(i + 1).drop_last() =~= parts.take(i as int));
        assert(parts.take(i + 1).last() == parts[i as int]);
        assert(bounds@[i as int].0 <= bounds@[i as int].1 <= ports.len());
        let (b0, b1) = bounds[i];
        assert(ports@.subrange(b0 as int, b1 as int) == parts[i as int]);
        match parse_u16(&ports, b0, b1) {
            Ok(v) => {
                vnum.push(v);
            },
            Err(e) => {
                assert(parse_all_u16(parts.take(i + 1)) == Err::<Seq<u16>, PortParseError>(e));
                proof {
                    lemma_parse_all_err_prefix(parts, i as int + 1);
                }
                return Err(e);
            },
        }
        i = i + 1;
    }
    assert(parts.take(i as int) =~= parts);
    Ok(vnum)
}

/// Whether `RangePorts::from_str` panics on `s`.
pub fn from_str_panics(s: &str) -> (r: bool)
    ensures
        r == spec_from_str_panics(s@),
{
    match range_numbers(s) {
        Ok(v) => {
            if v.len() < 2 {
                true
            } else {
                let a = v[0];
                let b = v[1];
                let (low, high) = if a > b {
                    (b, a)
                } else {
                    (a, b)
                };
                low == 0 && high == 65535
            }
        },
        Err(_) => false,
    }
}

/// Whether port `p` lies in `lo..=hi`.
pub open spec fn port_in(lo: u16, hi: u16, p: int) -> bool {
    lo <= p <= hi
}

/// Whether `can_merge` says yes does not depend on which range asks.
pub proof fn lemma_can_merge_symmetric(a_lo: u16, a_hi: u16, b_lo: u16, b_hi: u16)
    ensures
        spec_can_merge(a_lo, a_hi, b_lo, b_hi) == spec_can_merge(b_lo, b_hi, a_lo, a_hi),
{
}

/// Two ranges can merge exactly when together they hold every port from the lowest of
/// their ends to the highest.
pub proof fn lemma_can_merge_contiguous(a_lo: u16, a_hi: u16, b_lo: u16, b_hi: u16)
    requires
        a_lo <= a_hi,
        b_lo <= b_hi,
    ensures
        spec_can_merge(a_lo, a_hi, b_lo, b_hi) <==> forall|p: int|
            min_u16(a_lo, b_lo) <= p <= max_u16(a_hi, b_hi) ==> (#[trigger] port_in(a_lo, a_hi, p)
                || port_in(b_lo, b_hi, p)),
{
    if !spec_can_merge(a_lo, a_hi, b_lo, b_hi) {
        if b_hi < a_lo {
            let p = b_hi + 1;
            assert(!(port_in(a_lo, a_hi, p) || port_in(b_lo, b_hi, p)));
        } else {
            let p = a_hi + 1;
            assert(!(port_in(a_lo, a_hi, p) || port_in(b_lo, b_hi, p)));
        }
    }
}

/// `change_range_ports` only widens a range, and only by ports of the other range:
/// the new range holds the old one and lies within the two.
pub proof fn lemma_merge_widens_within(s_lo: u16, s_hi: u16, o_lo: u16, o_hi: u16)
    requires
        s_lo <= s_hi,
        o_lo <= o_hi,
    ensures
        ({
            let m = spec_merged_ends(s_lo, s_hi, o_lo, o_hi);
            &&& m.0 <= s_lo && s_hi <= m.1
            &&& forall|p: int| #[trigger] port_in(m.0, m.1, p) ==> (port_in(s_lo, s_hi, p) || port_in(o_lo, o_hi, p))
        }),
{
}

/// Where one range strictly overlaps or touches the other on one side, or strictly holds
/// it, `change_range_ports` leaves exactly the ports of both.
pub proof fn lemma_merge_strict_is_union(s_lo: u16, s_hi: u16, o_lo: u16, o_hi: u16)
    requires
        s_lo <= s_hi,
        o_lo <= o_hi,
        ({
            ||| (o_lo < s_lo && s_hi < o_hi)
            ||| (s_lo < o_lo && o_hi < s_hi)
            ||| (s_lo < o_lo && s_hi < o_hi && o_lo < s_hi)
            ||| (o_lo < s_lo && o_hi < s_hi && s_lo < o_hi)
            ||| s_lo == o_hi + 1
            ||| s_hi == o_lo - 1
        }),
    ensures
        ({
            let m = spec_merged_ends(s_lo, s_hi, o_lo, o_hi);
            forall|p: int| #[trigger] port_in(m.0, m.1, p) <==> (port_in(s_lo, s_hi, p) || port_in(o_lo, o_hi, p))
        }),
{
}

/// The text `a-b` of two port numbers, as `format!("{}-{}", a, b)` writes it.
pub open spec fn range_text_of(a: u16, b: u16) -> Seq<char> {
    decimal(a as nat) + seq!['-'] + decimal(b as nat)
}

proof fn lemma_decimal_without_sep(n: nat)
    ensures
        !has_char(decimal(n), '-'),
        decimal(n).len() >= 1,
        decimal(n)[0] != '-',
        decimal(n).last() != '-',
{
    lemma_decimal_digits(n);
    assert(is_ascii_digit(decimal(n)[0]));
    assert(is_ascii_digit(decimal(n)[decimal(n).len() - 1]));
    if has_char(decimal(n), '-') {
        let i = choose|i: int| 0 <= i < decimal(n).len() && decimal(n)[i] == '-';
        assert(is_ascii_digit(decimal(n)[i]));
    }
}

/// Reading the text `a-b` of two port numbers gives back both numbers, so
/// `RangePorts::from_str` reads the range between them, with the ends and the job
/// count that `RangePorts::new(a, b)` gives; it panics only on the text of the range
/// `0..=65535`, as `RangePorts::new` does.
pub proof fn lemma_from_str_of_text(a: u16, b: u16)
    ensures
        spec_range_numbers(range_text_of(a, b)) == Ok::<Seq<u16>, PortParseError>(seq![a, b]),
        spec_from_str(range_text_of(a, b)) == Ok::<(u16, u16), PortParseError>(
            (min_u16(a, b), max_u16(a, b)),
        ),
        spec_from_str_panics(range_text_of(a, b)) <==> (min_u16(a, b) == 0 && max_u16(a, b) == 65535),
{
    let da = decimal(a as nat);
    let db = decimal(b as nat);
    let t = range_text_of(a, b);
    lemma_decimal_without_sep(a as nat);
    lemma_decimal_without_sep(b as nat);
    assert(t[0] == da[0]);
    assert(t.last() == db.last());
    assert(spec_range_text(t) == t);
    lemma_split_on_join(da, '-', db);
    lemma_split_on_without(da, '-');
    lemma_split_on_without(db, '-');
    let parts = split_on(t, '-');
    assert(parts =~= seq![da, db]);
    lemma_parse_u16_decimal(a);
    lemma_parse_u16_decimal(b);
    let p1 = parts.drop_last();
    assert(p1 =~= seq![da]);
    assert(p1.drop_last() =~= Seq::<Seq<char>>::empty());
    assert(parse_all_u16(p1.drop_last()) == Ok::<Seq<u16>, PortParseError>(Seq::<u16>::empty()));
    assert(p1.last() == da);
    assert(Seq::<u16>::empty().push(a) =~= seq![a]);
    assert(parse_all_u16(p1) == Ok::<Seq<u16>, PortParseError>(seq![a]));
    assert(parts.last() == db);
    assert(seq![a].push(b) =~= seq![a, b]);
    assert(parse_all_u16(parts) == Ok::<Seq<u16>, PortParseError>(seq![a, b]));
}

} // verus!
