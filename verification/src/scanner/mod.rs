pub mod error;
pub mod laws;
pub mod range_port;

use vstd::prelude::*;
use std::collections::HashSet;
use crate::text::{
    chars_of, parse_ipv4, parse_u16, same_text, spec_parse_ipv4, spec_parse_u16, Ipv4Address,
};
use crate::sorting::{
    is_strictly_ascending, lemma_stable_sort_members, sort_high_desc, sorted_distinct, spec_sort_high_desc,
};
use self::error::ScannerError;
use self::range_port::{
    from_str_panics, spec_can_merge, spec_can_merge_defined, spec_from_str, spec_from_str_panics,
    spec_merge_defined, spec_merged_ends, RangePorts,
};

verus! {

/// The port a piece of the port list names on its own: a number, or a range whose two
/// ends are the same port.
pub open spec fn spec_port_single(t: Seq<char>) -> Option<u16> {
    match spec_parse_u16(t) {
        Ok(v) => Some(v),
        Err(_) => match spec_from_str(t) {
            Ok(r) => if r.0 == r.1 {
                Some(r.0)
            } else {
                None
            },
            Err(_) => None,
        },
    }
}

/// The range a piece of the port list names: not a number, but read by
/// `RangePorts::from_str` as a range of at least two ports.
pub open spec fn spec_port_range(t: Seq<char>) -> Option<(u16, u16)> {
    match spec_parse_u16(t) {
        Ok(_) => None,
        Err(_) => match spec_from_str(t) {
            Ok(r) => if r.0 != r.1 {
                Some(r)
            } else {
                None
            },
            Err(_) => None,
        },
    }
}

/// Whether some piece of the port list names port `p` on its own.
pub open spec fn names_single(ps: Seq<Seq<char>>, p: u16) -> bool {
    exists|i: int| 0 <= i < ps.len() && #[trigger] spec_port_single(ps[i]) == Some(p)
}

/// The ranges of the port list, in the order of the list.
pub open spec fn spec_range_candidates(ps: Seq<Seq<char>>) -> Seq<(u16, u16)>
    decreases ps.len(),
{
    if ps.len() == 0 {
        Seq::<(u16, u16)>::empty()
    } else {
        let r = spec_range_candidates(ps.drop_last());
        match spec_port_range(ps.last()) {
            Some(x) => r.push(x),
            None => r,
        }
    }
}

/// Reading the port list does not panic: no piece that is not a number makes
/// `RangePorts::from_str` panic.
pub open spec fn ports_read_defined(ps: Seq<Seq<char>>) -> bool {
    forall|i: int|
        0 <= i < ps.len() && spec_parse_u16(ps[i]) is Err ==> !#[trigger] spec_from_str_panics(ps[i])
}

/// The first position `j` or later at which `acc[j]` can merge with `x`; the outer
/// `None` where `can_merge` would leave `u16` on the way.
pub open spec fn spec_find_merge(acc: Seq<(u16, u16)>, x: (u16, u16), j: int) -> Option<Option<int>>
    decreases acc.len() - j,
{
    if j < 0 || j >= acc.len() {
        Some(None)
    } else if !spec_can_merge_defined(acc[j].0, acc[j].1, x.0, x.1) {
        None
    } else if spec_can_merge(acc[j].0, acc[j].1, x.0, x.1) {
        Some(Some(j))
    } else {
        spec_find_merge(acc, x, j + 1)
    }
}

/// One step of merging: `x` widens the first range it can merge with, or is appended;
/// `None` where the arithmetic would leave `u16`.
pub open spec fn spec_merge_step(acc: Seq<(u16, u16)>, x: (u16, u16)) -> Option<Seq<(u16, u16)>> {
    match spec_find_merge(acc, x, 0) {
        None => None,
        Some(None) => Some(acc.push(x)),
        Some(Some(j)) => {
            let m = spec_merged_ends(acc[j].0, acc[j].1, x.0, x.1);
            if spec_merge_defined(acc[j].0, acc[j].1, x.0, x.1) && m.1 - m.0 < 65535 {
                Some(acc.update(j, m))
            } else {
                None
            }
        },
    }
}

/// Merging the ranges `xs` one after the other, starting from no range.
pub open spec fn spec_merge_all(xs: Seq<(u16, u16)>) -> Option<Seq<(u16, u16)>>
    decreases xs.len(),
{
    if xs.len() == 0 {
        Some(Seq::<(u16, u16)>::empty())
    } else {
        match spec_merge_all(xs.drop_last()) {
            None => None,
            Some(acc) => spec_merge_step(acc, xs.last()),
        }
    }
}

/// Whether port `p` lies in one of the ranges `rs`.
pub open spec fn covered(rs: Seq<(u16, u16)>, p: int) -> bool {
    exists|j: int| 0 <= j < rs.len() && #[trigger] rs[j].0 <= p <= rs[j].1
}

/// The ports below `n` that satisfy `pred`, in ascending order.
pub open spec fn ascending_ports(n: int, pred: spec_fn(u16) -> bool) -> Seq<u16>
    decreases n,
{
    if n <= 0 {
        Seq::<u16>::empty()
    } else {
        let r = ascending_ports(n - 1, pred);
        if pred((n - 1) as u16) {
            r.push((n - 1) as u16)
        } else {
            r
        }
    }
}

/// The ends of each range.
pub open spec fn pairs_of(rs: Seq<RangePorts>) -> Seq<(u16, u16)> {
    rs.map_values(|r: RangePorts| (r.lo(), r.hi()))
}

/// The views of the texts of the port list.
pub open spec fn texts(ports: Seq<&str>) -> Seq<Seq<char>> {
    ports.map_values(|p: &str| p@)
}

proof fn lemma_find_merge_bounds(acc: Seq<(u16, u16)>, x: (u16, u16), j0: int)
    requires
        0 <= j0,
    ensures
        spec_find_merge(acc, x, j0) matches Some(Some(j)) ==> j0 <= j < acc.len(),
    decreases acc.len() - j0,
{
    if j0 < acc.len() {
        lemma_find_merge_bounds(acc, x, j0 + 1);
    }
}

/// `can_merge`, or `None` where it would leave `u16`.
fn can_merge_checked(a: &RangePorts, b: &RangePorts) -> (r: Option<bool>)
    ensures
        r is Some <==> spec_can_merge_defined(a.lo(), a.hi(), b.lo(), b.hi()),
        r matches Some(v) ==> v == spec_can_merge(a.lo(), a.hi(), b.lo(), b.hi()),
{
    let sl = a.get_low();
    let sh = a.get_high();
    let ol = b.get_low();
    let oh = b.get_high();
    if !(oh < sl || sh < ol) {
        Some(a.can_merge(b))
    } else if oh < 65535 && (sl == oh + 1 || ol > 0) {
        Some(a.can_merge(b))
    } else {
        None
    }
}

/// Whether `cur.change_range_ports(other)` stays inside `u16`.
fn merge_checked(cur: &RangePorts, other: &RangePorts) -> (r: bool)
    ensures
        r == (spec_merge_defined(cur.lo(), cur.hi(), other.lo(), other.hi()) && spec_merged_ends(
            cur.lo(),
            cur.hi(),
            other.lo(),
            other.hi(),
        ).1 - spec_merged_ends(cur.lo(), cur.hi(), other.lo(), other.hi()).0 < 65535),
{
    let sl = cur.get_low();
    let sh = cur.get_high();
    let ol = other.get_low();
    let oh = other.get_high();
    let (lo, hi) = if ol < sl && sh < oh {
        (ol, oh)
    } else if sl < ol && oh < sh {
        (sl, sh)
    } else if sl < ol && sh < oh && ol < sh {
        (sl, oh)
    } else if ol < sl && oh < sh && sl < oh {
        (ol, sh)
    } else if oh < 65535 && (sl == oh + 1 || ol > 0) {
        if sl == oh + 1 {
            (ol, sh)
        } else if sh == ol - 1 {
            (sl, oh)
        } else {
            (sl, sh)
        }
    } else {
        return false;
    };
    (hi as i32) - (lo as i32) < 65535
}

/// The position of the first range of `acc` that can merge with `rng`; `None` where
/// looking for it would leave `u16`.
fn find_merge_position(acc: &Vec<RangePorts>, rng: &RangePorts) -> (r: Option<Option<usize>>)
    ensures
        r matches Some(Some(j)) ==> j < acc.len(),
        spec_find_merge(pairs_of(acc@), (rng.lo(), rng.hi()), 0) == match r {
            Some(Some(j)) => Some(Some(j as int)),
            Some(None) => Some(None::<int>),
            None => None,
        },
{
    let ghost pairs = pairs_of(acc@);
    let ghost x = (rng.lo(), rng.hi());
    proof {
        lemma_find_merge_bounds(pairs, x, 0);
    }
    let mut j: usize = 0;
    while j < acc.len()
        invariant
            j <= acc.len(),
            pairs == pairs_of(acc@),
            x == (rng.lo(), rng.hi()),
            spec_find_merge(pairs, x, 0) == spec_find_merge(pairs, x, j as int),
        decreases acc.len() - j,
    {
        assert(pairs[j as int] == (acc@[j as int].lo(), acc@[j as int].hi()));
        match can_merge_checked(&acc[j], rng) {
            None => {
                return None;
            },
            Some(true) => {
                return Some(Some(j));
            },
            Some(false) => {},
        }
        j = j + 1;
    }
    Some(None)
}

/// Merges the ranges `sorted` one after the other; `None` where a step would leave `u16`.
fn merge_ranges(sorted: &Vec<(u16, u16)>) -> (r: Option<Vec<RangePorts>>)
    requires
        forall|k: int|
            0 <= k < sorted.len() ==> (#[trigger] sorted@[k]).0 < sorted@[k].1 && !(sorted@[k].0 == 0
                && sorted@[k].1 == 65535),
    ensures
        match r {
            Some(v) => spec_merge_all(sorted@) == Some(pairs_of(v@)) && forall|k: int|
                0 <= k < v.len() ==> (#[trigger] v@[k]).wf() && v@[k].threads() == 1 && v@[k].lo()
                    < v@[k].hi(),
            None => spec_merge_all(sorted@) is None,
        },
{
    let mut acc: Vec<RangePorts> = Vec::new();
    let mut i: usize = 0;
    assert(sorted@.take(0) =~= Seq::<(u16, u16)>::empty());
    assert(pairs_of(acc@) =~= Seq::<(u16, u16)>::empty());
    while i < sorted.len()
        invariant
            i <= sorted.len(),
            forall|k: int|
                0 <= k < sorted.len() ==> (#[trigger] sorted@[k]).0 < sorted@[k].1 && !(sorted@[k].0
                    == 0 && sorted@[k].1 == 65535),
            spec_merge_all(sorted@.take(i as int)) == Some(pairs_of(acc@)),
            forall|k: int|
                0 <= k < acc.len() ==> (#[trigger] acc@[k]).wf() && acc@[k].threads() == 1
                    && acc@[k].lo() < acc@[k].hi(),
        decreases sorted.len() - i,
    {
        proof {
            assert(sorted@.take(i + 1).drop_last() =~= sorted@.take(i as int));
            assert(sorted@.take(i + 1).last() == sorted@[i as int]);
        }
        let x = sorted[i];
        assert(x.0 < x.1);
        let rng = RangePorts::new(x.0, x.1);
        let ghost pairs = pairs_of(acc@);
        let ghost old_acc = acc@;
        match find_merge_position(&acc, &rng) {
            None => {
                proof {
                    lemma_merge_all_none_extends(sorted@, i as int + 1);
                }
                return None;
            },
            Some(Some(j)) => {
                let mut cur = acc[j];
                assert(pairs[j as int] == (cur.lo(), cur.hi()));
                if !merge_checked(&cur, &rng) {
                    proof {
                        lemma_merge_all_none_extends(sorted@, i as int + 1);
                    }
                    return None;
                }
                cur.change_range_ports(&rng);
                acc.set(j, cur);
                assert(pairs_of(acc@) =~= pairs.update(j as int, (cur.lo(), cur.hi())));
                assert forall|k: int|
                    0 <= k < acc.len() implies (#[trigger] acc@[k]).wf() && acc@[k].threads() == 1
                    && acc@[k].lo() < acc@[k].hi() by {
                    if k != j {
                        assert(acc@[k] == old_acc[k]);
                    }
                }
            },
            Some(None) => {
                acc.push(rng);
                assert(pairs_of(acc@) =~= pairs.push((rng.lo(), rng.hi())));
                assert forall|k: int|
                    0 <= k < acc.len() implies (#[trigger] acc@[k]).wf() && acc@[k].threads() == 1
                    && acc@[k].lo() < acc@[k].hi() by {
                    if k < old_acc.len() {
                        assert(acc@[k] == old_acc[k]);
                    }
                }
            },
        }
        i = i + 1;
    }
    assert(sorted@.take(i as int) =~= sorted@);
    Some(acc)
}

proof fn lemma_merge_all_none_extends(xs: Seq<(u16, u16)>, n: int)
    requires
        0 <= n <= xs.len(),
        spec_merge_all(xs.take(n)) is None,
    ensures
        spec_merge_all(xs) is None,
    decreases xs.len() - n,
{
    if n < xs.len() {
        assert(xs.take(n + 1).drop_last() =~= xs.take(n));
        lemma_merge_all_none_extends(xs, n + 1);
    } else {
        assert(xs.take(n) =~= xs);
    }
}

/// Whether some piece of the port list is the number `p`.
pub open spec fn names_number(ps: Seq<Seq<char>>, p: u16) -> bool {
    exists|i: int| 0 <= i < ps.len() && #[trigger] spec_parse_u16(ps[i]) == Ok::<u16, crate::text::PortParseError>(p)
}

/// Whether some piece of the port list is a range from `p` to `p`.
pub open spec fn names_pair(ps: Seq<Seq<char>>, p: u16) -> bool {
    exists|i: int|
        0 <= i < ps.len() && spec_parse_u16(ps[i]) is Err && #[trigger] spec_from_str(ps[i]) == Ok::<
            (u16, u16),
            crate::text::PortParseError,
        >((p, p))
}

proof fn lemma_names_single(ps: Seq<Seq<char>>, p: u16)
    ensures
        names_single(ps, p) <==> names_number(ps, p) || names_pair(ps, p),
{
    if names_single(ps, p) {
        let i = choose|i: int| 0 <= i < ps.len() && #[trigger] spec_port_single(ps[i]) == Some(p);
        if spec_parse_u16(ps[i]) is Ok {
            assert(spec_parse_u16(ps[i]) == Ok::<u16, crate::text::PortParseError>(p));
        } else {
            assert(spec_from_str(ps[i]) == Ok::<(u16, u16), crate::text::PortParseError>((p, p)));
        }
    }
    if names_number(ps, p) {
        let i = choose|i: int| 0 <= i < ps.len() && #[trigger] spec_parse_u16(ps[i]) == Ok::<u16, crate::text::PortParseError>(p);
        assert(spec_port_single(ps[i]) == Some(p));
    }
    if names_pair(ps, p) {
        let i = choose|i: int|
            0 <= i < ps.len() && spec_parse_u16(ps[i]) is Err && #[trigger] spec_from_str(ps[i]) == Ok::<
                (u16, u16),
                crate::text::PortParseError,
            >((p, p));
        assert(spec_port_single(ps[i]) == Some(p));
    }
}

/// The ports the port list names as numbers.
fn single_ports(ports: &[&str]) -> (t: HashSet<u16>)
    ensures
        forall|p: u16| #[trigger] t@.contains(p) == names_number(texts(ports@), p),
{
    broadcast use vstd::std_specs::hash::group_hash_axioms;

    let ghost ps = texts(ports@);
    let mut t: HashSet<u16> = HashSet::new();
    let mut i: usize = 0;
    while i < ports.len()
        invariant
            i <= ports.len(),
            ps == texts(ports@),
            forall|p: u16|
                #[trigger] t@.contains(p) == exists|k: int|
                    0 <= k < i && #[trigger] spec_parse_u16(ps[k]) == Ok::<u16, crate::text::PortParseError>(p),
        decreases ports.len() - i,
    {
        let cs = chars_of(ports[i]);
        assert(cs@.subrange(0, cs.len() as int) =~= cs@);
        assert(ps[i as int] == ports@[i as int]@);
        let ghost old_t = t@;
        match parse_u16(&cs, 0, cs.len()) {
            Ok(v) => {
                t.insert(v);
            },
            Err(_) => {},
        }
        assert forall|p: u16|
            #[trigger] t@.contains(p) == exists|k: int|
                0 <= k < i + 1 && #[trigger] spec_parse_u16(ps[k]) == Ok::<u16, crate::text::PortParseError>(p) by {
            if spec_parse_u16(ps[i as int]) == Ok::<u16, crate::text::PortParseError>(p) {
                assert(t@.contains(p));
            } else {
                assert(t@.contains(p) == old_t.contains(p));
                if exists|k: int|
                    0 <= k < i + 1 && #[trigger] spec_parse_u16(ps[k]) == Ok::<u16, crate::text::PortParseError>(p) {
                    let k = choose|k: int|
                        0 <= k < i + 1 && #[trigger] spec_parse_u16(ps[k]) == Ok::<u16, crate::text::PortParseError>(p);
                    assert(k < i);
                }
            }
        }
        i = i + 1;
    }
    t
}

/// Reads the ranges of the port list, marks in `indiv_ref` the ports that a range
/// from a port to itself names, sorts the other ranges by decreasing upper end and
/// merges them in that order.
fn parse_range_ports(ports: &[&str], indiv_ref: &mut HashSet<u16>) -> (r: Option<Vec<RangePorts>>)
    requires
        ports_read_defined(texts(ports@)),
    ensures
        forall|p: u16|
            #[trigger] final(indiv_ref)@.contains(p) == (old(indiv_ref)@.contains(p) || names_pair(
                texts(ports@),
                p,
            )),
        match r {
            Some(v) => spec_merged_ranges(texts(ports@)) == Some(pairs_of(v@)) && forall|k: int|
                0 <= k < v.len() ==> (#[trigger] v@[k]).wf() && v@[k].threads() == 1 && v@[k].lo()
                    < v@[k].hi(),
            None => spec_merged_ranges(texts(ports@)) is None,
        },
{
    broadcast use vstd::std_specs::hash::group_hash_axioms;

    let ghost ps = texts(ports@);
    let ghost t0 = indiv_ref@;
    let mut cands: Vec<(u16, u16)> = Vec::new();
    let mut i: usize = 0;
    assert(ps.take(0) =~= Seq::<Seq<char>>::empty());
    while i < ports.len()
        invariant
            i <= ports.len(),
            ps == texts(ports@),
            ports_read_defined(ps),
            cands@ == spec_range_candidates(ps.take(i as int)),
            forall|k: int|
                0 <= k < cands.len() ==> (#[trigger] cands@[k]).0 < cands@[k].1 && !(cands@[k].0 == 0
                    && cands@[k].1 == 65535),
            forall|p: u16|
                #[trigger] indiv_ref@.contains(p) == (t0.contains(p) || exists|k: int|
                    0 <= k < i && spec_parse_u16(ps[k]) is Err && #[trigger] spec_from_str(ps[k])
                        == Ok::<(u16, u16), crate::text::PortParseError>((p, p))),
        decreases ports.len() - i,
    {
        let ghost old_t = indiv_ref@;
        let ghost old_cands = cands@;
        assert(ps.take(i + 1).drop_last() =~= ps.take(i as int));
        assert(ps.take(i + 1).last() == ps[i as int]);
        assert(ps[i as int] == ports@[i as int]@);
        let cs = chars_of(ports[i]);
        assert(cs@.subrange(0, cs.len() as int) =~= cs@);
        let is_number = match parse_u16(&cs, 0, cs.len()) {
            Ok(_) => true,
            Err(_) => false,
        };
        if !is_number {
            assert(!spec_from_str_panics(ps[i as int]));
            match RangePorts::from_str(ports[i]) {
                Ok(rng_prt) => {
                    if rng_prt.same_pair_port() {
                        indiv_ref.insert(rng_prt.get_low());
                    } else {
                        cands.push((rng_prt.get_low(), rng_prt.get_high()));
                    }
                },
                Err(_) => {},
            }
        }
        assert forall|p: u16|
            #[trigger] indiv_ref@.contains(p) == (t0.contains(p) || exists|k: int|
                0 <= k < i + 1 && spec_parse_u16(ps[k]) is Err && #[trigger] spec_from_str(ps[k])
                    == Ok::<(u16, u16), crate::text::PortParseError>((p, p))) by {
            if spec_parse_u16(ps[i as int]) is Err && spec_from_str(ps[i as int]) == Ok::<
                (u16, u16),
                crate::text::PortParseError,
            >((p, p)) {
                assert(indiv_ref@.contains(p));
            } else {
                assert(indiv_ref@.contains(p) == old_t.contains(p));
                if exists|k: int|
                    0 <= k < i + 1 && spec_parse_u16(ps[k]) is Err && #[trigger] spec_from_str(ps[k])
                        == Ok::<(u16, u16), crate::text::PortParseError>((p, p)) {
                    let k = choose|k: int|
                        0 <= k < i + 1 && spec_parse_u16(ps[k]) is Err && #[trigger] spec_from_str(
                            ps[k],
                        ) == Ok::<(u16, u16), crate::text::PortParseError>((p, p));
                    assert(k < i);
                }
            }
        }
        assert forall|k: int|
            0 <= k < cands.len() implies (#[trigger] cands@[k]).0 < cands@[k].1 && !(cands@[k].0 == 0
                && cands@[k].1 == 65535) by {
            if k < old_cands.len() {
                assert(cands@[k] == old_cands[k]);
            }
        }
        i = i + 1;
    }
    assert(ps.take(i as int) =~= ps);
    let ghost unsorted = cands@;
    let sorted = sort_high_desc(cands);
    proof {
        lemma_stable_sort_members(unsorted, sorted@);
        assert forall|k: int|
            0 <= k < sorted.len() implies (#[trigger] sorted@[k]).0 < sorted@[k].1 && !(sorted@[k].0
                == 0 && sorted@[k].1 == 65535) by {
            assert(sorted@.contains(sorted@[k]));
            let j = choose|j: int| 0 <= j < unsorted.len() && unsorted[j] == sorted@[k];
            assert(unsorted[j] == cands@[j]);
        }
    }
    merge_ranges(&sorted)
}

/// Whether reading the port list does not panic, as `ports_read_defined` states.
fn ports_defined(ports: &[&str]) -> (r: bool)
    ensures
        r == ports_read_defined(texts(ports@)),
{
    let ghost ps = texts(ports@);
    let mut i: usize = 0;
    while i < ports.len()
        invariant
            i <= ports.len(),
            ps == texts(ports@),
            forall|k: int|
                0 <= k < i && spec_parse_u16(ps[k]) is Err ==> !#[trigger] spec_from_str_panics(ps[k]),
        decreases ports.len() - i,
    {
        assert(ps[i as int] == ports@[i as int]@);
        let cs = chars_of(ports[i]);
        assert(cs@.subrange(0, cs.len() as int) =~= cs@);
        let is_number = match parse_u16(&cs, 0, cs.len()) {
            Ok(_) => true,
            Err(_) => false,
        };
        if !is_number && from_str_panics(ports[i]) {
            return false;
        }
        i = i + 1;
    }
    true
}

/// Whether port `p` lies in one of the ranges.
fn in_some_range(range_ref: &Vec<RangePorts>, p: u16) -> (r: bool)
    ensures
        r == covered(pairs_of(range_ref@), p as int),
{
    let ghost pairs = pairs_of(range_ref@);
    let mut j: usize = 0;
    while j < range_ref.len()
        invariant
            j <= range_ref.len(),
            pairs == pairs_of(range_ref@),
            forall|k: int| 0 <= k < j ==> !(#[trigger] pairs[k].0 <= p <= pairs[k].1),
        decreases range_ref.len() - j,
    {
        assert(pairs[j as int] == (range_ref@[j as int].lo(), range_ref@[j as int].hi()));
        if range_ref[j].contains(p) {
            assert(pairs[j as int].0 <= p <= pairs[j as int].1);
            return true;
        }
        j = j + 1;
    }
    false
}

/// The ports marked in `indiv_ref` that no range holds, in ascending order.
fn parse_indiv_ports(range_ref: &Vec<RangePorts>, indiv_ref: &HashSet<u16>) -> (r: Vec<u16>)
    ensures
        r@ == ascending_ports(
            65536,
            |q: u16| indiv_ref@.contains(q) && !covered(pairs_of(range_ref@), q as int),
        ),
{
    broadcast use vstd::std_specs::hash::group_hash_axioms;

    let ghost pred = |q: u16| indiv_ref@.contains(q) && !covered(pairs_of(range_ref@), q as int);
    let mut r: Vec<u16> = Vec::new();
    let mut p: u32 = 0;
    while p < 65536
        invariant
            p <= 65536,
            pred == (|q: u16| indiv_ref@.contains(q) && !covered(pairs_of(range_ref@), q as int)),
            r@ == ascending_ports(p as int, pred),
        decreases 65536 - p,
    {
        let q = p as u16;
        assert(q as int == p as int);
        if indiv_ref.contains(&q) && !in_some_range(range_ref, q) {
            r.push(q);
        }
        p = p + 1;
    }
    r
}


/// The text that names the local host.
pub open spec fn localhost_text() -> Seq<char> {
    seq!['l', 'o', 'c', 'a', 'l', 'h', 'o', 's', 't']
}

/// The address a scanner reads: `localhost` is 127.0.0.1, anything else is read as a
/// dotted-decimal IPv4 address.
pub open spec fn spec_address(a: Seq<char>) -> Option<Ipv4Address> {
    if a == localhost_text() {
        Some(Ipv4Address(127, 0, 0, 1))
    } else {
        spec_parse_ipv4(a)
    }
}

/// The ranges to scan: the ranges of the port list, sorted by decreasing upper end and
/// merged in that order.
pub open spec fn spec_merged_ranges(ps: Seq<Seq<char>>) -> Option<Seq<(u16, u16)>> {
    spec_merge_all(spec_sort_high_desc(spec_range_candidates(ps)))
}

/// The single ports to scan: those the port list names on their own and no range to
/// scan holds, in ascending order.
pub open spec fn spec_indiv_ports(ps: Seq<Seq<char>>, merged: Seq<(u16, u16)>) -> Seq<u16> {
    ascending_ports(65536, |q: u16| names_single(ps, q) && !covered(merged, q as int))
}

/// The number of ports in the ranges.
pub open spec fn sum_counts(rs: Seq<(u16, u16)>) -> int
    decreases rs.len(),
{
    if rs.len() == 0 {
        0
    } else {
        sum_counts(rs.drop_last()) + (rs.last().1 - rs.last().0 + 1)
    }
}

/// The sum of the numbers.
pub open spec fn sum_u8(s: Seq<u8>) -> int
    decreases s.len(),
{
    if s.len() == 0 {
        0
    } else {
        sum_u8(s.drop_last()) + s.last()
    }
}

/// `a / b` rounded up and capped at `cap`; with `b == 0` it is `cap`, or `0` when `a`
/// is `0` as well.
pub open spec fn sat_ceil_div(a: int, b: int, cap: int) -> int {
    if b == 0 {
        if a == 0 {
            0
        } else {
            cap
        }
    } else if (a + b - 1) / b > cap {
        cap
    } else {
        (a + b - 1) / b
    }
}

/// The number of threads: the number of ports when there are fewer ports than both the
/// threads asked for and the cores, otherwise at most the number of cores (both
/// comparisons see the core count cut to the width of the other side).
pub open spec fn spec_thread_count(threads: u8, pts: u16, cores: usize) -> u8 {
    if threads > pts && pts < cores % 65536 {
        pts as u8
    } else if threads > cores % 256 {
        (cores % 256) as u8
    } else {
        threads
    }
}

/// The number of jobs of each range: its size over the chunk, rounded up, capped at 255.
pub open spec fn spec_range_threads(merged: Seq<(u16, u16)>, chunk: int) -> Seq<u8> {
    Seq::new(merged.len(), |i: int| sat_ceil_div(merged[i].1 - merged[i].0 + 1, chunk, 255) as u8)
}

/// The number of ports of each range.
pub open spec fn spec_range_counts(merged: Seq<(u16, u16)>) -> Seq<u16> {
    Seq::new(merged.len(), |i: int| (merged[i].1 - merged[i].0 + 1) as u16)
}

/// Everything a scanner is set up with.
pub struct ScannerPlan {
    pub address: Ipv4Address,
    pub total_threads: u8,
    pub ranges: Seq<(u16, u16)>,
    pub range_threads: Seq<u8>,
    pub range_counts: Seq<u16>,
    pub indiv_ports: Seq<u16>,
    pub ports_to_scan: u16,
    pub port_chunk: u16,
    pub indiv_jobs: u16,
    pub range_jobs: u16,
    pub total_jobs: u16,
    pub timeout: u64,
    pub verbose: bool,
}

/// How a scanner is set up from its arguments and the number of cores; `None` where
/// setting it up leaves `u16` (a merge step or the number of ports) or
/// `RangePorts::from_str` panics. (The job counts always fit: `lemma_jobs_fit`.)
pub open spec fn spec_setup(
    address: Seq<char>,
    threads: u8,
    ps: Seq<Seq<char>>,
    timeout: u64,
    verbose: u8,
    cores: usize,
) -> Option<Result<ScannerPlan, ScannerError>> {
    match spec_address(address) {
        None => Some(Err(ScannerError::IpParse)),
        Some(addr) => if !ports_read_defined(ps) {
            None
        } else {
            match spec_merged_ranges(ps) {
                None => None,
                Some(merged) => {
                    let indiv = spec_indiv_ports(ps, merged);
                    let pts = sum_counts(merged) + indiv.len() % 65536;
                    if pts > 65535 {
                        None
                    } else {
                        let th = spec_thread_count(threads, pts as u16, cores);
                        let chunk = sat_ceil_div(pts, th as int, 65535);
                        let rt = spec_range_threads(merged, chunk);
                        let rj = sum_u8(rt);
                        let ij = sat_ceil_div(indiv.len() as int, chunk, 65535);
                        {
                            Some(
                                Ok(
                                    ScannerPlan {
                                        address: addr,
                                        total_threads: th,
                                        ranges: merged,
                                        range_threads: rt,
                                        range_counts: spec_range_counts(merged),
                                        indiv_ports: indiv,
                                        ports_to_scan: pts as u16,
                                        port_chunk: chunk as u16,
                                        indiv_jobs: ij as u16,
                                        range_jobs: rj as u16,
                                        total_jobs: (rj + ij) as u16,
                                        timeout,
                                        verbose: verbose != 0,
                                    },
                                ),
                            )
                        }
                    }
                },
            }
        },
    }
}

/// Where setting up a scanner does not panic, whatever the number of cores.
pub open spec fn spec_setup_defined(address: Seq<char>, ps: Seq<Seq<char>>) -> bool {
    spec_address(address) is None || (ports_read_defined(ps) && match spec_merged_ranges(ps) {
        Some(m) => sum_counts(m) + spec_indiv_ports(ps, m).len() % 65536 <= 65535,
        None => false,
    })
}

/// What holds of every plan that `spec_setup` produces.
pub open spec fn plan_consistent(p: ScannerPlan) -> bool {
    &&& p.range_threads.len() == p.ranges.len()
    &&& forall|i: int|
        0 <= i < p.ranges.len() ==> (#[trigger] p.ranges[i]).0 < p.ranges[i].1 && p.ranges[i].1
            - p.ranges[i].0 < 65535
    &&& p.range_threads == spec_range_threads(p.ranges, p.port_chunk as int)
    &&& p.range_counts == spec_range_counts(p.ranges)
    &&& p.range_jobs == sum_u8(p.range_threads)
    &&& p.indiv_ports.len() <= 65536
    &&& p.indiv_jobs == sat_ceil_div(p.indiv_ports.len() as int, p.port_chunk as int, 65535)
    &&& p.total_jobs == p.range_jobs + p.indiv_jobs
    &&& p.ports_to_scan == sum_counts(p.ranges) + p.indiv_ports.len() % 65536
    &&& p.port_chunk == sat_ceil_div(p.ports_to_scan as int, p.total_threads as int, 65535)
}

proof fn lemma_ascending_ports_len(n: int, pred: spec_fn(u16) -> bool)
    ensures
        ascending_ports(n, pred).len() <= if n < 0 {
            0
        } else {
            n
        },
    decreases n,
{
    if n > 0 {
        lemma_ascending_ports_len(n - 1, pred);
    }
}

proof fn lemma_sum_counts_prefix(rs: Seq<(u16, u16)>, n: int)
    requires
        0 <= n <= rs.len(),
        forall|i: int| 0 <= i < rs.len() ==> (#[trigger] rs[i]).0 <= rs[i].1,
    ensures
        sum_counts(rs.take(n)) <= sum_counts(rs),
        sum_counts(rs.take(n)) >= 0,
    decreases rs.len() - n,
{
    if n < rs.len() {
        lemma_sum_counts_prefix(rs, n + 1);
        assert(rs.take(n + 1).drop_last() =~= rs.take(n));
        assert(rs.take(n + 1).last() == rs[n]);
        lemma_sum_counts_nonneg(rs.take(n));
    } else {
        assert(rs.take(n) =~= rs);
        lemma_sum_counts_nonneg(rs);
    }
}

proof fn lemma_sum_counts_nonneg(rs: Seq<(u16, u16)>)
    requires
        forall|i: int| 0 <= i < rs.len() ==> (#[trigger] rs[i]).0 <= rs[i].1,
    ensures
        sum_counts(rs) >= 0,
    decreases rs.len(),
{
    if rs.len() > 0 {
        lemma_sum_counts_nonneg(rs.drop_last());
    }
}

proof fn lemma_sum_u8_prefix(s: Seq<u8>, n: int)
    requires
        0 <= n <= s.len(),
    ensures
        0 <= sum_u8(s.take(n)) <= sum_u8(s),
    decreases s.len() - n,
{
    if n < s.len() {
        lemma_sum_u8_prefix(s, n + 1);
        assert(s.take(n + 1).drop_last() =~= s.take(n));
        lemma_sum_u8_nonneg(s.take(n));
    } else {
        assert(s.take(n) =~= s);
        lemma_sum_u8_nonneg(s);
    }
}

proof fn lemma_sum_u8_nonneg(s: Seq<u8>)
    ensures
        sum_u8(s) >= 0,
    decreases s.len(),
{
    if s.len() > 0 {
        lemma_sum_u8_nonneg(s.drop_last());
    }
}

/// `a / b` rounded up and capped at `cap`, as `sat_ceil_div` states.
fn ceil_div_capped(a: u32, b: u32, cap: u32) -> (r: u32)
    requires
        a <= 65536,
        b <= 65535,
    ensures
        r == sat_ceil_div(a as int, b as int, cap as int),
{
    if b == 0 {
        if a == 0 {
            0
        } else {
            cap
        }
    } else {
        let q = (a + b - 1) / b;
        if q > cap {
            cap
        } else {
            q
        }
    }
}

/// The number of threads, as `spec_thread_count` states.
fn thread_count(threads: u8, pts: u16, cores: usize) -> (r: u8)
    ensures
        r == spec_thread_count(threads, pts, cores),
{
    let cores16: u16 = (cores % 65536) as u16;
    let cores8: u8 = (cores % 256) as u8;
    if (threads as u16) > pts && pts < cores16 {
        pts as u8
    } else if threads > cores8 {
        cores8
    } else {
        threads
    }
}

/// Reads the address a scanner is set up with.
fn read_address(address: &str) -> (r: Option<Ipv4Address>)
    ensures
        r == spec_address(address@),
{
    let cs = chars_of(address);
    let mut lh: Vec<char> = Vec::new();
    lh.push('l');
    lh.push('o');
    lh.push('c');
    lh.push('a');
    lh.push('l');
    lh.push('h');
    lh.push('o');
    lh.push('s');
    lh.push('t');
    assert(lh@ =~= localhost_text());
    if same_text(&cs, &lh) {
        Some(Ipv4Address(127, 0, 0, 1))
    } else {
        parse_ipv4(&cs)
    }
}


/// Calls `num_cpus::get`, the number of logical cores this process may use; its
/// documentation promises at least 1. The value depends on the machine, so nothing
/// more is stated.
#[verifier::external_body]
fn logical_cores() -> (r: usize)
    ensures
        r >= 1,
{
    num_cpus::get()
}

/// A port scanner for one IPv4 address: the ranges and single ports to scan, and how
/// they are split into jobs.
#[derive(Debug, Clone)]
pub struct Scanner {
    address: Ipv4Address,
    total_threads: u8,
    range_ports: Vec<RangePorts>,
    indiv_ports: Vec<u16>,
    ports_to_scan: u16,
    port_chunk: u16,
    indiv_jobs: u16,
    range_jobs: u16,
    total_jobs: u16,
    timeout: u64,
    verbose: bool,
}

impl Scanner {
    /// What the scanner is set up with.
    pub closed spec fn plan(&self) -> ScannerPlan {
        ScannerPlan {
            address: self.address,
            total_threads: self.total_threads,
            ranges: pairs_of(self.range_ports@),
            range_threads: self.range_ports@.map_values(|r: RangePorts| r.threads()),
            range_counts: self.range_ports@.map_values(|r: RangePorts| r.count()),
            indiv_ports: self.indiv_ports@,
            ports_to_scan: self.ports_to_scan,
            port_chunk: self.port_chunk,
            indiv_jobs: self.indiv_jobs,
            range_jobs: self.range_jobs,
            total_jobs: self.total_jobs,
            timeout: self.timeout,
            verbose: self.verbose,
        }
    }

    /// Every stored range counts its own ports.
    pub closed spec fn ranges_wf(&self) -> bool {
        forall|k: int| 0 <= k < self.range_ports@.len() ==> (#[trigger] self.range_ports@[k]).wf()
    }

    pub open spec fn wf(&self) -> bool {
        self.ranges_wf() && plan_consistent(self.plan())
    }

    /// Sets up a scanner for `address` (`localhost` or a dotted-decimal IPv4 address)
    /// and the port list `ports` (single ports such as `22`, ranges such as `20-80`,
    /// `-80`, `20-`), asking for `threads` threads on a machine with `cores` cores;
    /// `None` where setting it up would leave `u16` or `RangePorts::from_str` would
    /// panic.
    pub fn try_with_cores(
        address: &str,
        threads: u8,
        ports: &[&str],
        timeout: u64,
        verbose: u8,
        cores: usize,
    ) -> (r: Option<Result<Self, ScannerError>>)
        ensures
            match r {
                Some(Ok(s)) => spec_setup(address@, threads, texts(ports@), timeout, verbose, cores)
                    == Some(Ok::<ScannerPlan, ScannerError>(s.plan())) && s.wf(),
                Some(Err(e)) => spec_setup(address@, threads, texts(ports@), timeout, verbose, cores)
                    == Some(Err::<ScannerPlan, ScannerError>(e)),
                None => spec_setup(address@, threads, texts(ports@), timeout, verbose, cores) is None,
            },
    {
        let ghost ps = texts(ports@);
        let addr = match read_address(address) {
            Some(a) => a,
            None => {
                return Some(Err(ScannerError::IpParse));
            },
        };
        if !ports_defined(ports) {
            return None;
        }
        let mut indiv_hash = single_ports(ports);
        let mut range_ports = match parse_range_ports(ports, &mut indiv_hash) {
            Some(v) => v,
            None => {
                return None;
            },
        };
        let indiv_ports = parse_indiv_ports(&range_ports, &indiv_hash);
        let ghost merged = pairs_of(range_ports@);
        proof {
            assert forall|q: u16| indiv_hash@.contains(q) == names_single(ps, q) by {
                lemma_names_single(ps, q);
            }
            let f = |q: u16| indiv_hash@.contains(q) && !covered(pairs_of(range_ports@), q as int);
            let g = |q: u16| names_single(ps, q) && !covered(merged, q as int);
            assert(f =~= g);
            assert(indiv_ports@ == spec_indiv_ports(ps, merged));
            lemma_ascending_ports_len(65536, g);
        }
        let mut total: u32 = 0;
        let mut j: usize = 0;
        assert(merged.take(0) =~= Seq::<(u16, u16)>::empty());
        while j < range_ports.len()
            invariant
                j <= range_ports.len(),
                merged == pairs_of(range_ports@),
                forall|k: int| 0 <= k < range_ports.len() ==> (#[trigger] range_ports@[k]).wf(),
                forall|i: int| 0 <= i < merged.len() ==> (#[trigger] merged[i]).0 <= merged[i].1,
                total == sum_counts(merged.take(j as int)),
                total <= 65535,
                ps == texts(ports@),
                spec_address(address@) == Some(addr),
                ports_read_defined(ps),
                spec_merged_ranges(ps) == Some(merged),
                indiv_ports@ == spec_indiv_ports(ps, merged),
            decreases range_ports.len() - j,
        {
            proof {
                lemma_sum_counts_prefix(merged, j + 1);
                assert(merged.take(j + 1).drop_last() =~= merged.take(j as int));
                assert(merged.take(j + 1).last() == merged[j as int]);
                assert(merged[j as int] == (range_ports@[j as int].lo(), range_ports@[j as int].hi()));
            }
            total = total + range_ports[j].get_num() as u32;
            if total > 65535 {
                return None;
            }
            j = j + 1;
        }
        assert(merged.take(j as int) =~= merged);
        let l = indiv_ports.len();
        let l16: u16 = if l == 65536 {
            0
        } else {
            l as u16
        };
        total = total + l16 as u32;
        if total > 65535 {
            return None;
        }
        let ports_to_scan = total as u16;
        let threads = thread_count(threads, ports_to_scan, cores);
        let port_chunk = ceil_div_capped(ports_to_scan as u32, threads as u32, 65535) as u16;
        let ghost rt = spec_range_threads(merged, port_chunk as int);
        proof {
            lemma_jobs_fit(merged, ps, threads);
        }
        let mut total_jobs: u16 = 0;
        j = 0;
        assert(rt.take(0) =~= Seq::<u8>::empty());
        while j < range_ports.len()
            invariant
                j <= range_ports.len() == merged.len() == rt.len(),
                merged == pairs_of(range_ports@),
                rt == spec_range_threads(merged, port_chunk as int),
                port_chunk <= 65535,
                forall|k: int| 0 <= k < range_ports.len() ==> (#[trigger] range_ports@[k]).wf(),
                forall|k: int| 0 <= k < j ==> (#[trigger] range_ports@[k]).threads() == rt[k],
                sum_u8(rt) + sat_ceil_div(l as int, port_chunk as int, 65535) <= 65535,
                total_jobs == sum_u8(rt.take(j as int)),
            decreases range_ports.len() - j,
        {
            proof {
                lemma_sum_u8_prefix(rt, j + 1);
                assert(rt.take(j + 1).drop_last() =~= rt.take(j as int));
                assert(rt.take(j + 1).last() == rt[j as int]);
                assert(merged[j as int] == (range_ports@[j as int].lo(), range_ports@[j as int].hi()));
            }
            let t = ceil_div_capped(range_ports[j].get_num() as u32, port_chunk as u32, 255) as u8;
            let ghost old_rp = range_ports@;
            let mut rp = range_ports[j];
            rp.set_threads_to_use(t);
            range_ports.set(j, rp);
            assert(pairs_of(range_ports@) =~= pairs_of(old_rp));
            assert forall|k: int| 0 <= k < j + 1 implies (#[trigger] range_ports@[k]).threads() == rt[k] by {
                if k < j {
                    assert(range_ports@[k] == old_rp[k]);
                }
            }
            assert forall|k: int| 0 <= k < range_ports.len() implies (#[trigger] range_ports@[k]).wf() by {
                if k != j {
                    assert(range_ports@[k] == old_rp[k]);
                }
            }
            total_jobs = total_jobs + t as u16;
            j = j + 1;
        }
        assert(rt.take(j as int) =~= rt);
        let indiv_jobs = ceil_div_capped(l as u32, port_chunk as u32, 65535) as u16;
        let range_jobs = total_jobs;
        total_jobs = total_jobs + indiv_jobs;
        let s = Scanner {
            address: addr,
            total_threads: threads,
            range_ports,
            indiv_ports,
            ports_to_scan,
            port_chunk,
            indiv_jobs,
            range_jobs,
            total_jobs,
            timeout,
            verbose: if verbose != 0 {
                true
            } else {
                false
            },
        };
        assert(s.plan().range_threads =~= rt);
        assert(s.plan().range_counts =~= spec_range_counts(merged));
        assert(s.ranges_wf());
        Some(Ok(s))
    }

    /// `try_with_cores` where setting up does not panic.
    pub fn with_cores(
        address: &str,
        threads: u8,
        ports: &[&str],
        timeout: u64,
        verbose: u8,
        cores: usize,
    ) -> (r: Result<Self, ScannerError>)
        requires
            spec_setup_defined(address@, texts(ports@)),
        ensures
            match r {
                Ok(s) => spec_setup(address@, threads, texts(ports@), timeout, verbose, cores) == Some(
                    Ok::<ScannerPlan, ScannerError>(s.plan()),
                ) && s.wf(),
                Err(e) => spec_setup(address@, threads, texts(ports@), timeout, verbose, cores)
                    == Some(Err::<ScannerPlan, ScannerError>(e)),
            },
    {
        match Self::try_with_cores(address, threads, ports, timeout, verbose, cores) {
            Some(r) => r,
            None => {
                proof {
                    assert(false);
                }
                Err(ScannerError::IpParse)
            },
        }
    }

    /// `try_with_cores` with the number of logical cores of this machine.
    pub fn try_new(address: &str, threads: u8, ports: &[&str], timeout: u64, verbose: u8) -> (r: Option<
        Result<Self, ScannerError>,
    >)
        ensures
            exists|c: usize|
                c >= 1 && match r {
                    Some(Ok(s)) => #[trigger] spec_setup(address@, threads, texts(ports@), timeout, verbose, c)
                        == Some(Ok::<ScannerPlan, ScannerError>(s.plan())) && s.wf(),
                    Some(Err(e)) => spec_setup(address@, threads, texts(ports@), timeout, verbose, c)
                        == Some(Err::<ScannerPlan, ScannerError>(e)),
                    None => spec_setup(address@, threads, texts(ports@), timeout, verbose, c) is None,
                },
    {
        let cores = logical_cores();
        Self::try_with_cores(address, threads, ports, timeout, verbose, cores)
    }

    /// Sets up a scanner as `with_cores` does, with the number of logical cores of this
    /// machine.
    pub fn new(address: &str, threads: u8, ports: &[&str], timeout: u64, verbose: u8) -> (r: Result<
        Self,
        ScannerError,
    >)
        requires
            spec_setup_defined(address@, texts(ports@)),
        ensures
            exists|c: usize|
                c >= 1 && match r {
                    Ok(s) => #[trigger] spec_setup(address@, threads, texts(ports@), timeout, verbose, c)
                        == Some(Ok::<ScannerPlan, ScannerError>(s.plan())) && s.wf(),
                    Err(e) => spec_setup(address@, threads, texts(ports@), timeout, verbose, c) == Some(
                        Err::<ScannerPlan, ScannerError>(e),
                    ),
                },
    {
        let cores = logical_cores();
        Self::with_cores(address, threads, ports, timeout, verbose, cores)
    }
}


/// The ports `a..=b` in ascending order (empty when `b < a`).
pub open spec fn ports_in(a: int, b: int) -> Seq<u16> {
    Seq::new(if b < a { 0nat } else { (b - a + 1) as nat }, |k: int| (a + k) as u16)
}

/// The ports of the ranges, range after range.
pub open spec fn range_port_seq(rs: Seq<(u16, u16)>) -> Seq<u16>
    decreases rs.len(),
{
    if rs.len() == 0 {
        Seq::<u16>::empty()
    } else {
        range_port_seq(rs.drop_last()) + ports_in(rs.last().0 as int, rs.last().1 as int)
    }
}

/// The lists one after the other.
pub open spec fn concat_all(ss: Seq<Seq<u16>>) -> Seq<u16>
    decreases ss.len(),
{
    if ss.len() == 0 {
        Seq::<u16>::empty()
    } else {
        concat_all(ss.drop_last()) + ss.last()
    }
}

proof fn lemma_ports_in_concat(a: int, b: int, c: int)
    requires
        a <= b + 1,
        b <= c,
    ensures
        ports_in(a, b) + ports_in(b + 1, c) == ports_in(a, c),
{
    assert(ports_in(a, b) + ports_in(b + 1, c) =~= ports_in(a, c));
}

proof fn lemma_ceil_div(a: int, b: int)
    requires
        a >= 0,
        b > 0,
    ensures
        ((a + b - 1) / b) * b >= a,
        ((a + b - 1) / b - 1) * b < a,
        (a + b - 1) / b >= 0,
        a > 0 ==> (a + b - 1) / b >= 1,
{
    let q = (a + b - 1) / b;
    let r = (a + b - 1) % b;
    assert(a + b - 1 == q * b + r && 0 <= r < b) by (nonlinear_arith)
        requires
            b > 0,
            q == (a + b - 1) / b,
            r == (a + b - 1) % b,
    ;
    assert((q - 1) * b == q * b - b) by (nonlinear_arith);
    assert(q >= 0) by (nonlinear_arith)
        requires
            a >= 0,
            b > 0,
            q == (a + b - 1) / b,
    ;
    if a > 0 {
        assert(q >= 1) by (nonlinear_arith)
            requires
                q * b >= a,
                a > 0,
                b > 0,
                q >= 0,
        ;
    }
}

proof fn lemma_mul_le(x: int, y: int, b: int)
    requires
        0 <= x <= y,
        b >= 0,
    ensures
        x * b <= y * b,
{
    assert(x * b <= y * b) by (nonlinear_arith)
        requires
            0 <= x <= y,
            b >= 0,
    ;
}

proof fn lemma_sum_counts_lower(rs: Seq<(u16, u16)>)
    requires
        forall|i: int| 0 <= i < rs.len() ==> (#[trigger] rs[i]).0 < rs[i].1,
    ensures
        sum_counts(rs) >= 2 * rs.len(),
    decreases rs.len(),
{
    if rs.len() > 0 {
        assert forall|i: int| 0 <= i < rs.drop_last().len() implies (#[trigger] rs.drop_last()[i]).0
            < rs.drop_last()[i].1 by {
            assert(rs.drop_last()[i] == rs[i]);
        }
        lemma_sum_counts_lower(rs.drop_last());
    }
}

proof fn lemma_sum_u8_lower(s: Seq<u8>)
    requires
        forall|i: int| 0 <= i < s.len() ==> #[trigger] s[i] >= 1,
    ensures
        sum_u8(s) >= s.len(),
    decreases s.len(),
{
    if s.len() > 0 {
        assert forall|i: int| 0 <= i < s.drop_last().len() implies #[trigger] s.drop_last()[i] >= 1 by {
            assert(s.drop_last()[i] == s[i]);
        }
        lemma_sum_u8_lower(s.drop_last());
    }
}

/// In a set-up plan, every range has at least one job, the chunk is positive when there
/// is a range, and there are no more ranges than range jobs.
proof fn lemma_plan_ranges(p: ScannerPlan)
    requires
        plan_consistent(p),
    ensures
        p.ranges.len() > 0 ==> p.port_chunk > 0,
        forall|i: int| 0 <= i < p.ranges.len() ==> #[trigger] p.range_threads[i] >= 1,
        p.ranges.len() <= p.range_jobs,
{
    lemma_sum_counts_lower(p.ranges);
    if p.ranges.len() > 0 {
        if p.total_threads > 0 {
            lemma_ceil_div(p.ports_to_scan as int, p.total_threads as int);
        }
    }
    assert forall|i: int| 0 <= i < p.ranges.len() implies #[trigger] p.range_threads[i] >= 1 by {
        let c = p.ranges[i].1 - p.ranges[i].0 + 1;
        assert(p.range_threads[i] == sat_ceil_div(c, p.port_chunk as int, 255) as u8);
        if p.port_chunk > 0 {
            lemma_ceil_div(c, p.port_chunk as int);
        }
    }
    lemma_sum_u8_lower(p.range_threads);
}

impl Scanner {
    /// The address to scan.
    pub fn get_address(&self) -> (r: Ipv4Address)
        ensures
            r == self.plan().address,
    {
        self.address
    }

    /// The number of ports to scan.
    pub fn get_ports_to_scan(&self) -> (r: u16)
        ensures
            r == self.plan().ports_to_scan,
    {
        self.ports_to_scan
    }

    /// The number of worker threads of the scan.
    pub fn get_total_threads(&self) -> (r: u8)
        ensures
            r == self.plan().total_threads,
    {
        self.total_threads
    }

    /// How long a connection attempt may take, in milliseconds.
    pub fn get_timeout(&self) -> (r: u64)
        ensures
            r == self.plan().timeout,
    {
        self.timeout
    }

    /// Whether each open port is reported as it is found.
    pub fn is_verbose(&self) -> (r: bool)
        ensures
            r == self.plan().verbose,
    {
        self.verbose
    }

    /// The single ports of job `iteration`: the chunk starting at `port_chunk *
    /// iteration`, the last job taking everything that is left.
    pub fn divide_indiv_ports(&self, iteration: u16) -> (r: Vec<u16>)
        requires
            self.wf(),
            iteration < self.plan().indiv_jobs,
        ensures
            self.plan().port_chunk * iteration <= self.plan().indiv_ports.len(),
            iteration < self.plan().indiv_jobs - 1 ==> self.plan().port_chunk * (iteration + 1)
                <= self.plan().indiv_ports.len(),
            r@ == self.plan().indiv_ports.subrange(
                self.plan().port_chunk * iteration,
                if iteration == self.plan().indiv_jobs - 1 {
                    self.plan().indiv_ports.len() as int
                } else {
                    self.plan().port_chunk * (iteration + 1)
                },
            ),
    {
        let ghost p = self.plan();
        let pc: u16 = self.port_chunk;
        let ghost len = self.indiv_ports@.len() as int;
        proof {
            if pc == 0 {
                assert(pc * iteration == 0);
                assert(pc * (iteration + 1) == 0);
            } else {
                lemma_ceil_div(len, pc as int);
                let q = (len + pc - 1) / (pc as int);
                assert(iteration <= q - 1);
                lemma_mul_le(iteration as int, q - 1, pc as int);
                assert(iteration * pc == pc * iteration) by (nonlinear_arith);
                lemma_mul_le(iteration as int, iteration + 1, pc as int);
                assert((iteration + 1) * pc == pc * (iteration + 1)) by (nonlinear_arith);
                if iteration < p.indiv_jobs - 1 {
                    lemma_mul_le(iteration + 1, q - 1, pc as int);
                    assert((iteration + 1) * pc == pc * (iteration + 1)) by (nonlinear_arith);
                }
            }
        }
        let actual = (pc * iteration) as usize;
        if iteration == self.indiv_jobs - 1 {
            let mut r: Vec<u16> = Vec::new();
            let mut k: usize = actual;
            while k < self.indiv_ports.len()
                invariant
                    actual <= k <= self.indiv_ports.len(),
                    r@ == self.indiv_ports@.subrange(actual as int, k as int),
                decreases self.indiv_ports.len() - k,
            {
                r.push(self.indiv_ports[k]);
                k = k + 1;
                assert(r@ =~= self.indiv_ports@.subrange(actual as int, k as int));
            }
            r
        } else {
            let next = (pc * (iteration + 1)) as usize;
            let mut r: Vec<u16> = Vec::new();
            let mut k: usize = actual;
            while k < next
                invariant
                    actual <= k <= next <= self.indiv_ports.len(),
                    r@ == self.indiv_ports@.subrange(actual as int, k as int),
                decreases next - k,
            {
                r.push(self.indiv_ports[k]);
                k = k + 1;
                assert(r@ =~= self.indiv_ports@.subrange(actual as int, k as int));
            }
            r
        }
    }

    /// The next range job: the range at `position` whole when it has a single job,
    /// otherwise its part number `part` of `port_chunk` ports (the last part reaching
    /// the end of the range); moves `position` and `part` on to the next job.
    pub fn divide_range_ports(&self, position: &mut u16, part: &mut u16) -> (r: RangePorts)
        requires
            self.wf(),
            *old(position) < self.plan().ranges.len(),
            *old(part) < self.plan().range_threads[*old(position) as int],
        ensures
            ({
                let p = self.plan();
                let pos = *old(position) as int;
                let (lo, hi) = p.ranges[pos];
                let t = p.range_threads[pos];
                let pc = p.port_chunk as int;
                let pt = *old(part) as int;
                if t == 1 {
                    &&& r.lo() == lo && r.hi() == hi
                    &&& *final(position) == pos + 1 && *final(part) == pt
                } else {
                    &&& r.lo() == lo + pt * pc
                    &&& r.hi() == if pt == t - 1 {
                        hi as int
                    } else {
                        lo + (pt + 1) * pc - 1
                    }
                    &&& pt == t - 1 ==> *final(position) == pos + 1 && *final(part) == 0
                    &&& pt < t - 1 ==> *final(position) == pos && *final(part) == pt + 1
                }
            }),
            r.wf(),
    {
        let ghost p = self.plan();
        let ghost pos = *position as int;
        proof {
            lemma_plan_ranges(p);
            assert(p.ranges[pos] == (self.range_ports@[pos].lo(), self.range_ports@[pos].hi()));
            assert(p.range_threads[pos] == self.range_ports@[pos].threads());
            assert(self.range_ports@[pos].wf());
        }
        let pc: u16 = self.port_chunk;
        let rng_prt = self.range_ports[*position as usize];
        if rng_prt.get_threads_to_use() == 1 {
            *position += 1;
            rng_prt
        } else {
            let ghost t = rng_prt.threads() as int;
            let ghost c = rng_prt.count() as int;
            let ghost pt = *part as int;
            let ghost lo = rng_prt.lo() as int;
            let ghost hi = rng_prt.hi() as int;
            proof {
                assert(p.ranges[pos].0 < p.ranges[pos].1);
                assert(pc > 0);
                assert(t == sat_ceil_div(c, pc as int, 255));
                lemma_ceil_div(c, pc as int);
                let q = (c + pc - 1) / (pc as int);
                assert(t <= q);
                lemma_mul_le(*part as int, t - 1, pc as int);
                lemma_mul_le(t - 1, q - 1, pc as int);
                assert(*part * pc == (*part as int) * (pc as int)) by (nonlinear_arith);
                if (*part as int) < t - 1 {
                    lemma_mul_le(*part + 1, t - 1, pc as int);
                }
                assert((*part as int + 1) * (pc as int) <= 255 * 65535) by (nonlinear_arith)
                    requires
                        *part as int + 1 <= 255,
                        pc <= 65535,
                ;
                assert((pt + 1) * (pc as int) == pt * (pc as int) + pc) by (nonlinear_arith);
                assert((t - 1) * (pc as int) < c);
                assert(pt * (pc as int) <= (t - 1) * (pc as int));
                assert(lo + pt * pc <= hi);
                if pt < t - 1 {
                    assert((pt + 1) * (pc as int) <= (t - 1) * (pc as int));
                    assert(lo + (pt + 1) * pc - 1 < hi);
                }
                assert(c == hi - lo + 1);
            }
            let low = rng_prt.get_low() + *part * pc;
            let mut high = (rng_prt.get_low() as u32) + ((*part + 1) as u32) * (pc as u32) - 1;
            if *part == (rng_prt.get_threads_to_use() - 1) as u16 {
                *position += 1;
                *part = 0;
                high = rng_prt.get_high() as u32;
            } else {
                *part += 1;
            }
            RangePorts::new(low, high as u16)
        }
    }
}


/// The single ports of job `i` of `jobs`: the chunk of `pc` ports from `pc * i` on,
/// the last job taking everything that is left.
pub open spec fn indiv_part(indiv: Seq<u16>, pc: int, jobs: int, i: int) -> Seq<u16> {
    indiv.subrange(pc * i, if i == jobs - 1 {
        indiv.len() as int
    } else {
        pc * (i + 1)
    })
}

/// Part `k` of the `t` parts of `lo..=hi`: `pc` ports from `lo + k * pc` on, the last
/// part reaching `hi`.
pub open spec fn range_part(lo: u16, hi: u16, t: int, pc: int, k: int) -> (u16, u16) {
    (
        (lo + k * pc) as u16,
        if k == t - 1 {
            hi
        } else {
            (lo + (k + 1) * pc - 1) as u16
        },
    )
}

/// The parts of every range, range after range.
pub open spec fn range_parts(ranges: Seq<(u16, u16)>, rt: Seq<u8>, pc: int) -> Seq<(u16, u16)>
    decreases ranges.len(),
{
    if ranges.len() == 0 || rt.len() == 0 {
        Seq::<(u16, u16)>::empty()
    } else {
        range_parts(ranges.drop_last(), rt.drop_last(), pc) + Seq::new(
            rt.last() as nat,
            |k: int| range_part(ranges.last().0, ranges.last().1, rt.last() as int, pc, k),
        )
    }
}

/// The contents of each list.
pub open spec fn views_of(vs: Seq<Vec<u16>>) -> Seq<Seq<u16>> {
    vs.map_values(|v: Vec<u16>| v@)
}

impl Scanner {
    /// The jobs of a scan, as `divide_indiv_ports` and `divide_range_ports` hand them
    /// out: `indiv_jobs` lists of single ports, then `range_jobs` ranges. Together they
    /// hold every port to scan once, in order.
    pub fn job_slices(&self) -> (r: (Vec<Vec<u16>>, Vec<RangePorts>))
        requires
            self.wf(),
        ensures
            r.0.len() == self.plan().indiv_jobs,
            concat_all(views_of(r.0@)) == self.plan().indiv_ports,
            forall|i: int|
                0 <= i < r.0.len() ==> (#[trigger] r.0@[i])@ == indiv_part(
                    self.plan().indiv_ports,
                    self.plan().port_chunk as int,
                    self.plan().indiv_jobs as int,
                    i,
                ),
            r.1.len() == self.plan().range_jobs,
            pairs_of(r.1@) == range_parts(
                self.plan().ranges,
                self.plan().range_threads,
                self.plan().port_chunk as int,
            ),
            range_port_seq(pairs_of(r.1@)) == range_port_seq(self.plan().ranges),
            forall|k: int| 0 <= k < r.1.len() ==> (#[trigger] r.1@[k]).wf(),
    {
        let ghost p = self.plan();
        let ghost indiv = p.indiv_ports;
        let ghost pc = p.port_chunk as int;
        let mut indiv_slices: Vec<Vec<u16>> = Vec::new();
        let mut i: u16 = 0;
        proof {
            if p.indiv_jobs == 0 {
                if pc > 0 {
                    lemma_ceil_div(indiv.len() as int, pc);
                }
                assert(indiv.len() == 0);
            }
            assert(indiv.subrange(0, 0) =~= Seq::<u16>::empty());
            assert(views_of(indiv_slices@) =~= Seq::<Seq<u16>>::empty());
            assert(0 * pc == 0);
        }
        while i < self.indiv_jobs
            invariant
                p == self.plan(),
                self.wf(),
                indiv == p.indiv_ports,
                pc == p.port_chunk,
                i <= p.indiv_jobs,
                indiv_slices.len() == i,
                p.indiv_jobs == 0 ==> indiv.len() == 0,
                i < p.indiv_jobs ==> pc * i <= indiv.len() && concat_all(views_of(indiv_slices@))
                    == indiv.subrange(0, pc * i),
                i == p.indiv_jobs && i > 0 ==> concat_all(views_of(indiv_slices@)) == indiv,
                forall|k: int|
                    0 <= k < indiv_slices.len() ==> (#[trigger] indiv_slices@[k])@ == indiv_part(
                        indiv,
                        pc,
                        p.indiv_jobs as int,
                        k,
                    ),
            decreases p.indiv_jobs - i,
        {
            let slice = self.divide_indiv_ports(i);
            let ghost old_slices = indiv_slices@;
            indiv_slices.push(slice);
            proof {
                assert forall|k: int|
                    0 <= k < indiv_slices.len() implies (#[trigger] indiv_slices@[k])@ == indiv_part(
                    indiv,
                    pc,
                    p.indiv_jobs as int,
                    k,
                ) by {
                    if k < old_slices.len() {
                        assert(indiv_slices@[k] == old_slices[k]);
                    }
                }
                assert(views_of(indiv_slices@) =~= views_of(old_slices).push(slice@));
                assert(views_of(indiv_slices@).drop_last() =~= views_of(old_slices));
                if i == p.indiv_jobs - 1 {
                    assert(indiv.subrange(0, pc * i) + indiv.subrange(pc * i, indiv.len() as int) =~= indiv);
                } else {
                    lemma_mul_le(i as int, i + 1, pc);
                    assert(i * pc == pc * i && (i + 1) * pc == pc * (i + 1)) by (nonlinear_arith);
                    assert(indiv.subrange(0, pc * i) + indiv.subrange(pc * i, pc * (i + 1))
                        =~= indiv.subrange(0, pc * (i + 1)));
                }
            }
            i = i + 1;
        }
        let mut range_slices: Vec<RangePorts> = Vec::new();
        let mut position: u16 = 0;
        let mut part: u16 = 0;
        let mut c: u16 = 0;
        let ghost ranges = p.ranges;
        let ghost rt = p.range_threads;
        proof {
            lemma_plan_ranges(p);
            lemma_sum_u8_prefix(rt, 0);
            assert(rt.take(0) =~= Seq::<u8>::empty());
            assert(ranges.take(0) =~= Seq::<(u16, u16)>::empty());
            assert(pairs_of(range_slices@) =~= Seq::<(u16, u16)>::empty());
            if ranges.len() > 0 {
                assert(Seq::new(
                    0nat,
                    |k: int| range_part(ranges[0].0, ranges[0].1, rt[0] as int, pc, k),
                ) =~= Seq::<(u16, u16)>::empty());
            }
            if ranges.len() > 0 {
                assert(ports_in(ranges[0].0 as int, ranges[0].0 + 0 * pc - 1) =~= Seq::<u16>::empty());
            }
        }
        while c < self.range_jobs
            invariant
                p == self.plan(),
                self.wf(),
                ranges == p.ranges,
                rt == p.range_threads,
                pc == p.port_chunk,
                rt.len() == ranges.len(),
                c <= p.range_jobs == sum_u8(rt),
                range_slices.len() == c,
                position <= ranges.len(),
                c == sum_u8(rt.take(position as int)) + part,
                position < ranges.len() ==> part < rt[position as int],
                position == ranges.len() ==> part == 0,
                forall|k: int| 0 <= k < range_slices.len() ==> (#[trigger] range_slices@[k]).wf(),
                range_port_seq(pairs_of(range_slices@)) == range_port_seq(ranges.take(position as int))
                    + if position < ranges.len() {
                    ports_in(ranges[position as int].0 as int, ranges[position as int].0 + part * pc - 1)
                } else {
                    Seq::<u16>::empty()
                },
                pairs_of(range_slices@) == range_parts(ranges.take(position as int), rt.take(position as int), pc)
                    + if position < ranges.len() {
                    Seq::new(
                        part as nat,
                        |k: int|
                            range_part(
                                ranges[position as int].0,
                                ranges[position as int].1,
                                rt[position as int] as int,
                                pc,
                                k,
                            ),
                    )
                } else {
                    Seq::<(u16, u16)>::empty()
                },
            decreases p.range_jobs - c,
        {
            proof {
                lemma_plan_ranges(p);
                if position == ranges.len() {
                    assert(rt.take(position as int) =~= rt);
                }
            }
            let ghost pos = position as int;
            let ghost pt = part as int;
            let ghost old_slices = range_slices@;
            let rs = self.divide_range_ports(&mut position, &mut part);
            range_slices.push(rs);
            proof {
                let (lo, hi) = ranges[pos];
                let t = rt[pos] as int;
                assert(pairs_of(range_slices@) =~= pairs_of(old_slices).push((rs.lo(), rs.hi())));
                assert(pairs_of(range_slices@).drop_last() =~= pairs_of(old_slices));
                assert(ranges.take(pos + 1).drop_last() =~= ranges.take(pos));
                let parts_old = Seq::new(pt as nat, |k: int| range_part(lo, hi, t, pc, k));
                let parts_new = Seq::new((pt + 1) as nat, |k: int| range_part(lo, hi, t, pc, k));
                assert(t >= 1);
                assert((rs.lo(), rs.hi()) == range_part(lo, hi, t, pc, pt)) by {
                    if t == 1 {
                        assert(pt == 0);
                        assert(pt * pc == 0);
                    }
                }
                assert(parts_old.push((rs.lo(), rs.hi())) =~= parts_new);
                if pt == t - 1 {
                    let rtk = rt.take(pos + 1);
                    let rgk = ranges.take(pos + 1);
                    assert(rtk.drop_last() =~= rt.take(pos));
                    assert(rgk.drop_last() =~= ranges.take(pos));
                    assert(rtk.last() == rt[pos]);
                    assert(rgk.last() == ranges[pos]);
                    assert(Seq::new(
                        rtk.last() as nat,
                        |k: int| range_part(rgk.last().0, rgk.last().1, rtk.last() as int, pc, k),
                    ) =~= parts_new);
                    assert(range_parts(ranges.take(pos + 1), rt.take(pos + 1), pc) == range_parts(
                        ranges.take(pos),
                        rt.take(pos),
                        pc,
                    ) + parts_new);
                    assert(pairs_of(range_slices@) =~= range_parts(ranges.take(pos + 1), rt.take(pos + 1), pc));
                    if position < ranges.len() {
                        assert(Seq::new(
                            0nat,
                            |k: int|
                                range_part(
                                    ranges[position as int].0,
                                    ranges[position as int].1,
                                    rt[position as int] as int,
                                    pc,
                                    k,
                                ),
                        ) =~= Seq::<(u16, u16)>::empty());
                    }
                }
                assert(rt.take(pos + 1).drop_last() =~= rt.take(pos));
                lemma_sum_u8_prefix(rt, pos + 1);
                assert(lo < hi);
                if t == 1 {
                    assert(ports_in(lo as int, lo + pt * pc - 1) =~= Seq::<u16>::empty());
                } else {
                    assert(pc > 0);
                    assert(pt * pc >= 0) by (nonlinear_arith)
                        requires
                            pt >= 0,
                            pc > 0,
                    ;
                    assert((pt + 1) * pc == pt * pc + pc) by (nonlinear_arith);
                    if pt == t - 1 {
                        lemma_ports_in_concat(lo as int, lo + pt * pc - 1, hi as int);
                    } else {
                        lemma_ports_in_concat(lo as int, lo + pt * pc - 1, lo + (pt + 1) * pc - 1);
                    }
                }
                if position < ranges.len() && position as int == pos + 1 {
                    assert(ports_in(ranges[position as int].0 as int, ranges[position as int].0 + 0 * pc - 1)
                        =~= Seq::<u16>::empty());
                }
                assert forall|k: int| 0 <= k < range_slices.len() implies (#[trigger] range_slices@[k]).wf() by {
                    if k < old_slices.len() {
                        assert(range_slices@[k] == old_slices[k]);
                    }
                }
            }
            c = c + 1;
        }
        proof {
            if position < ranges.len() {
                lemma_sum_u8_prefix(rt, position + 1);
                assert(rt.take(position + 1).drop_last() =~= rt.take(position as int));
            }
            assert(ranges.take(position as int) =~= ranges);
            assert(rt.take(position as int) =~= rt);
        }
        (indiv_slices, range_slices)
    }

    /// The result of a scan from the open ports that its jobs found: the address, and the
    /// ports found, each once, in ascending order.
    pub fn finish_scan(&self, found: Vec<u16>) -> (r: (Ipv4Address, Vec<u16>))
        ensures
            r.0 == self.plan().address,
            is_strictly_ascending(r.1@),
            forall|q: u16| r.1@.contains(q) <==> found@.contains(q),
    {
        (self.address, sorted_distinct(found))
    }
}


proof fn lemma_ascending_ports_full(n: int, pred: spec_fn(u16) -> bool)
    requires
        0 <= n,
        ascending_ports(n, pred).len() == n,
    ensures
        forall|q: int| 0 <= q < n ==> #[trigger] pred(q as u16),
    decreases n,
{
    if n > 0 {
        lemma_ascending_ports_len(n - 1, pred);
        lemma_ascending_ports_full(n - 1, pred);
        assert(pred((n - 1) as u16));
    }
}

proof fn lemma_range_threads_bound(m: Seq<(u16, u16)>, k: int)
    requires
        k > 0,
        forall|i: int| 0 <= i < m.len() ==> (#[trigger] m[i]).0 < m[i].1,
    ensures
        sum_u8(spec_range_threads(m, k)) * k <= sum_counts(m) + m.len() * (k - 1),
    decreases m.len(),
{
    if m.len() > 0 {
        let rt = spec_range_threads(m, k);
        let init = m.drop_last();
        assert forall|i: int| 0 <= i < init.len() implies (#[trigger] init[i]).0 < init[i].1 by {
            assert(init[i] == m[i]);
        }
        lemma_range_threads_bound(init, k);
        assert(rt.drop_last() =~= spec_range_threads(init, k));
        let c = m.last().1 - m.last().0 + 1;
        lemma_ceil_div(c, k);
        let q = (c + k - 1) / k;
        let t = rt.last() as int;
        assert(t <= q);
        assert(t * k <= q * k) by (nonlinear_arith)
            requires
                0 <= t <= q,
                k > 0,
        ;
        assert(q * k <= c + k - 1) by (nonlinear_arith)
            requires
                (q - 1) * k < c,
                k > 0,
        ;
        let a = sum_u8(rt.drop_last());
        assert((a + t) * k == a * k + t * k) by (nonlinear_arith);
        assert(m.len() * (k - 1) == init.len() * (k - 1) + (k - 1)) by (nonlinear_arith)
            requires
                m.len() == init.len() + 1,
        ;
    }
}

/// The job counts of a scanner always fit in a `u16`: with `k` ports per job, the jobs
/// number at most the threads, plus one per range, plus one.
pub proof fn lemma_jobs_fit(m: Seq<(u16, u16)>, ps: Seq<Seq<char>>, th: u8)
    requires
        forall|i: int| 0 <= i < m.len() ==> (#[trigger] m[i]).0 < m[i].1,
        sum_counts(m) + spec_indiv_ports(ps, m).len() % 65536 <= 65535,
    ensures
        ({
            let indiv = spec_indiv_ports(ps, m);
            let pts = sum_counts(m) + indiv.len() % 65536;
            let k = sat_ceil_div(pts, th as int, 65535);
            sum_u8(spec_range_threads(m, k)) + sat_ceil_div(indiv.len() as int, k, 65535) <= 65535
        }),
{
    let indiv = spec_indiv_ports(ps, m);
    let pred = |q: u16| names_single(ps, q) && !covered(m, q as int);
    let l = indiv.len() as int;
    let c = sum_counts(m);
    let r = m.len() as int;
    let pts = c + l % 65536;
    let k = sat_ceil_div(pts, th as int, 65535);
    let rt = spec_range_threads(m, k);
    lemma_sum_counts_lower(m);
    lemma_ascending_ports_len(65536, pred);
    lemma_sum_u8_nonneg(rt);
    if l == 65536 && r > 0 {
        lemma_ascending_ports_full(65536, pred);
        let q = m[0].0;
        assert(pred(q as int as u16));
        assert(covered(m, q as int));
    }
    if k == 0 {
        if th > 0 {
            lemma_ceil_div(pts, th as int);
        }
        assert(pts == 0);
        assert(r == 0);
        assert(rt.len() == 0);
    } else {
        lemma_range_threads_bound(m, k);
        let rj = sum_u8(rt);
        let ij = sat_ceil_div(l, k, 65535);
        if th == 0 {
            assert(k == 65535);
            assert forall|i: int| 0 <= i < rt.len() implies #[trigger] rt[i] == 1 by {
                let ci = m[i].1 - m[i].0 + 1;
                assert(ci <= c) by {
                    lemma_count_le_sum(m, i);
                }
                lemma_ceil_div(ci, k);
            }
            lemma_sum_u8_ones(rt);
            lemma_ceil_div(l, k);
            let ql = (l + k - 1) / k;
            assert(ql <= 2) by (nonlinear_arith)
                requires
                    (ql - 1) * 65535 < l,
                    l <= 65536,
                    ql >= 0,
            ;
            assert(ij <= 2);
        } else {
            lemma_ceil_div(pts, th as int);
            let qp = (pts + th - 1) / (th as int);
            assert(qp <= 65535) by (nonlinear_arith)
                requires
                    (qp - 1) * (th as int) < pts,
                    pts <= 65535,
                    th >= 1,
            ;
            assert(k * th >= pts) by (nonlinear_arith)
                requires
                    k == (pts + th - 1) / (th as int),
                    ((pts + th - 1) / (th as int)) * (th as int) >= pts,
            ;
            assert(l < 65536 || r == 0);
            lemma_ceil_div(l, k);
            let ql = (l + k - 1) / k;
            assert(ij <= ql);
            assert(ij * k <= ql * k) by (nonlinear_arith)
                requires
                    0 <= ij <= ql,
                    k > 0,
            ;
            assert(ql * k <= l + k - 1) by (nonlinear_arith)
                requires
                    (ql - 1) * k < l,
                    k > 0,
            ;
            // rj * k <= c + r * (k - 1), ij * k <= l + k - 1, c + l <= pts + l - l % 65536
            if l < 65536 {
                assert(l % 65536 == l);
                assert((rj + ij) * k <= (th + r + 1) * k) by (nonlinear_arith)
                    requires
                        rj * k <= c + r * (k - 1),
                        ij * k <= l + k - 1,
                        c + l == pts,
                        k * th >= pts,
                        r >= 0,
                        k > 0,
                ;
            } else {
                assert(r == 0);
                assert(rt.len() == 0);
                assert(rj == 0);
            }
            if l < 65536 {
                assert(rj + ij <= th + r + 1) by (nonlinear_arith)
                    requires
                        (rj + ij) * k <= (th + r + 1) * k,
                        k > 0,
                ;
                assert(r <= 32767);
            }
        }
    }
}

proof fn lemma_count_le_sum(m: Seq<(u16, u16)>, i: int)
    requires
        0 <= i < m.len(),
        forall|j: int| 0 <= j < m.len() ==> (#[trigger] m[j]).0 < m[j].1,
    ensures
        m[i].1 - m[i].0 + 1 <= sum_counts(m),
    decreases m.len(),
{
    let init = m.drop_last();
    assert forall|j: int| 0 <= j < init.len() implies (#[trigger] init[j]).0 < init[j].1 by {
        assert(init[j] == m[j]);
    }
    if i < m.len() - 1 {
        lemma_count_le_sum(init, i);
        assert(init[i] == m[i]);
    } else {
        lemma_sum_counts_nonneg(init);
    }
}

proof fn lemma_sum_u8_ones(s: Seq<u8>)
    requires
        forall|i: int| 0 <= i < s.len() ==> #[trigger] s[i] == 1,
    ensures
        sum_u8(s) == s.len(),
    decreases s.len(),
{
    if s.len() > 0 {
        assert forall|i: int| 0 <= i < s.drop_last().len() implies #[trigger] s.drop_last()[i] == 1 by {
            assert(s.drop_last()[i] == s[i]);
        }
        lemma_sum_u8_ones(s.drop_last());
    }
}

/// The outcome of a scan: the address, the open ports found, how many ports were
/// scanned, and how long the scan took in nanoseconds.
#[derive(Debug, Clone)]
pub struct Scanned {
    pub addr: Ipv4Address,
    pub ports: Vec<u16>,
    pub ports_scanned: u16,
    pub duration_nanos: u64,
}

} // verus!