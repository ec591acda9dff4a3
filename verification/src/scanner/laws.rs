use vstd::prelude::*;
use crate::text::{spec_parse_u16, PortParseError};
use crate::scanner::range_port::spec_from_str;
use crate::scanner::{
    spec_port_single, ascending_ports, covered, names_single, ports_in, range_port_seq, spec_find_merge,
    spec_merge_all, spec_merge_step, spec_merged_ranges, spec_port_range, spec_range_candidates,
    spec_setup, spec_thread_count, ScannerPlan,
};
use crate::scanner::error::ScannerError;
use crate::scanner::range_port::{lemma_merge_widens_within, port_in, spec_can_merge, spec_merged_ends};
use crate::sorting::{
    is_desc_by_high, is_strictly_ascending, lemma_stable_desc_sort_exists, lemma_stable_sort_members,
    spec_sort_high_desc,
};

verus! {

/// Whether port `q` is asked for by the port list: named on its own, or inside a range
/// that a piece of the list names.
pub open spec fn requested(ps: Seq<Seq<char>>, q: u16) -> bool {
    names_single(ps, q) || exists|i: int|
        0 <= i < ps.len() && (#[trigger] spec_port_range(ps[i])) is Some && (spec_port_range(ps[i])->0).0
            <= q <= (spec_port_range(ps[i])->0).1
}

/// The ports that `ascending_ports` lists are exactly those below `n` that satisfy the
/// predicate, each once, in ascending order.
pub proof fn lemma_ascending_ports_members(n: int, pred: spec_fn(u16) -> bool)
    requires
        0 <= n <= 65536,
    ensures
        forall|q: u16| #[trigger] ascending_ports(n, pred).contains(q) <==> (q < n && pred(q)),
        is_strictly_ascending(ascending_ports(n, pred)),
        forall|i: int| 0 <= i < ascending_ports(n, pred).len() ==> #[trigger] ascending_ports(n, pred)[i] < n,
    decreases n,
{
    if n > 0 {
        lemma_ascending_ports_members(n - 1, pred);
        let r = ascending_ports(n - 1, pred);
        let last = (n - 1) as u16;
        assert(last as int == n - 1);
        if pred(last) {
            assert forall|q: u16| #[trigger] r.push(last).contains(q) <==> (q < n && pred(q)) by {
                if q == last {
                    assert(r.push(last)[r.len() as int] == q);
                } else if r.push(last).contains(q) {
                    let i = choose|i: int| 0 <= i < r.push(last).len() && r.push(last)[i] == q;
                    assert(r[i] == q);
                    assert(r.contains(q));
                } else if q < n && pred(q) {
                    assert(r.contains(q));
                    let i = choose|i: int| 0 <= i < r.len() && r[i] == q;
                    assert(r.push(last)[i] == q);
                }
            }
        }
    }
}

/// The ports of the ranges, range after range, are exactly the ports some range holds.
pub proof fn lemma_range_port_seq_members(rs: Seq<(u16, u16)>)
    requires
        forall|j: int| 0 <= j < rs.len() ==> (#[trigger] rs[j]).0 <= rs[j].1,
    ensures
        forall|q: u16| #[trigger] range_port_seq(rs).contains(q) <==> covered(rs, q as int),
    decreases rs.len(),
{
    if rs.len() > 0 {
        let init = rs.drop_last();
        assert forall|j: int| 0 <= j < init.len() implies (#[trigger] init[j]).0 <= init[j].1 by {
            assert(init[j] == rs[j]);
        }
        lemma_range_port_seq_members(init);
        let a = range_port_seq(init);
        let (lo, hi) = rs.last();
        let b = ports_in(lo as int, hi as int);
        assert forall|q: u16| #[trigger] range_port_seq(rs).contains(q) <==> covered(rs, q as int) by {
            if (a + b).contains(q) {
                let i = choose|i: int| 0 <= i < (a + b).len() && (a + b)[i] == q;
                if i < a.len() {
                    assert(a[i] == q);
                    assert(a.contains(q));
                    let j = choose|j: int| 0 <= j < init.len() && #[trigger] init[j].0 <= q <= init[j].1;
                    assert(rs[j] == init[j]);
                } else {
                    assert(b[i - a.len()] == q);
                    assert(rs[rs.len() - 1].0 <= q <= rs[rs.len() - 1].1);
                }
            }
            if covered(rs, q as int) {
                let j = choose|j: int| 0 <= j < rs.len() && #[trigger] rs[j].0 <= q <= rs[j].1;
                if j < init.len() {
                    assert(init[j] == rs[j]);
                    assert(covered(init, q as int));
                    assert(a.contains(q));
                    let i = choose|i: int| 0 <= i < a.len() && a[i] == q;
                    assert((a + b)[i] == q);
                } else {
                    let k = q - lo;
                    assert(b[k] == q);
                    assert((a + b)[a.len() + k] == q);
                }
            }
        }
    }
}

/// Each range of the port list comes from one of its pieces and holds at least two
/// ports.
pub proof fn lemma_candidates_from_list(ps: Seq<Seq<char>>)
    ensures
        forall|k: int|
            0 <= k < spec_range_candidates(ps).len() ==> exists|i: int|
                0 <= i < ps.len() && #[trigger] spec_port_range(ps[i]) == Some(
                    #[trigger] spec_range_candidates(ps)[k],
                ),
        forall|k: int|
            0 <= k < spec_range_candidates(ps).len() ==> (#[trigger] spec_range_candidates(ps)[k]).0
                < spec_range_candidates(ps)[k].1,
    decreases ps.len(),
{
    if ps.len() > 0 {
        let init = ps.drop_last();
        lemma_candidates_from_list(init);
        let c0 = spec_range_candidates(init);
        let c = spec_range_candidates(ps);
        assert forall|k: int| 0 <= k < c.len() implies exists|i: int|
            0 <= i < ps.len() && #[trigger] spec_port_range(ps[i]) == Some(#[trigger] c[k]) by {
            if k < c0.len() {
                assert(c[k] == c0[k]);
                let i = choose|i: int| 0 <= i < init.len() && #[trigger] spec_port_range(init[i]) == Some(c0[k]);
                assert(ps[i] == init[i]);
            } else {
                assert(spec_port_range(ps[ps.len() - 1]) == Some(c[k]));
            }
        }
        assert forall|k: int| 0 <= k < c.len() implies (#[trigger] c[k]).0 < c[k].1 by {
            if k < c0.len() {
                assert(c[k] == c0[k]);
            } else {
                let r = spec_port_range(ps.last())->0;
                assert(c[k] == r);
            }
        }
    }
}

proof fn lemma_find_merge_found(acc: Seq<(u16, u16)>, x: (u16, u16), j0: int)
    requires
        0 <= j0,
    ensures
        spec_find_merge(acc, x, j0) matches Some(Some(j)) ==> j0 <= j < acc.len(),
    decreases acc.len() - j0,
{
    if j0 < acc.len() {
        lemma_find_merge_found(acc, x, j0 + 1);
    }
}

/// Merging never adds a port: every port of a merged range lies in one of the ranges
/// merged, and merged ranges keep their ends in order.
pub proof fn lemma_merge_sound(xs: Seq<(u16, u16)>)
    requires
        forall|k: int| 0 <= k < xs.len() ==> (#[trigger] xs[k]).0 <= xs[k].1,
        spec_merge_all(xs) is Some,
    ensures
        forall|k: int|
            0 <= k < spec_merge_all(xs)->0.len() ==> (#[trigger] spec_merge_all(xs)->0[k]).0
                <= spec_merge_all(xs)->0[k].1,
        forall|q: int| covered(spec_merge_all(xs)->0, q) ==> covered(xs, q),
    decreases xs.len(),
{
    if xs.len() > 0 {
        let init = xs.drop_last();
        let x = xs.last();
        assert forall|k: int| 0 <= k < init.len() implies (#[trigger] init[k]).0 <= init[k].1 by {
            assert(init[k] == xs[k]);
        }
        lemma_merge_sound(init);
        let acc0 = spec_merge_all(init)->0;
        let acc = spec_merge_all(xs)->0;
        lemma_find_merge_found(acc0, x, 0);
        assert(xs[xs.len() - 1] == x);
        match spec_find_merge(acc0, x, 0) {
            Some(Some(j)) => {
                let m = spec_merged_ends(acc0[j].0, acc0[j].1, x.0, x.1);
                lemma_merge_widens_within(acc0[j].0, acc0[j].1, x.0, x.1);
                assert(acc == acc0.update(j, m));
                assert forall|k: int| 0 <= k < acc.len() implies (#[trigger] acc[k]).0 <= acc[k].1 by {
                    if k != j {
                        assert(acc[k] == acc0[k]);
                    }
                }
                assert forall|q: int| covered(acc, q) implies covered(xs, q) by {
                    let k = choose|k: int| 0 <= k < acc.len() && #[trigger] acc[k].0 <= q <= acc[k].1;
                    if k != j {
                        assert(acc[k] == acc0[k]);
                        assert(covered(acc0, q));
                        assert(covered(init, q));
                        let i = choose|i: int| 0 <= i < init.len() && #[trigger] init[i].0 <= q <= init[i].1;
                        assert(xs[i] == init[i]);
                    } else {
                        assert(port_in(m.0, m.1, q));
                        if port_in(acc0[j].0, acc0[j].1, q) {
                            assert(acc0[j].0 <= q <= acc0[j].1);
                            assert(covered(acc0, q));
                            assert(covered(init, q));
                            let i = choose|i: int| 0 <= i < init.len() && #[trigger] init[i].0 <= q <= init[i].1;
                            assert(xs[i] == init[i]);
                        } else {
                            assert(xs[xs.len() - 1].0 <= q <= xs[xs.len() - 1].1);
                        }
                    }
                }
            },
            Some(None) => {
                assert(acc == acc0.push(x));
                assert forall|k: int| 0 <= k < acc.len() implies (#[trigger] acc[k]).0 <= acc[k].1 by {
                    if k < acc0.len() {
                        assert(acc[k] == acc0[k]);
                    }
                }
                assert forall|q: int| covered(acc, q) implies covered(xs, q) by {
                    let k = choose|k: int| 0 <= k < acc.len() && #[trigger] acc[k].0 <= q <= acc[k].1;
                    if k < acc0.len() {
                        assert(acc[k] == acc0[k]);
                        assert(covered(acc0, q));
                        assert(covered(init, q));
                        let i = choose|i: int| 0 <= i < init.len() && #[trigger] init[i].0 <= q <= init[i].1;
                        assert(xs[i] == init[i]);
                    } else {
                        assert(xs[xs.len() - 1].0 <= q <= xs[xs.len() - 1].1);
                    }
                }
            },
            None => {},
        }
    }
}

/// A scanner only ever scans ports that its port list asks for: every port of its
/// ranges and every one of its single ports is named on its own or lies in a range
/// that a piece of the list names.
pub proof fn lemma_scans_only_requested(
    address: Seq<char>,
    threads: u8,
    ps: Seq<Seq<char>>,
    timeout: u64,
    verbose: u8,
    cores: usize,
    p: ScannerPlan,
)
    requires
        spec_setup(address, threads, ps, timeout, verbose, cores) == Some(Ok::<ScannerPlan, ScannerError>(p)),
    ensures
        forall|q: u16| #[trigger] range_port_seq(p.ranges).contains(q) ==> requested(ps, q),
        forall|q: u16| #[trigger] p.indiv_ports.contains(q) ==> requested(ps, q),
{
    let cands = spec_range_candidates(ps);
    let sorted = spec_sort_high_desc(cands);
    lemma_candidates_from_list(ps);
    lemma_stable_desc_sort_exists(cands);
    lemma_stable_sort_members(cands, sorted);
    assert forall|k: int| 0 <= k < sorted.len() implies (#[trigger] sorted[k]).0 <= sorted[k].1 by {
        assert(sorted.contains(sorted[k]));
        let j = choose|j: int| 0 <= j < cands.len() && cands[j] == sorted[k];
        assert(cands[j].0 < cands[j].1);
    }
    assert(spec_merged_ranges(ps) == Some(p.ranges));
    lemma_merge_sound(sorted);
    lemma_range_port_seq_members(p.ranges);
    assert forall|q: u16| #[trigger] range_port_seq(p.ranges).contains(q) implies requested(ps, q) by {
        assert(covered(p.ranges, q as int));
        assert(covered(sorted, q as int));
        let k = choose|k: int| 0 <= k < sorted.len() && #[trigger] sorted[k].0 <= q <= sorted[k].1;
        assert(sorted.contains(sorted[k]));
        let j = choose|j: int| 0 <= j < cands.len() && cands[j] == sorted[k];
        let i = choose|i: int| 0 <= i < ps.len() && #[trigger] spec_port_range(ps[i]) == Some(cands[j]);
        assert(spec_port_range(ps[i]) is Some);
    }
    let pred = |q: u16| names_single(ps, q) && !covered(p.ranges, q as int);
    lemma_ascending_ports_members(65536, pred);
    assert forall|q: u16| #[trigger] p.indiv_ports.contains(q) implies requested(ps, q) by {
        assert(ascending_ports(65536, pred).contains(q));
    }
}

/// The single ports of a scanner are exactly the ports that its port list names on
/// their own and that none of its ranges holds, each once, in ascending order.
pub proof fn lemma_indiv_ports_exact(
    address: Seq<char>,
    threads: u8,
    ps: Seq<Seq<char>>,
    timeout: u64,
    verbose: u8,
    cores: usize,
    p: ScannerPlan,
)
    requires
        spec_setup(address, threads, ps, timeout, verbose, cores) == Some(Ok::<ScannerPlan, ScannerError>(p)),
    ensures
        forall|q: u16| #[trigger] p.indiv_ports.contains(q) <==> (names_single(ps, q) && !covered(p.ranges, q as int)),
        is_strictly_ascending(p.indiv_ports),
{
    let pred = |q: u16| names_single(ps, q) && !covered(p.ranges, q as int);
    lemma_ascending_ports_members(65536, pred);
    assert forall|q: u16| #[trigger] p.indiv_ports.contains(q) <==> (names_single(ps, q) && !covered(p.ranges, q as int)) by {
        assert(ascending_ports(65536, pred).contains(q) <==> (q < 65536 && pred(q)));
    }
}

/// A scanner never runs more threads than asked for, nor more than the cores when
/// there are at most 255 of them.
pub proof fn lemma_thread_count_bounds(threads: u8, pts: u16, cores: usize)
    ensures
        spec_thread_count(threads, pts, cores) <= threads,
        cores <= 255 ==> spec_thread_count(threads, pts, cores) <= cores,
{
}

/// A merge step keeps every port of the range merged in: where `x` widens a range,
/// the widened range holds `x`.
pub open spec fn step_keeps_ports(acc: Seq<(u16, u16)>, x: (u16, u16)) -> bool {
    match spec_find_merge(acc, x, 0) {
        Some(Some(j)) => {
            let m = spec_merged_ends(acc[j].0, acc[j].1, x.0, x.1);
            m.0 <= x.0 && x.1 <= m.1
        },
        _ => true,
    }
}

/// Every step of merging `xs` keeps the ports of the range merged in.
pub open spec fn all_steps_keep_ports(xs: Seq<(u16, u16)>) -> bool
    decreases xs.len(),
{
    xs.len() == 0 || (all_steps_keep_ports(xs.drop_last()) && match spec_merge_all(xs.drop_last()) {
        Some(acc) => step_keeps_ports(acc, xs.last()),
        None => true,
    })
}

/// Where no merge step drops ports, every port of a range merged lies in a merged
/// range.
pub proof fn lemma_merge_complete(xs: Seq<(u16, u16)>)
    requires
        forall|k: int| 0 <= k < xs.len() ==> (#[trigger] xs[k]).0 <= xs[k].1,
        spec_merge_all(xs) is Some,
        all_steps_keep_ports(xs),
    ensures
        forall|q: int| covered(xs, q) ==> covered(spec_merge_all(xs)->0, q),
    decreases xs.len(),
{
    if xs.len() > 0 {
        let init = xs.drop_last();
        let x = xs.last();
        assert forall|k: int| 0 <= k < init.len() implies (#[trigger] init[k]).0 <= init[k].1 by {
            assert(init[k] == xs[k]);
        }
        lemma_merge_complete(init);
        lemma_merge_sound(init);
        let acc0 = spec_merge_all(init)->0;
        let acc = spec_merge_all(xs)->0;
        lemma_find_merge_found(acc0, x, 0);
        assert(xs[xs.len() - 1] == x);
        assert forall|q: int| covered(xs, q) implies covered(acc, q) by {
            let i = choose|i: int| 0 <= i < xs.len() && #[trigger] xs[i].0 <= q <= xs[i].1;
            match spec_find_merge(acc0, x, 0) {
                Some(Some(j)) => {
                    let m = spec_merged_ends(acc0[j].0, acc0[j].1, x.0, x.1);
                    lemma_merge_widens_within(acc0[j].0, acc0[j].1, x.0, x.1);
                    assert(acc == acc0.update(j, m));
                    if i < init.len() {
                        assert(init[i] == xs[i]);
                        assert(covered(init, q));
                        assert(covered(acc0, q));
                        let k = choose|k: int| 0 <= k < acc0.len() && #[trigger] acc0[k].0 <= q <= acc0[k].1;
                        if k == j {
                            assert(acc[j] == m);
                            assert(acc[j].0 <= q <= acc[j].1);
                        } else {
                            assert(acc[k] == acc0[k]);
                        }
                    } else {
                        assert(acc[j] == m);
                        assert(acc[j].0 <= q <= acc[j].1);
                    }
                },
                Some(None) => {
                    assert(acc == acc0.push(x));
                    if i < init.len() {
                        assert(init[i] == xs[i]);
                        assert(covered(init, q));
                        assert(covered(acc0, q));
                        let k = choose|k: int| 0 <= k < acc0.len() && #[trigger] acc0[k].0 <= q <= acc0[k].1;
                        assert(acc[k] == acc0[k]);
                    } else {
                        assert(acc[acc0.len() as int] == x);
                    }
                },
                None => {},
            }
        }
    }
}

/// A scanner scans every single port its port list names. Where no step of merging
/// its ranges drops ports, it scans every port the list asks for.
pub proof fn lemma_scans_all_requested(
    address: Seq<char>,
    threads: u8,
    ps: Seq<Seq<char>>,
    timeout: u64,
    verbose: u8,
    cores: usize,
    p: ScannerPlan,
)
    requires
        spec_setup(address, threads, ps, timeout, verbose, cores) == Some(Ok::<ScannerPlan, ScannerError>(p)),
    ensures
        forall|q: u16|
            names_single(ps, q) ==> (#[trigger] range_port_seq(p.ranges).contains(q) || p.indiv_ports.contains(q)),
        all_steps_keep_ports(spec_sort_high_desc(spec_range_candidates(ps))) ==> forall|q: u16|
            requested(ps, q) ==> (#[trigger] range_port_seq(p.ranges).contains(q) || p.indiv_ports.contains(q)),
{
    let cands = spec_range_candidates(ps);
    let sorted = spec_sort_high_desc(cands);
    lemma_candidates_from_list(ps);
    lemma_stable_desc_sort_exists(cands);
    lemma_stable_sort_members(cands, sorted);
    assert forall|k: int| 0 <= k < sorted.len() implies (#[trigger] sorted[k]).0 <= sorted[k].1 by {
        assert(sorted.contains(sorted[k]));
        let j = choose|j: int| 0 <= j < cands.len() && cands[j] == sorted[k];
        assert(cands[j].0 < cands[j].1);
    }
    assert(spec_merged_ranges(ps) == Some(p.ranges));
    lemma_merge_sound(sorted);
    lemma_range_port_seq_members(p.ranges);
    let pred = |q: u16| names_single(ps, q) && !covered(p.ranges, q as int);
    lemma_ascending_ports_members(65536, pred);
    assert forall|q: u16| names_single(ps, q) implies (#[trigger] range_port_seq(p.ranges).contains(q)
        || p.indiv_ports.contains(q)) by {
        if !covered(p.ranges, q as int) {
            assert(ascending_ports(65536, pred).contains(q));
        }
    }
    if all_steps_keep_ports(sorted) {
        lemma_merge_complete(sorted);
        assert forall|q: u16| requested(ps, q) implies (#[trigger] range_port_seq(p.ranges).contains(q)
            || p.indiv_ports.contains(q)) by {
            if !names_single(ps, q) {
                let i = choose|i: int|
                    0 <= i < ps.len() && (#[trigger] spec_port_range(ps[i])) is Some && (spec_port_range(ps[i])->0).0
                        <= q <= (spec_port_range(ps[i])->0).1;
                let r = spec_port_range(ps[i])->0;
                lemma_candidate_of_piece(ps, i);
                assert(cands.contains(r));
                assert(sorted.contains(r));
                let k = choose|k: int| 0 <= k < sorted.len() && sorted[k] == r;
                assert(sorted[k].0 <= q <= sorted[k].1);
                assert(covered(sorted, q as int));
                assert(covered(p.ranges, q as int));
            } else {
                if !covered(p.ranges, q as int) {
                    assert(ascending_ports(65536, pred).contains(q));
                }
            }
        }
    }
}

/// Every range that a piece of the port list names is one of its ranges.
pub proof fn lemma_candidate_of_piece(ps: Seq<Seq<char>>, i: int)
    requires
        0 <= i < ps.len(),
        spec_port_range(ps[i]) is Some,
    ensures
        spec_range_candidates(ps).contains(spec_port_range(ps[i])->0),
    decreases ps.len(),
{
    let init = ps.drop_last();
    let c = spec_range_candidates(ps);
    if i < ps.len() - 1 {
        assert(init[i] == ps[i]);
        lemma_candidate_of_piece(init, i);
        let c0 = spec_range_candidates(init);
        let k = choose|k: int| 0 <= k < c0.len() && c0[k] == spec_port_range(ps[i])->0;
        assert(c[k] == c0[k]);
    } else {
        assert(c[c.len() - 1] == spec_port_range(ps[i])->0);
    }
}

/// The ranges `rs` hold at least two ports each, come by decreasing upper end, and
/// each ends at least two ports below where the one before it starts: no port lies in
/// two of them, and no two of them touch.
pub open spec fn is_separated_desc(rs: Seq<(u16, u16)>) -> bool {
    &&& forall|i: int| 0 <= i < rs.len() ==> (#[trigger] rs[i]).0 < rs[i].1
    &&& forall|i: int, j: int| 0 <= i < j < rs.len() ==> #[trigger] rs[j].1 + 1 < #[trigger] rs[i].0
}

/// Where `x` can merge with none of `acc[j..last]`, looking for a merge from `j` on
/// either gives up or ends at the last range.
proof fn lemma_find_merge_skips(acc: Seq<(u16, u16)>, x: (u16, u16), j: int)
    requires
        0 <= j < acc.len(),
        forall|i: int| j <= i < acc.len() - 1 ==> !spec_can_merge(#[trigger] acc[i].0, acc[i].1, x.0, x.1),
    ensures
        spec_find_merge(acc, x, j) is None || spec_find_merge(acc, x, j) == spec_find_merge(
            acc,
            x,
            acc.len() - 1,
        ),
    decreases acc.len() - j,
{
    if j < acc.len() - 1 {
        lemma_find_merge_skips(acc, x, j + 1);
    }
}

/// Merging ranges that come by decreasing upper end leaves separated ranges, the last
/// of which ends no lower than the last range merged.
proof fn lemma_merge_all_separated(xs: Seq<(u16, u16)>)
    requires
        is_desc_by_high(xs),
        forall|k: int| 0 <= k < xs.len() ==> (#[trigger] xs[k]).0 < xs[k].1,
    ensures
        spec_merge_all(xs) matches Some(acc) ==> is_separated_desc(acc) && (xs.len() > 0 ==> acc.len()
            > 0 && acc.last().1 >= xs.last().1),
    decreases xs.len(),
{
    if xs.len() > 0 {
        let init = xs.drop_last();
        let x = xs.last();
        assert(x == xs[xs.len() - 1]);
        assert forall|k: int| 0 <= k < init.len() implies (#[trigger] init[k]).0 < init[k].1 by {
            assert(init[k] == xs[k]);
        }
        assert forall|i: int, j: int| 0 <= i < j < init.len() implies init[i].1 >= init[j].1 by {
            assert(init[i] == xs[i] && init[j] == xs[j]);
        }
        lemma_merge_all_separated(init);
        if let Some(acc0) = spec_merge_all(init) {
            let n = acc0.len();
            if n == 0 {
                assert(spec_find_merge(acc0, x, 0) == Some(None::<int>));
                let acc = acc0.push(x);
                assert(spec_merge_all(xs) == Some(acc));
                assert(is_separated_desc(acc));
            } else {
                let last = acc0[n - 1];
                assert(init.last() == xs[xs.len() - 2]);
                assert(x.1 <= last.1);
                assert forall|i: int| 0 <= i < n - 1 implies !spec_can_merge(
                    #[trigger] acc0[i].0,
                    acc0[i].1,
                    x.0,
                    x.1,
                ) by {
                    assert(acc0[n - 1].1 + 1 < acc0[i].0);
                }
                lemma_find_merge_skips(acc0, x, 0);
                lemma_find_merge_found(acc0, x, n - 1);
                match spec_find_merge(acc0, x, 0) {
                    None => {},
                    Some(None) => {
                        assert(!spec_can_merge(last.0, last.1, x.0, x.1));
                        let acc = acc0.push(x);
                        assert(spec_merge_all(xs) == Some(acc));
                        assert forall|i: int, j: int| 0 <= i < j < acc.len() implies #[trigger] acc[j].1 + 1
                            < #[trigger] acc[i].0 by {
                            if j < n {
                                assert(acc[i] == acc0[i] && acc[j] == acc0[j]);
                            } else {
                                assert(acc[i] == acc0[i]);
                                if i < n - 1 {
                                    assert(acc0[n - 1].1 + 1 < acc0[i].0);
                                }
                            }
                        }
                        assert forall|i: int| 0 <= i < acc.len() implies (#[trigger] acc[i]).0 < acc[i].1 by {
                            if i < n {
                                assert(acc[i] == acc0[i]);
                            }
                        }
                    },
                    Some(Some(j)) => {
                        assert(j == n - 1);
                        let m = spec_merged_ends(last.0, last.1, x.0, x.1);
                        assert(m.1 == last.1 && m.0 <= last.0);
                        if let Some(acc) = spec_merge_all(xs) {
                            assert(acc == acc0.update(j, m));
                            assert forall|a: int, b: int| 0 <= a < b < acc.len() implies #[trigger] acc[b].1 + 1
                                < #[trigger] acc[a].0 by {
                                assert(acc[a] == acc0[a]);
                                if b < n - 1 {
                                    assert(acc[b] == acc0[b]);
                                } else {
                                    assert(acc0[n - 1].1 + 1 < acc0[a].0);
                                }
                            }
                            assert forall|i: int| 0 <= i < acc.len() implies (#[trigger] acc[i]).0 < acc[i].1 by {
                                if i < n - 1 {
                                    assert(acc[i] == acc0[i]);
                                }
                            }
                        }
                    },
                }
            }
        }
    }
}

/// The ranges a scanner scans come by decreasing upper end, each holds at least two
/// ports, and between any two of them lies at least one port that neither holds; its
/// single ports come each once, in ascending order, outside every range. So no port
/// is scanned twice.
pub proof fn lemma_plan_separated(
    address: Seq<char>,
    threads: u8,
    ps: Seq<Seq<char>>,
    timeout: u64,
    verbose: u8,
    cores: usize,
    p: ScannerPlan,
)
    requires
        spec_setup(address, threads, ps, timeout, verbose, cores) == Some(Ok::<ScannerPlan, ScannerError>(p)),
    ensures
        is_separated_desc(p.ranges),
        is_strictly_ascending(p.indiv_ports),
        forall|k: int, j: int|
            0 <= k < p.indiv_ports.len() && 0 <= j < p.ranges.len() ==> !(#[trigger] p.ranges[j].0
                <= #[trigger] p.indiv_ports[k] <= p.ranges[j].1),
{
    let cands = spec_range_candidates(ps);
    let sorted = spec_sort_high_desc(cands);
    lemma_candidates_from_list(ps);
    lemma_stable_desc_sort_exists(cands);
    lemma_stable_sort_members(cands, sorted);
    assert forall|k: int| 0 <= k < sorted.len() implies (#[trigger] sorted[k]).0 < sorted[k].1 by {
        assert(sorted.contains(sorted[k]));
        let j = choose|j: int| 0 <= j < cands.len() && cands[j] == sorted[k];
        assert(cands[j].0 < cands[j].1);
    }
    assert(spec_merged_ranges(ps) == Some(p.ranges));
    lemma_merge_all_separated(sorted);
    lemma_indiv_ports_exact(address, threads, ps, timeout, verbose, cores, p);
    assert forall|k: int, j: int|
        0 <= k < p.indiv_ports.len() && 0 <= j < p.ranges.len() implies !(#[trigger] p.ranges[j].0
            <= #[trigger] p.indiv_ports[k] <= p.ranges[j].1) by {
        let q = p.indiv_ports[k];
        assert(p.indiv_ports.contains(q));
        assert(!covered(p.ranges, q as int));
    }
}

/// Every port that a piece of the port list names is scanned, in one of the ranges or
/// as a single port: a piece that is a port number always; and, where no step of
/// merging the ranges drops ports (in particular where any two range pieces have four
/// different ends), every port from `lo` to `hi` for a piece that is not a number and
/// that `RangePorts::from_str` reads as `(lo, hi)`.
pub proof fn lemma_pieces_scanned(
    address: Seq<char>,
    threads: u8,
    ps: Seq<Seq<char>>,
    timeout: u64,
    verbose: u8,
    cores: usize,
    p: ScannerPlan,
)
    requires
        spec_setup(address, threads, ps, timeout, verbose, cores) == Some(Ok::<ScannerPlan, ScannerError>(p)),
    ensures
        forall|i: int, q: u16|
            0 <= i < ps.len() && #[trigger] spec_parse_u16(ps[i]) == Ok::<u16, PortParseError>(q) ==> (
            (exists|j: int| 0 <= j < p.ranges.len() && #[trigger] p.ranges[j].0 <= q <= p.ranges[j].1)
                || #[trigger] p.indiv_ports.contains(q)),
        all_steps_keep_ports(spec_sort_high_desc(spec_range_candidates(ps))) ==> forall|i: int, q: u16|
            0 <= i < ps.len() && spec_parse_u16(ps[i]) is Err && #[trigger] spec_from_str(ps[i]) is Ok
                && (spec_from_str(ps[i])->Ok_0).0 <= q <= (spec_from_str(ps[i])->Ok_0).1 ==> (
            (exists|j: int| 0 <= j < p.ranges.len() && #[trigger] p.ranges[j].0 <= q <= p.ranges[j].1)
                || #[trigger] p.indiv_ports.contains(q)),
        range_ends_distinct(ps) ==> forall|i: int, q: u16|
            0 <= i < ps.len() && spec_parse_u16(ps[i]) is Err && #[trigger] spec_from_str(ps[i]) is Ok
                && (spec_from_str(ps[i])->Ok_0).0 <= q <= (spec_from_str(ps[i])->Ok_0).1 ==> (
            (exists|j: int| 0 <= j < p.ranges.len() && #[trigger] p.ranges[j].0 <= q <= p.ranges[j].1)
                || #[trigger] p.indiv_ports.contains(q)),
{
    if range_ends_distinct(ps) {
        lemma_distinct_ends_keep_ports(ps);
    }
    lemma_scans_all_requested(address, threads, ps, timeout, verbose, cores, p);
    lemma_plan_separated(address, threads, ps, timeout, verbose, cores, p);
    lemma_range_port_seq_members(p.ranges);
    assert forall|i: int, q: u16|
        0 <= i < ps.len() && #[trigger] spec_parse_u16(ps[i]) == Ok::<u16, PortParseError>(q) implies (
        (exists|j: int| 0 <= j < p.ranges.len() && #[trigger] p.ranges[j].0 <= q <= p.ranges[j].1)
            || #[trigger] p.indiv_ports.contains(q)) by {
        assert(spec_port_single(ps[i]) == Some(q));
        assert(names_single(ps, q));
        if range_port_seq(p.ranges).contains(q) {
            assert(covered(p.ranges, q as int));
        }
    }
    if all_steps_keep_ports(spec_sort_high_desc(spec_range_candidates(ps))) {
        assert forall|i: int, q: u16|
            0 <= i < ps.len() && spec_parse_u16(ps[i]) is Err && #[trigger] spec_from_str(ps[i]) is Ok
                && (spec_from_str(ps[i])->Ok_0).0 <= q <= (spec_from_str(ps[i])->Ok_0).1 implies (
            (exists|j: int| 0 <= j < p.ranges.len() && #[trigger] p.ranges[j].0 <= q <= p.ranges[j].1)
                || #[trigger] p.indiv_ports.contains(q)) by {
            let r = spec_from_str(ps[i])->Ok_0;
            if r.0 == r.1 {
                assert(spec_port_single(ps[i]) == Some(q));
                assert(names_single(ps, q));
            } else {
                assert(spec_port_range(ps[i]) == Some(r));
            }
            assert(requested(ps, q));
            if range_port_seq(p.ranges).contains(q) {
                assert(covered(p.ranges, q as int));
            }
        }
    }
}

/// Whether any two pieces of the port list that `RangePorts::from_str` reads as ranges
/// of at least two ports have four different ends.
pub open spec fn range_ends_distinct(ps: Seq<Seq<char>>) -> bool {
    forall|i: int, j: int|
        0 <= i < j < ps.len() && spec_parse_u16(ps[i]) is Err && spec_parse_u16(ps[j]) is Err
            && #[trigger] spec_from_str(ps[i]) is Ok && #[trigger] spec_from_str(ps[j]) is Ok
            && (spec_from_str(ps[i])->Ok_0).0 < (spec_from_str(ps[i])->Ok_0).1
            && (spec_from_str(ps[j])->Ok_0).0 < (spec_from_str(ps[j])->Ok_0).1 ==> ({
            let a = spec_from_str(ps[i])->Ok_0;
            let b = spec_from_str(ps[j])->Ok_0;
            a.0 != b.0 && a.0 != b.1 && a.1 != b.0 && a.1 != b.1
        })
}

/// Two ranges are the same or have four different ends.
pub open spec fn same_or_apart_ends(x: (u16, u16), y: (u16, u16)) -> bool {
    x == y || (x.0 != y.0 && x.0 != y.1 && x.1 != y.0 && x.1 != y.1)
}

/// The lower end of every merged range is the lower end of a range merged, and its upper
/// end the upper end of one.
proof fn lemma_merge_all_ends(xs: Seq<(u16, u16)>)
    ensures
        spec_merge_all(xs) matches Some(acc) ==> forall|k: int|
            #![trigger acc[k]]
            0 <= k < acc.len() ==> (exists|a: int| 0 <= a < xs.len() && (#[trigger] xs[a]).0 == acc[k].0) && (
            exists|b: int| 0 <= b < xs.len() && (#[trigger] xs[b]).1 == acc[k].1),
    decreases xs.len(),
{
    if xs.len() > 0 {
        let init = xs.drop_last();
        let x = xs.last();
        assert(x == xs[xs.len() - 1]);
        lemma_merge_all_ends(init);
        if let Some(acc0) = spec_merge_all(init) {
            lemma_find_merge_found(acc0, x, 0);
            if let Some(acc) = spec_merge_all(xs) {
                assert forall|k: int| #![trigger acc[k]] 0 <= k < acc.len() implies (exists|a: int|
                    0 <= a < xs.len() && (#[trigger] xs[a]).0 == acc[k].0) && (exists|b: int|
                    0 <= b < xs.len() && (#[trigger] xs[b]).1 == acc[k].1) by {
                    let last = xs.len() - 1;
                    if k < acc0.len() && acc[k] == acc0[k] {
                        let a = choose|a: int| 0 <= a < init.len() && (#[trigger] init[a]).0 == acc0[k].0;
                        let b = choose|b: int| 0 <= b < init.len() && (#[trigger] init[b]).1 == acc0[k].1;
                        assert(xs[a] == init[a]);
                        assert(xs[b] == init[b]);
                    } else if k == acc0.len() {
                        assert(acc[k] == x);
                        assert(xs[last].0 == acc[k].0);
                        assert(xs[last].1 == acc[k].1);
                    } else {
                        let a = choose|a: int| 0 <= a < init.len() && (#[trigger] init[a]).0 == acc0[k].0;
                        let b = choose|b: int| 0 <= b < init.len() && (#[trigger] init[b]).1 == acc0[k].1;
                        assert(xs[a] == init[a]);
                        assert(xs[b] == init[b]);
                        let m = spec_merged_ends(acc0[k].0, acc0[k].1, x.0, x.1);
                        assert(acc[k] == m);
                        if m.0 == x.0 {
                            assert(xs[last].0 == acc[k].0);
                        }
                        if m.1 == x.1 {
                            assert(xs[last].1 == acc[k].1);
                        }
                    }
                }
            }
        }
    }
}

/// Merging ranges that come by decreasing upper end, any two of which are the same or
/// have four different ends, drops no port at any step.
proof fn lemma_apart_ends_keep_ports(xs: Seq<(u16, u16)>)
    requires
        is_desc_by_high(xs),
        forall|k: int| 0 <= k < xs.len() ==> (#[trigger] xs[k]).0 < xs[k].1,
        forall|a: int, b: int| 0 <= a < xs.len() && 0 <= b < xs.len() ==> same_or_apart_ends(#[trigger] xs[a], #[trigger] xs[b]),
    ensures
        all_steps_keep_ports(xs),
    decreases xs.len(),
{
    if xs.len() > 0 {
        let init = xs.drop_last();
        let x = xs.last();
        let n0 = init.len();
        assert(x == xs[xs.len() - 1]);
        assert forall|k: int| 0 <= k < init.len() implies (#[trigger] init[k]).0 < init[k].1 by {
            assert(init[k] == xs[k]);
        }
        assert forall|i: int, j: int| 0 <= i < j < init.len() implies init[i].1 >= init[j].1 by {
            assert(init[i] == xs[i] && init[j] == xs[j]);
        }
        assert forall|a: int, b: int| 0 <= a < init.len() && 0 <= b < init.len() implies same_or_apart_ends(
            #[trigger] init[a],
            #[trigger] init[b],
        ) by {
            assert(init[a] == xs[a] && init[b] == xs[b]);
        }
        lemma_apart_ends_keep_ports(init);
        lemma_merge_all_separated(init);
        lemma_merge_all_ends(init);
        if let Some(acc0) = spec_merge_all(init) {
            let n = acc0.len();
            if n > 0 {
                let last = acc0[n - 1];
                assert(init.last() == xs[xs.len() - 2]);
                assert(x.1 <= last.1);
                assert forall|i: int| 0 <= i < n - 1 implies !spec_can_merge(
                    #[trigger] acc0[i].0,
                    acc0[i].1,
                    x.0,
                    x.1,
                ) by {
                    assert(acc0[n - 1].1 + 1 < acc0[i].0);
                }
                lemma_find_merge_skips(acc0, x, 0);
                lemma_find_merge_found(acc0, x, n - 1);
                if let Some(Some(j)) = spec_find_merge(acc0, x, 0) {
                    assert(j == n - 1);
                    assert(spec_find_merge(acc0, x, n as int) == Some(None::<int>));
                    assert(spec_find_merge(acc0, x, n - 1) == Some(Some(n - 1)));
                    assert(spec_can_merge(last.0, last.1, x.0, x.1));
                    let m = spec_merged_ends(last.0, last.1, x.0, x.1);
                    assert(m.1 == last.1);
                    let a = choose|a: int| 0 <= a < init.len() && (#[trigger] init[a]).0 == acc0[n - 1].0;
                    let b = choose|b: int| 0 <= b < init.len() && (#[trigger] init[b]).1 == acc0[n - 1].1;
                    assert(init[a] == xs[a] && init[b] == xs[b]);
                    assert(same_or_apart_ends(xs[xs.len() - 1], xs[a]));
                    assert(same_or_apart_ends(xs[xs.len() - 1], xs[b]));
                    if x.0 < last.0 {
                        assert(x.1 != last.0);
                        if x.1 == last.1 {
                            assert(x == init[b]);
                            lemma_merge_complete(init);
                            assert(covered(init, x.0 as int));
                            assert(covered(acc0, x.0 as int));
                            let k = choose|k: int| 0 <= k < acc0.len() && #[trigger] acc0[k].0 <= x.0 <= acc0[k].1;
                            if k < n - 1 {
                                assert(acc0[n - 1].1 + 1 < acc0[k].0);
                            }
                        }
                    }
                    assert(m.0 <= x.0 && x.1 <= m.1);
                }
            }
        }
    }
}

/// Where any two range pieces of the port list have four different ends, no step of
/// merging the ranges drops a port.
pub proof fn lemma_distinct_ends_keep_ports(ps: Seq<Seq<char>>)
    requires
        range_ends_distinct(ps),
    ensures
        all_steps_keep_ports(spec_sort_high_desc(spec_range_candidates(ps))),
{
    let cands = spec_range_candidates(ps);
    let sorted = spec_sort_high_desc(cands);
    lemma_candidates_from_list(ps);
    lemma_stable_desc_sort_exists(cands);
    lemma_stable_sort_members(cands, sorted);
    assert forall|x: (u16, u16), y: (u16, u16)| cands.contains(x) && cands.contains(y) implies same_or_apart_ends(
        x,
        y,
    ) by {
        let kx = choose|k: int| 0 <= k < cands.len() && cands[k] == x;
        let ky = choose|k: int| 0 <= k < cands.len() && cands[k] == y;
        let ix = choose|i: int| 0 <= i < ps.len() && #[trigger] spec_port_range(ps[i]) == Some(cands[kx]);
        let iy = choose|i: int| 0 <= i < ps.len() && #[trigger] spec_port_range(ps[i]) == Some(cands[ky]);
        assert(spec_from_str(ps[ix]) == Ok::<(u16, u16), PortParseError>(x));
        assert(spec_from_str(ps[iy]) == Ok::<(u16, u16), PortParseError>(y));
        assert(x.0 < x.1 && y.0 < y.1);
        if ix < iy {
            assert(spec_from_str(ps[ix]) is Ok && spec_from_str(ps[iy]) is Ok);
        } else if iy < ix {
            assert(spec_from_str(ps[ix]) is Ok && spec_from_str(ps[iy]) is Ok);
        }
    }
    assert forall|k: int| 0 <= k < sorted.len() implies (#[trigger] sorted[k]).0 < sorted[k].1 by {
        assert(sorted.contains(sorted[k]));
        let j = choose|j: int| 0 <= j < cands.len() && cands[j] == sorted[k];
    }
    assert forall|a: int, b: int| 0 <= a < sorted.len() && 0 <= b < sorted.len() implies same_or_apart_ends(
        #[trigger] sorted[a],
        #[trigger] sorted[b],
    ) by {
        assert(sorted.contains(sorted[a]));
        assert(sorted.contains(sorted[b]));
    }
    lemma_apart_ends_keep_ports(sorted);
}

} // verus!