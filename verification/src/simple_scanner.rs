use vstd::prelude::*;
use std::collections::HashSet;
use crate::scanner::{ascending_ports, localhost_text, spec_address};
use crate::scanner::laws::lemma_ascending_ports_members;
use crate::sorting::{is_strictly_ascending, sorted_distinct};
use crate::scanner::range_port::{max_u16, min_u16, range_text_of};
use crate::text::{
    decimal, lemma_decimal_without, lemma_parse_u16_decimal, lemma_split_on_join, PortParseError,
    lemma_split_on_without, chars_of, has_char, parse_ipv4, parse_u16, same_text, split_bounds,
    split_on, spec_parse_u16, Ipv4Address,
};

verus! {

/// The texts of the port arguments.
pub open spec fn port_texts(ports: Seq<&str>) -> Seq<Seq<char>> {
    ports.map_values(|p: &str| p@)
}

/// The two ends of a range argument `low-high`, in increasing order.
pub open spec fn spec_range_ends(t: Seq<char>) -> (u16, u16) {
    let parts = split_on(t, '-');
    let a = spec_parse_u16(parts[0])->Ok_0;
    let b = spec_parse_u16(parts[1])->Ok_0;
    if a > b {
        (b, a)
    } else {
        (a, b)
    }
}

/// Whether every argument is a port number.
pub open spec fn all_ports_parse(ts: Seq<Seq<char>>) -> bool {
    forall|i: int| 0 <= i < ts.len() ==> #[trigger] spec_parse_u16(ts[i]) is Ok
}

/// `Scanner::new` panics where the address is good and there is no port argument,
/// where a single range argument of two pieces has a piece that is not a port number,
/// or where a list of arguments has one that is not a port number.
pub open spec fn spec_new_panics(address: Seq<char>, ts: Seq<Seq<char>>) -> bool {
    spec_address(address) is Some && (ts.len() == 0 || if ts.len() == 1 && has_char(ts[0], '-') {
        let parts = split_on(ts[0], '-');
        parts.len() == 2 && (spec_parse_u16(parts[0]) is Err || spec_parse_u16(parts[1]) is Err)
    } else {
        !all_ports_parse(ts)
    })
}

/// The thread count after `range_ports`: the size of the range less one (cut to a
/// byte) when that is smaller than the count asked for.
pub open spec fn spec_range_threads(threads: u8, low: u16, high: u16) -> u8 {
    let result = (high - low) % 256;
    if result < threads {
        result as u8
    } else {
        threads
    }
}

/// The ports a range worker tries, from `port` on in steps of `threads`, stopping once
/// `end` is at most `threads` away.
pub open spec fn spec_worker_ports(port: int, end: int, threads: int) -> Seq<u16>
    decreases end - port,
{
    if threads <= 0 || end - port <= threads {
        seq![port as u16]
    } else {
        seq![port as u16] + spec_worker_ports(port + threads, end, threads)
    }
}

/// The elements of `s` at positions `k`, `k + t`, `k + 2t`, and so on.
pub open spec fn stride(s: Seq<u16>, t: int, k: int) -> Seq<u16>
    decreases s.len(),
{
    if s.len() == 0 {
        Seq::<u16>::empty()
    } else {
        let r = stride(s.drop_last(), t, k);
        if (s.len() - 1) % t == k {
            r.push(s.last())
        } else {
            r
        }
    }
}

/// A scanner for one range of ports or one list of ports, split among threads.
#[derive(Debug, Clone)]
pub struct Scanner {
    address: Ipv4Address,
    threads: u8,
    low_port: u16,
    high_port: u16,
    port_list: Vec<u16>,
    open_ports: Vec<u16>,
}

impl Scanner {
    pub closed spec fn address_of(&self) -> Ipv4Address {
        self.address
    }

    pub closed spec fn threads_of(&self) -> u8 {
        self.threads
    }

    pub closed spec fn low_of(&self) -> u16 {
        self.low_port
    }

    pub closed spec fn high_of(&self) -> u16 {
        self.high_port
    }

    pub closed spec fn port_list_of(&self) -> Seq<u16> {
        self.port_list@
    }

    pub closed spec fn open_ports_of(&self) -> Seq<u16> {
        self.open_ports@
    }

    /// Sets up a scanner for `address` (`localhost` or a dotted-decimal IPv4 address):
    /// a single argument with a `-` is the range `low-high`; otherwise every argument
    /// is a port, and the list holds each of them once, in ascending order.
    pub fn new(address: &str, threads: u8, ports: &[&str]) -> (r: Result<Self, &'static str>)
        requires
            !spec_new_panics(address@, port_texts(ports@)),
        ensures
            ({
                let ts = port_texts(ports@);
                match spec_address(address@) {
                    None => r matches Err(e) && e@ == "invalid IP address syntax"@,
                    Some(a) => if ts.len() == 1 && has_char(ts[0], '-') {
                        if split_on(ts[0], '-').len() != 2 {
                            r matches Err(e) && e@ == "bad use of range ports"@
                        } else {
                            let (lo, hi) = spec_range_ends(ts[0]);
                            let t1 = spec_range_threads(threads, lo, hi);
                            r matches Ok(s) && s.address_of() == a && s.low_of() == lo
                                && s.high_of() == hi && s.port_list_of().len() == 0
                                && s.open_ports_of().len() == 0 && s.threads_of() == if ((hi - lo)
                                % 256) < t1 {
                                1u8
                            } else {
                                t1
                            }
                        }
                    } else {
                        r matches Ok(s) && s.address_of() == a && s.low_of() == 0 && s.high_of()
                            == 0 && s.open_ports_of().len() == 0 && is_strictly_ascending(
                            s.port_list_of(),
                        ) && (forall|q: u16|
                            #[trigger] s.port_list_of().contains(q) <==> exists|i: int|
                                0 <= i < ts.len() && #[trigger] spec_parse_u16(ts[i]) == Ok::<
                                    u16,
                                    crate::text::PortParseError,
                                >(q)) && s.threads_of() == if ts.len() % 256 < threads {
                            (ts.len() % 256) as u8
                        } else {
                            threads
                        }
                    },
                }
            }),
            ({
                let ts = port_texts(ports@);
                (ts.len() == 1 && split_on(ts[0], '-').len() == 2 && r is Ok) ==> ({
                    let parts = split_on(ts[0], '-');
                    let a = spec_parse_u16(parts[0])->Ok_0;
                    let b = spec_parse_u16(parts[1])->Ok_0;
                    let s = r->Ok_0;
                    s.low_of() <= s.high_of() && ((s.low_of() == a && s.high_of() == b) || (s.low_of()
                        == b && s.high_of() == a))
                })
            }),
    {
        let ghost ts = port_texts(ports@);
        let cs = chars_of(address);
        let mut lh: Vec<char> = Vec::new();
        lh.push('l');
        lh.push('o');
        lh.push('c');
        lh.push('a');
        lh.push('l');
        lh.push('h');
        lh.push('o');
        lh.push('s');
        lh.push('t');
        assert(lh@ =~= localhost_text());
        let address = if same_text(&cs, &lh) {
            Ipv4Address(127, 0, 0, 1)
        } else {
            match parse_ipv4(&cs) {
                Some(a) => a,
                None => return Err("invalid IP address syntax"),
            }
        };
        let mut threads = threads;
        let mut low_port: u16 = 0;
        let mut high_port: u16 = 0;
        let ports_len = ports.len();
        assert(ts.len() == ports_len);
        assert(ports_len >= 1);
        assert(ts[0] == ports@[0]@);
        let first = chars_of(ports[0]);
        let first_has_sep = has_sep(&first);
        proof {
            if !first_has_sep {
                lemma_split_on_without(first@, '-');
            }
        }
        if ports_len == 1 && first_has_sep {
            if let Err(err) = Self::range_ports(&mut threads, &mut low_port, &mut high_port, ports) {
                return Err(err);
            };
            threads = if ((high_port - low_port) % 256) < (threads as u16) {
                1u8
            } else {
                threads
            };
            Ok(
                Self {
                    address,
                    threads,
                    low_port,
                    high_port,
                    port_list: Vec::new(),
                    open_ports: Vec::new(),
                },
            )
        } else if ports_len > 1 || !first_has_sep {
            let mut port_hash: HashSet<u16> = HashSet::new();
            let mut i: usize = 0;
            while i < ports_len
                invariant
                    i <= ports_len == ports.len() == ts.len(),
                    ts == port_texts(ports@),
                    all_ports_parse(ts),
                    forall|q: u16|
                        #[trigger] port_hash@.contains(q) <==> exists|k: int|
                            0 <= k < i && #[trigger] spec_parse_u16(ts[k]) == Ok::<
                                u16,
                                crate::text::PortParseError,
                            >(q),
                decreases ports_len - i,
            {
                assert(ts[i as int] == ports@[i as int]@);
                let p = chars_of(ports[i]);
                assert(p@.subrange(0, p.len() as int) =~= p@);
                assert(spec_parse_u16(ts[i as int]) is Ok);
                let ghost old_hash = port_hash@;
                match parse_u16(&p, 0, p.len()) {
                    Ok(port) => {
                        port_hash.insert(port);
                    },
                    Err(_) => {
                        proof {
                            assert(false);
                        }
                    },
                }
                assert forall|q: u16|
                    #[trigger] port_hash@.contains(q) <==> exists|k: int|
                        0 <= k < i + 1 && #[trigger] spec_parse_u16(ts[k]) == Ok::<
                            u16,
                            crate::text::PortParseError,
                        >(q) by {
                    if exists|k: int|
                        0 <= k < i + 1 && #[trigger] spec_parse_u16(ts[k]) == Ok::<
                            u16,
                            crate::text::PortParseError,
                        >(q) {
                        let k = choose|k: int|
                            0 <= k < i + 1 && #[trigger] spec_parse_u16(ts[k]) == Ok::<
                                u16,
                                crate::text::PortParseError,
                            >(q);
                        if k < i {
                            assert(old_hash.contains(q));
                        }
                    }
                    if port_hash@.contains(q) && !old_hash.contains(q) {
                        assert(spec_parse_u16(ts[i as int]) == Ok::<u16, crate::text::PortParseError>(q));
                    }
                }
                i = i + 1;
            }
            let port_list = ascending_members(&port_hash);
            let len8: u8 = (ports_len % 256) as u8;
            threads = if len8 < threads {
                len8
            } else {
                threads
            };
            Ok(Self { address, threads, low_port, high_port, port_list, open_ports: Vec::new() })
        } else {
            Err("invalid PORT arguments")
        }
    }

    /// Reads the single range argument `low-high` into `lp` and `hp` (in increasing
    /// order) and lowers `threads` to the size of the range less one, cut to a byte,
    /// where that is smaller.
    fn range_ports(threads: &mut u8, lp: &mut u16, hp: &mut u16, ports: &[&str]) -> (r: Result<(), &'static str>)
        requires
            ports.len() >= 1,
            ({
                let parts = split_on(ports@[0]@, '-');
                parts.len() == 2 ==> spec_parse_u16(parts[0]) is Ok && spec_parse_u16(parts[1]) is Ok
            }),
        ensures
            split_on(ports@[0]@, '-').len() != 2 <==> r is Err,
            r matches Err(e) ==> e@ == "bad use of range ports"@,
            r is Err ==> *final(threads) == *old(threads) && *final(lp) == *old(lp) && *final(hp)
                == *old(hp),
            r is Ok ==> (*final(lp), *final(hp)) == spec_range_ends(ports@[0]@) && *final(threads)
                == spec_range_threads(*old(threads), *final(lp), *final(hp)),
            r is Ok ==> ({
                let parts = split_on(ports@[0]@, '-');
                let a = spec_parse_u16(parts[0])->Ok_0;
                let b = spec_parse_u16(parts[1])->Ok_0;
                *final(lp) <= *final(hp) && ((*final(lp) == a && *final(hp) == b) || (*final(lp) == b
                    && *final(hp) == a))
            }),
    {
        let cs = chars_of(ports[0]);
        let b = split_bounds(&cs, '-');
        if b.len() != 2 {
            return Err("bad use of range ports");
        }
        let ghost parts = split_on(cs@, '-');
        assert(cs@.subrange(b@[0].0 as int, b@[0].1 as int) == parts[0]);
        assert(cs@.subrange(b@[1].0 as int, b@[1].1 as int) == parts[1]);
        assert(b@[0].0 <= b@[0].1 <= cs.len());
        assert(b@[1].0 <= b@[1].1 <= cs.len());
        let a = match parse_u16(&cs, b[0].0, b[0].1) {
            Ok(v) => v,
            Err(_) => {
                proof {
                    assert(false);
                }
                0
            },
        };
        let c = match parse_u16(&cs, b[1].0, b[1].1) {
            Ok(v) => v,
            Err(_) => {
                proof {
                    assert(false);
                }
                0
            },
        };
        *lp = a;
        *hp = c;
        if *lp > *hp {
            let t = *lp;
            *lp = *hp;
            *hp = t;
        }
        let result = *hp - *lp;
        let result8: u8 = (result % 256) as u8;
        *threads = if result8 < *threads {
            result8
        } else {
            *threads
        };
        Ok(())
    }

    /// The ports of each list worker: port number `i` of the list goes to worker
    /// `i % threads`.
    pub fn list_slices(&self) -> (r: Vec<Vec<u16>>)
        requires
            self.threads_of() > 0 || self.port_list_of().len() == 0,
        ensures
            r.len() == self.threads_of(),
            forall|k: int| 0 <= k < r.len() ==> (#[trigger] r@[k])@ == stride(self.port_list_of(), self.threads_of() as int, k),
    {
        let t = self.threads as usize;
        let mut slices: Vec<Vec<u16>> = Vec::new();
        while slices.len() < t
            invariant
                slices.len() <= t,
                t == self.threads,
                t > 0 || self.port_list.len() == 0,
                forall|k: int|
                    0 <= k < slices.len() ==> (#[trigger] slices@[k])@ == stride(self.port_list@, t as int, k),
            decreases t - slices.len(),
        {
            let k = slices.len();
            let mut slot: Vec<u16> = Vec::new();
            let mut i: usize = 0;
            assert(self.port_list@.take(0) =~= Seq::<u16>::empty());
            while i < self.port_list.len()
                invariant
                    i <= self.port_list.len(),
                    t == self.threads,
                    k < t,
                    slot@ == stride(self.port_list@.take(i as int), t as int, k as int),
                decreases self.port_list.len() - i,
            {
                assert(self.port_list@.take(i + 1).drop_last() =~= self.port_list@.take(i as int));
                assert(self.port_list@.take(i + 1).last() == self.port_list@[i as int]);
                if i % t == k {
                    slot.push(self.port_list[i]);
                }
                i = i + 1;
            }
            assert(self.port_list@.take(i as int) =~= self.port_list@);
            slices.push(slot);
        }
        slices
    }

    /// The ports each range worker tries: worker `i` starts at `low + i` and moves on
    /// in steps of `threads`.
    pub fn range_jobs(&self) -> (r: Vec<Vec<u16>>)
        requires
            self.threads_of() == 0 || self.low_of() + self.threads_of() <= self.high_of() + 1,
        ensures
            r.len() == self.threads_of(),
            forall|k: int|
                0 <= k < r.len() ==> (#[trigger] r@[k])@ == spec_worker_ports(
                    self.low_of() + k,
                    self.high_of() as int,
                    self.threads_of() as int,
                ),
    {
        let mut jobs: Vec<Vec<u16>> = Vec::new();
        let mut i: u8 = 0;
        while i < self.threads
            invariant
                i <= self.threads,
                jobs.len() == i,
                self.threads == 0 || self.low_port + self.threads <= self.high_port + 1,
                forall|k: int|
                    0 <= k < jobs.len() ==> (#[trigger] jobs@[k])@ == spec_worker_ports(
                        self.low_port + k,
                        self.high_port as int,
                        self.threads as int,
                    ),
            decreases self.threads - i,
        {
            jobs.push(connect_host_range_ports(self.low_port, self.high_port, self.threads, i));
            i = i + 1;
        }
        jobs
    }

    /// Adds the ports found open; the open ports are kept each once, in ascending order.
    pub fn record_open_ports(&mut self, found: Vec<u16>)
        ensures
            is_strictly_ascending(final(self).open_ports_of()),
            forall|q: u16|
                #[trigger] final(self).open_ports_of().contains(q) <==> (old(self).open_ports_of().contains(q)
                    || found@.contains(q)),
            final(self).address_of() == old(self).address_of(),
            final(self).threads_of() == old(self).threads_of(),
            final(self).low_of() == old(self).low_of(),
            final(self).high_of() == old(self).high_of(),
            final(self).port_list_of() == old(self).port_list_of(),
    {
        let mut all: Vec<u16> = Vec::new();
        let ghost old_open = self.open_ports@;
        let mut i: usize = 0;
        while i < self.open_ports.len()
            invariant
                i <= self.open_ports.len(),
                old_open == self.open_ports@,
                all@ == old_open.take(i as int),
            decreases self.open_ports.len() - i,
        {
            all.push(self.open_ports[i]);
            i = i + 1;
            assert(all@ =~= old_open.take(i as int));
        }
        assert(old_open.take(i as int) =~= old_open);
        assert(all@ =~= old_open + found@.take(0));
        i = 0;
        while i < found.len()
            invariant
                i <= found.len(),
                all@ == old_open + found@.take(i as int),
            decreases found.len() - i,
        {
            all.push(found[i]);
            i = i + 1;
            assert(all@ =~= old_open + found@.take(i as int));
        }
        assert(found@.take(i as int) =~= found@);
        let ghost joined = all@;
        self.open_ports = sorted_distinct(all);
        assert forall|q: u16| joined.contains(q) <==> (old_open.contains(q) || found@.contains(q)) by {
            if joined.contains(q) {
                let k = choose|k: int| 0 <= k < joined.len() && joined[k] == q;
                if k < old_open.len() {
                    assert(old_open[k] == q);
                } else {
                    assert(found@[k - old_open.len()] == q);
                }
            }
            if old_open.contains(q) {
                let k = choose|k: int| 0 <= k < old_open.len() && old_open[k] == q;
                assert(joined[k] == q);
            }
            if found@.contains(q) {
                let k = choose|k: int| 0 <= k < found@.len() && found@[k] == q;
                assert(joined[old_open.len() + k] == q);
            }
        }
    }

    /// The address to scan.
    pub fn get_address(&self) -> (r: Ipv4Address)
        ensures
            r == self.address_of(),
    {
        self.address
    }

    /// The number of worker threads.
    pub fn get_threads(&self) -> (r: u8)
        ensures
            r == self.threads_of(),
    {
        self.threads
    }

    /// The lower end of the range to scan.
    pub fn get_low_port(&self) -> (r: u16)
        ensures
            r == self.low_of(),
    {
        self.low_port
    }

    /// The upper end of the range to scan.
    pub fn get_high_port(&self) -> (r: u16)
        ensures
            r == self.high_of(),
    {
        self.high_port
    }

    /// The number of ports in the list to scan.
    pub fn port_list_len(&self) -> (r: usize)
        ensures
            r == self.port_list_of().len(),
    {
        self.port_list.len()
    }

    /// The ports found open so far.
    pub fn get_open_ports(&self) -> (r: &Vec<u16>)
        ensures
            r@ == self.open_ports_of(),
    {
        &self.open_ports
    }

    /// Whether the scanner scans a range (rather than a list).
    pub fn scans_range(&self) -> (r: bool)
        ensures
            r == (self.port_list_of().len() == 0),
    {
        self.port_list.len() == 0
    }
}

/// The ports of `set`, each once, in ascending order.
fn ascending_members(set: &HashSet<u16>) -> (r: Vec<u16>)
    ensures
        is_strictly_ascending(r@),
        forall|q: u16| #[trigger] r@.contains(q) <==> set@.contains(q),
{
    broadcast use vstd::std_specs::hash::group_hash_axioms;

    let ghost pred = |q: u16| set@.contains(q);
    let mut r: Vec<u16> = Vec::new();
    let mut p: u32 = 0;
    while p < 65536
        invariant
            p <= 65536,
            pred == (|q: u16| set@.contains(q)),
            r@ == ascending_ports(p as int, pred),
        decreases 65536 - p,
    {
        let q = p as u16;
        assert(q as int == p as int);
        if set.contains(&q) {
            r.push(q);
        }
        p = p + 1;
    }
    proof {
        lemma_ascending_ports_members(65536, pred);
    }
    r
}

/// For the range argument `a-b` of two port numbers, the scanner reads the two numbers
/// and scans from the smaller to the larger: its ends are `min(a, b)` and `max(a, b)`;
/// setting it up does not panic.
pub proof fn lemma_range_argument_ends(address: Seq<char>, a: u16, b: u16)
    ensures
        ({
            let t = range_text_of(a, b);
            let parts = split_on(t, '-');
            &&& has_char(t, '-')
            &&& parts.len() == 2
            &&& spec_parse_u16(parts[0]) == Ok::<u16, PortParseError>(a)
            &&& spec_parse_u16(parts[1]) == Ok::<u16, PortParseError>(b)
            &&& spec_range_ends(t) == (min_u16(a, b), max_u16(a, b))
            &&& !spec_new_panics(address, seq![t])
        }),
{
    let da = decimal(a as nat);
    let db = decimal(b as nat);
    let t = range_text_of(a, b);
    lemma_decimal_without(a as nat, '-');
    lemma_decimal_without(b as nat, '-');
    lemma_split_on_join(da, '-', db);
    lemma_split_on_without(da, '-');
    lemma_split_on_without(db, '-');
    assert(split_on(t, '-') =~= seq![da, db]);
    assert(t[da.len() as int] == '-');
    lemma_parse_u16_decimal(a);
    lemma_parse_u16_decimal(b);
    assert(seq![t].len() == 1);
    assert(seq![t][0] == t);
}

fn has_sep(cs: &Vec<char>) -> (r: bool)
    ensures
        r == has_char(cs@, '-'),
{
    let mut i: usize = 0;
    while i < cs.len()
        invariant
            i <= cs.len(),
            forall|k: int| 0 <= k < i ==> cs@[k] != '-',
        decreases cs.len() - i,
    {
        if cs[i] == '-' {
            return true;
        }
        i = i + 1;
    }
    false
}

/// The ports a range worker at `position` tries, as `spec_worker_ports` states: from
/// `start + position` on, in steps of `threads`, until `end` is at most `threads` away.
pub fn connect_host_range_ports(start: u16, end: u16, threads: u8, position: u8) -> (r: Vec<u16>)
    requires
        start + position <= end,
        threads > 0 || start + position == end,
    ensures
        r@ == spec_worker_ports(start + position, end as int, threads as int),
{
    let mut port: u16 = start + position as u16;
    let mut r: Vec<u16> = Vec::new();
    let ghost first = port as int;
    loop
        invariant_except_break
            start + position <= port <= end,
            threads > 0 || port == end,
            first == start + position,
            spec_worker_ports(first, end as int, threads as int) == r@ + spec_worker_ports(
                port as int,
                end as int,
                threads as int,
            ),
        ensures
            r@ == spec_worker_ports(first, end as int, threads as int),
        decreases end - port,
    {
        r.push(port);
        if end - port <= threads as u16 {
            assert(r@ =~= spec_worker_ports(first, end as int, threads as int));
            break;
        }
        assert(spec_worker_ports(port as int, end as int, threads as int) =~= seq![port] + spec_worker_ports(
            port + threads,
            end as int,
            threads as int,
        ));
        port += threads as u16;
    }
    r
}

} // verus!
