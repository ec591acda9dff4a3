use vstd::prelude::*;
use crate::text::{chars_of, parse_u16, parse_u8, split_bounds, split_on, spec_parse_u16, spec_parse_u8, Ipv4Address};

verus! {

/// The views of the arguments.
pub open spec fn arg_texts(args: Seq<String>) -> Seq<Seq<char>> {
    args.map_values(|a: String| a@)
}

/// The position of the first argument equal to `t`.
pub open spec fn first_index(ts: Seq<Seq<char>>, t: Seq<char>) -> Option<int>
    decreases ts.len(),
{
    if ts.len() == 0 {
        None
    } else {
        match first_index(ts.drop_last(), t) {
            Some(i) => Some(i),
            None => if ts.last() == t {
                Some(ts.len() - 1)
            } else {
                None
            },
        }
    }
}

pub open spec fn flag_p() -> Seq<char> {
    seq!['-', 'p']
}

pub open spec fn flag_t() -> Seq<char> {
    seq!['-', 't']
}

/// The position of the address: right after `-p`, or the first argument.
pub open spec fn address_index(ts: Seq<Seq<char>>) -> int {
    match first_index(ts, flag_p()) {
        Some(i) => i + 1,
        None => 0,
    }
}

/// `PortData::new` panics where there is an argument, but none at the position of the
/// address, or where the address has four `.`-separated groups of which one is not a
/// `u8`.
pub open spec fn spec_port_data_panics(ts: Seq<Seq<char>>) -> bool {
    ts.len() >= 1 && (address_index(ts) >= ts.len() || {
        let parts = split_on(ts[address_index(ts)], '.');
        parts.len() == 4 && (spec_parse_u8(parts[0]) is Err || spec_parse_u8(parts[1]) is Err
            || spec_parse_u8(parts[2]) is Err || spec_parse_u8(parts[3]) is Err)
    })
}

/// The number of threads: the argument after `-t` read as a `u16`, or 1 where it is
/// missing or not a number.
pub open spec fn spec_thread_num(ts: Seq<Seq<char>>) -> u16 {
    match first_index(ts, flag_t()) {
        Some(j) => if j + 1 < ts.len() {
            match spec_parse_u16(ts[j + 1]) {
                Ok(v) => v,
                Err(_) => 1,
            }
        } else {
            1
        },
        None => 1,
    }
}

/// The error when no argument is given.
pub const NOT_IP: &'static str = "ERROR! IP address not introduced";
/// The error when the address does not have four groups.
pub const WRONG_IP: &'static str = "ERROR! IP introduced is not valid";

/// The address and thread count read from command-line arguments, with the range of
/// ports to scan.
#[derive(Debug)]
pub struct PortData {
    ip_addr: Ipv4Address,
    thread_num: u16,
    start_port: u16,
    last_port: u16,
}

fn is_flag(a: &String, second: char) -> (r: bool)
    ensures
        r == (a@ == seq!['-', second]),
{
    let cs = chars_of(a.as_str());
    let r = cs.len() == 2 && cs[0] == '-' && cs[1] == second;
    proof {
        if cs.len() == 2 && cs[0] == '-' && cs[1] == second {
            assert(cs@ =~= seq!['-', second]);
        }
    }
    r
}

fn find_flag(args: &[String], second: char) -> (r: Option<usize>)
    ensures
        first_index(arg_texts(args@), seq!['-', second]) == match r {
            Some(i) => Some(i as int),
            None => None::<int>,
        },
        r matches Some(i) ==> i < args.len(),
{
    let ghost ts = arg_texts(args@);
    let mut i: usize = 0;
    assert(ts.take(0) =~= Seq::<Seq<char>>::empty());
    while i < args.len()
        invariant
            i <= args.len(),
            ts == arg_texts(args@),
            first_index(ts.take(i as int), seq!['-', second]) is None,
        decreases args.len() - i,
    {
        assert(ts.take(i + 1).drop_last() =~= ts.take(i as int));
        assert(ts[i as int] == args@[i as int]@);
        if is_flag(&args[i], second) {
            proof {
                lemma_first_index_prefix(ts, seq!['-', second], i as int + 1);
            }
            return Some(i);
        }
        i = i + 1;
    }
    assert(ts.take(i as int) =~= ts);
    None
}

proof fn lemma_first_index_prefix(ts: Seq<Seq<char>>, t: Seq<char>, n: int)
    requires
        0 <= n <= ts.len(),
        first_index(ts.take(n), t) is Some,
    ensures
        first_index(ts, t) == first_index(ts.take(n), t),
    decreases ts.len() - n,
{
    if n < ts.len() {
        assert(ts.take(n + 1).drop_last() =~= ts.take(n));
        lemma_first_index_prefix(ts, t, n + 1);
    } else {
        assert(ts.take(n) =~= ts);
    }
}

/// `first_index` finds the first argument equal to `t`, and none where no argument is.
pub proof fn lemma_first_index_is_first(ts: Seq<Seq<char>>, t: Seq<char>)
    ensures
        first_index(ts, t) matches Some(i) ==> 0 <= i < ts.len() && ts[i] == t && forall|k: int|
            0 <= k < i ==> ts[k] != t,
        first_index(ts, t) is None <==> forall|k: int| 0 <= k < ts.len() ==> ts[k] != t,
    decreases ts.len(),
{
    if ts.len() > 0 {
        let init = ts.drop_last();
        lemma_first_index_is_first(init, t);
        assert forall|k: int| 0 <= k < init.len() implies init[k] == ts[k] by {}
        if first_index(ts, t) is None {
            assert forall|k: int| 0 <= k < ts.len() implies ts[k] != t by {
                if k < init.len() {
                    assert(init[k] == ts[k]);
                }
            }
        }
    }
}

/// The thread count read from the arguments: 1 where no argument is `-t`; where the
/// first `-t` is followed by a port number, that number; otherwise 1.
pub proof fn lemma_thread_num_read(ts: Seq<Seq<char>>)
    ensures
        (forall|k: int| 0 <= k < ts.len() ==> ts[k] != seq!['-', 't']) ==> spec_thread_num(ts) == 1,
        forall|j: int|
            0 <= j < ts.len() && #[trigger] ts[j] == seq!['-', 't'] && (forall|k: int| 0 <= k < j ==> ts[k] != seq!['-', 't'])
                ==> spec_thread_num(ts) == if j + 1 < ts.len() && spec_parse_u16(ts[j + 1]) is Ok {
                spec_parse_u16(ts[j + 1])->Ok_0
            } else {
                1
            },
{
    lemma_first_index_is_first(ts, flag_t());
    assert(flag_t() =~= seq!['-', 't']);
    assert forall|j: int|
        0 <= j < ts.len() && ts[j] == seq!['-', 't'] && (forall|k: int| 0 <= k < j ==> ts[k] != seq!['-', 't'])
            implies first_index(ts, flag_t()) == Some(j) by {
        if let Some(i) = first_index(ts, flag_t()) {
            if j < i {
                assert(ts[j] != flag_t());
            }
        }
    }
}

impl PortData {
    pub closed spec fn ip_of(&self) -> Ipv4Address {
        self.ip_addr
    }

    pub closed spec fn threads_of(&self) -> u16 {
        self.thread_num
    }

    pub closed spec fn start_of(&self) -> u16 {
        self.start_port
    }

    pub closed spec fn last_of(&self) -> u16 {
        self.last_port
    }

    /// Reads the address (after `-p`, or the first argument) and the number of threads
    /// (after `-t`, 1 by default); the ports to scan are all of them.
    pub fn new(args: &[String]) -> (r: Result<Self, &'static str>)
        requires
            !spec_port_data_panics(arg_texts(args@)),
        ensures
            ({
                let ts = arg_texts(args@);
                if ts.len() < 1 {
                    r matches Err(e) && e@ == NOT_IP@
                } else {
                    let parts = split_on(ts[address_index(ts)], '.');
                    if parts.len() != 4 {
                        r matches Err(e) && e@ == WRONG_IP@
                    } else {
                        r matches Ok(d) && d.ip_of() == Ipv4Address(
                            spec_parse_u8(parts[0])->Ok_0,
                            spec_parse_u8(parts[1])->Ok_0,
                            spec_parse_u8(parts[2])->Ok_0,
                            spec_parse_u8(parts[3])->Ok_0,
                        ) && d.threads_of() == spec_thread_num(ts) && d.start_of() == 0
                            && d.last_of() == 65535
                    }
                }
            }),
            r matches Ok(d) ==> ((forall|k: int|
                0 <= k < args@.len() ==> args@[k]@ != seq!['-', 't']) ==> d.threads_of() == 1),
            forall|j: int|
                0 <= j < args@.len() && args@[j]@ == seq!['-', 't'] && (forall|k: int|
                    0 <= k < j ==> args@[k]@ != seq!['-', 't']) ==> (r matches Ok(d) ==> d.threads_of()
                    == if j + 1 < args@.len() && spec_parse_u16(args@[j + 1]@) is Ok {
                    spec_parse_u16(args@[j + 1]@)->Ok_0
                } else {
                    1
                }),
    {
        let ghost ts = arg_texts(args@);
        if args.len() < 1 {
            return Err(NOT_IP);
        }
        let start_port: u16 = 0;
        let last_port: u16 = 65535;
        let index: usize = match find_flag(args, 'p') {
            Some(index) => index + 1,
            None => 0,
        };
        let ip_addr = match Self::parse_string_to_ip(args, index) {
            Ok(addr) => addr,
            Err(err) => return Err(err),
        };
        let thread_num: u16 = match find_flag(args, 't') {
            Some(index) => {
                if index + 1 < args.len() {
                    let cs = chars_of(args[index + 1].as_str());
                    assert(cs@.subrange(0, cs.len() as int) =~= cs@);
                    assert(ts[index + 1] == args@[index + 1]@);
                    match parse_u16(&cs, 0, cs.len()) {
                        Ok(v) => v,
                        Err(_) => 1,
                    }
                } else {
                    1
                }
            },
            None => 1,
        };
        proof {
            lemma_first_index_is_first(ts, flag_t());
            assert forall|k: int| 0 <= k < args@.len() implies ts[k] == args@[k]@ by {}
            assert(flag_t() =~= seq!['-', 't']);
            assert forall|j: int|
                0 <= j < args@.len() && args@[j]@ == seq!['-', 't'] && (forall|k: int|
                    0 <= k < j ==> args@[k]@ != seq!['-', 't']) implies first_index(ts, flag_t())
                == Some(j) by {
                assert(ts[j] == flag_t());
                if let Some(i) = first_index(ts, flag_t()) {
                    if i < j {
                        assert(args@[i]@ == ts[i]);
                    }
                    if j < i {
                        assert(ts[j] != flag_t());
                    }
                }
            }
        }
        Ok(Self { ip_addr, thread_num, start_port, last_port })
    }

    fn parse_string_to_ip(args: &[String], index: usize) -> (r: Result<Ipv4Address, &'static str>)
        requires
            index < args.len(),
            ({
                let parts = split_on(args@[index as int]@, '.');
                parts.len() == 4 ==> (spec_parse_u8(parts[0]) is Ok && spec_parse_u8(parts[1]) is Ok
                    && spec_parse_u8(parts[2]) is Ok && spec_parse_u8(parts[3]) is Ok)
            }),
        ensures
            ({
                let parts = split_on(args@[index as int]@, '.');
                if parts.len() != 4 {
                    r matches Err(e) && e@ == WRONG_IP@
                } else {
                    r == Ok::<Ipv4Address, &'static str>(
                        Ipv4Address(
                            spec_parse_u8(parts[0])->Ok_0,
                            spec_parse_u8(parts[1])->Ok_0,
                            spec_parse_u8(parts[2])->Ok_0,
                            spec_parse_u8(parts[3])->Ok_0,
                        ),
                    )
                }
            }),
    {
        let ip_str = chars_of(args[index].as_str());
        let b = split_bounds(&ip_str, '.');
        if b.len() != 4 {
            return Err(WRONG_IP);
        }
        let ghost parts = split_on(ip_str@, '.');
        assert(ip_str@.subrange(b@[0].0 as int, b@[0].1 as int) == parts[0]);
        assert(ip_str@.subrange(b@[1].0 as int, b@[1].1 as int) == parts[1]);
        assert(ip_str@.subrange(b@[2].0 as int, b@[2].1 as int) == parts[2]);
        assert(ip_str@.subrange(b@[3].0 as int, b@[3].1 as int) == parts[3]);
        assert(b@[0].0 <= b@[0].1 <= ip_str.len());
        assert(b@[1].0 <= b@[1].1 <= ip_str.len());
        assert(b@[2].0 <= b@[2].1 <= ip_str.len());
        assert(b@[3].0 <= b@[3].1 <= ip_str.len());
        let a = parse_u8(&ip_str, b[0].0, b[0].1);
        let bb = parse_u8(&ip_str, b[1].0, b[1].1);
        let c = parse_u8(&ip_str, b[2].0, b[2].1);
        let d = parse_u8(&ip_str, b[3].0, b[3].1);
        match (a, bb, c, d) {
            (Ok(a), Ok(bb), Ok(c), Ok(d)) => Ok(Ipv4Address(a, bb, c, d)),
            _ => {
                proof {
                    assert(false);
                }
                Err(WRONG_IP)
            },
        }
    }

    /// Scanning from the data is not implemented: it does nothing.
    pub fn scan(&self) {
    }
}

} // verus!
