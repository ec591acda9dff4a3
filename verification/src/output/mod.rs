pub mod error;
pub mod outfile;

use vstd::prelude::*;
use vstd::string::StringExecFns;
use std::collections::HashMap;
use crate::scanner::Scanned;
use crate::text::{address_text, decimal, push_address, push_char, push_decimal};

verus! {

/// What is known of a port: its service name, its TCP and UDP use, a description, and
/// whether SCTP uses it.
#[derive(Debug)]
pub struct PortInformation {
    pub name: String,
    pub tcp: String,
    pub udp: String,
    pub description: String,
    pub sctp: bool,
}

/// The results of a scan, with what is known of each port.
#[derive(Debug)]
pub struct Output<'a> {
    scanned: &'a Scanned,
    pinfo: HashMap<u16, PortInformation>,
}

/// The name of the text that `Debug` writes for a `Duration` of `nanos` nanoseconds.
pub uninterp spec fn duration_debug_text(nanos: u64) -> Seq<char>;

/// Calls the `Debug` formatting of `std::time::Duration` on a duration of `nanos`
/// nanoseconds. The text depends on `nanos` alone; its form (units and decimals) is
/// left unstated.
#[verifier::external_body]
fn duration_debug(nanos: u64) -> (r: String)
    ensures
        r@ == duration_debug_text(nanos),
{
    format!("{:?}", std::time::Duration::from_nanos(nanos))
}

/// One line per open port, each indented by two spaces.
pub open spec fn port_lines(ports: Seq<u16>) -> Seq<char>
    decreases ports.len(),
{
    if ports.len() == 0 {
        Seq::<char>::empty()
    } else {
        port_lines(ports.drop_last()) + "  "@ + decimal(ports.last() as nat) + "\n"@
    }
}

/// The report of a scan: the address, how many of the 65535 ports were closed and how
/// many open, the open ports, and how many ports were scanned in how much time.
pub open spec fn port_result_text(sc: Scanned) -> Seq<char> {
    "\nPort result for '"@ + address_text(sc.addr) + "':\n Closed: "@ + decimal(
        (65535 - sc.ports@.len() % 65536) as nat,
    ) + "\n Open: "@ + decimal(sc.ports@.len()) + "\n\n"@ + port_lines(sc.ports@)
        + "\nTime spent scanning "@ + decimal(sc.ports_scanned as nat) + " ports: "@
        + duration_debug_text(sc.duration_nanos)
}

/// The report starts with the scanned address, in dotted-decimal form, between quotes.
pub proof fn lemma_report_names_address(sc: Scanned)
    ensures
        ("\nPort result for '"@ + address_text(sc.addr) + "'"@).is_prefix_of(port_result_text(sc)),
{
    let head = "\nPort result for '"@ + address_text(sc.addr) + "'"@;
    let text = port_result_text(sc);
    let quote_nl = "':\n Closed: "@;
    reveal_strlit("':\n Closed: ");
    reveal_strlit("'");
    assert(quote_nl[0] == '\'');
    assert(head =~= text.subrange(0, head.len() as int));
}

impl<'a> Output<'a> {
    pub closed spec fn scanned_of(&self) -> Scanned {
        *self.scanned
    }

    pub closed spec fn pinfo_of(&self) -> HashMap<u16, PortInformation> {
        self.pinfo
    }

    /// The results of `scanned`, with the port information `pinfo`.
    pub fn new(scanned: &'a Scanned, pinfo: HashMap<u16, PortInformation>) -> (r: Self)
        ensures
            r.scanned_of() == *scanned,
            r.pinfo_of() == pinfo,
    {
        Self { scanned, pinfo }
    }

    /// The report of the scan, as `port_result_text` states. It starts by naming the
    /// scanned address in dotted-decimal form between quotes.
    pub fn string_port_result(&self) -> (r: String)
        ensures
            r@ == port_result_text(self.scanned_of()),
            ("\nPort result for '"@ + address_text(self.scanned_of().addr) + "'"@).is_prefix_of(r@),
    {
        let sc = self.scanned;
        let ports = &sc.ports;
        let len = ports.len();
        let closed_ports: u16 = 65535 - ((len % 65536) as u16);
        let mut result = String::new();
        result.append("\nPort result for '");
        push_address(&mut result, sc.addr);
        result.append("':\n Closed: ");
        push_decimal(&mut result, closed_ports as u64);
        result.append("\n Open: ");
        push_decimal(&mut result, len as u64);
        result.append("\n\n");
        let ghost head = result@;
        let mut i: usize = 0;
        assert(ports@.take(0) =~= Seq::<u16>::empty());
        assert(result@ =~= head + port_lines(ports@.take(0)));
        while i < len
            invariant
                i <= len == ports.len(),
                result@ == head + port_lines(ports@.take(i as int)),
            decreases len - i,
        {
            assert(ports@.take(i + 1).drop_last() =~= ports@.take(i as int));
            assert(ports@.take(i + 1).last() == ports@[i as int]);
            result.append("  ");
            push_decimal(&mut result, ports[i] as u64);
            result.append("\n");
            i = i + 1;
            assert(result@ =~= head + port_lines(ports@.take(i as int)));
        }
        assert(ports@.take(i as int) =~= ports@);
        result.append("\nTime spent scanning ");
        push_decimal(&mut result, sc.ports_scanned as u64);
        result.append(" ports: ");
        let d = duration_debug(sc.duration_nanos);
        result.append(d.as_str());
        proof {
            assert(result@ =~= port_result_text(*sc));
            lemma_report_names_address(*sc);
        }
        result
    }
}

} // verus!
