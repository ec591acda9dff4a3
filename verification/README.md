# port_scanner

A TCP port scanner whose planning logic is verified with Verus.

- `src/text.rs`: reading decimal numbers (`u8`, `u16`), dotted-decimal IPv4 addresses,
  splitting text on a separator, and writing decimal text.
- `src/sorting.rs`: stable sorting of ranges by decreasing upper end and sorting of open
  ports (through `itertools`), with the proof that the stable sort exists and is unique.
- `src/scanner/`: `RangePorts` (reading, merging and splitting port ranges), `Scanner`
  (reading the port list, merging ranges, choosing threads and splitting the ports into
  jobs) and `laws.rs`, the properties proved of a scanner's plan.
- `src/simple_scanner.rs`: a scanner for one range or one list of ports.
- `src/output/`, `src/outfile/`: the scan report and result files.
- `src/input_port_data/`: reading an address and thread count from arguments.
- `app/`: the command line, the thread pool that makes the connections, and file I/O.
