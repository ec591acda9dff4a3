use port_scanner::input_port_data::data::PortData;
use port_scanner::outfile::Outfile as ModeOutfile;
use port_scanner::output::error::{OutfileError, OutfileErrorKind};
use port_scanner::output::outfile::Outfile;
use port_scanner::output::Output;
use port_scanner::scanner::error::ScannerError;
use port_scanner::scanner::range_port::RangePorts;
use port_scanner::scanner::{Scanned, Scanner};
use port_scanner::simple_scanner::Scanner as SimpleScanner;
use port_scanner::text::{Ipv4Address, PortParseError};
use std::collections::HashMap;

fn ends(r: &RangePorts) -> (u16, u16) {
    (r.get_low(), r.get_high())
}

#[test]
fn range_from_text_forms() {
    assert_eq!(ends(&RangePorts::from_str("20-80").unwrap()), (20, 80));
    assert_eq!(ends(&RangePorts::from_str("80-20").unwrap()), (20, 80));
    assert_eq!(ends(&RangePorts::from_str("-80").unwrap()), (1, 80));
    assert_eq!(ends(&RangePorts::from_str("20-").unwrap()), (20, 65535));
    assert_eq!(ends(&RangePorts::from_str("5-6-7").unwrap()), (5, 6));
    assert_eq!(RangePorts::from_str("20-80").unwrap().get_num(), 61);
    assert_eq!(RangePorts::from_str("20-80").unwrap().get_threads_to_use(), 1);
}

#[test]
fn range_from_text_errors() {
    assert_eq!(RangePorts::from_str("abc").unwrap_err(), PortParseError::InvalidDigit);
    assert_eq!(RangePorts::from_str("").unwrap_err(), PortParseError::Empty);
    assert_eq!(RangePorts::from_str("-").unwrap_err(), PortParseError::Empty);
    assert_eq!(RangePorts::from_str("99999-1").unwrap_err(), PortParseError::PosOverflow);
    assert_eq!(RangePorts::from_str("1-x").unwrap_err(), PortParseError::InvalidDigit);
}

#[test]
fn range_new_orders_ends() {
    let r = RangePorts::new(4444, 2);
    assert_eq!(ends(&r), (2, 4444));
    assert_eq!(r.get_num(), 4443);
    assert!(r.contains(2) && r.contains(4444) && !r.contains(4445));
    assert!(r.not_contains(1) && !r.not_contains(100));
    assert!(RangePorts::new(7, 7).same_pair_port());
    assert!(!r.same_pair_port());
    let mut r = r;
    r.set_threads_to_use(9);
    assert_eq!(r.get_threads_to_use(), 9);
    assert_eq!(ends(&r), (2, 4444));
}

#[test]
fn can_merge_is_symmetric() {
    let pairs = [((10, 20), (5, 30)), ((10, 20), (21, 30)), ((10, 20), (22, 30)), ((10, 20), (1, 8))];
    for ((a, b), (c, d)) in pairs.iter() {
        let x = RangePorts::new(*a, *b);
        let y = RangePorts::new(*c, *d);
        assert_eq!(x.can_merge(&y), y.can_merge(&x));
    }
}

#[test]
fn change_range_ports_cases() {
    let mut a = RangePorts::new(25, 40);
    a.change_range_ports(&RangePorts::new(20, 30));
    assert_eq!((ends(&a), a.get_num()), ((20, 40), 21));

    let mut b = RangePorts::new(10, 20);
    b.change_range_ports(&RangePorts::new(5, 30));
    assert_eq!(ends(&b), (5, 30));

    let mut c = RangePorts::new(30, 50);
    c.change_range_ports(&RangePorts::new(20, 29));
    assert_eq!(ends(&c), (20, 50));

    let mut d = RangePorts::new(10, 20);
    d.change_range_ports(&RangePorts::new(21, 30));
    assert_eq!(ends(&d), (10, 30));

    // Equal ends fall through every case: the range stays as it was.
    let mut e = RangePorts::new(20, 30);
    e.change_range_ports(&RangePorts::new(10, 30));
    assert_eq!(ends(&e), (20, 30));
}

fn scanner(ports: &[&str], threads: u8, cores: usize) -> Scanner {
    Scanner::with_cores("localhost", threads, ports, 10, 0, cores).unwrap()
}

fn flat_ranges(s: &Scanner) -> Vec<(u16, u16)> {
    s.job_slices().1.iter().map(ends).collect()
}

#[test]
fn scanner_plan_merges_and_splits() {
    let s = scanner(&["22", "80", "20-30", "25-40"], 4, 8);
    assert_eq!(s.get_address(), Ipv4Address(127, 0, 0, 1));
    assert_eq!(s.get_total_threads(), 4);
    assert_eq!(s.get_timeout(), 10);
    assert!(!s.is_verbose());
    let (indiv, _) = s.job_slices();
    assert_eq!(indiv, vec![vec![80u16]]);
    assert_eq!(flat_ranges(&s), vec![(20, 25), (26, 31), (32, 37), (38, 40)]);
}

#[test]
fn scanner_ranges_sorted_by_upper_end() {
    let s = scanner(&["10-20", "30-40"], 1, 1);
    assert_eq!(flat_ranges(&s), vec![(30, 40), (10, 20)]);
}

#[test]
fn scanner_merge_keeps_first_of_equal_ends() {
    let s = scanner(&["20-30", "10-30"], 1, 1);
    assert_eq!(flat_ranges(&s), vec![(20, 30)]);
    let t = scanner(&["10-30", "20-30"], 1, 1);
    assert_eq!(flat_ranges(&t), vec![(10, 30)]);
}

#[test]
fn scanner_pair_range_is_single_port() {
    let s = scanner(&["7-7", "9", "9", "x"], 8, 8);
    assert_eq!(s.get_total_threads(), 2);
    let (indiv, ranges) = s.job_slices();
    assert!(ranges.is_empty());
    let all: Vec<u16> = indiv.concat();
    assert_eq!(all, vec![7, 9]);
}

#[test]
fn scanner_threads_follow_cores() {
    let s = scanner(&["1-1000"], 200, 4);
    assert_eq!(s.get_total_threads(), 4);
    let (_, ranges) = s.job_slices();
    assert_eq!(ranges.len(), 4);
    assert_eq!(ends(&ranges[0]), (1, 250));
    assert_eq!(ends(&ranges[3]), (751, 1000));
}

#[test]
fn scanner_divide_by_hand() {
    let s = scanner(&["1-10", "100", "200", "300"], 3, 8);
    let mut position = 0u16;
    let mut part = 0u16;
    let first = s.divide_range_ports(&mut position, &mut part);
    assert_eq!(ends(&first), (1, 5));
    assert_eq!((position, part), (0, 1));
    let second = s.divide_range_ports(&mut position, &mut part);
    assert_eq!(ends(&second), (6, 10));
    assert_eq!((position, part), (1, 0));
    assert_eq!(s.divide_indiv_ports(0), vec![100, 200, 300]);
}

#[test]
fn scanner_address_errors() {
    assert_eq!(Scanner::with_cores("1.2.3", 1, &["80"], 10, 0, 1).unwrap_err(), ScannerError::IpParse);
    assert_eq!(Scanner::with_cores("256.1.1.1", 1, &["80"], 10, 0, 1).unwrap_err(), ScannerError::IpParse);
    assert_eq!(Scanner::with_cores("01.2.3.4", 1, &["80"], 10, 0, 1).unwrap_err(), ScannerError::IpParse);
    let s = Scanner::with_cores("192.168.0.254", 1, &["80"], 10, 1, 1).unwrap();
    assert_eq!(s.get_address(), Ipv4Address(192, 168, 0, 254));
    assert!(s.is_verbose());
    assert_eq!(ScannerError::IpParse.description(), "scanner error");
}

#[test]
fn scanner_overflowing_setups_are_refused() {
    assert!(Scanner::try_with_cores("localhost", 1, &["0-5", "30-40"], 10, 0, 1).is_none());
    assert!(Scanner::try_with_cores("localhost", 1, &["0-"], 10, 0, 1).is_none());
    assert!(Scanner::try_with_cores("localhost", 1, &["0", "1-65535"], 10, 0, 1).is_none());
    assert!(Scanner::try_new("localhost", 1, &["80"], 10, 0).unwrap().is_ok());
    assert!(Scanner::new("localhost", 1, &["80"], 10, 0).is_ok());
}

#[test]
fn finish_scan_sorts_and_dedups() {
    let s = scanner(&["22", "80"], 1, 1);
    let (addr, ports) = s.finish_scan(vec![80, 22, 80]);
    assert_eq!(addr, Ipv4Address(127, 0, 0, 1));
    assert_eq!(ports, vec![22, 80]);
}

#[test]
fn port_result_report() {
    let sc = Scanned { addr: Ipv4Address(10, 0, 0, 1), ports: vec![22, 80], ports_scanned: 100, duration_nanos: 0 };
    let out = Output::new(&sc, HashMap::new());
    assert_eq!(
        out.string_port_result(),
        "\nPort result for '10.0.0.1':\n Closed: 65533\n Open: 2\n\n  22\n  80\n\nTime spent scanning 100 ports: 0ns"
    );
    let normal = Outfile::new(&out, b'N', "results.txt");
    assert_eq!(normal.get_path(), "results.txt");
    assert_eq!(normal.results_text(), Some(out.string_port_result()));
    assert_eq!(Outfile::new(&out, b'G', "results.txt").results_text(), None);
}

#[test]
fn outfile_error_descriptions() {
    let e = OutfileError::new(OutfileErrorKind::Skip);
    assert_eq!(*e.kind(), OutfileErrorKind::Skip);
    assert_eq!(e.__description(), "do not store results in a file");
    assert_eq!(
        OutfileError::new(OutfileErrorKind::InvalidMode).__description(),
        "invalid storing mode selected"
    );
}

#[test]
fn outfile_mode() {
    assert!(ModeOutfile::new(b"N").is_ok());
    assert_eq!(ModeOutfile::new(b"G").err(), Some("tonto tonto puto tonto"));
}

#[test]
fn port_data_arguments() {
    let args: Vec<String> = ["-p", "192.168.1.1", "-t", "8"].iter().map(|s| s.to_string()).collect();
    let d = PortData::new(&args).unwrap();
    assert_eq!(
        format!("{:?}", d),
        "PortData { ip_addr: Ipv4Address(192, 168, 1, 1), thread_num: 8, start_port: 0, last_port: 65535 }"
    );
    d.scan();
    let args: Vec<String> = ["10.0.0.1", "-t"].iter().map(|s| s.to_string()).collect();
    let d = PortData::new(&args).unwrap();
    assert!(format!("{:?}", d).contains("thread_num: 1"));
    let none: Vec<String> = vec![];
    assert_eq!(PortData::new(&none).unwrap_err(), "ERROR! IP address not introduced");
    let bad: Vec<String> = vec!["1.2.3".to_string()];
    assert_eq!(PortData::new(&bad).unwrap_err(), "ERROR! IP introduced is not valid");
}

#[test]
fn simple_scanner_range() {
    let s = SimpleScanner::new("localhost", 4, &["10-20"]).unwrap();
    assert!(s.scans_range());
    assert_eq!(
        s.range_jobs(),
        vec![vec![10, 14, 18], vec![11, 15, 19], vec![12, 16], vec![13, 17]]
    );
    assert_eq!(SimpleScanner::new("localhost", 4, &["10-20-30"]).unwrap_err(), "bad use of range ports");
    assert_eq!(SimpleScanner::new("nowhere", 4, &["80"]).unwrap_err(), "invalid IP address syntax");
}

#[test]
fn simple_scanner_list() {
    let mut s = SimpleScanner::new("127.0.0.1", 8, &["22", "80", "22"]).unwrap();
    assert!(!s.scans_range());
    assert_eq!(s.list_slices(), vec![vec![22], vec![80], vec![]]);
    s.record_open_ports(vec![80, 22]);
    s.record_open_ports(vec![80]);
    assert_eq!(*s.get_open_ports(), vec![22, 80]);
    assert_eq!(s.get_address(), Ipv4Address(127, 0, 0, 1));
}

#[test]
fn scanner_zero_threads_single_jobs() {
    let s = scanner(&["1-100", "200"], 0, 8);
    assert_eq!(s.get_total_threads(), 0);
    assert_eq!(s.get_ports_to_scan(), 101);
    let (indiv, ranges) = s.job_slices();
    assert_eq!(indiv, vec![vec![200u16]]);
    assert_eq!(ranges.iter().map(ends).collect::<Vec<_>>(), vec![(1, 100)]);
}

#[test]
fn range_text_of_two_numbers_reads_back() {
    let pairs: [(u16, u16); 6] = [(10, 20), (300, 20), (7, 7), (0, 65534), (65535, 1), (0, 0)];
    for (a, b) in pairs.iter() {
        let text = format!("{}-{}", a, b);
        let read = RangePorts::from_str(&text).unwrap();
        let built = RangePorts::new(*a, *b);
        assert_eq!(ends(&read), ends(&built));
        assert_eq!(read.get_num(), built.get_num());
        assert_eq!(read.get_threads_to_use(), built.get_threads_to_use());
    }
}

#[test]
fn scanner_ranges_are_separated() {
    let s = scanner(&["50-60", "10-20", "22-30", "21", "61", "5-8", "7-9", "100-110", "40-45"], 1, 1);
    let ranges = flat_ranges(&s);
    assert_eq!(ranges, vec![(100, 110), (50, 60), (40, 45), (22, 30), (5, 20)]);
    for i in 0..ranges.len() {
        assert!(ranges[i].0 < ranges[i].1);
        for j in (i + 1)..ranges.len() {
            assert!(ranges[j].1 + 1 < ranges[i].0);
        }
    }
    let (indiv, _) = s.job_slices();
    assert_eq!(indiv, vec![vec![21u16, 61]]);
    for p in indiv.concat() {
        assert!(ranges.iter().all(|r| p < r.0 || r.1 < p));
    }
}
