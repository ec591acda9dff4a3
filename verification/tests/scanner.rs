use port_scanner::scanner::range_port::RangePorts;
use std::collections::HashSet;

#[test]
fn time_spent() {
    let mut indiv_hash: HashSet<u16> = HashSet::new();
    for i in 1..=u16::MAX {
        indiv_hash.insert(i);
    }

    let mut range_ports: Vec<RangePorts> = vec![];
    range_ports.push(RangePorts::from_str("1-25").unwrap());
    range_ports.push(RangePorts::from_str("30-70").unwrap());
    range_ports.push(RangePorts::from_str("100-170").unwrap());
    range_ports.push(RangePorts::from_str("300-450").unwrap());
    range_ports.push(RangePorts::from_str("600-1000").unwrap());
    range_ports.push(RangePorts::new(1500, 2777));
    range_ports.push(RangePorts::new(4444, 2));
    range_ports.push(RangePorts::new(5555, 7878));
    range_ports.push(RangePorts::new(10_000, 11_234));
    range_ports.push(RangePorts::new(15_987, 15_999));
    range_ports.push(RangePorts::new(15_987, 15_999));
    range_ports.push(RangePorts::new(16_000, 16_001));
    range_ports.push(RangePorts::new(20_000, 30_000));
    range_ports.push(RangePorts::new(30_030, 36_721));
    range_ports.push(RangePorts::new(42_339, 60_000));
    range_ports.push(RangePorts::new(60_000, u16::MAX));
    range_ports.push(RangePorts::new(1, u16::MAX));

    let start_on = std::time::Instant::now();
    let mut new = Vec::new();
    for port in indiv_hash.iter() {
        for rp in range_ports.iter() {
            if !rp.contains(*port) {
                new.push(port);
            }
        }
    }
    let duration_on = start_on.elapsed().as_millis();
    println!("Loops O(n^2)\t- {}ms", duration_on);

    let start_fn = std::time::Instant::now();
    let rp_ref = &range_ports;
    let _indvl_ports: Vec<u16> = indiv_hash
        .into_iter()
        .filter(|p| !rp_ref.iter().any(|r| r.contains(*p)))
        .map(|p| p)
        .collect();
    let duration_fn = start_fn.elapsed().as_millis();
    println!("Iterators\t- {}ms", duration_fn);

    assert!(duration_fn < duration_on);
}
