use port_scanner::scanner::range_port::RangePorts;

// NORMAL

#[test]
fn first_contains() {
    let a = RangePorts::new(10, 20);
    let b = RangePorts::new(5, 30);

    assert!(a.can_merge(&b));
}

#[test]
fn second_contains() {
    let b = RangePorts::new(10, 20);
    let a = RangePorts::new(5, 30);

    assert!(a.can_merge(&b));
}

#[test]
fn first_part() {
    let a = RangePorts::new(10, 20);
    let b = RangePorts::new(15, 30);

    assert!(a.can_merge(&b));
}

#[test]
fn second_part() {
    let a = RangePorts::new(10, 20);
    let b = RangePorts::new(5, 15);

    assert!(a.can_merge(&b));
}

// HAS AN EQUAL NUMBER

#[test]
fn first_contains_eq() {
    let a = RangePorts::new(10, 20);
    let b = RangePorts::new(10, 30);

    assert!(a.can_merge(&b));
}

#[test]
fn second_contains_eq() {
    let b = RangePorts::new(10, 20);
    let a = RangePorts::new(5, 20);

    assert!(a.can_merge(&b));
}

#[test]
fn first_part_eq() {
    let a = RangePorts::new(10, 20);
    let b = RangePorts::new(20, 30);

    assert!(a.can_merge(&b));
}

#[test]
fn second_part_eq() {
    let a = RangePorts::new(10, 20);
    let b = RangePorts::new(5, 10);

    assert!(a.can_merge(&b));
}

#[test]
fn first_same() {
    let a = RangePorts::new(10, 20);
    let b = RangePorts::new(10, 20);

    assert!(a.can_merge(&b));
}

#[test]
fn second_same() {
    let b = RangePorts::new(10, 20);
    let a = RangePorts::new(20, 20);

    assert!(a.can_merge(&b));
}

// SHOULD FAIL

#[test]
fn first_fail() {
    let a = RangePorts::new(10, 20);
    let b = RangePorts::new(22, 30);

    assert_eq!(a.can_merge(&b), false);
}

#[test]
fn second_fail() {
    let a = RangePorts::new(10, 20);
    let b = RangePorts::new(1, 8);

    assert_eq!(a.can_merge(&b), false);
}

// DIFFERENCE OF 1

#[test]
fn self_l_other_h() {
    let b = RangePorts::new(30, 50);
    let a = RangePorts::new(20, 29);

    assert!(a.can_merge(&b));
}

#[test]
fn self_h_other_l() {
    let b = RangePorts::new(10, 20);
    let a = RangePorts::new(21, 30);

    assert!(a.can_merge(&b));
}
