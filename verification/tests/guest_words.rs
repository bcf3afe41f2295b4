use vhost_user_nvrm::guest_words::{GuestAddr, GuestLen};

fn a(v: u64) -> GuestAddr {
    GuestAddr::new(v)
}

fn l(v: u64) -> GuestLen {
    GuestLen::new(v)
}

/// A wrapping end must not pass a range's upper-bound check.
#[test]
fn end_is_none_exactly_when_the_sum_wraps() {
    assert_eq!(a(0x1000).end(l(0x1000)), Some(a(0x2000)));
    assert_eq!(a(0).end(l(0)), Some(a(0)), "zero length is not an error");
    assert_eq!(a(u64::MAX).end(l(0)), Some(a(u64::MAX)), "the last byte, no wrap");
    assert_eq!(a(u64::MAX).end(l(1)), None);
    assert_eq!(a(1).end(l(u64::MAX)), None);
    assert_eq!(a(u64::MAX).end(l(u64::MAX)), None);
    assert_eq!(a(1).end(l(u64::MAX - 1)), Some(a(u64::MAX)));
}

/// An address below the base must not become a large unsigned offset.
#[test]
fn offset_from_refuses_addresses_below_the_base() {
    assert_eq!(a(0x2000).offset_from(a(0x1000)), Some(0x1000));
    assert_eq!(a(0x1000).offset_from(a(0x1000)), Some(0), "the base itself is offset 0");
    assert_eq!(a(0x0fff).offset_from(a(0x1000)), None, "one byte below the base");
    assert_eq!(a(0).offset_from(a(1)), None);
    assert_eq!(a(u64::MAX).offset_from(a(0)), Some(u64::MAX), "the widest legal distance");
}

/// Summing guest ranges must reject overflow.
#[test]
fn plus_is_none_exactly_on_overflow() {
    assert_eq!(l(0x1000).plus(l(0x2000)), Some(l(0x3000)));
    assert_eq!(l(0).plus(l(0)), Some(l(0)));
    assert_eq!(l(u64::MAX).plus(l(0)), Some(l(u64::MAX)), "the largest sum that fits");
    assert_eq!(l(u64::MAX).plus(l(1)), None);
    assert_eq!(l(u64::MAX).plus(l(u64::MAX)), None);
    let big = l(2 << 20);
    assert_eq!(big.plus(l(0x1000u64.wrapping_sub(2 << 20))), None);
}

#[test]
fn is_zero_is_true_only_for_zero() {
    assert!(l(0).is_zero());
    assert!(GuestLen::default().is_zero(), "the default length is 0");
    assert!(!l(1).is_zero());
    assert!(!l(u64::MAX).is_zero());
}

#[test]
fn ordering_follows_the_raw_word() {
    assert!(a(0x1000) < a(0x2000));
    assert!(a(0x2000) > a(0x1000));
    assert_eq!(a(0x1000), a(0x1000));
    assert!(a(u64::MAX) > a(0x8000_0000_0000_0000));
    assert!(l(9) < l(10), "not string order: 9 comes before 10");

    let mut v = [a(0x2000), a(0), a(u64::MAX), a(0x1000)];
    v.sort();
    assert_eq!(v, [a(0), a(0x1000), a(0x2000), a(u64::MAX)]);
}

/// The digits are the bare number; width and fill are the caller's.
#[test]
fn formatting_prints_the_bare_number() {
    assert_eq!(a(0xdead_beef).to_hex(), "deadbeef");
    assert_eq!(format!("0x{}", a(0xdead_beef).to_hex()), "0xdeadbeef");
    assert_eq!(format!("0x{:0>8}", a(0x1000).to_hex()), "0x00001000", "width and fill survive");
    assert_eq!(l(0x1000).to_hex(), "1000");
    assert_eq!(format!("0x{}", l(0x1000).to_hex()), "0x1000");
    assert_eq!(l(4096).to_text(), "4096", "the text is decimal");
    assert_eq!(format!("{:>8}", l(42).to_text()), "      42", "alignment survives");
    assert_eq!(format!("{:?}", a(0x10)), "GuestAddr(16)");
}
