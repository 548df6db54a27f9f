use dirserve::size_format::format_size;

#[test]
fn zero_renders_as_zero() {
    assert_eq!(format_size(0), "0");
}

#[test]
fn below_one_thousand_has_no_separator() {
    assert_eq!(format_size(1), "1");
    assert_eq!(format_size(42), "42");
    assert_eq!(format_size(999), "999");
}

#[test]
fn one_thousand_gets_a_comma() {
    assert_eq!(format_size(1000), "1,000");
}

#[test]
fn groups_of_three_from_the_right() {
    assert_eq!(format_size(1234567), "1,234,567");
}

#[test]
fn inner_groups_keep_leading_zeros() {
    assert_eq!(format_size(1000000), "1,000,000");
    assert_eq!(format_size(1002003), "1,002,003");
    assert_eq!(format_size(999999), "999,999");
    assert_eq!(format_size(10000), "10,000");
}

#[test]
fn largest_value_renders() {
    assert_eq!(format_size(u64::MAX), "18,446,744,073,709,551,615");
}
