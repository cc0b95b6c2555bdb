use aoc2023::numbers::human_readable_numbers;

#[test]
fn small_numbers_stay_as_they_are() {
    assert_eq!(human_readable_numbers(0), "0");
    assert_eq!(human_readable_numbers(7), "7");
    assert_eq!(human_readable_numbers(1000), "1000");
}

#[test]
fn large_numbers_get_a_unit() {
    assert_eq!(human_readable_numbers(1001), "1K");
    assert_eq!(human_readable_numbers(123_456), "123K");
    assert_eq!(human_readable_numbers(1_000_001), "1M");
    assert_eq!(human_readable_numbers(4_500_000_000), "4G");
    assert_eq!(human_readable_numbers(1_000_000_000_001), "1T");
    assert_eq!(human_readable_numbers(u64::MAX), "18446744T");
}
