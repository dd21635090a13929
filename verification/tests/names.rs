use inverted_index::decimal::{parse_decimal, push_decimal};
use inverted_index::naming::{find_dot_from, SegmentName};

const UUID: &str = "f3b4958c-52a1-11e7-802a-010203040506";
const VALUE: u128 = 0xf3b4958c_52a1_11e7_802a_010203040506;

#[test]
fn committed_name_is_parsed() {
    let name = format!("{}.2.1", UUID);
    assert_eq!(
        SegmentName::parse(name.as_bytes()),
        Some(SegmentName { uuid: VALUE, offset: 2, count: 1 })
    );
}

#[test]
fn committed_name_is_written_and_read_back() {
    let name = SegmentName { uuid: VALUE, offset: 18_446_744_073_709_551_000, count: 615 };
    let text = name.directory();
    assert_eq!(
        String::from_utf8(text.clone()).unwrap(),
        format!("{}.18446744073709551000.615", UUID)
    );
    assert_eq!(SegmentName::parse(&text), Some(name));
}

#[test]
fn temp_name_is_no_segment() {
    let text = SegmentName::temp_directory(VALUE);
    assert_eq!(String::from_utf8(text.clone()).unwrap(), format!("{}.temp", UUID));
    assert_eq!(SegmentName::parse(&text), None);
}

#[test]
fn names_that_do_not_parse_are_refused() {
    for name in [
        "".to_string(),
        UUID.to_string(),
        format!("{}.0", UUID),
        format!("{}.0.1.2", UUID),
        format!("{}..1", UUID),
        format!("{}.0.", UUID),
        format!("{}.x.1", UUID),
        format!("{}.0.-1", UUID),
        format!("{}.0.4294967296", UUID),
        format!("{}.18446744073709551616.0", UUID),
        format!("{}.18446744073709551615.1", UUID),
        "not-a-uuid.0.1".to_string(),
        "lost+found".to_string(),
    ] {
        assert_eq!(SegmentName::parse(name.as_bytes()), None, "{}", name);
    }
}

#[test]
fn numbers_are_read_as_the_standard_library_reads_them() {
    let name = format!("{}.+007.00", UUID);
    assert_eq!(
        SegmentName::parse(name.as_bytes()),
        Some(SegmentName { uuid: VALUE, offset: 7, count: 0 })
    );
    let largest = format!("{}.18446744073709551615.0", UUID);
    assert_eq!(
        SegmentName::parse(largest.as_bytes()),
        Some(SegmentName { uuid: VALUE, offset: u64::MAX, count: 0 })
    );
}

#[test]
fn other_spellings_of_the_uuid_are_read() {
    let simple = "f3b4958c52a111e7802a010203040506.0.1";
    assert_eq!(
        SegmentName::parse(simple.as_bytes()),
        Some(SegmentName { uuid: VALUE, offset: 0, count: 1 })
    );
}

#[test]
fn decimal_numbers() {
    assert_eq!(parse_decimal(b"0", 10), Some(0));
    assert_eq!(parse_decimal(b"10", 10), Some(10));
    assert_eq!(parse_decimal(b"11", 10), None);
    assert_eq!(parse_decimal(b"+9", 10), Some(9));
    assert_eq!(parse_decimal(b"+", 10), None);
    assert_eq!(parse_decimal(b"", 10), None);
    assert_eq!(parse_decimal(b"1a", 10), None);
    assert_eq!(parse_decimal(b"99999999999999999999999", u64::MAX), None);
    assert_eq!(parse_decimal(b"18446744073709551615", u64::MAX), Some(u64::MAX));
    let mut out = b"n=".to_vec();
    push_decimal(&mut out, 0);
    push_decimal(&mut out, 1203);
    assert_eq!(out, b"n=01203".to_vec());
}

#[test]
fn dots_are_found() {
    assert_eq!(find_dot_from(b"a.b.c", 0), 1);
    assert_eq!(find_dot_from(b"a.b.c", 2), 3);
    assert_eq!(find_dot_from(b"a.b.c", 4), 5);
    assert_eq!(find_dot_from(b"", 0), 0);
}
