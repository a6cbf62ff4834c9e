use scal::anim::{u32_to_decimal, SourceLoc};

#[test]
fn source_location_display() {
    let loc = SourceLoc { file: "src/main.rs".to_string(), line: 42 };
    assert_eq!(loc.to_display_string(), "at src/main.rs:42");
    let loc = SourceLoc { file: String::new(), line: 0 };
    assert_eq!(loc.to_display_string(), "at :0");
}

#[test]
fn decimal_digits() {
    assert_eq!(u32_to_decimal(0), vec!['0']);
    assert_eq!(u32_to_decimal(7), vec!['7']);
    assert_eq!(u32_to_decimal(1090), vec!['1', '0', '9', '0']);
    assert_eq!(u32_to_decimal(u32::MAX).iter().collect::<String>(), "4294967295");
}
