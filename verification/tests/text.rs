use inhouse::text::{i32_to_text, u64_to_text};

#[test]
fn decimal_text() {
    assert_eq!(u64_to_text(0), "0");
    assert_eq!(u64_to_text(1200), "1200");
    assert_eq!(u64_to_text(u64::MAX), u64::MAX.to_string());
    assert_eq!(i32_to_text(-45), "-45");
    assert_eq!(i32_to_text(i32::MIN), i32::MIN.to_string());
    assert_eq!(i32_to_text(7), "7");
}
