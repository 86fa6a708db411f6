use stroke::text::{counted, grouped};

#[test]
fn thousands_are_grouped() {
    assert_eq!(grouped(0), "0");
    assert_eq!(grouped(512), "512");
    assert_eq!(grouped(5369), "5,369");
    assert_eq!(grouped(1_234_567), "1,234,567");
}

#[test]
fn one_of_something_is_singular() {
    assert_eq!(counted(0, "list"), "0 lists");
    assert_eq!(counted(1, "list"), "1 list");
    assert_eq!(counted(2, "list"), "2 lists");
    assert_eq!(counted(5369, "word"), "5,369 words");
}

#[test]
fn grouping_handles_every_width() {
    assert_eq!(grouped(9), "9");
    assert_eq!(grouped(10), "10");
    assert_eq!(grouped(999), "999");
    assert_eq!(grouped(1000), "1,000");
    assert_eq!(grouped(100_000), "100,000");
    assert_eq!(grouped(1_000_000), "1,000,000");
}

#[test]
fn counting_uses_grouped_figures() {
    assert_eq!(counted(12_000, "unit"), "12,000 units");
    assert_eq!(counted(1, "character"), "1 character");
}
