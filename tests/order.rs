use changelog_bot::icons::category_icon;
use changelog_bot::order::{compare_str, KeyOrder};

#[test]
fn strings_compare_by_bytes() {
    assert_eq!(compare_str("19.5.501", "19.5.510"), KeyOrder::Less);
    assert_eq!(compare_str("20.0.1", "19.5.999"), KeyOrder::Greater);
    assert_eq!(compare_str("sop", "sop"), KeyOrder::Equal);
    assert_eq!(compare_str("ab", "abc"), KeyOrder::Less);
    assert_eq!(compare_str("Lop", "dop"), KeyOrder::Less);
    assert_eq!(compare_str("", ""), KeyOrder::Equal);
    assert_eq!(compare_str("\u{e9}", "z"), KeyOrder::Greater);
}

#[test]
fn icons_by_exact_key() {
    assert_eq!(category_icon("sop"), "\u{1f9e0}");
    assert_eq!(category_icon("windows"), "\u{1f4ce}");
    assert_eq!(category_icon("gltf"), "");
    assert_eq!(category_icon("SOP"), "");
    assert_eq!(category_icon("unknown"), "");
}
