use mockups::filename::{match_image_name, parse_order_number};
use mockups::structure::Category;
use mockups::text::{format_name, name_lt};

fn parts(name: &str) -> Option<(String, String)> {
    match_image_name(name)
}

#[test]
fn matches_conventional_name() {
    assert_eq!(parts("XY-[section-a]-0.png"), Some(("section-a".to_string(), "0".to_string())));
    assert_eq!(parts("AB-[dash_board-2]-17.png"), Some(("dash_board-2".to_string(), "17".to_string())));
}

#[test]
fn matches_unicode_word_characters_in_token() {
    assert_eq!(parts("XY-[\u{e9}t\u{e9}]-0.png"), Some(("\u{e9}t\u{e9}".to_string(), "0".to_string())));
    assert_eq!(parts("XY-[caf\u{e9}-2]-1.png"), Some(("caf\u{e9}-2".to_string(), "1".to_string())));
    assert_eq!(parts("XY-[a\u{20ac}]-0.png"), None);
    assert_eq!(parts("XY-[a]-\u{661}.png"), None);
}

#[test]
fn rejects_names_off_the_convention() {
    assert_eq!(parts("icon.png"), None);
    assert_eq!(parts("xY-[section-a]-0.png"), None);
    assert_eq!(parts("XYZ-[section-a]-0.png"), None);
    assert_eq!(parts("XY-[]-0.png"), None);
    assert_eq!(parts("XY-[section-a]-.png"), None);
    assert_eq!(parts("XY-[section-a]-0.jpg"), None);
    assert_eq!(parts("XY-[section-a]-0.png.bak"), None);
    assert_eq!(parts("XY-[sec tion]-0.png"), None);
    assert_eq!(parts("XY-[section-a]-1a.png"), None);
    assert_eq!(parts(""), None);
}

#[test]
fn parses_order_numbers() {
    assert_eq!(parse_order_number("0"), Some(0));
    assert_eq!(parse_order_number("007"), Some(7));
    assert_eq!(parse_order_number("255"), Some(255));
    assert_eq!(parse_order_number("256"), None);
    assert_eq!(parse_order_number("99999999999999999999"), None);
    assert_eq!(parse_order_number(""), None);
    assert_eq!(parse_order_number("1x"), None);
}

#[test]
fn formats_display_names() {
    assert_eq!(format_name("section-a"), "Section A");
    assert_eq!(format_name("a"), "A");
    assert_eq!(format_name(""), "");
    assert_eq!(format_name("new-post"), "New Post");
    assert_eq!(format_name("a--b"), "A  B");
    assert_eq!(format_name("1st-place"), "1st Place");
    assert_eq!(format_name("iPhone-x"), "IPhone X");
}

#[test]
fn formats_non_ascii_through_uppercase_mapping() {
    assert_eq!(format_name("\u{e9}t\u{e9}"), "\u{c9}t\u{e9}");
    assert_eq!(format_name("\u{df}-x"), "SS X");
}

#[test]
fn display_name_keeps_word_count() {
    let token = "my-long-section-name";
    let shown = format_name(token);
    assert_eq!(shown.split(' ').count(), token.split('-').count());
    for word in shown.split(' ') {
        assert!(word.chars().next().unwrap().is_uppercase());
    }
}

#[test]
fn category_derives_section_names() {
    let c = Category::new("iphone-portrait", "iPhone Portrait");
    assert_eq!(c.name_from_file("new-post".to_string()), "New Post");
}

#[test]
fn orders_names_by_characters() {
    assert!(name_lt("Apple", "Banana"));
    assert!(!name_lt("Banana", "Apple"));
    assert!(name_lt("Ab", "Abc"));
    assert!(!name_lt("Abc", "Abc"));
    assert!(name_lt("Z", "a"));
}
