use zotero_exporter_tui::numbers::{push_decimal, push_signed_decimal};
use zotero_exporter_tui::text::{
    ascii_lowercase, ascii_lowercase_strings, byte_offsets, chars_of, clone_strings, eq_ignore_ascii_case, join, same_texts, split_segments, starts_with,
    string_from, text_before, trim,
};

fn strings(items: &[&str]) -> Vec<String> {
    items.iter().map(|item| (*item).to_owned()).collect()
}

fn before(a: &str, b: &str) -> bool {
    text_before(&chars_of(a), &chars_of(b))
}

#[test]
fn trimming_takes_white_space_off_both_ends() {
    assert_eq!(trim("  a b\t\n"), "a b");
    assert_eq!(trim("\u{3000}tag\u{a0}"), "tag");
    assert_eq!(trim(" \t "), "");
    assert_eq!(trim(""), "");
    assert_eq!(trim(&trim("  a b ")), trim("  a b "));
}

#[test]
fn ascii_case_does_not_count_and_other_case_does() {
    assert!(eq_ignore_ascii_case("Reviewed", "rEVIEWED"));
    assert!(!eq_ignore_ascii_case("Über", "über"));
    assert!(eq_ignore_ascii_case("Über", "ÜBER"));
    assert!(!eq_ignore_ascii_case("a", "ab"));
    assert!(!eq_ignore_ascii_case("@", "`"));
    assert!(!eq_ignore_ascii_case("[", "{"));
}

#[test]
fn characters_of_a_string_and_back() {
    let chars = chars_of("aé\u{10348}");
    assert_eq!(chars, vec!['a', 'é', '\u{10348}']);
    assert_eq!(string_from(&chars, 0), "aé\u{10348}");
    assert_eq!(string_from(&chars, 1), "é\u{10348}");
    assert_eq!(string_from(&chars, 3), "");
}

#[test]
fn offsets_count_bytes() {
    assert_eq!(byte_offsets("aé€\u{10348}z"), vec![0, 1, 3, 6, 10, 11]);
    assert_eq!(byte_offsets(""), vec![0]);
}

#[test]
fn texts_compare_by_code_point() {
    assert!(before("a", "b"));
    assert!(before("Z", "a"));
    assert!(before("", "a"));
    assert!(before("a", "aa"));
    assert!(before("e", "é"));
    assert!(!before("a", "a"));
    assert!(!before("b", "ab"));
}

#[test]
fn splitting_drops_empty_parts() {
    assert_eq!(split_segments("/a//b c/", '/'), strings(&["a", "b c"]));
    assert!(split_segments("", '/').is_empty());
    assert!(split_segments("///", '/').is_empty());
}

#[test]
fn splitting_undoes_joining() {
    let parts = strings(&["Parent", "Sub collection", "é"]);
    assert_eq!(join(&parts, "/"), "Parent/Sub collection/é");
    assert_eq!(split_segments(&join(&parts, "/"), '/'), parts);
    assert_eq!(join(&Vec::new(), ", "), "");
    assert_eq!(join(&strings(&["", "x", ""]), ", "), ", x, ");
    assert_eq!(clone_strings(&parts), parts);
}

#[test]
fn prefixes() {
    assert!(starts_with("storage:a.pdf", "storage:"));
    assert!(starts_with("a", ""));
    assert!(!starts_with("stor", "storage:"));
    assert!(!starts_with("Storage:", "storage:"));
}

#[test]
fn numbers_in_decimal() {
    let mut text = "n=".to_owned();
    push_decimal(&mut text, 0);
    text.push(' ');
    push_decimal(&mut text, 1203);
    text.push(' ');
    push_decimal(&mut text, u64::MAX);
    assert_eq!(text, "n=0 1203 18446744073709551615");
    let mut text = String::new();
    push_signed_decimal(&mut text, -40);
    text.push(' ');
    push_signed_decimal(&mut text, 7);
    text.push(' ');
    push_signed_decimal(&mut text, i64::MIN);
    assert_eq!(text, "-40 7 -9223372036854775808");
}

#[test]
fn ascii_capitals_become_small_letters() {
    assert_eq!(ascii_lowercase("AZ az @[`{ ÜBUNG İ"), "az az @[`{ Übung İ");
    assert_eq!(ascii_lowercase(""), "");
    assert_eq!(
        ascii_lowercase_strings(&strings(&["Über", "über", "UBER"])),
        strings(&["Über", "über", "uber"])
    );
    for text in ["Straße", "ÀB", "ΟΔΟΣ", "x\u{10400}Y"] {
        assert_eq!(ascii_lowercase(text), text.to_ascii_lowercase());
    }
}

#[test]
fn white_space_is_what_the_property_lists() {
    let listed = |c: char| {
        matches!(
            c,
            '\u{9}'..='\u{d}'
                | '\u{20}'
                | '\u{85}'
                | '\u{a0}'
                | '\u{1680}'
                | '\u{2000}'..='\u{200a}'
                | '\u{2028}'
                | '\u{2029}'
                | '\u{202f}'
                | '\u{205f}'
                | '\u{3000}'
        )
    };
    for c in '\0'..=char::MAX {
        assert_eq!(trim(&c.to_string()).is_empty(), listed(c));
        assert_eq!(listed(c), c.is_whitespace());
    }
}

#[test]
fn splitting_joined_texts_gives_the_parts_of_both() {
    for (a, b) in [("x/y", "z"), ("", "a"), ("a/", "/b"), ("", "")] {
        let mut parts = split_segments(a, '/');
        parts.extend(split_segments(b, '/'));
        assert_eq!(split_segments(&format!("{}/{}", a, b), '/'), parts);
    }
}

#[test]
fn lists_of_texts_are_compared() {
    assert!(same_texts(&strings(&["a", "b"]), &strings(&["a", "b"])));
    assert!(!same_texts(&strings(&["a", "b"]), &strings(&["a", "B"])));
    assert!(!same_texts(&strings(&["a"]), &strings(&["a", "b"])));
    assert!(same_texts(&Vec::new(), &Vec::new()));
}
