use zotero_exporter_tui::text::{ascii_lowercase_strings, eq_ignore_ascii_case};
use zotero_exporter_tui::tags::{
    find_tag, keep_first_per_key, lowercase_strings, normalize_tags, sort_by_keys, toggle_tag,
};

fn strings(items: &[&str]) -> Vec<String> {
    items.iter().map(|item| (*item).to_owned()).collect()
}

#[test]
fn normalizing_trims_and_keeps_the_first_of_each_case() {
    let given = strings(&[" Reviewed ", "reviewed", "", "  ", "\u{3000}Über\u{a0}", "ÜBER", "b"]);
    assert_eq!(normalize_tags(given), strings(&["Reviewed", "Über", "b"]));
    assert!(normalize_tags(Vec::new()).is_empty());
}

#[test]
fn normalizing_twice_changes_nothing_more() {
    let once = normalize_tags(strings(&["b ", "A", "a", " B", "c"]));
    assert_eq!(once, strings(&["b", "A", "c"]));
    assert_eq!(normalize_tags(once.clone()), once);
}

#[test]
fn items_are_kept_by_their_first_key() {
    let items = strings(&["one", "two", "three", "four"]);
    let keys = strings(&["x", "y", "x", "z"]);
    assert_eq!(keep_first_per_key(&items, &keys), strings(&["one", "two", "four"]));
}

#[test]
fn lowercase_follows_unicode() {
    assert_eq!(
        lowercase_strings(&strings(&["ÀB", "ΟΔΟΣ", "İ", "x"])),
        strings(&["àb", "οδος", "i\u{307}", "x"])
    );
}

#[test]
fn sorting_by_keys_is_stable() {
    let items = strings(&["B", "a", "b", "A"]);
    let keys = strings(&["b", "a", "b", "a"]);
    assert_eq!(sort_by_keys(&items, &keys), strings(&["a", "A", "B", "b"]));
}

#[test]
fn a_tag_is_found_whatever_its_ascii_case() {
    let tags = strings(&["course", "Reviewed", "reviewed"]);
    assert_eq!(find_tag(&tags, "REVIEWED"), Some(1));
    assert_eq!(find_tag(&tags, "rev"), None);
}

#[test]
fn toggling_on_sorts_without_regard_to_case() {
    let mut tags = strings(&["b", "Z"]);
    toggle_tag(&mut tags, "A");
    assert_eq!(tags, strings(&["A", "b", "Z"]));
    toggle_tag(&mut tags, "c");
    assert_eq!(tags, strings(&["A", "b", "c", "Z"]));
}

#[test]
fn toggling_off_removes_the_tag_and_keeps_the_others() {
    let mut tags = strings(&["Z", "b", "A"]);
    toggle_tag(&mut tags, "B");
    assert_eq!(tags, strings(&["Z", "A"]));
}

#[test]
fn toggling_twice_gives_the_sorted_tags_back() {
    let mut tags = strings(&["b", "A", "c"]);
    toggle_tag(&mut tags, "aa");
    assert_eq!(tags, strings(&["A", "aa", "b", "c"]));
    toggle_tag(&mut tags, "AA");
    assert_eq!(tags, strings(&["A", "b", "c"]));
}

#[test]
fn distinct_tags_stay_distinct_without_ascii_capitals() {
    let mut tags = normalize_tags(strings(&["Über", "Reviewed", "reviewed", "course"]));
    toggle_tag(&mut tags, "über");
    toggle_tag(&mut tags, "Course A");
    let mut lowered = ascii_lowercase_strings(&tags);
    assert_eq!(lowered.len(), 5);
    lowered.sort();
    lowered.dedup();
    assert_eq!(lowered.len(), 5);
    for (i, a) in tags.iter().enumerate() {
        for b in &tags[i + 1..] {
            assert!(!eq_ignore_ascii_case(a, b));
        }
    }
}

#[test]
fn toggling_back_leaves_sorted_tags_unchanged() {
    let before = strings(&["A", "b", "C"]);
    let mut tags = before.clone();
    toggle_tag(&mut tags, "bb");
    assert_eq!(tags, strings(&["A", "b", "bb", "C"]));
    toggle_tag(&mut tags, "BB");
    assert_eq!(tags, before);
}
