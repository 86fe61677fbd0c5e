use zotero_exporter_tui::order::stable_order;

fn key(n: usize, text: &str) -> (usize, Vec<char>) {
    (n, text.chars().collect())
}

#[test]
fn ties_keep_their_order() {
    let keys = vec![key(1, "b"), key(0, "z"), key(1, "a"), key(1, "b"), key(1, "")];
    assert_eq!(stable_order(&keys), vec![1, 4, 2, 0, 3]);
}

#[test]
fn the_order_is_that_of_a_stable_sort() {
    let texts = ["é", "e", "Z", "a", "aa", "", "\u{10348}", "\u{ffff}", "a", "z"];
    let keys: Vec<(usize, Vec<char>)> =
        texts.iter().enumerate().map(|(i, text)| key(i % 2, text)).collect();
    let mut expected: Vec<usize> = (0..texts.len()).collect();
    expected.sort_by_key(|i| (i % 2, texts[*i].to_owned()));
    assert_eq!(stable_order(&keys), expected);
    assert!(stable_order(&Vec::new()).is_empty());
}
