use zotero_exporter_tui::fuzzy::{
    checked_fuzzy_score, checked_fuzzy_tag_matches, fuzzy_score, fuzzy_tag_matches, rank_matches,
    score_in_range, score_lowered, TagMatch, MAX_TAG_MATCHES,
};

fn strings(items: &[&str]) -> Vec<String> {
    items.iter().map(|item| (*item).to_owned()).collect()
}

fn shown(matches: &[TagMatch]) -> Vec<(&str, usize)> {
    matches.iter().map(|found| (found.name.as_str(), found.score)).collect()
}

#[test]
fn an_empty_query_scores_everything_alike() {
    assert_eq!(fuzzy_score("anything", ""), Some(usize::MAX / 2));
    assert_eq!(fuzzy_score("", ""), Some(usize::MAX / 2));
}

#[test]
fn a_contained_query_scores_its_byte_offset() {
    assert_eq!(fuzzy_score("Machine Learning", "LEARN"), Some(8));
    assert_eq!(fuzzy_score("machine", "machine"), Some(0));
    assert_eq!(fuzzy_score("éab", "ab"), Some(2));
    assert_eq!(fuzzy_score("abab", "ab"), Some(0));
}

#[test]
fn scattered_characters_score_positions_gaps_and_length() {
    assert_eq!(fuzzy_score("machine", "mce"), Some(19));
    assert_eq!(fuzzy_score("ÉxB", "éb"), Some(9));
    assert_eq!(fuzzy_score("axbxb", "abb"), Some(13));
}

#[test]
fn characters_out_of_order_do_not_match() {
    assert_eq!(fuzzy_score("machine", "cm"), None);
    assert_eq!(fuzzy_score("machine", "mm"), None);
    assert_eq!(fuzzy_score("", "a"), None);
}

#[test]
fn ordinary_scores_are_in_range() {
    assert!(score_in_range("machine", "mce"));
    assert_eq!(checked_fuzzy_score("machine", "mce"), Ok(Some(19)));
    assert_eq!(checked_fuzzy_score("machine", "x"), Ok(None));
    assert_eq!(checked_fuzzy_score("machine", ""), Ok(Some(usize::MAX / 2)));
    assert_eq!(score_lowered("machine", "hin"), Ok(Some(3)));
}

#[test]
fn matches_come_best_first_and_then_by_name() {
    let tags = strings(&["zebra", "Bar", "abba", "bat", "BAR none", "x"]);
    let matches = fuzzy_tag_matches(&tags, "  ba ");
    assert_eq!(
        shown(&matches),
        vec![("Bar", 0), ("BAR none", 0), ("bat", 0), ("abba", 2), ("zebra", 12)]
    );
    let checked = checked_fuzzy_tag_matches(&tags, "  ba ").unwrap();
    assert_eq!(shown(&checked), shown(&matches));
}

#[test]
fn a_blank_query_lists_all_tags_by_name() {
    let matches = fuzzy_tag_matches(&strings(&["b", "C", "a", "B"]), " \t");
    assert_eq!(
        shown(&matches),
        vec![
            ("a", usize::MAX / 2),
            ("b", usize::MAX / 2),
            ("B", usize::MAX / 2),
            ("C", usize::MAX / 2),
        ]
    );
}

#[test]
fn the_list_is_cut_off() {
    let tags: Vec<String> = (0..300).map(|n| format!("tag {:03}", 299 - n)).collect();
    let matches = fuzzy_tag_matches(&tags, "tag");
    assert_eq!(matches.len(), MAX_TAG_MATCHES);
    assert_eq!(MAX_TAG_MATCHES, 200);
    assert_eq!(matches[0].name, "tag 000");
    assert_eq!(matches[199].name, "tag 199");
}

#[test]
fn ranking_uses_the_score_and_the_given_names() {
    let found = vec![
        TagMatch { name: "B".to_owned(), score: 2 },
        TagMatch { name: "C".to_owned(), score: 1 },
        TagMatch { name: "a".to_owned(), score: 2 },
    ];
    let ranked = rank_matches(&found, &strings(&["b", "c", "a"]));
    assert_eq!(shown(&ranked), vec![("C", 1), ("a", 2), ("B", 2)]);
}

#[test]
fn no_other_placement_scores_lower() {
    assert_eq!(fuzzy_score("axbxaxb", "axxb"), Some(20));
    let placed = |at: &[usize]| {
        let gaps: usize = at.windows(2).map(|pair| pair[1] - pair[0] - 1).sum();
        at.iter().sum::<usize>() + gaps + 7
    };
    assert_eq!(placed(&[0, 1, 3, 6]), 20);
    assert_eq!(placed(&[0, 1, 5, 6]), 22);
    assert_eq!(placed(&[0, 3, 5, 6]), 24);
}
