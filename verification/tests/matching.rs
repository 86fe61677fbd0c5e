use std::collections::HashSet;

use zotero_exporter_tui::matching::matching_collections;

#[test]
fn collections_with_an_item_match() {
    let answers = vec![(1, vec![7]), (2, Vec::new()), (3, vec![8, 9]), (2, Vec::new())];
    assert_eq!(matching_collections(&answers), HashSet::from([1, 3]));
    assert_eq!(matching_collections(&vec![(4, Vec::new()), (4, vec![1])]), HashSet::from([4]));
    assert!(matching_collections(&Vec::new()).is_empty());
}
