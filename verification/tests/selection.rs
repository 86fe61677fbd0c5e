use std::collections::{HashMap, HashSet};

use zotero_exporter_tui::display::{flatten_tree, DisplayNode};
use zotero_exporter_tui::library::{load_collection_tree, CollectionRow};
use zotero_exporter_tui::selection::{
    collection_path_completer, filter_display_nodes_by_tags, items_with_prefix,
    normalize_collection_path, resolve_collection_selection, tag_completer,
};
use zotero_exporter_tui::tree::{gather_descendants, CollectionNode};

fn row(id: i64, name: &str, parent: Option<i64>) -> CollectionRow {
    CollectionRow { id, name: name.to_owned(), parent }
}

fn shelf() -> HashMap<i64, CollectionNode> {
    load_collection_tree(&vec![
        row(1, "Parent Collection", None),
        row(2, "Sub One", Some(1)),
        row(3, "Sub Two", Some(1)),
        row(4, "Deep", Some(3)),
        row(5, "Other", None),
    ])
}

fn strings(items: &[&str]) -> Vec<String> {
    items.iter().map(|item| (*item).to_owned()).collect()
}

fn kept(nodes: &[DisplayNode]) -> Vec<i64> {
    nodes.iter().map(|node| node.id).collect()
}

#[test]
fn paths_are_split_at_slashes() {
    assert_eq!(normalize_collection_path("/A//B c/"), strings(&["A", "B c"]));
    assert!(normalize_collection_path("").is_empty());
}

#[test]
fn a_path_selects_its_collection() {
    let nodes = flatten_tree(&shelf());
    let selection = resolve_collection_selection(
        &nodes,
        "Parent Collection//Sub Two/",
        true,
        strings(&["reviewed"]),
    )
    .unwrap();
    assert_eq!(selection.node.id, 3);
    assert_eq!(selection.node.depth, 1);
    assert_eq!(selection.node.path_parts, strings(&["Parent Collection", "Sub Two"]));
    assert!(selection.force_export_all);
    assert_eq!(selection.tags, strings(&["reviewed"]));
    let selection = resolve_collection_selection(&nodes, "Other", false, Vec::new()).unwrap();
    assert_eq!(selection.node.id, 5);
    assert!(!selection.force_export_all);
}

#[test]
fn the_first_of_two_equal_paths_is_selected() {
    let nodes = vec![
        DisplayNode { id: 1, depth: 0, path_parts: strings(&["A"]) },
        DisplayNode { id: 2, depth: 0, path_parts: strings(&["B"]) },
        DisplayNode { id: 3, depth: 0, path_parts: strings(&["B"]) },
    ];
    assert_eq!(resolve_collection_selection(&nodes, "B", false, Vec::new()).unwrap().node.id, 2);
}

#[test]
fn an_unknown_path_is_an_error() {
    let nodes = flatten_tree(&shelf());
    let error = resolve_collection_selection(&nodes, "sub two", false, Vec::new()).unwrap_err();
    assert_eq!(error.path, "sub two");
    assert_eq!(
        error.message(),
        "collection not found: sub two. Use forward slashes between collection names, for example \"Parent/Subcollection Name\""
    );
    assert!(resolve_collection_selection(&nodes, "", false, Vec::new()).is_err());
}

#[test]
fn without_tags_nothing_is_filtered() {
    let tree = shelf();
    let nodes = flatten_tree(&tree);
    let left = filter_display_nodes_by_tags(&tree, &nodes, &[], &HashSet::new());
    assert_eq!(kept(&left), kept(&nodes));
}

#[test]
fn a_filter_keeps_branches_with_a_match_and_what_stands_above() {
    let tree = shelf();
    let nodes = flatten_tree(&tree);
    let tags = strings(&["reviewed"]);
    let matching = HashSet::from([4]);
    let left = filter_display_nodes_by_tags(&tree, &nodes, &tags, &matching);
    assert_eq!(kept(&left), vec![1, 3, 4]);
    assert_eq!(left[2].path_parts, strings(&["Parent Collection", "Sub Two", "Deep"]));
    let left = filter_display_nodes_by_tags(&tree, &nodes, &tags, &HashSet::from([5, 2]));
    assert_eq!(kept(&left), vec![5, 1, 2]);
    assert!(filter_display_nodes_by_tags(&tree, &nodes, &tags, &HashSet::new()).is_empty());
}

#[test]
fn completed_paths_start_with_what_was_typed() {
    let tree = shelf();
    assert_eq!(
        collection_path_completer(&tree, "Parent Collection/Sub T"),
        strings(&["Parent Collection/Sub Two", "Parent Collection/Sub Two/Deep"])
    );
    assert_eq!(collection_path_completer(&tree, "").len(), 5);
    assert!(collection_path_completer(&tree, "parent").is_empty());
}

#[test]
fn a_completed_path_selects_its_collection() {
    let tree = shelf();
    let nodes = flatten_tree(&tree);
    for (node, path) in nodes.iter().zip(collection_path_completer(&tree, "")) {
        let selection = resolve_collection_selection(&nodes, &path, false, Vec::new()).unwrap();
        assert_eq!(selection.node.id, node.id);
    }
}

#[test]
fn tags_complete_whatever_the_case() {
    let tags = strings(&["Über", "ÜBUNG", "unter", "Reviewed"]);
    assert_eq!(tag_completer(&tags, "Üb"), strings(&["Über", "ÜBUNG"]));
    assert_eq!(tag_completer(&tags, "REV"), strings(&["Reviewed"]));
    assert_eq!(tag_completer(&tags, ""), tags);
    assert!(tag_completer(&tags, "x").is_empty());
}

#[test]
fn items_are_chosen_by_their_lowered_names() {
    let items = strings(&["One", "Two", "Three"]);
    let lowered = strings(&["x1", "y2", "x3"]);
    assert_eq!(items_with_prefix(&items, &lowered, "x"), strings(&["One", "Three"]));
}

#[test]
fn the_list_holds_whole_branches() {
    let tree = shelf();
    let nodes = flatten_tree(&tree);
    let listed = kept(&nodes);
    for node in &nodes {
        for id in gather_descendants(&tree, node.id) {
            assert!(listed.contains(&id));
        }
    }
}

#[test]
fn fewer_matches_narrow_the_list() {
    let tree = shelf();
    let nodes = flatten_tree(&tree);
    let tags = strings(&["a", "b"]);
    let wide = filter_display_nodes_by_tags(&tree, &nodes, &tags[..1], &HashSet::from([2, 4]));
    assert_eq!(kept(&wide), vec![1, 2, 3, 4]);
    let narrow = filter_display_nodes_by_tags(&tree, &nodes, &tags, &HashSet::from([2]));
    assert_eq!(kept(&narrow), vec![1, 2]);
}
