use std::collections::HashMap;

use zotero_exporter_tui::display::{flatten_from, flatten_tree, DisplayNode};
use zotero_exporter_tui::library::{load_collection_tree, sort_ids_by_name, CollectionRow};
use zotero_exporter_tui::paths::{
    build_full_path, build_relative_path_from_selected, sanitize_name, MissingCollection,
};
use zotero_exporter_tui::plan::plan_export;
use zotero_exporter_tui::tree::{
    collection_ids, gather_descendants, gather_descendants_inner, CollectionNode,
};

fn row(id: i64, name: &str, parent: Option<i64>) -> CollectionRow {
    CollectionRow { id, name: name.to_owned(), parent }
}

fn library() -> HashMap<i64, CollectionNode> {
    load_collection_tree(&vec![
        row(1, "Physics", None),
        row(2, "Quantum", Some(1)),
        row(3, "Optics", Some(1)),
        row(4, "Art", None),
        row(5, "Lasers", Some(3)),
        row(6, "Loop A", Some(7)),
        row(7, "Loop B", Some(6)),
        row(8, "Orphan", Some(99)),
    ])
}

fn ids(nodes: &[DisplayNode]) -> Vec<i64> {
    nodes.iter().map(|node| node.id).collect()
}

fn path(node: &DisplayNode) -> String {
    node.path_parts.join("/")
}

#[test]
fn loading_links_children_and_sorts_them_by_name() {
    let tree = library();
    assert_eq!(tree.len(), 8);
    assert_eq!(tree[&1].children, vec![3, 2]);
    assert_eq!(tree[&3].children, vec![5]);
    assert_eq!(tree[&6].children, vec![7]);
    assert!(tree[&4].children.is_empty());
    assert_eq!(tree[&5].name, "Lasers");
    assert_eq!(tree[&5].parent, Some(3));
    let mut all = collection_ids(&tree);
    all.sort();
    assert_eq!(all, vec![1, 2, 3, 4, 5, 6, 7, 8]);
}

#[test]
fn the_last_row_of_an_identifier_counts() {
    let tree = load_collection_tree(&vec![
        row(1, "Old", None),
        row(2, "Child", Some(1)),
        row(1, "New", Some(2)),
        row(1, "Newest", None),
    ]);
    assert_eq!(tree.len(), 2);
    assert_eq!(tree[&1].name, "Newest");
    assert_eq!(tree[&1].parent, None);
    assert_eq!(tree[&1].children, vec![2]);
    assert!(load_collection_tree(&Vec::new()).is_empty());
}

#[test]
fn sorting_by_name_puts_capitals_first() {
    let tree = load_collection_tree(&vec![
        row(1, "b", None),
        row(2, "A", None),
        row(3, "a", None),
        row(4, "B", None),
    ]);
    assert_eq!(sort_ids_by_name(&tree, &vec![1, 2, 3, 4, 77]), vec![77, 2, 4, 3, 1]);
}

#[test]
fn the_list_shows_what_hangs_on_a_root() {
    let nodes = flatten_tree(&library());
    assert_eq!(ids(&nodes), vec![4, 1, 3, 5, 2]);
    let depths: Vec<usize> = nodes.iter().map(|node| node.depth).collect();
    assert_eq!(depths, vec![0, 0, 1, 2, 1]);
    let paths: Vec<String> = nodes.iter().map(path).collect();
    assert_eq!(
        paths,
        vec![
            "Art",
            "Physics",
            "Physics/Optics",
            "Physics/Optics/Lasers",
            "Physics/Quantum",
        ]
    );
    let copy = nodes[3].clone();
    assert_eq!((copy.id, copy.depth, path(&copy)), (5, 2, path(&nodes[3])));
}

#[test]
fn rows_of_a_branch_follow_what_is_there() {
    let tree = library();
    let mut out = vec![DisplayNode { id: 0, depth: 0, path_parts: Vec::new() }];
    flatten_from(&tree, 3, 4, vec!["Top".to_owned()], &mut out);
    assert_eq!(ids(&out), vec![0, 3, 5]);
    assert_eq!(out[1].depth, 4);
    assert_eq!(path(&out[1]), "Top/Optics");
    assert_eq!(out[2].depth, 5);
    assert_eq!(path(&out[2]), "Top/Optics/Lasers");
    flatten_from(&tree, 1234, 0, Vec::new(), &mut out);
    assert_eq!(out.len(), 3);
}

#[test]
fn a_branch_is_the_collection_and_everything_below() {
    let tree = library();
    assert_eq!(gather_descendants(&tree, 1), vec![1, 3, 5, 2]);
    assert_eq!(gather_descendants(&tree, 4), vec![4]);
    assert_eq!(gather_descendants(&tree, 1234), vec![1234]);
    let mut out = vec![9];
    gather_descendants_inner(&tree, 3, &mut out);
    assert_eq!(out, vec![9, 3, 5]);
}

#[test]
fn the_rows_of_a_branch_are_its_collections() {
    let tree = library();
    let mut out = Vec::new();
    flatten_from(&tree, 1, 0, Vec::new(), &mut out);
    assert_eq!(ids(&out), gather_descendants(&tree, 1));
}

#[test]
fn separators_in_names_become_underscores() {
    assert_eq!(sanitize_name("a/b\\c d"), "a_b_c d");
    assert_eq!(sanitize_name(""), "");
    assert_eq!(sanitize_name("Größe: 1/2"), "Größe: 1_2");
}

#[test]
fn full_paths_run_from_the_top() {
    let tree = library();
    assert_eq!(build_full_path(&tree, 5).unwrap(), vec!["Physics", "Optics", "Lasers"]);
    assert_eq!(build_full_path(&tree, 4).unwrap(), vec!["Art"]);
}

#[test]
fn a_missing_parent_is_reported() {
    let tree = library();
    let missing = build_full_path(&tree, 8).unwrap_err();
    assert_eq!(missing, MissingCollection { id: 99 });
    assert_eq!(missing.message(), "collection ID 99 not found");
    assert_eq!(MissingCollection { id: -5 }.message(), "collection ID -5 not found");
    assert_eq!(build_full_path(&tree, 1234).unwrap_err().id, 1234);
    assert_eq!(build_relative_path_from_selected(&tree, 1, 8).unwrap_err().id, 99);
    assert_eq!(build_relative_path_from_selected(&tree, 8, 1).unwrap_err().id, 99);
    assert_eq!(build_relative_path_from_selected(&tree, 1234, 8).unwrap_err().id, 99);
    assert_eq!(plan_export(&tree, 8).unwrap_err().id, 99);
}

#[test]
fn export_directories_start_at_the_selection() {
    let tree = library();
    let relative = |root, target| build_relative_path_from_selected(&tree, root, target).unwrap();
    assert_eq!(relative(3, 5), vec!["Optics", "Lasers"]);
    assert_eq!(relative(3, 3), vec!["Optics"]);
    assert_eq!(relative(1, 5), vec!["Physics", "Optics", "Lasers"]);
    assert_eq!(relative(4, 5), vec!["Physics", "Optics", "Lasers"]);
}

#[test]
fn empty_names_and_dots_vanish_from_paths() {
    let tree = load_collection_tree(&vec![
        row(1, ".", None),
        row(2, ".", Some(1)),
        row(3, "", Some(2)),
        row(4, "x/y", Some(3)),
        row(5, "..", Some(4)),
        row(6, "", None),
        row(7, "z", Some(6)),
    ]);
    assert_eq!(build_full_path(&tree, 5).unwrap(), vec![".", "x_y", ".."]);
    assert_eq!(build_full_path(&tree, 3).unwrap(), vec!["."]);
    assert!(build_full_path(&tree, 6).unwrap().is_empty());
    assert_eq!(build_relative_path_from_selected(&tree, 6, 7).unwrap(), vec!["z"]);
    assert_eq!(build_relative_path_from_selected(&tree, 3, 4).unwrap(), vec![".", "x_y"]);
}

#[test]
fn every_listed_collection_can_be_exported() {
    let tree = library();
    for node in flatten_tree(&tree) {
        let plan = plan_export(&tree, node.id).unwrap();
        let planned: Vec<i64> = plan.iter().map(|directory| directory.id).collect();
        assert_eq!(planned, gather_descendants(&tree, node.id));
    }
    let plan = plan_export(&tree, 1).unwrap();
    let paths: Vec<String> = plan.iter().map(|directory| directory.path.join("/")).collect();
    assert_eq!(
        paths,
        vec!["Physics", "Physics/Optics", "Physics/Optics/Lasers", "Physics/Quantum"]
    );
    let plan = plan_export(&tree, 3).unwrap();
    assert_eq!(plan[1].path, vec!["Optics", "Lasers"]);
}

#[test]
fn the_nearest_higher_row_is_the_parent() {
    let tree = library();
    let nodes = flatten_tree(&tree);
    for (k, node) in nodes.iter().enumerate() {
        let above = nodes[..k].iter().rev().find(|other| other.depth + 1 == node.depth);
        match above {
            Some(above) if node.depth > 0 => {
                assert_eq!(tree[&node.id].parent, Some(above.id));
                assert_eq!(node.path_parts[..node.depth], above.path_parts[..]);
            }
            _ => assert_eq!(tree[&node.id].parent, None),
        }
    }
}

#[test]
fn rows_are_as_deep_as_their_paths() {
    let tree = library();
    let mut out = Vec::new();
    flatten_from(&tree, 1, 3, vec!["x".to_owned(), "y".to_owned()], &mut out);
    for row in &out {
        assert_eq!(row.path_parts[..3], ["x", "y", "Physics"]);
        assert_eq!(row.depth - 3, row.path_parts.len() - 3);
    }
}
