use std::collections::{HashMap, HashSet};

use zotero_exporter_tui::display::{flatten_tree, DisplayNode};
use zotero_exporter_tui::fuzzy::TagMatch;
use zotero_exporter_tui::library::{load_collection_tree, CollectionRow};
use zotero_exporter_tui::picker::{Picker, PickerAction, PickerKey};
use zotero_exporter_tui::tree::CollectionNode;

fn strings(items: &[&str]) -> Vec<String> {
    items.iter().map(|item| (*item).to_owned()).collect()
}

fn found(names: &[&str]) -> Vec<TagMatch> {
    names.iter().map(|name| TagMatch { name: (*name).to_owned(), score: 0 }).collect()
}

fn small_tree() -> HashMap<i64, CollectionNode> {
    let row = |id: i64, name: &str, parent: Option<i64>| CollectionRow {
        id,
        name: name.to_owned(),
        parent,
    };
    load_collection_tree(&vec![row(1, "A", None), row(2, "B", Some(1)), row(3, "C", None)])
}

fn picker() -> Picker {
    Picker::new(Vec::new(), flatten_tree(&small_tree()))
}

fn visible(picker: &Picker) -> Vec<i64> {
    picker.visible_nodes.iter().map(|node| node.id).collect()
}

#[test]
fn the_picker_starts_at_the_top() {
    let picker = Picker::new(strings(&["x"]), flatten_tree(&small_tree()));
    assert_eq!((picker.selected, picker.tag_selected), (0, 0));
    assert_eq!(picker.tag_query, "");
    assert!(!picker.tag_mode && !picker.force_export_all);
    assert_eq!(picker.selected_tags, strings(&["x"]));
    assert_eq!(visible(&picker), vec![1, 2, 3]);
}

#[test]
fn moving_stops_at_the_ends() {
    let mut picker = picker();
    for (key, selected) in [
        (PickerKey::Up, 0),
        (PickerKey::Down, 1),
        (PickerKey::Char('j'), 2),
        (PickerKey::Down, 2),
        (PickerKey::Char('k'), 1),
        (PickerKey::Up, 0),
        (PickerKey::Char('k'), 0),
    ] {
        assert!(matches!(picker.handle_key(key, &[]), PickerAction::Continue));
        assert_eq!(picker.selected, selected);
    }
    let mut empty = Picker::new(Vec::new(), Vec::new());
    empty.handle_key(PickerKey::Down, &[]);
    assert_eq!(empty.selected, 0);
}

#[test]
fn settling_moves_positions_back_into_the_lists() {
    let mut picker = picker();
    picker.selected = 7;
    picker.tag_selected = 5;
    picker.settle(2);
    assert_eq!((picker.selected, picker.tag_selected), (2, 1));
    picker.visible_nodes = Vec::new();
    picker.settle(0);
    assert_eq!((picker.selected, picker.tag_selected), (0, 0));
    assert_eq!(picker.highlighted_collection(), None);
    assert_eq!(picker.highlighted_tag(0), None);
}

#[test]
fn highlights_follow_the_positions() {
    let mut picker = picker();
    picker.selected = 1;
    picker.tag_selected = 3;
    assert_eq!(picker.highlighted_collection(), Some(1));
    assert_eq!(picker.highlighted_tag(4), Some(3));
}

#[test]
fn force_toggles_and_toggles_back() {
    let mut picker = picker();
    picker.handle_key(PickerKey::Char('f'), &[]);
    assert!(picker.force_export_all);
    picker.handle_key(PickerKey::Char('f'), &[]);
    assert!(!picker.force_export_all);
}

#[test]
fn quitting_exports_nothing() {
    let mut picker = picker();
    assert!(matches!(picker.handle_key(PickerKey::Char('q'), &[]), PickerAction::Quit));
    assert!(matches!(picker.handle_key(PickerKey::Esc, &[]), PickerAction::Quit));
    let mut empty = Picker::new(Vec::new(), Vec::new());
    assert!(matches!(empty.handle_key(PickerKey::Enter, &[]), PickerAction::Quit));
}

#[test]
fn enter_exports_what_is_highlighted() {
    let mut picker = Picker::new(strings(&["x", "y"]), flatten_tree(&small_tree()));
    picker.handle_key(PickerKey::Down, &[]);
    picker.handle_key(PickerKey::Char('f'), &[]);
    match picker.handle_key(PickerKey::Enter, &[]) {
        PickerAction::Export(selection) => {
            assert_eq!(selection.node.id, 2);
            assert_eq!(selection.node.path_parts, strings(&["A", "B"]));
            assert!(selection.force_export_all);
            assert_eq!(selection.tags, strings(&["x", "y"]));
        }
        other => panic!("{:?}", other),
    }
}

#[test]
fn the_tag_picker_opens_and_returns() {
    let mut picker = picker();
    picker.tag_selected = 2;
    picker.handle_key(PickerKey::Char('t'), &[]);
    assert!(picker.tag_mode);
    assert_eq!(picker.tag_selected, 0);
    assert!(matches!(picker.handle_key(PickerKey::Esc, &[]), PickerAction::Continue));
    assert!(!picker.tag_mode);
}

#[test]
fn typing_edits_the_search() {
    let mut picker = picker();
    let tags = found(&["a", "b", "c"]);
    picker.handle_key(PickerKey::Char('t'), &tags);
    picker.handle_key(PickerKey::Down, &tags);
    assert_eq!(picker.tag_selected, 1);
    picker.handle_key(PickerKey::Char('q'), &tags);
    picker.handle_key(PickerKey::Char('é'), &tags);
    assert_eq!(picker.tag_query, "qé");
    assert_eq!(picker.tag_selected, 0);
    picker.handle_key(PickerKey::Backspace, &tags);
    assert_eq!(picker.tag_query, "q");
    picker.handle_key(PickerKey::Backspace, &tags);
    picker.handle_key(PickerKey::Backspace, &tags);
    assert_eq!(picker.tag_query, "");
    picker.handle_key(PickerKey::Char('j'), &tags);
    picker.handle_key(PickerKey::Char('j'), &tags);
    picker.handle_key(PickerKey::Char('j'), &tags);
    assert_eq!((picker.tag_query.as_str(), picker.tag_selected), ("", 2));
    picker.handle_key(PickerKey::Char('k'), &tags);
    assert_eq!(picker.tag_selected, 1);
    picker.handle_key(PickerKey::Other, &tags);
    assert_eq!(picker.tag_selected, 1);
}

#[test]
fn enter_in_the_tag_picker_toggles_and_filters() {
    let tree = small_tree();
    let nodes: Vec<DisplayNode> = flatten_tree(&tree);
    let tags = found(&["Alpha", "beta"]);
    let mut picker = Picker::new(strings(&["zeta"]), nodes.clone());
    picker.selected = 2;
    picker.handle_key(PickerKey::Char('t'), &tags);
    picker.handle_key(PickerKey::Down, &tags);
    assert!(matches!(picker.handle_key(PickerKey::Enter, &tags), PickerAction::Refilter));
    assert_eq!(picker.selected_tags, strings(&["beta", "zeta"]));
    assert_eq!(picker.selected, 0);
    picker.apply_filter(&tree, &nodes, &HashSet::from([2]));
    assert_eq!(visible(&picker), vec![1, 2]);
    assert!(matches!(picker.handle_key(PickerKey::Enter, &[]), PickerAction::Continue));
    assert_eq!(picker.selected_tags, strings(&["beta", "zeta"]));
}

#[test]
fn clearing_the_tags_shows_everything() {
    let tree = small_tree();
    let nodes = flatten_tree(&tree);
    let mut picker = Picker::new(strings(&["x"]), vec![nodes[2].clone()]);
    assert!(matches!(picker.handle_key(PickerKey::Char('c'), &[]), PickerAction::Refilter));
    assert!(picker.selected_tags.is_empty());
    picker.apply_filter(&tree, &nodes, &HashSet::new());
    assert_eq!(visible(&picker), vec![1, 2, 3]);
}

#[test]
fn other_keys_do_nothing() {
    let mut picker = picker();
    picker.selected = 1;
    for key in [PickerKey::Other, PickerKey::Backspace, PickerKey::Char('x')] {
        assert!(matches!(picker.handle_key(key, &[]), PickerAction::Continue));
    }
    assert_eq!(picker.selected, 1);
    assert_eq!(picker.tag_query, "");
}

#[test]
fn the_help_names_the_mode() {
    let mut picker = picker();
    assert_eq!(
        picker.help_text(),
        "Choose collection: Up/Down (or j/k), t tags (AND), c clear tags, f force, Enter export, q/Esc quit | Mode: Skip existing files"
    );
    picker.force_export_all = true;
    picker.tag_mode = true;
    assert_eq!(
        picker.help_text(),
        "Tag filter uses AND. Type to fuzzy find, Backspace edits, Enter toggles tag, Esc returns | Mode: Force export all"
    );
}

#[test]
fn the_status_shows_tags_and_search() {
    let mut picker = picker();
    assert_eq!(picker.status_line(), "Tags: none | Visible collections: 3");
    picker.selected_tags = strings(&["a", "b c"]);
    picker.tag_mode = true;
    picker.tag_query = "qu".to_owned();
    assert_eq!(picker.status_line(), "Tags: all of [a, b c] | Query: qu");
}

#[test]
fn entries_mark_tags_and_indent_collections() {
    let mut picker = picker();
    picker.selected_tags = strings(&["beta"]);
    assert_eq!(
        picker.tag_items(&found(&["Alpha", "BETA"])),
        strings(&["[ ] Alpha", "[x] BETA"])
    );
    assert_eq!(picker.collection_items(), strings(&["A", "  B", "C"]));
    picker.visible_nodes = vec![DisplayNode { id: 1, depth: 2, path_parts: Vec::new() }];
    assert_eq!(picker.collection_items(), strings(&["    "]));
}
