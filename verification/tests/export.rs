use zotero_exporter_tui::display::DisplayNode;
use zotero_exporter_tui::export::{
    decide_export, export_report, index_storage_files, ExportAction, ExportTally,
};
use zotero_exporter_tui::selection::ExportSelection;

fn strings(items: &[&str]) -> Vec<String> {
    items.iter().map(|item| (*item).to_owned()).collect()
}

#[test]
fn the_first_file_of_a_name_is_found() {
    let index = index_storage_files(&strings(&["a.pdf", "b.pdf", "a.pdf", "c.pdf", "b.pdf"]));
    assert_eq!(index.get("a.pdf"), Some(&0));
    assert_eq!(index.get("b.pdf"), Some(&1));
    assert_eq!(index.get("c.pdf"), Some(&3));
    assert_eq!(index.get("A.pdf"), None);
}

#[test]
fn existing_files_are_skipped_unless_forced() {
    assert_eq!(decide_export(true, false, false), ExportAction::Copy);
    assert_eq!(decide_export(true, false, true), ExportAction::SkipExisting);
    assert_eq!(decide_export(true, true, true), ExportAction::Copy);
    assert_eq!(decide_export(true, true, false), ExportAction::Copy);
    for force in [false, true] {
        for exists in [false, true] {
            assert_eq!(decide_export(false, force, exists), ExportAction::Missing);
        }
    }
}

#[test]
fn every_attachment_is_counted_once() {
    let mut tally = ExportTally::new();
    let run = [
        ExportAction::Copy,
        ExportAction::Missing,
        ExportAction::Copy,
        ExportAction::SkipExisting,
        ExportAction::Missing,
        ExportAction::Missing,
    ];
    for action in run {
        tally.record(action);
    }
    assert_eq!(tally, ExportTally { copied: 2, skipped_existing: 1, missing: 3 });
    assert_eq!(tally.copied + tally.skipped_existing + tally.missing, run.len());
}

#[test]
fn the_report_tells_what_was_done() {
    let tally = ExportTally { copied: 12, skipped_existing: 0, missing: 3 };
    let mut selection = ExportSelection {
        node: DisplayNode { id: 1, depth: 1, path_parts: strings(&["Parent", "Sub Name"]) },
        force_export_all: false,
        tags: Vec::new(),
    };
    assert_eq!(
        export_report(&tally, &selection, "/tmp/out"),
        strings(&[
            "Export complete: 12 file(s) copied, 0 file(s) skipped because they already exist, 3 attachment(s) not found in storage.",
            "Selected collection: Parent/Sub Name",
            "Destination: /tmp/out",
            "Mode: skip files already present in destination",
        ])
    );
    selection.force_export_all = true;
    selection.tags = strings(&["a", "b"]);
    let report = export_report(&tally, &selection, "out");
    assert_eq!(report.len(), 5);
    assert_eq!(report[3], "Mode: force export all");
    assert_eq!(report[4], "Tag filter: all of [a, b]");
}
