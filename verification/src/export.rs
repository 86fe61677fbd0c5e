//! Exporting attachments: where a file lies in storage, what becomes of it, and the report.
use vstd::hash_map::StringHashMap;
use vstd::prelude::*;

use crate::numbers::push_decimal;
#[allow(unused_imports)]
use crate::numbers::decimal;
use crate::selection::ExportSelection;
use crate::text::join;
#[allow(unused_imports)]
use crate::text::{joined, texts};

verus! {

/// The first position at which a name stands.
pub open spec fn first_position(names: Seq<Seq<char>>, name: Seq<char>) -> Option<int>
    decreases names.len(),
{
    if names.len() == 0 {
        None
    } else {
        match first_position(names.drop_last(), name) {
            Some(i) => Some(i),
            None => if names.last() == name {
                Some(names.len() - 1)
            } else {
                None
            },
        }
    }
}

/// Finds files by name: each name leads to the first file that has it, in the order in which the
/// storage was walked.
pub fn index_storage_files(names: &Vec<String>) -> (index: StringHashMap<usize>)
    ensures
        forall|name: Seq<char>| #[trigger]
            index@.contains_key(name) <==> first_position(texts(names@), name) is Some,
        forall|name: Seq<char>| #[trigger]
            index@.contains_key(name) ==> first_position(texts(names@), name) == Some(
                index@[name] as int,
            ),
{
    let ghost all = texts(names@);
    let mut index: StringHashMap<usize> = StringHashMap::new();
    let mut i: usize = 0;
    while i < names.len()
        invariant
            i <= names@.len(),
            all == texts(names@),
            forall|name: Seq<char>| #[trigger]
                index@.contains_key(name) <==> first_position(all.take(i as int), name) is Some,
            forall|name: Seq<char>| #[trigger]
                index@.contains_key(name) ==> first_position(all.take(i as int), name) == Some(
                    index@[name] as int,
                ),
        decreases names@.len() - i,
    {
        assert(all.take(i + 1).drop_last() =~= all.take(i as int));
        assert(all.take(i + 1).last() == names@[i as int]@);
        if !index.contains_key(names[i].as_str()) {
            index.insert(names[i].clone(), i);
        }
        i += 1;
    }
    assert(all.take(i as int) =~= all);
    index
}

/// The first file with a name is the one that the index leads to, and no name is lost.
pub proof fn law_first_file_wins(names: Seq<Seq<char>>, name: Seq<char>)
    ensures
        match first_position(names, name) {
            Some(i) => 0 <= i < names.len() && names[i] == name && forall|k: int|
                0 <= k < i ==> #[trigger] names[k] != name,
            None => !names.contains(name),
        },
    decreases names.len(),
{
    if names.len() > 0 {
        let front = names.drop_last();
        law_first_file_wins(front, name);
        assert forall|k: int| 0 <= k < front.len() implies front[k] == #[trigger] names[k] by {}
        if names.contains(name) {
            let k = choose|k: int| 0 <= k < names.len() && names[k] == name;
            if k < front.len() {
                assert(front[k] == name);
            }
        }
    }
}

/// What becomes of an attachment.
#[derive(Debug, Clone, Copy, PartialEq, Eq, Structural)]
pub enum ExportAction {
    /// It is copied.
    Copy,
    /// It is left out because the destination already has it.
    SkipExisting,
    /// It is left out because the storage does not have it.
    Missing,
}

/// What becomes of an attachment.
pub open spec fn export_action(
    stored: bool,
    force_export_all: bool,
    destination_exists: bool,
) -> ExportAction {
    if !stored {
        ExportAction::Missing
    } else if destination_exists && !force_export_all {
        ExportAction::SkipExisting
    } else {
        ExportAction::Copy
    }
}

/// Decides what becomes of an attachment.
pub fn decide_export(
    stored: bool,
    force_export_all: bool,
    destination_exists: bool,
) -> (action: ExportAction)
    ensures
        action == export_action(stored, force_export_all, destination_exists),
{
    if stored {
        if !force_export_all && destination_exists {
            ExportAction::SkipExisting
        } else {
            ExportAction::Copy
        }
    } else {
        ExportAction::Missing
    }
}

/// How many attachments met which fate.
#[derive(Debug, Clone, Copy, PartialEq, Eq, Structural)]
pub struct ExportTally {
    pub copied: usize,
    pub skipped_existing: usize,
    pub missing: usize,
}

impl ExportTally {
    /// Nothing has been counted yet.
    pub fn new() -> (tally: ExportTally)
        ensures
            tally == (ExportTally { copied: 0, skipped_existing: 0, missing: 0 }),
    {
        ExportTally { copied: 0, skipped_existing: 0, missing: 0 }
    }

    /// How many attachments of a run met a fate.
    pub open spec fn count(actions: Seq<ExportAction>, fate: ExportAction) -> nat
        decreases actions.len(),
    {
        if actions.len() == 0 {
            0
        } else if actions.last() == fate {
            ExportTally::count(actions.drop_last(), fate) + 1
        } else {
            ExportTally::count(actions.drop_last(), fate)
        }
    }

    /// Whether the tally is that of a run.
    pub open spec fn counts(&self, actions: Seq<ExportAction>) -> bool {
        &&& self.copied == ExportTally::count(actions, ExportAction::Copy)
        &&& self.skipped_existing == ExportTally::count(actions, ExportAction::SkipExisting)
        &&& self.missing == ExportTally::count(actions, ExportAction::Missing)
    }

    /// Counts one more attachment.
    pub fn record(&mut self, action: ExportAction)
        requires
            match action {
                ExportAction::Copy => old(self).copied < usize::MAX,
                ExportAction::SkipExisting => old(self).skipped_existing < usize::MAX,
                ExportAction::Missing => old(self).missing < usize::MAX,
            },
        ensures
            *final(self) == match action {
                ExportAction::Copy => ExportTally {
                    copied: (old(self).copied + 1) as usize,
                    ..*old(self)
                },
                ExportAction::SkipExisting => ExportTally {
                    skipped_existing: (old(self).skipped_existing + 1) as usize,
                    ..*old(self)
                },
                ExportAction::Missing => ExportTally {
                    missing: (old(self).missing + 1) as usize,
                    ..*old(self)
                },
            },
    {
        match action {
            ExportAction::Copy => {
                self.copied += 1;
            },
            ExportAction::SkipExisting => {
                self.skipped_existing += 1;
            },
            ExportAction::Missing => {
                self.missing += 1;
            },
        }
    }
}

/// A tally of a run, after one more attachment, is the tally of the longer run.
pub proof fn law_tally_follows_the_run(
    before: ExportTally,
    actions: Seq<ExportAction>,
    action: ExportAction,
    after: ExportTally,
)
    requires
        before.counts(actions),
        after.copied == before.copied + (if action == ExportAction::Copy { 1int } else { 0 }),
        after.skipped_existing == before.skipped_existing + (if action
            == ExportAction::SkipExisting { 1int } else { 0 }),
        after.missing == before.missing + (if action == ExportAction::Missing { 1int } else { 0 }),
    ensures
        after.counts(actions.push(action)),
{
    assert(actions.push(action).drop_last() =~= actions);
}

/// Every attachment of a run is counted exactly once.
pub proof fn law_every_attachment_is_counted(tally: ExportTally, actions: Seq<ExportAction>)
    requires
        tally.counts(actions),
    ensures
        tally.copied + tally.skipped_existing + tally.missing == actions.len(),
{
    lemma_counts_add_up(actions);
}

proof fn lemma_counts_add_up(actions: Seq<ExportAction>)
    ensures
        ExportTally::count(actions, ExportAction::Copy) + ExportTally::count(
            actions,
            ExportAction::SkipExisting,
        ) + ExportTally::count(actions, ExportAction::Missing) == actions.len(),
    decreases actions.len(),
{
    if actions.len() > 0 {
        lemma_counts_add_up(actions.drop_last());
    }
}

/// A forced export leaves out no file that the storage has; any other export overwrites no file.
pub proof fn law_force_decides_about_existing_files(stored: bool, destination_exists: bool)
    ensures
        export_action(stored, true, destination_exists) == if stored {
            ExportAction::Copy
        } else {
            ExportAction::Missing
        },
        destination_exists ==> export_action(stored, false, destination_exists)
            != ExportAction::Copy,
{
}

/// The line that counts the attachments.
pub open spec fn tally_line(tally: ExportTally) -> Seq<char> {
    "Export complete: "@ + decimal(tally.copied as nat) + " file(s) copied, "@ + decimal(
        tally.skipped_existing as nat,
    ) + " file(s) skipped because they already exist, "@ + decimal(tally.missing as nat)
        + " attachment(s) not found in storage."@
}

/// The name of the export mode in the report.
pub open spec fn report_mode(force_export_all: bool) -> Seq<char> {
    if force_export_all {
        "force export all"@
    } else {
        "skip files already present in destination"@
    }
}

/// The lines of the report.
pub open spec fn report_lines(
    tally: ExportTally,
    path_parts: Seq<Seq<char>>,
    force_export_all: bool,
    tags: Seq<Seq<char>>,
    destination: Seq<char>,
) -> Seq<Seq<char>> {
    let always = seq![
        tally_line(tally),
        "Selected collection: "@ + joined(path_parts, "/"@),
        "Destination: "@ + destination,
        "Mode: "@ + report_mode(force_export_all),
    ];
    if tags.len() == 0 {
        always
    } else {
        always.push("Tag filter: all of ["@ + joined(tags, ", "@) + "]"@)
    }
}

fn tally_text(tally: &ExportTally) -> (line: String)
    ensures
        line@ == tally_line(*tally),
{
    let mut line = "Export complete: ".to_owned();
    push_decimal(&mut line, tally.copied as u64);
    line.append(" file(s) copied, ");
    push_decimal(&mut line, tally.skipped_existing as u64);
    line.append(" file(s) skipped because they already exist, ");
    push_decimal(&mut line, tally.missing as u64);
    line.append(" attachment(s) not found in storage.");
    line
}

/// The report on an export, line by line.
pub fn export_report(
    tally: &ExportTally,
    selection: &ExportSelection,
    destination: &str,
) -> (lines: Vec<String>)
    ensures
        texts(lines@) == report_lines(
            *tally,
            selection.node@.path_parts,
            selection.force_export_all,
            texts(selection.tags@),
            destination@,
        ),
{
    let mut selected = "Selected collection: ".to_owned();
    selected.append(join(&selection.node.path_parts, "/").as_str());
    let mut target = "Destination: ".to_owned();
    target.append(destination);
    let mut mode = "Mode: ".to_owned();
    mode.append(
        if selection.force_export_all {
            "force export all"
        } else {
            "skip files already present in destination"
        },
    );
    let mut lines: Vec<String> = Vec::new();
    lines.push(tally_text(tally));
    lines.push(selected);
    lines.push(target);
    lines.push(mode);
    if selection.tags.len() > 0 {
        let mut filter = "Tag filter: all of [".to_owned();
        filter.append(join(&selection.tags, ", ").as_str());
        filter.append("]");
        lines.push(filter);
    }
    assert(texts(lines@) =~= report_lines(
        *tally,
        selection.node@.path_parts,
        selection.force_export_all,
        texts(selection.tags@),
        destination@,
    ));
    lines
}

/// A file is missing exactly where the storage does not have it, and copied exactly where it has
/// it and the export is forced or the destination does not have it.
pub proof fn law_what_becomes_of_an_attachment(stored: bool, force: bool, exists_there: bool)
    ensures
        export_action(stored, force, exists_there) == ExportAction::Missing <==> !stored,
        export_action(stored, force, exists_there) == ExportAction::Copy <==> stored && (force
            || !exists_there),
        export_action(stored, force, exists_there) == ExportAction::SkipExisting <==> stored
            && !force && exists_there,
{
}

/// The report counts the attachments, names the collection, the destination and the mode, and the
/// tags where there are any.
pub proof fn law_report_lines(
    tally: ExportTally,
    path_parts: Seq<Seq<char>>,
    force_export_all: bool,
    tags: Seq<Seq<char>>,
    destination: Seq<char>,
)
    ensures
        ({
            let lines = report_lines(tally, path_parts, force_export_all, tags, destination);
            &&& lines.len() == (if tags.len() == 0 {
                4int
            } else {
                5
            })
            &&& lines[0] == "Export complete: "@ + decimal(tally.copied as nat)
                + " file(s) copied, "@ + decimal(tally.skipped_existing as nat)
                + " file(s) skipped because they already exist, "@ + decimal(tally.missing as nat)
                + " attachment(s) not found in storage."@
            &&& lines[1] == "Selected collection: "@ + joined(path_parts, "/"@)
            &&& lines[2] == "Destination: "@ + destination
            &&& force_export_all ==> lines[3] == "Mode: "@ + "force export all"@
            &&& !force_export_all ==> lines[3] == "Mode: "@
                + "skip files already present in destination"@
            &&& tags.len() > 0 ==> lines[4] == "Tag filter: all of ["@ + joined(tags, ", "@)
                + "]"@
        }),
{
}

} // verus!
