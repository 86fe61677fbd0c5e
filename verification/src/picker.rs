//! The collection picker: what each key does, and what the screen shows.
use std::collections::{HashMap, HashSet};

use vstd::prelude::*;

use crate::display::DisplayNode;
#[allow(unused_imports)]
use crate::display::{row_views, Row};
use crate::fuzzy::TagMatch;
#[allow(unused_imports)]
use crate::fuzzy::match_views;
use crate::numbers::push_decimal;
#[allow(unused_imports)]
use crate::numbers::decimal;
use crate::selection::{filter_display_nodes_by_tags, ExportSelection};
#[allow(unused_imports)]
use crate::selection::filtered_rows;
use crate::tags::{find_tag, toggle_tag};
#[allow(unused_imports)]
use crate::tags::{lemma_selected_position, selected_position, toggled};
use crate::text::{clone_strings, join};
#[allow(unused_imports)]
use crate::text::{ascii_matches, joined, texts};
#[allow(unused_imports)]
use crate::tree::descends_finitely;
use crate::tree::CollectionNode;

verus! {

/// A key as the picker tells keys apart.
#[derive(Debug, Clone, Copy, PartialEq, Eq, Structural)]
pub enum PickerKey {
    Esc,
    Up,
    Down,
    Enter,
    Backspace,
    Char(char),
    Other,
}

/// What is to be done after a key.
#[derive(Debug)]
pub enum PickerAction {
    /// Wait for the next key.
    Continue,
    /// Filter the list by the selected tags again.
    Refilter,
    /// Leave without exporting.
    Quit,
    /// Export the selection.
    Export(ExportSelection),
}

/// The picker between two keys.
#[derive(Debug)]
pub struct Picker {
    pub selected: usize,
    pub tag_selected: usize,
    pub tag_query: String,
    pub tag_mode: bool,
    pub selected_tags: Vec<String>,
    pub visible_nodes: Vec<DisplayNode>,
    pub force_export_all: bool,
}

/// What the picker holds.
pub struct PickerState {
    pub selected: int,
    pub tag_selected: int,
    pub tag_query: Seq<char>,
    pub tag_mode: bool,
    pub selected_tags: Seq<Seq<char>>,
    pub visible: Seq<Row>,
    pub force_export_all: bool,
}

impl View for Picker {
    type V = PickerState;

    open spec fn view(&self) -> PickerState {
        PickerState {
            selected: self.selected as int,
            tag_selected: self.tag_selected as int,
            tag_query: self.tag_query@,
            tag_mode: self.tag_mode,
            selected_tags: texts(self.selected_tags@),
            visible: row_views(self.visible_nodes@),
            force_export_all: self.force_export_all,
        }
    }
}

/// The last position of a list of `len` entries, or the first where the list is empty.
pub open spec fn last_position(len: int) -> int {
    if len > 0 {
        len - 1
    } else {
        0
    }
}

/// A position moved back into a list of `len` entries where it lies behind the end.
pub open spec fn clamped(position: int, len: int) -> int {
    if position >= len {
        last_position(len)
    } else {
        position
    }
}

/// One entry further down in a list of `len` entries.
pub open spec fn moved_down(position: int, len: int) -> int {
    if position + 1 <= last_position(len) {
        position + 1
    } else {
        last_position(len)
    }
}

/// One entry further up.
pub open spec fn moved_up(position: int) -> int {
    if position > 0 {
        position - 1
    } else {
        0
    }
}

/// Whether a key moves down.
pub open spec fn is_down(key: PickerKey) -> bool {
    key == PickerKey::Down || key == PickerKey::Char('j')
}

/// Whether a key moves up.
pub open spec fn is_up(key: PickerKey) -> bool {
    key == PickerKey::Up || key == PickerKey::Char('k')
}

/// Whether the picker may go from `before` to `after` with `action` on a key of the tag picker,
/// where the search lists `matches`.
pub open spec fn tag_key_step(
    before: PickerState,
    key: PickerKey,
    matches: Seq<(Seq<char>, usize)>,
    after: PickerState,
    action: PickerAction,
) -> bool {
    if key == PickerKey::Enter && before.tag_selected < matches.len() {
        &&& toggled(
            before.selected_tags,
            matches[before.tag_selected].0,
            after.selected_tags,
        )
        &&& after == (PickerState { selected: 0, selected_tags: after.selected_tags, ..before })
        &&& action is Refilter
    } else {
        &&& action is Continue
        &&& after == if key == PickerKey::Esc {
            PickerState { tag_mode: false, ..before }
        } else if is_down(key) {
            PickerState {
                tag_selected: moved_down(before.tag_selected, matches.len() as int),
                ..before
            }
        } else if is_up(key) {
            PickerState { tag_selected: moved_up(before.tag_selected), ..before }
        } else if key == PickerKey::Backspace {
            PickerState {
                tag_query: if before.tag_query.len() > 0 {
                    before.tag_query.drop_last()
                } else {
                    before.tag_query
                },
                tag_selected: 0,
                ..before
            }
        } else {
            match key {
                PickerKey::Char(c) => PickerState {
                    tag_query: before.tag_query.push(c),
                    tag_selected: 0,
                    ..before
                },
                _ => before,
            }
        }
    }
}

/// Whether an action exports the row `row` with the given mode and tags.
pub open spec fn exports(
    action: PickerAction,
    row: Row,
    force_export_all: bool,
    tags: Seq<Seq<char>>,
) -> bool {
    match action {
        PickerAction::Export(selection) => selection.node@ == row && selection.force_export_all
            == force_export_all && texts(selection.tags@) == tags,
        _ => false,
    }
}

/// Whether the picker may go from `before` to `after` with `action` on a key of the collection
/// picker.
pub open spec fn collection_key_step(
    before: PickerState,
    key: PickerKey,
    after: PickerState,
    action: PickerAction,
) -> bool {
    if key == PickerKey::Enter {
        &&& after == before
        &&& if before.selected < before.visible.len() {
            exports(
                action,
                before.visible[before.selected],
                before.force_export_all,
                before.selected_tags,
            )
        } else {
            action is Quit
        }
    } else if key == PickerKey::Char('q') || key == PickerKey::Esc {
        after == before && action is Quit
    } else if key == PickerKey::Char('c') {
        &&& after == (PickerState { selected: 0, selected_tags: seq![], ..before })
        &&& action is Refilter
    } else {
        &&& action is Continue
        &&& after == if is_down(key) {
            PickerState {
                selected: moved_down(before.selected, before.visible.len() as int),
                ..before
            }
        } else if is_up(key) {
            PickerState { selected: moved_up(before.selected), ..before }
        } else if key == PickerKey::Char('f') {
            PickerState { force_export_all: !before.force_export_all, ..before }
        } else if key == PickerKey::Char('t') {
            PickerState { tag_mode: true, tag_selected: 0, ..before }
        } else {
            before
        }
    }
}

/// Whether the picker may go from `before` to `after` with `action` on a key.
pub open spec fn key_step(
    before: PickerState,
    key: PickerKey,
    matches: Seq<(Seq<char>, usize)>,
    after: PickerState,
    action: PickerAction,
) -> bool {
    if before.tag_mode {
        tag_key_step(before, key, matches, after, action)
    } else {
        collection_key_step(before, key, after, action)
    }
}

fn step_down(position: usize, len: usize) -> (next: usize)
    requires
        position < usize::MAX,
    ensures
        next == moved_down(position as int, len as int),
        next < usize::MAX,
{
    let last = if len > 0 {
        len - 1
    } else {
        0
    };
    if position + 1 <= last {
        position + 1
    } else {
        last
    }
}

impl Picker {
    /// Whether the positions can be moved on.
    pub open spec fn wf(&self) -> bool {
        self.selected < usize::MAX && self.tag_selected < usize::MAX
    }

    /// The picker at the start, with the tags passed and the collections that they leave.
    pub fn new(initial_tags: Vec<String>, visible_nodes: Vec<DisplayNode>) -> (picker: Picker)
        ensures
            picker.wf(),
            picker@ == (PickerState {
                selected: 0,
                tag_selected: 0,
                tag_query: seq![],
                tag_mode: false,
                selected_tags: texts(initial_tags@),
                visible: row_views(visible_nodes@),
                force_export_all: false,
            }),
    {
        Picker {
            selected: 0,
            tag_selected: 0,
            tag_query: String::new(),
            tag_mode: false,
            selected_tags: initial_tags,
            visible_nodes,
            force_export_all: false,
        }
    }

    /// Moves the positions back into the lists, of which that of the tags has `match_count`
    /// entries.
    pub fn settle(&mut self, match_count: usize)
        requires
            old(self).wf(),
        ensures
            final(self).wf(),
            final(self)@ == (PickerState {
                selected: clamped(old(self)@.selected, old(self)@.visible.len() as int),
                tag_selected: clamped(old(self)@.tag_selected, match_count as int),
                ..old(self)@
            }),
    {
        let count = self.visible_nodes.len();
        if self.selected >= count {
            self.selected = if count > 0 {
                count - 1
            } else {
                0
            };
        }
        if self.tag_selected >= match_count {
            self.tag_selected = if match_count > 0 {
                match_count - 1
            } else {
                0
            };
        }
    }

    /// Replaces the list by the collections among `nodes` that the selected tags leave.
    /// `matching` holds the collections with an item that has all of them.
    pub fn apply_filter(
        &mut self,
        tree: &HashMap<i64, CollectionNode>,
        nodes: &[DisplayNode],
        matching: &HashSet<i64>,
    )
        requires
            old(self).selected_tags@.len() > 0 ==> forall|i: int|
                0 <= i < nodes@.len() ==> descends_finitely(tree@, (#[trigger] nodes@[i]).id),
        ensures
            old(self).wf() ==> final(self).wf(),
            final(self)@ == (PickerState {
                visible: filtered_rows(
                    tree@,
                    row_views(nodes@),
                    old(self)@.selected_tags.len() > 0,
                    matching@,
                ),
                ..old(self)@
            }),
    {
        self.visible_nodes = filter_display_nodes_by_tags(
            tree,
            nodes,
            self.selected_tags.as_slice(),
            matching,
        );
    }

    /// Takes a key, where the tag search lists `tag_matches`.
    pub fn handle_key(&mut self, key: PickerKey, tag_matches: &[TagMatch]) -> (action: PickerAction)
        requires
            old(self).wf(),
        ensures
            final(self).wf(),
            key_step(old(self)@, key, match_views(tag_matches@), final(self)@, action),
    {
        if self.tag_mode {
            self.handle_tag_key(key, tag_matches)
        } else {
            self.handle_collection_key(key)
        }
    }

    /// Takes a key of the tag picker.
    fn handle_tag_key(&mut self, key: PickerKey, tag_matches: &[TagMatch]) -> (action: PickerAction)
        requires
            old(self).wf(),
        ensures
            final(self).wf(),
            tag_key_step(old(self)@, key, match_views(tag_matches@), final(self)@, action),
    {
        match key {
            PickerKey::Esc => {
                self.tag_mode = false;
            },
            PickerKey::Down | PickerKey::Char('j') => {
                self.tag_selected = step_down(self.tag_selected, tag_matches.len());
            },
            PickerKey::Up | PickerKey::Char('k') => {
                if self.tag_selected > 0 {
                    self.tag_selected = self.tag_selected - 1;
                }
            },
            PickerKey::Backspace => {
                self.tag_query.pop();
                self.tag_selected = 0;
            },
            PickerKey::Enter => {
                if self.tag_selected < tag_matches.len() {
                    toggle_tag(&mut self.selected_tags, tag_matches[self.tag_selected].name.as_str());
                    self.selected = 0;
                    return PickerAction::Refilter;
                }
            },
            PickerKey::Char(c) => {
                self.tag_query.push(c);
                self.tag_selected = 0;
            },
            PickerKey::Other => {},
        }
        PickerAction::Continue
    }

    /// Takes a key of the collection picker.
    fn handle_collection_key(&mut self, key: PickerKey) -> (action: PickerAction)
        requires
            old(self).wf(),
        ensures
            final(self).wf(),
            collection_key_step(old(self)@, key, final(self)@, action),
    {
        match key {
            PickerKey::Char('q') | PickerKey::Esc => {
                return PickerAction::Quit;
            },
            PickerKey::Down | PickerKey::Char('j') => {
                self.selected = step_down(self.selected, self.visible_nodes.len());
            },
            PickerKey::Up | PickerKey::Char('k') => {
                if self.selected > 0 {
                    self.selected = self.selected - 1;
                }
            },
            PickerKey::Char('f') => {
                self.force_export_all = !self.force_export_all;
            },
            PickerKey::Char('t') => {
                self.tag_mode = true;
                self.tag_selected = 0;
            },
            PickerKey::Char('c') => {
                self.selected_tags = Vec::new();
                self.selected = 0;
                assert(self@.selected_tags =~= seq![]);
                return PickerAction::Refilter;
            },
            PickerKey::Enter => {
                if self.selected < self.visible_nodes.len() {
                    return PickerAction::Export(
                        ExportSelection {
                            node: self.visible_nodes[self.selected].clone(),
                            force_export_all: self.force_export_all,
                            tags: clone_strings(&self.selected_tags),
                        },
                    );
                }
                return PickerAction::Quit;
            },
            _ => {},
        }
        PickerAction::Continue
    }
}

/// The name of the export mode.
pub open spec fn mode_text(force_export_all: bool) -> Seq<char> {
    if force_export_all {
        "Force export all"@
    } else {
        "Skip existing files"@
    }
}

/// The line that explains the keys.
pub open spec fn help_line(state: PickerState) -> Seq<char> {
    if state.tag_mode {
        "Tag filter uses AND. Type to fuzzy find, Backspace edits, Enter toggles tag, Esc returns | Mode: "@
            + mode_text(state.force_export_all)
    } else {
        "Choose collection: Up/Down (or j/k), t tags (AND), c clear tags, f force, Enter export, q/Esc quit | Mode: "@
            + mode_text(state.force_export_all)
    }
}

/// The part of the status line that names the selected tags.
pub open spec fn tag_status(tags: Seq<Seq<char>>) -> Seq<char> {
    if tags.len() == 0 {
        "Tags: none"@
    } else {
        "Tags: all of ["@ + joined(tags, ", "@) + "]"@
    }
}

/// The line that shows the selected tags and the search or the number of collections.
pub open spec fn status_text(state: PickerState) -> Seq<char> {
    tag_status(state.selected_tags) + if state.tag_mode {
        " | Query: "@ + state.tag_query
    } else {
        " | Visible collections: "@ + decimal(state.visible.len())
    }
}

/// The entry of a tag in the list of tags.
pub open spec fn tag_entry(selected_tags: Seq<Seq<char>>, name: Seq<char>) -> Seq<char> {
    if selected_position(selected_tags, name) is Some {
        "[x] "@ + name
    } else {
        "[ ] "@ + name
    }
}

/// Two spaces for each level of depth.
pub open spec fn indent(depth: nat) -> Seq<char>
    decreases depth,
{
    if depth == 0 {
        seq![]
    } else {
        indent((depth - 1) as nat) + "  "@
    }
}

/// The entry of a collection in the list of collections.
pub open spec fn collection_entry(row: Row) -> Seq<char> {
    indent(row.depth as nat) + if row.path_parts.len() > 0 {
        row.path_parts.last()
    } else {
        seq![]
    }
}

impl Picker {
    /// The line that explains the keys.
    pub fn help_text(&self) -> (text: String)
        ensures
            text@ == help_line(self@),
    {
        let mut text = if self.tag_mode {
            "Tag filter uses AND. Type to fuzzy find, Backspace edits, Enter toggles tag, Esc returns | Mode: ".to_owned()
        } else {
            "Choose collection: Up/Down (or j/k), t tags (AND), c clear tags, f force, Enter export, q/Esc quit | Mode: ".to_owned()
        };
        text.append(
            if self.force_export_all {
                "Force export all"
            } else {
                "Skip existing files"
            },
        );
        text
    }

    /// The line that shows the selected tags and the search or the number of collections.
    pub fn status_line(&self) -> (text: String)
        ensures
            text@ == status_text(self@),
    {
        let mut text = String::new();
        if self.selected_tags.len() == 0 {
            text.append("Tags: none");
            assert(text@ =~= "Tags: none"@);
        } else {
            text.append("Tags: all of [");
            assert(text@ =~= "Tags: all of ["@);
            text.append(join(&self.selected_tags, ", ").as_str());
            text.append("]");
        }
        assert(text@ == tag_status(self@.selected_tags));
        if self.tag_mode {
            text.append(" | Query: ");
            text.append(self.tag_query.as_str());
        } else {
            text.append(" | Visible collections: ");
            push_decimal(&mut text, self.visible_nodes.len() as u64);
        }
        assert(text@ =~= status_text(self@));
        text
    }

    /// The entries of the list of tags, where the search lists `tag_matches`.
    pub fn tag_items(&self, tag_matches: &[TagMatch]) -> (items: Vec<String>)
        ensures
            texts(items@) == match_views(tag_matches@).map_values(
                |found: (Seq<char>, usize)| tag_entry(self@.selected_tags, found.0),
            ),
    {
        let ghost entries = match_views(tag_matches@).map_values(
            |found: (Seq<char>, usize)| tag_entry(self@.selected_tags, found.0),
        );
        let mut items: Vec<String> = Vec::new();
        let mut i: usize = 0;
        assert(texts(items@) =~= entries.take(0));
        while i < tag_matches.len()
            invariant
                i <= tag_matches@.len(),
                entries == match_views(tag_matches@).map_values(
                    |found: (Seq<char>, usize)| tag_entry(self@.selected_tags, found.0),
                ),
                texts(items@) == entries.take(i as int),
            decreases tag_matches@.len() - i,
        {
            let name = tag_matches[i].name.as_str();
            let mut item = if find_tag(&self.selected_tags, name).is_some() {
                "[x] ".to_owned()
            } else {
                "[ ] ".to_owned()
            };
            item.append(name);
            let ghost earlier = items@;
            let ghost text = item@;
            items.push(item);
            proof {
                assert(texts(items@) =~= texts(earlier).push(text));
                assert(entries[i as int] == text);
                assert(texts(items@) =~= entries.take(i + 1));
            }
            i += 1;
        }
        assert(entries.take(i as int) =~= entries);
        items
    }

    /// The entries of the list of collections.
    pub fn collection_items(&self) -> (items: Vec<String>)
        ensures
            texts(items@) == self@.visible.map_values(|row: Row| collection_entry(row)),
    {
        let ghost entries = self@.visible.map_values(|row: Row| collection_entry(row));
        let mut items: Vec<String> = Vec::new();
        let mut i: usize = 0;
        assert(texts(items@) =~= entries.take(0));
        while i < self.visible_nodes.len()
            invariant
                i <= self.visible_nodes@.len(),
                entries == self@.visible.map_values(|row: Row| collection_entry(row)),
                texts(items@) == entries.take(i as int),
            decreases self.visible_nodes@.len() - i,
        {
            let node = &self.visible_nodes[i];
            let item = collection_label(node);
            let ghost earlier = items@;
            let ghost text = item@;
            items.push(item);
            proof {
                assert(texts(items@) =~= texts(earlier).push(text));
                assert(entries[i as int] == text);
                assert(texts(items@) =~= entries.take(i + 1));
            }
            i += 1;
        }
        assert(entries.take(i as int) =~= entries);
        items
    }

    /// The highlighted entry of the list of collections.
    pub fn highlighted_collection(&self) -> (position: Option<usize>)
        ensures
            position == if self.visible_nodes@.len() > 0 {
                Some(self.selected)
            } else {
                None
            },
    {
        if self.visible_nodes.len() > 0 {
            Some(self.selected)
        } else {
            None
        }
    }

    /// The highlighted entry of the list of tags, which has `match_count` entries.
    pub fn highlighted_tag(&self, match_count: usize) -> (position: Option<usize>)
        ensures
            position == if match_count > 0 {
                Some(self.tag_selected)
            } else {
                None
            },
    {
        if match_count > 0 {
            Some(self.tag_selected)
        } else {
            None
        }
    }
}

/// The entry of a collection in the list of collections.
fn collection_label(node: &DisplayNode) -> (label: String)
    ensures
        label@ == collection_entry(node@),
{
    let mut label = String::new();
    let mut depth: usize = 0;
    assert(label@ =~= indent(0));
    while depth < node.depth
        invariant
            depth <= node.depth,
            label@ == indent(depth as nat),
        decreases node.depth - depth,
    {
        label.append("  ");
        depth += 1;
    }
    let count = node.path_parts.len();
    if count > 0 {
        label.append(node.path_parts[count - 1].as_str());
        assert(node@.path_parts.last() == node.path_parts@[count - 1]@);
    }
    assert(label@ =~= collection_entry(node@));
    label
}

/// Whether a position is an entry of a list of `len` entries, or the start of an empty one.
pub open spec fn in_list(position: int, len: int) -> bool {
    0 <= position && (position < len || (position == 0 && len == 0))
}

/// Whether the positions are entries of the lists.
pub open spec fn settled(state: PickerState, match_count: int) -> bool {
    in_list(state.selected, state.visible.len() as int) && in_list(state.tag_selected, match_count)
}

/// Settling brings both positions into the lists, and no key moves the position in the list on
/// screen out of it.
pub proof fn law_positions_stay_in_lists(
    before: PickerState,
    key: PickerKey,
    matches: Seq<(Seq<char>, usize)>,
    after: PickerState,
    action: PickerAction,
)
    requires
        settled(before, matches.len() as int),
        key_step(before, key, matches, after, action),
    ensures
        settled(after, matches.len() as int),
        forall|position: int, len: nat|
            position >= 0 ==> in_list(#[trigger] clamped(position, len as int), len as int),
{
}

/// Only the collection picker ends the session, its state stays as it is, and what is exported
/// is the highlighted collection with the mode and the tags on screen.
pub proof fn law_ending_the_picker(
    before: PickerState,
    key: PickerKey,
    matches: Seq<(Seq<char>, usize)>,
    after: PickerState,
    action: PickerAction,
)
    requires
        key_step(before, key, matches, after, action),
        action is Quit || action is Export,
        before.selected >= 0,
    ensures
        !before.tag_mode,
        after == before,
        action is Export ==> key == PickerKey::Enter && before.selected < before.visible.len()
            && exports(
            action,
            before.visible[before.selected],
            before.force_export_all,
            before.selected_tags,
        ),
{
}

/// Pressing `f` twice leaves everything as it was.
pub proof fn law_force_toggles_back(
    before: PickerState,
    matches: Seq<(Seq<char>, usize)>,
    between: PickerState,
    after: PickerState,
    first: PickerAction,
    second: PickerAction,
)
    requires
        !before.tag_mode,
        key_step(before, PickerKey::Char('f'), matches, between, first),
        key_step(between, PickerKey::Char('f'), matches, after, second),
    ensures
        after == before,
        between.force_export_all != before.force_export_all,
{
}

/// Opening the tag picker and leaving it at once changes nothing but the highlighted tag.
pub proof fn law_tag_picker_returns(
    before: PickerState,
    matches: Seq<(Seq<char>, usize)>,
    between: PickerState,
    after: PickerState,
    first: PickerAction,
    second: PickerAction,
)
    requires
        !before.tag_mode,
        key_step(before, PickerKey::Char('t'), matches, between, first),
        key_step(between, PickerKey::Esc, matches, after, second),
    ensures
        between.tag_mode,
        after == (PickerState { tag_selected: 0, ..before }),
{
}

/// Backspace takes back the character typed last.
pub proof fn law_backspace_undoes_typing(
    before: PickerState,
    c: char,
    matches: Seq<(Seq<char>, usize)>,
    later_matches: Seq<(Seq<char>, usize)>,
    between: PickerState,
    after: PickerState,
    first: PickerAction,
    second: PickerAction,
)
    requires
        before.tag_mode,
        c != 'j' && c != 'k',
        key_step(before, PickerKey::Char(c), matches, between, first),
        key_step(between, PickerKey::Backspace, later_matches, after, second),
    ensures
        after == (PickerState { tag_selected: 0, ..before }),
{
    assert(before.tag_query.push(c).drop_last() =~= before.tag_query);
}

/// The state of a picker is made of its fields.
pub proof fn law_picker_state(picker: Picker)
    ensures
        picker@.selected == picker.selected,
        picker@.tag_selected == picker.tag_selected,
        picker@.tag_query == picker.tag_query@,
        picker@.tag_mode == picker.tag_mode,
        picker@.selected_tags.len() == picker.selected_tags@.len(),
        forall|i: int|
            0 <= i < picker.selected_tags@.len() ==> #[trigger] picker@.selected_tags[i]
                == picker.selected_tags@[i]@,
        picker@.visible.len() == picker.visible_nodes@.len(),
        forall|i: int|
            0 <= i < picker.visible_nodes@.len() ==> #[trigger] picker@.visible[i]
                == picker.visible_nodes@[i]@,
        picker@.force_export_all == picker.force_export_all,
{
}

/// A position behind the end of a list becomes the last one, or the first of an empty list, and
/// any other stays.
pub proof fn law_settling_positions(position: int, len: int)
    requires
        0 <= position,
        0 <= len,
    ensures
        position < len ==> clamped(position, len) == position,
        position >= len && len > 0 ==> clamped(position, len) == len - 1,
        len == 0 ==> clamped(position, len) == 0,
{
}

/// What the keys of the collection picker do. `Down` and `j` go one row down but not past the
/// last, `Up` and `k` one row up but not past the first; `f` switches forcing, `t` opens the tag
/// picker at its first tag, `c` drops all tags and goes to the first row; `q` and `Esc` quit,
/// `Enter` exports the highlighted row, and every other key does nothing.
pub proof fn law_keys_of_the_collection_picker(
    before: PickerState,
    key: PickerKey,
    matches: Seq<(Seq<char>, usize)>,
    after: PickerState,
    action: PickerAction,
)
    requires
        !before.tag_mode,
        before.selected >= 0,
        key_step(before, key, matches, after, action),
    ensures
        after.tag_query == before.tag_query,
        after.visible == before.visible,
        key == PickerKey::Down || key == PickerKey::Char('j') ==> action is Continue && after == (
        PickerState {
            selected: if before.selected + 1 < before.visible.len() {
                before.selected + 1
            } else if before.visible.len() > 0 {
                before.visible.len() - 1
            } else {
                0
            },
            ..before
        }),
        key == PickerKey::Up || key == PickerKey::Char('k') ==> action is Continue && after == (
        PickerState {
            selected: if before.selected > 0 {
                before.selected - 1
            } else {
                0
            },
            ..before
        }),
        key == PickerKey::Char('f') ==> action is Continue && after == (PickerState {
            force_export_all: !before.force_export_all,
            ..before
        }),
        key == PickerKey::Char('t') ==> action is Continue && after == (PickerState {
            tag_mode: true,
            tag_selected: 0,
            ..before
        }),
        key == PickerKey::Char('c') ==> action is Refilter && after == (PickerState {
            selected: 0,
            selected_tags: seq![],
            ..before
        }),
        key == PickerKey::Char('q') || key == PickerKey::Esc ==> action is Quit && after == before,
        key == PickerKey::Enter && before.selected >= before.visible.len() ==> action is Quit
            && after == before,
        key == PickerKey::Enter && before.selected < before.visible.len() ==> after == before && (
        action matches PickerAction::Export(selection) && selection.node@
            == before.visible[before.selected] && selection.force_export_all
            == before.force_export_all && texts(selection.tags@) == before.selected_tags),
        key == PickerKey::Backspace || key == PickerKey::Other ==> action is Continue && after
            == before,
        key matches PickerKey::Char(c) ==> (c != 'j' && c != 'k' && c != 'f' && c != 't' && c
            != 'c' && c != 'q' ==> action is Continue && after == before),
{
}

/// What the keys of the tag picker do. `Down` and `j` go one tag down but not past the last, `Up`
/// and `k` one tag up but not past the first; every other character is added to the search, and
/// `Backspace` takes the last one off; `Enter` toggles the highlighted tag and `Esc` returns.
pub proof fn law_keys_of_the_tag_picker(
    before: PickerState,
    key: PickerKey,
    matches: Seq<(Seq<char>, usize)>,
    after: PickerState,
    action: PickerAction,
)
    requires
        before.tag_mode,
        before.tag_selected >= 0,
        key_step(before, key, matches, after, action),
    ensures
        after.visible == before.visible,
        after.force_export_all == before.force_export_all,
        key == PickerKey::Down || key == PickerKey::Char('j') ==> action is Continue && after == (
        PickerState {
            tag_selected: if before.tag_selected + 1 < matches.len() {
                before.tag_selected + 1
            } else if matches.len() > 0 {
                matches.len() - 1
            } else {
                0
            },
            ..before
        }),
        key == PickerKey::Up || key == PickerKey::Char('k') ==> action is Continue && after == (
        PickerState {
            tag_selected: if before.tag_selected > 0 {
                before.tag_selected - 1
            } else {
                0
            },
            ..before
        }),
        key matches PickerKey::Char(c) ==> (c != 'j' && c != 'k' ==> action is Continue && after
            == (PickerState {
            tag_query: before.tag_query + seq![c],
            tag_selected: 0,
            ..before
        })),
        key == PickerKey::Backspace ==> action is Continue && after == (PickerState {
            tag_query: before.tag_query.take(
                if before.tag_query.len() > 0 {
                    before.tag_query.len() - 1
                } else {
                    0
                },
            ),
            tag_selected: 0,
            ..before
        }),
        key == PickerKey::Esc ==> action is Continue && after == (PickerState {
            tag_mode: false,
            ..before
        }),
        key == PickerKey::Enter && before.tag_selected < matches.len() ==> action is Refilter
            && after == (PickerState {
            selected: 0,
            selected_tags: after.selected_tags,
            ..before
        }) && toggled(
            before.selected_tags,
            matches[before.tag_selected].0,
            after.selected_tags,
        ),
        key == PickerKey::Enter && before.tag_selected >= matches.len() ==> action is Continue
            && after == before,
        key == PickerKey::Other ==> action is Continue && after == before,
{
    match key {
        PickerKey::Char(c) => {
            assert(before.tag_query.push(c) =~= before.tag_query + seq![c]);
        },
        PickerKey::Backspace => {
            if before.tag_query.len() > 0 {
                assert(before.tag_query.drop_last() =~= before.tag_query.take(
                    before.tag_query.len() - 1,
                ));
            } else {
                assert(before.tag_query.take(0) =~= before.tag_query);
            }
        },
        _ => {},
    }
}

/// One row down and up again leads back, as long as there is a row below.
pub proof fn law_up_undoes_down(
    before: PickerState,
    matches: Seq<(Seq<char>, usize)>,
    between: PickerState,
    after: PickerState,
    first: PickerAction,
    second: PickerAction,
)
    requires
        before.selected >= 0,
        before.tag_selected >= 0,
        before.tag_mode ==> before.tag_selected + 1 < matches.len(),
        !before.tag_mode ==> before.selected + 1 < before.visible.len(),
        key_step(before, PickerKey::Down, matches, between, first),
        key_step(between, PickerKey::Up, matches, after, second),
    ensures
        after == before,
        between != before,
{
}

/// The line that explains the keys names the mode at its end, and tells of the list on screen.
pub proof fn law_help_line(state: PickerState)
    ensures
        state.tag_mode ==> help_line(state)
            == "Tag filter uses AND. Type to fuzzy find, Backspace edits, Enter toggles tag, Esc returns | Mode: "@
            + (if state.force_export_all {
            "Force export all"@
        } else {
            "Skip existing files"@
        }),
        !state.tag_mode ==> help_line(state)
            == "Choose collection: Up/Down (or j/k), t tags (AND), c clear tags, f force, Enter export, q/Esc quit | Mode: "@
            + (if state.force_export_all {
            "Force export all"@
        } else {
            "Skip existing files"@
        }),
{
}

/// The status line shows all selected tags, and the search or the number of collections.
pub proof fn law_status_line(state: PickerState)
    ensures
        status_text(state) == (if state.selected_tags.len() == 0 {
            "Tags: none"@
        } else {
            "Tags: all of ["@ + joined(state.selected_tags, ", "@) + "]"@
        }) + (if state.tag_mode {
            " | Query: "@ + state.tag_query
        } else {
            " | Visible collections: "@ + decimal(state.visible.len())
        }),
{
}

/// A tag is shown with a mark that is set exactly where the tag is selected, whatever the case of
/// ASCII letters.
pub proof fn law_tag_entries_are_marked(selected_tags: Seq<Seq<char>>, name: Seq<char>)
    ensures
        (exists|i: int| 0 <= i < selected_tags.len() && ascii_matches(#[trigger] selected_tags[i], name))
            ==> tag_entry(selected_tags, name) == "[x] "@ + name,
        (forall|i: int|
            0 <= i < selected_tags.len() ==> !ascii_matches(#[trigger] selected_tags[i], name))
            ==> tag_entry(selected_tags, name) == "[ ] "@ + name,
{
    lemma_selected_position(selected_tags, name);
}

/// A collection is shown by its own name behind two spaces for each level of depth.
pub proof fn law_collection_entries_are_indented(row: Row, i: int)
    requires
        row.depth >= 0,
    ensures
        indent(row.depth as nat).len() == 2 * row.depth,
        0 <= i < 2 * row.depth ==> indent(row.depth as nat)[i] == ' ',
        row.path_parts.len() > 0 ==> collection_entry(row) == indent(row.depth as nat)
            + row.path_parts.last(),
        row.path_parts.len() == 0 ==> collection_entry(row) == indent(row.depth as nat),
{
    lemma_indent(row.depth as nat);
    assert(indent(row.depth as nat) + Seq::<char>::empty() =~= indent(row.depth as nat));
}

proof fn lemma_indent(depth: nat)
    ensures
        indent(depth).len() == 2 * depth,
        forall|i: int| 0 <= i < 2 * depth ==> #[trigger] indent(depth)[i] == ' ',
    decreases depth,
{
    if depth > 0 {
        reveal_strlit("  ");
        lemma_indent((depth - 1) as nat);
    }
}

} // verus!
