use zotero_exporter_tui::cli::{
    check_filter, completion_shell_name, completion_zotero_base_path, open_error_message,
    BasePathArgument, CompletionShell, OpenErrorCode,
};
use zotero_exporter_tui::display::DisplayNode;

fn strings(items: &[&str]) -> Vec<String> {
    items.iter().map(|item| (*item).to_owned()).collect()
}

#[test]
fn shells_have_names() {
    assert_eq!(completion_shell_name(CompletionShell::Bash), "bash");
    assert_eq!(completion_shell_name(CompletionShell::Elvish), "elvish");
    assert_eq!(completion_shell_name(CompletionShell::Fish), "fish");
    assert_eq!(completion_shell_name(CompletionShell::PowerShell), "powershell");
    assert_eq!(completion_shell_name(CompletionShell::Zsh), "zsh");
    assert_eq!(completion_shell_name(CompletionShell::Other), "bash");
}

#[test]
fn the_first_base_path_counts() {
    let place = |args: &[&str]| completion_zotero_base_path(&strings(args));
    assert_eq!(
        place(&["prog", "--zotero-base-path", "/z", "--zotero-base-path=/y"]),
        Some(BasePathArgument::At(2))
    );
    assert_eq!(
        place(&["prog", "--zotero-base-path=/y dir", "--zotero-base-path", "/z"]),
        Some(BasePathArgument::Inline("/y dir".to_owned()))
    );
    assert_eq!(place(&["--zotero-base-path="]), Some(BasePathArgument::Inline(String::new())));
    assert_eq!(place(&["prog", "--zotero-base-path"]), None);
    assert_eq!(place(&["prog", "--zotero-base-pathx", "/z"]), None);
    assert_eq!(place(&[]), None);
}

#[test]
fn a_locked_database_asks_for_shutting_down() {
    for code in [OpenErrorCode::DatabaseBusy, OpenErrorCode::DatabaseLocked] {
        assert_eq!(
            open_error_message("/z/zotero.sqlite", code, "why"),
            "failed to open Zotero DB: /z/zotero.sqlite. The database appears to be locked. Shut down Zotero and try again."
        );
    }
    assert_eq!(
        open_error_message("/z/zotero.sqlite", OpenErrorCode::Other, "why"),
        "failed to open Zotero DB: /z/zotero.sqlite: why"
    );
}

#[test]
fn a_filter_that_leaves_nothing_is_an_error() {
    let tags = strings(&["a", "b"]);
    assert_eq!(
        check_filter(&tags, &Vec::new()),
        Err("No collections contain items matching tag filter: a, b".to_owned())
    );
    assert_eq!(check_filter(&Vec::new(), &Vec::new()), Ok(()));
    let left = vec![DisplayNode { id: 1, depth: 0, path_parts: Vec::new() }];
    assert_eq!(check_filter(&tags, &left), Ok(()));
}
