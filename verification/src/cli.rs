//! The command line: completion, and what the user is told when nothing can be exported.
use vstd::prelude::*;

use crate::display::DisplayNode;
use crate::text::{chars_of, join, starts_with, string_from};
#[allow(unused_imports)]
use crate::text::{joined, texts};

verus! {

/// A shell for which completion is generated.
#[derive(Debug, Clone, Copy, PartialEq, Eq, Structural)]
pub enum CompletionShell {
    Bash,
    Elvish,
    Fish,
    PowerShell,
    Zsh,
    Other,
}

/// The name of a shell; a shell that is not known is taken for Bash.
pub open spec fn shell_name(shell: CompletionShell) -> Seq<char> {
    match shell {
        CompletionShell::Bash => "bash"@,
        CompletionShell::Elvish => "elvish"@,
        CompletionShell::Fish => "fish"@,
        CompletionShell::PowerShell => "powershell"@,
        CompletionShell::Zsh => "zsh"@,
        CompletionShell::Other => "bash"@,
    }
}

/// The name under which completion is generated for a shell.
pub fn completion_shell_name(shell: CompletionShell) -> (name: &'static str)
    ensures
        name@ == shell_name(shell),
{
    match shell {
        CompletionShell::Bash => "bash",
        CompletionShell::Elvish => "elvish",
        CompletionShell::Fish => "fish",
        CompletionShell::PowerShell => "powershell",
        CompletionShell::Zsh => "zsh",
        CompletionShell::Other => "bash",
    }
}

/// Where the arguments give the path of the library.
#[derive(Debug, Clone, PartialEq, Eq)]
pub enum BasePathArgument {
    /// The argument at this position is the path.
    At(usize),
    /// The path follows the equals sign of its option.
    Inline(String),
}

/// Where the arguments give the path of the library.
pub enum BasePathPlace {
    At(int),
    Inline(Seq<char>),
}

impl View for BasePathArgument {
    type V = BasePathPlace;

    open spec fn view(&self) -> BasePathPlace {
        match self {
            BasePathArgument::At(i) => BasePathPlace::At(*i as int),
            BasePathArgument::Inline(path) => BasePathPlace::Inline(path@),
        }
    }
}

/// Where the arguments from `from` on give the path of the library: the first option for it
/// counts, and the last argument cannot be followed by a path.
pub open spec fn base_path_place(args: Seq<Seq<char>>, from: int) -> Option<BasePathPlace>
    decreases args.len() - from,
{
    if from >= args.len() {
        None
    } else if args[from] == "--zotero-base-path"@ {
        if from + 1 < args.len() {
            Some(BasePathPlace::At(from + 1))
        } else {
            None
        }
    } else if "--zotero-base-path="@.is_prefix_of(args[from]) {
        Some(BasePathPlace::Inline(args[from].skip("--zotero-base-path="@.len() as int)))
    } else {
        base_path_place(args, from + 1)
    }
}

/// Finds the path of the library among the arguments, for completion.
pub fn completion_zotero_base_path(args: &[String]) -> (place: Option<BasePathArgument>)
    ensures
        match place {
            Some(place) => base_path_place(texts(args@), 0) == Some(place@),
            None => base_path_place(texts(args@), 0) is None,
        },
{
    let ghost all = texts(args@);
    let flag = "--zotero-base-path".to_owned();
    let prefix = "--zotero-base-path=";
    let total = args.len();
    let mut i: usize = 0;
    while i < total
        invariant
            i <= total == args@.len(),
            all == texts(args@),
            flag@ == "--zotero-base-path"@,
            prefix@ == "--zotero-base-path="@,
            base_path_place(all, 0) == base_path_place(all, i as int),
        decreases total - i,
    {
        assert(all[i as int] == args@[i as int]@);
        if args[i] == flag {
            if i + 1 < total {
                return Some(BasePathArgument::At(i + 1));
            }
            return None;
        }
        if starts_with(args[i].as_str(), prefix) {
            let chars = chars_of(args[i].as_str());
            let start = chars_of(prefix).len();
            let path = string_from(&chars, start);
            return Some(BasePathArgument::Inline(path));
        }
        i += 1;
    }
    None
}

/// Why the database could not be opened, as far as it matters to the user.
#[derive(Debug, Clone, Copy, PartialEq, Eq, Structural)]
pub enum OpenErrorCode {
    DatabaseBusy,
    DatabaseLocked,
    Other,
}

/// The message for a database that could not be opened.
pub open spec fn open_error_text(
    db_path: Seq<char>,
    code: OpenErrorCode,
    error: Seq<char>,
) -> Seq<char> {
    if code == OpenErrorCode::Other {
        "failed to open Zotero DB: "@ + db_path + ": "@ + error
    } else {
        "failed to open Zotero DB: "@ + db_path
            + ". The database appears to be locked. Shut down Zotero and try again."@
    }
}

/// The message for a database that could not be opened.
pub fn open_error_message(db_path: &str, code: OpenErrorCode, error: &str) -> (message: String)
    ensures
        message@ == open_error_text(db_path@, code, error@),
{
    let mut message = "failed to open Zotero DB: ".to_owned();
    message.append(db_path);
    match code {
        OpenErrorCode::DatabaseBusy | OpenErrorCode::DatabaseLocked => {
            message.append(". The database appears to be locked. Shut down Zotero and try again.");
        },
        OpenErrorCode::Other => {
            message.append(": ");
            message.append(error);
        },
    }
    message
}

/// Complains about a tag filter that leaves no collection.
pub fn check_filter(
    tags: &Vec<String>,
    filtered: &Vec<DisplayNode>,
) -> (result: Result<(), String>)
    ensures
        match result {
            Ok(_) => tags@.len() == 0 || filtered@.len() > 0,
            Err(message) => tags@.len() > 0 && filtered@.len() == 0 && message@
                == "No collections contain items matching tag filter: "@ + joined(
                texts(tags@),
                ", "@,
            ),
        },
{
    if tags.len() > 0 && filtered.len() == 0 {
        let mut message = "No collections contain items matching tag filter: ".to_owned();
        message.append(join(tags, ", ").as_str());
        return Err(message);
    }
    Ok(())
}

/// Whether an argument is the option for the path of the library, with the path or before it.
pub open spec fn is_base_path_option(arg: Seq<char>) -> bool {
    arg == "--zotero-base-path"@ || "--zotero-base-path="@.is_prefix_of(arg)
}

/// The first option for the path decides: the path follows its equals sign, or is the next
/// argument where there is one. Without such an option there is no path.
pub proof fn law_first_base_path_option_decides(args: Seq<Seq<char>>, i: int)
    requires
        0 <= i <= args.len(),
        i < args.len() ==> is_base_path_option(args[i]),
        forall|j: int| 0 <= j < i ==> !is_base_path_option(#[trigger] args[j]),
    ensures
        i == args.len() ==> base_path_place(args, 0) is None,
        i < args.len() && args[i] == "--zotero-base-path"@ && i + 1 < args.len()
            ==> base_path_place(args, 0) == Some(BasePathPlace::At(i + 1)),
        i < args.len() && args[i] == "--zotero-base-path"@ && i + 1 == args.len()
            ==> base_path_place(args, 0) is None,
        i < args.len() && args[i] != "--zotero-base-path"@ ==> (base_path_place(
            args,
            0,
        ) matches Some(BasePathPlace::Inline(path)) && args[i] == "--zotero-base-path="@ + path),
{
    lemma_base_path_place(args, 0, i);
    if i < args.len() && args[i] != "--zotero-base-path"@ {
        let mark = "--zotero-base-path="@;
        assert(args[i] =~= mark + args[i].skip(mark.len() as int)) by {
            assert(mark =~= args[i].subrange(0, mark.len() as int));
            assert forall|k: int| 0 <= k < mark.len() implies mark[k] == args[i][k] by {
                assert(mark[k] == args[i].subrange(0, mark.len() as int)[k]);
            }
        }
    }
}

proof fn lemma_base_path_place(args: Seq<Seq<char>>, from: int, i: int)
    requires
        0 <= from <= i <= args.len(),
        forall|j: int| from <= j < i ==> !is_base_path_option(#[trigger] args[j]),
    ensures
        base_path_place(args, from) == base_path_place(args, i),
    decreases i - from,
{
    if from < i {
        assert(!is_base_path_option(args[from]));
        lemma_base_path_place(args, from + 1, i);
    }
}

/// A busy or locked database asks for shutting down Zotero, any other failure shows the error.
pub proof fn law_open_error_text(db_path: Seq<char>, code: OpenErrorCode, error: Seq<char>)
    ensures
        code == OpenErrorCode::DatabaseBusy || code == OpenErrorCode::DatabaseLocked
            ==> open_error_text(db_path, code, error) == "failed to open Zotero DB: "@ + db_path
            + ". The database appears to be locked. Shut down Zotero and try again."@,
        code == OpenErrorCode::Other ==> open_error_text(db_path, code, error)
            == "failed to open Zotero DB: "@ + db_path + ": "@ + error,
{
}

/// Every known shell has its own name, and any other is taken for Bash.
pub proof fn law_shell_names(shell: CompletionShell)
    ensures
        shell_name(shell) == (match shell {
            CompletionShell::Elvish => "elvish"@,
            CompletionShell::Fish => "fish"@,
            CompletionShell::PowerShell => "powershell"@,
            CompletionShell::Zsh => "zsh"@,
            CompletionShell::Bash | CompletionShell::Other => "bash"@,
        }),
{
}

/// A place among the arguments is read as it is.
pub proof fn law_base_path_argument(argument: BasePathArgument)
    ensures
        argument matches BasePathArgument::At(i) ==> argument@ == BasePathPlace::At(i as int),
        argument matches BasePathArgument::Inline(path) ==> argument@ == BasePathPlace::Inline(
            path@,
        ),
{
}

} // verus!
