//! The command line: which mode to run in and which configuration file to use.
use vstd::prelude::*;
use vstd::string::StrSliceExecFns;
use crate::config::str_eq;

verus! {

/// How the program runs.
#[derive(Clone, Copy, Debug, PartialEq, Eq, Structural)]
pub enum RunMode {
    /// Print the version and exit.
    Version,
    /// Forward without a window, from a configuration file.
    Headless,
    /// Open the settings window.
    Gui,
}

/// An argument that starts with `-`.
pub open spec fn is_flag(a: Seq<char>) -> bool {
    a.len() > 0 && a[0] == '-'
}

pub open spec fn args_view(args: Seq<String>) -> Seq<Seq<char>> {
    args.map_values(|a: String| a@)
}

/// The mode for the arguments (`args[0]` is the program): `--version` or `-v`
/// anywhere asks for the version; otherwise `--headless`, or any argument after
/// the program that is not a flag (a configuration path), asks for headless
/// mode; otherwise the window opens.
pub open spec fn run_mode_of(args: Seq<Seq<char>>) -> RunMode {
    if exists|i: int| 0 <= i < args.len() && (#[trigger] args[i] == "--version"@ || args[i] == "-v"@) {
        RunMode::Version
    } else if (exists|i: int| 0 <= i < args.len() && #[trigger] args[i] == "--headless"@) || (exists|i: int|
        1 <= i < args.len() && !is_flag(#[trigger] args[i])) {
        RunMode::Headless
    } else {
        RunMode::Gui
    }
}

/// Asking for the version wins over everything else.
pub proof fn version_flag_wins(args: Seq<Seq<char>>, i: int)
    requires
        0 <= i < args.len(),
        args[i] == "--version"@ || args[i] == "-v"@,
    ensures
        run_mode_of(args) == RunMode::Version,
{
}

/// Any argument after the program that is not a flag is a configuration path
/// and selects headless mode, whatever its text, unless the version is asked for.
pub proof fn path_argument_selects_headless(args: Seq<Seq<char>>, i: int)
    requires
        1 <= i < args.len(),
        !(args[i].len() > 0 && args[i][0] == '-'),
        forall|k: int| 0 <= k < args.len() ==> #[trigger] args[k] != "--version"@ && args[k] != "-v"@,
    ensures
        run_mode_of(args) == RunMode::Headless,
{
    assert(!is_flag(args[i]));
}

/// `--headless` selects headless mode unless the version is asked for.
pub proof fn headless_flag_selects_headless(args: Seq<Seq<char>>, i: int)
    requires
        0 <= i < args.len(),
        args[i] == "--headless"@,
        forall|k: int| 0 <= k < args.len() ==> #[trigger] args[k] != "--version"@ && args[k] != "-v"@,
    ensures
        run_mode_of(args) == RunMode::Headless,
{
}

/// The window opens exactly when no argument asks for the version or for
/// headless mode and every argument after the program starts with `-`.
pub proof fn window_without_path_or_mode_flags(args: Seq<Seq<char>>)
    requires
        forall|k: int| 0 <= k < args.len() ==> #[trigger] args[k] != "--version"@ && args[k] != "-v"@
            && args[k] != "--headless"@,
        forall|k: int| 1 <= k < args.len() ==> (#[trigger] args[k]).len() > 0 && args[k][0] == '-',
    ensures
        run_mode_of(args) == RunMode::Gui,
{
    assert forall|k: int| 1 <= k < args.len() implies is_flag(#[trigger] args[k]) by {
        assert(args[k].len() > 0 && args[k][0] == '-');
    }
}

/// Chooses the mode for the arguments (see `run_mode_of`).
pub fn run_mode(args: &[String]) -> (r: RunMode)
    ensures
        r == run_mode_of(args_view(args@)),
        (forall|k: int| 0 <= k < args@.len() ==> #[trigger] args_view(args@)[k] != "--version"@
            && args_view(args@)[k] != "-v"@) && (exists|i: int| 1 <= i < args@.len() && !is_flag(
            #[trigger] args_view(args@)[i],
        )) ==> r == RunMode::Headless,
{
    let ghost a = args_view(args@);
    let n = args.len();
    let mut version = false;
    let mut headless = false;
    let mut path = false;
    let mut i: usize = 0;
    while i < n
        invariant
            n == args@.len(),
            a == args_view(args@),
            i <= n,
            version == exists|k: int| 0 <= k < i && (#[trigger] a[k] == "--version"@ || a[k] == "-v"@),
            headless == exists|k: int| 0 <= k < i && #[trigger] a[k] == "--headless"@,
            path == exists|k: int| 1 <= k < i && !is_flag(#[trigger] a[k]),
        decreases n - i,
    {
        let arg = args[i].as_str();
        assert(a[i as int] == arg@);
        if str_eq(arg, "--version") || str_eq(arg, "-v") {
            version = true;
        }
        if str_eq(arg, "--headless") {
            headless = true;
        }
        if i >= 1 {
            let flag = !arg.is_empty() && arg.get_char(0) == '-';
            if !flag {
                path = true;
            }
        }
        i = i + 1;
    }
    if version {
        RunMode::Version
    } else if headless || path {
        RunMode::Headless
    } else {
        RunMode::Gui
    }
}

/// The configuration path given on the command line: the first argument after
/// the program that is not a flag, if any.
pub fn config_path_arg(args: &[String]) -> (r: Option<String>)
    ensures
        match r {
            Some(p) => exists|i: int|
                1 <= i < args@.len() && !is_flag(#[trigger] args_view(args@)[i]) && args_view(args@)[i] == p@
                    && forall|j: int| 1 <= j < i ==> is_flag(#[trigger] args_view(args@)[j]),
            None => forall|i: int| 1 <= i < args@.len() ==> is_flag(#[trigger] args_view(args@)[i]),
        },
{
    let ghost a = args_view(args@);
    let n = args.len();
    let mut i: usize = 1;
    while i < n
        invariant
            n == args@.len(),
            a == args_view(args@),
            1 <= i,
            forall|j: int| 1 <= j < i && j < n ==> is_flag(#[trigger] a[j]),
        decreases n - i,
    {
        let arg = args[i].as_str();
        assert(a[i as int] == arg@);
        let flag = !arg.is_empty() && arg.get_char(0) == '-';
        if !flag {
            return Some(args[i].clone());
        }
        i = i + 1;
    }
    None
}

} // verus!
