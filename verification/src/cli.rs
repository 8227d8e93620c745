//! Command-line flags and the run mode they select.
//!
//! Modes (argv flags):
//!   --once            print a single snapshot and exit (used by the action)
//!   --interval N      live watch, refreshing every N seconds (used by the pane)
//!   --json            emit machine-readable JSON and exit
//!   --enable          start the sidebar status updater daemon
//!   --disable         stop the daemon and clear statuses
//!   --toggle          enable/disable depending on daemon state
//!   --daemon          internal: run the updater loop (spawned by --enable)

use crate::text;
use vstd::prelude::*;

verus! {

/// Default live-watch refresh window when `--interval` is absent or invalid.
pub const DEFAULT_INTERVAL_MS: u64 = 3000;

/// What a run of the program does.
#[derive(Debug, Clone, Copy, PartialEq, Eq, Structural)]
pub enum RunMode {
    Daemon,
    Enable,
    Disable,
    Toggle,
    Json,
    Once,
    Interval,
}

/// `flag` appears among the arguments.
pub open spec fn given(args: Seq<String>, flag: Seq<char>) -> bool {
    text::views(args).contains(flag)
}

/// The mode that the arguments select: daemon / control modes before read modes,
/// the live watch where no flag says otherwise.
pub open spec fn selected(args: Seq<String>) -> RunMode {
    if given(args, "--daemon"@) {
        RunMode::Daemon
    } else if given(args, "--enable"@) {
        RunMode::Enable
    } else if given(args, "--disable"@) {
        RunMode::Disable
    } else if given(args, "--toggle"@) {
        RunMode::Toggle
    } else if given(args, "--json"@) {
        RunMode::Json
    } else if given(args, "--once"@) {
        RunMode::Once
    } else {
        RunMode::Interval
    }
}

/// Position of the first argument that is `flag`.
fn position(args: &[String], flag: &str) -> (r: Option<usize>)
    ensures
        r is Some <==> given(args@, flag@),
        r matches Some(i) ==> i < args@.len() && args@[i as int]@ == flag@ && forall|k: int|
            0 <= k < i ==> (#[trigger] args@[k])@ != flag@,
{
    let mut i: usize = 0;
    while i < args.len()
        invariant
            i <= args@.len(),
            forall|k: int| 0 <= k < i ==> (#[trigger] args@[k])@ != flag@,
        decreases args@.len() - i,
    {
        if text::same(args[i].as_str(), flag) {
            assert(text::views(args@)[i as int] == flag@);
            return Some(i);
        }
        i += 1;
    }
    assert forall|k: int| 0 <= k < args@.len() implies text::views(args@)[k] != flag@ by {
        assert(args@[k]@ != flag@);
    }
    None
}

/// True if `flag` appears anywhere in `args`.
pub fn has_flag(args: &[String], flag: &str) -> (r: bool)
    ensures
        r == given(args@, flag@),
{
    position(args, flag).is_some()
}

/// The mode that the arguments (without the program's name) select.
pub fn run_mode(args: &[String]) -> (r: RunMode)
    ensures
        r == selected(args@),
{
    if has_flag(args, "--daemon") {
        RunMode::Daemon
    } else if has_flag(args, "--enable") {
        RunMode::Enable
    } else if has_flag(args, "--disable") {
        RunMode::Disable
    } else if has_flag(args, "--toggle") {
        RunMode::Toggle
    } else if has_flag(args, "--json") {
        RunMode::Json
    } else if has_flag(args, "--once") {
        RunMode::Once
    } else {
        RunMode::Interval
    }
}

/// `i` is where `--interval` first appears.
pub open spec fn interval_at(args: Seq<String>, i: int) -> bool {
    0 <= i < args.len() && args[i]@ == "--interval"@ && forall|k: int|
        0 <= k < i ==> (#[trigger] args[k])@ != "--interval"@
}

/// The argument that follows the first `--interval`: what has to be read as a
/// number of seconds before [`interval_ms`].
pub fn interval_text(args: &[String]) -> (r: Option<&str>)
    ensures
        forall|i: int| #[trigger]
            interval_at(args@, i) ==> match r {
                Some(v) => i + 1 < args@.len() && v@ == args@[i + 1]@,
                None => i + 1 >= args@.len(),
            },
        !given(args@, "--interval"@) ==> r is None,
{
    match position(args, "--interval") {
        Some(i) => {
            assert forall|k: int| #[trigger] interval_at(args@, k) implies k == i by {
                if k < i {
                    assert(args@[k]@ != "--interval"@);
                } else if i < k {
                    assert(args@[i as int]@ != "--interval"@);
                }
            }
            if args.len() - i > 1 {
                Some(args[i + 1].as_str())
            } else {
                None
            }
        },
        None => {
            assert forall|k: int| #[trigger] interval_at(args@, k) implies false by {
                assert(text::views(args@)[k] == "--interval"@);
            }
            None
        },
    }
}

/// The live-watch refresh window in milliseconds.
pub open spec fn window(reading: Option<u64>) -> u64 {
    match reading {
        Some(ms) => ms,
        None => DEFAULT_INTERVAL_MS,
    }
}

/// The live-watch refresh window in milliseconds: `reading` is the positive value
/// of `--interval`, if it has one; the default for a missing, non-numeric, or
/// non-positive value.
pub fn interval_ms(reading: Option<u64>) -> (r: u64)
    ensures
        r == window(reading),
{
    reading.unwrap_or(DEFAULT_INTERVAL_MS)
}

/// The mode, flag by flag: a flag selects its mode where none that goes before it is
/// given, in the order daemon, enable, disable, toggle, json, once; without any of
/// them it is the live watch.
pub proof fn law_mode_flag_by_flag(args: Seq<String>)
    ensures
        forall|flag: Seq<char>| #[trigger]
            given(args, flag) <==> exists|i: int|
                0 <= i < args.len() && (#[trigger] args[i])@ == flag,
        selected(args) == RunMode::Daemon <==> given(args, "--daemon"@),
        selected(args) == RunMode::Enable <==> given(args, "--enable"@) && !given(
            args,
            "--daemon"@,
        ),
        selected(args) == RunMode::Disable <==> given(args, "--disable"@) && !given(
            args,
            "--daemon"@,
        ) && !given(args, "--enable"@),
        selected(args) == RunMode::Toggle <==> given(args, "--toggle"@) && !given(
            args,
            "--daemon"@,
        ) && !given(args, "--enable"@) && !given(args, "--disable"@),
        given(args, "--daemon"@) || given(args, "--enable"@) || given(args, "--disable"@) || given(
            args,
            "--toggle"@,
        ) || {
            &&& selected(args) == RunMode::Json <==> given(args, "--json"@)
            &&& selected(args) == RunMode::Once <==> given(args, "--once"@) && !given(
                args,
                "--json"@,
            )
            &&& selected(args) == RunMode::Interval <==> !given(args, "--json"@) && !given(
                args,
                "--once"@,
            )
        },
{
    assert forall|flag: Seq<char>| #[trigger] given(args, flag) <==> exists|i: int|
        0 <= i < args.len() && (#[trigger] args[i])@ == flag by {
        let all = text::views(args);
        if given(args, flag) {
            let i = choose|i: int| 0 <= i < all.len() && all[i] == flag;
            assert(args[i]@ == flag);
        }
        if exists|i: int| 0 <= i < args.len() && (#[trigger] args[i])@ == flag {
            let i = choose|i: int| 0 <= i < args.len() && (#[trigger] args[i])@ == flag;
            assert(all[i] == flag);
        }
    }
}

/// The interval is the argument behind the first `--interval`.
pub proof fn law_interval_flag(args: Seq<String>, i: int)
    ensures
        interval_at(args, i) <==> 0 <= i < args.len() && args[i]@ == "--interval"@ && forall|k: int|
            0 <= k < i ==> (#[trigger] args[k])@ != "--interval"@,
        forall|j: int| interval_at(args, i) && #[trigger] interval_at(args, j) ==> i == j,
{
}

/// A reading is the window as it is; without one it is three seconds.
pub proof fn law_window(ms: u64)
    ensures
        window(Some(ms)) == ms,
        window(None) == 3000,
{
}

} // verus!
