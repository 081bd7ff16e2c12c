//! Command-line rules: which front end to launch and which argument names
//! the start directory. Checking which arguments are directories, and
//! launching, is left to the caller.

use vstd::prelude::*;

verus! {

/// Some argument is exactly `--gui`.
pub open spec fn asks_for_gui(args: Seq<String>) -> bool {
    exists|i: int| 0 <= i < args.len() && #[trigger] args[i]@ == "--gui"@
}

/// Whether the windowed explorer is requested (`--gui` among the
/// arguments, program name excluded); otherwise the terminal explorer runs.
pub fn wants_gui(args: &[String]) -> (r: bool)
    ensures
        r == asks_for_gui(args@),
{
    let flag = "--gui".to_owned();
    let mut i: usize = 0;
    while i < args.len()
        invariant
            i <= args@.len(),
            flag@ == "--gui"@,
            forall|k: int| 0 <= k < i ==> #[trigger] args@[k]@ != "--gui"@,
        decreases args@.len() - i,
    {
        if args[i] == flag {
            return true;
        }
        i = i + 1;
    }
    false
}

/// The argument naming the start directory: the first one that is a
/// directory (`is_dir[i]` tells whether argument `i` is one); `None` means
/// the current directory is used.
pub fn start_dir_index(is_dir: &[bool]) -> (r: Option<usize>)
    ensures
        match r {
            Some(i) => i < is_dir@.len() && is_dir@[i as int] && forall|k: int| 0 <= k < i ==> !is_dir@[k],
            None => forall|k: int| 0 <= k < is_dir@.len() ==> !is_dir@[k],
        },
{
    let mut i: usize = 0;
    while i < is_dir.len()
        invariant
            i <= is_dir@.len(),
            forall|k: int| 0 <= k < i ==> !is_dir@[k],
        decreases is_dir@.len() - i,
    {
        if is_dir[i] {
            return Some(i);
        }
        i = i + 1;
    }
    None
}

} // verus!
