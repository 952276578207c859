use vstd::prelude::*;

verus! {

/// The flag that asks for every solution.
pub const ALL_STR: &'static str = "--all";

/// The position of the puzzle argument.
pub const FILENAME_PARAM: usize = 1;

/// The position of the optional flag.
pub const ALL_PARAM: usize = 2;

/// Whether the search should stop at the first solution: unless the argument after the
/// puzzle is `--all`.
pub fn terminate_on_first(args: &Vec<String>) -> (r: bool)
    ensures
        r == !(args@.len() >= ALL_PARAM + 1 && args@[ALL_PARAM as int]@ == ALL_STR@),
{
    if args.len() >= ALL_PARAM + 1 {
        let all = String::from_str(ALL_STR);
        !(args[ALL_PARAM] == all)
    } else {
        true
    }
}

} // verus!
