//! The background refresh coordination: what the detached refresher is
//! started with. The process control itself — sessions, detaching, null
//! streams — happens outside the library; it re-executes the program with
//! exactly these arguments.

use vstd::prelude::*;
use vstd::string::StringExecFns;

verus! {

/// The hidden flag that re-enters the program for one fetch-and-cache
/// cycle.
pub open spec fn spec_update_cache_flag() -> Seq<char> {
    seq!['-', '-', 'u', 'p', 'd', 'a', 't', 'e', '-', 'c', 'a', 'c', 'h', 'e']
}

/// The flag as text.
pub fn update_cache_flag() -> (r: String)
    ensures
        r@ == spec_update_cache_flag(),
{
    proof {
        reveal_strlit("--update-cache");
        assert("--update-cache"@ =~= spec_update_cache_flag());
    }
    String::from_str("--update-cache")
}

/// The argument list the detached refresher is started with: the hidden
/// flag, then the identity to refresh.
pub fn refresh_command_args(username: &str) -> (v: Vec<String>)
    ensures
        v@.len() == 2,
        v@[0]@ == spec_update_cache_flag(),
        v@[1]@ == username@,
{
    let mut v: Vec<String> = Vec::new();
    v.push(update_cache_flag());
    v.push(username.to_owned());
    v
}

} // verus!
