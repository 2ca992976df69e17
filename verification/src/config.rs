//! The user's credentials: an identity and a secret, opaque to the core.

use vstd::prelude::*;

verus! {

/// Who to fetch for, and with what secret. Stored beside the cache; the
/// reading and writing of that file happens outside the library.
#[derive(Debug)]
pub struct Config {
    pub username: String,
    pub token: String,
}

impl Clone for Config {
    fn clone(&self) -> (r: Self)
        ensures
            r.username@ == self.username@,
            r.token@ == self.token@,
    {
        Config { username: self.username.clone(), token: self.token.clone() }
    }
}

} // verus!
