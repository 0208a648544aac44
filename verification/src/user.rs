//! A logged-in user, as the surrounding application hands it to call sites.

use vstd::prelude::*;

verus! {

/// A user that has authenticated; only the name travels with requests.
#[derive(Clone, Debug)]
pub struct User {
    pub name: String,
}

} // verus!
