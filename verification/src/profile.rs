//! Profile discovery: pick the single non-anonymous user-data directory,
//! and build the platform data-root path from the home directory.

use vstd::prelude::*;
use crate::errors::DiscoveryError;
use crate::strutil::str_eq;

verus! {

/// A directory name counts as a user profile unless it is the reserved
/// `anonymous` entry.
pub open spec fn is_profile(name: Seq<char>) -> bool {
    name != "anonymous"@
}

/// Selects the index of the single profile directory among `names`.
///
/// Exactly one non-anonymous entry must exist: zero is
/// `NoProfileFound`, two or more is `AmbiguousProfile` — ambiguity is an
/// explicit error, never a silent pick.
pub fn find_local_userdata_dir(names: &Vec<String>) -> (r: Result<usize, DiscoveryError>)
    ensures
        match r {
            Ok(i) => 0 <= i < names@.len() && is_profile(names@[i as int]@)
                && (forall|j: int| 0 <= j < names@.len() && j != i ==> !is_profile(names@[j]@)),
            Err(DiscoveryError::NoProfileFound) =>
                forall|j: int| 0 <= j < names@.len() ==> !is_profile(names@[j]@),
            Err(DiscoveryError::AmbiguousProfile) =>
                exists|j: int, k: int| 0 <= j < k < names@.len()
                    && is_profile(names@[j]@) && is_profile(names@[k]@),
        },
{
    let mut found: Option<usize> = None;
    let mut i: usize = 0;
    while i < names.len()
        invariant
            i <= names@.len(),
            match found {
                Some(f) => 0 <= f < i && is_profile(names@[f as int]@)
                    && (forall|j: int| 0 <= j < i && j != f ==> !is_profile(names@[j]@)),
                None => forall|j: int| 0 <= j < i ==> !is_profile(names@[j]@),
            },
        decreases names@.len() - i,
    {
        if !str_eq(names[i].as_str(), "anonymous") {
            match found {
                Some(f) => {
                    return Err(DiscoveryError::AmbiguousProfile);
                },
                None => {
                    found = Some(i);
                },
            }
        }
        i += 1;
    }
    match found {
        Some(f) => Ok(f),
        None => Err(DiscoveryError::NoProfileFound),
    }
}

/// Builds `<home>/.steam/steam`, the platform user-data root under which
/// the `userdata` profile directories live.
pub fn steam_dir(home: &str) -> (r: String)
    ensures
        r@ == home@ + "/.steam/steam"@,
{
    let mut p = home.to_owned();
    p.append("/.steam/steam");
    p
}

} // verus!

