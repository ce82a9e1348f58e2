//! Where the server keeps its database.

use vstd::prelude::*;
use vstd::string::StringExecFns;

verus! {

/// The name of the database file: the stem of the executable's name, or
/// `gameserver` where it has none that is text, and then `.db`.
pub fn file_name(stem: Option<&str>) -> (name: String)
    ensures
        name@ == (match stem {
            Some(s) => s@,
            None => "gameserver"@,
        }) + ".db"@,
{
    let base: &str = match stem {
        Some(s) => s,
        None => "gameserver",
    };
    base.to_owned().concat(".db")
}

} // verus!
