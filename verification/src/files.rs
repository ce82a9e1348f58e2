//! Which static file answers a request.

use vstd::prelude::*;

verus! {

/// The file to serve from a directory: the one the request names, or
/// `index.html` where it names none.
pub fn served_name(name: Option<&str>) -> (served: String)
    ensures
        served@ == (if name is Some && name->0@.len() > 0 {
            name->0@
        } else {
            "index.html"@
        }),
{
    match name {
        Some(text) => {
            if text.is_empty() {
                "index.html".to_owned()
            } else {
                text.to_owned()
            }
        },
        None => "index.html".to_owned(),
    }
}

} // verus!
