//! Where a new worker loads the library's bindings from.
use vstd::prelude::*;

verus! {

/// The path appended to the origin when no other was set.
pub open spec fn default_suffix() -> Seq<char> {
    "/index.js"@
}

/// The bindings' URL: the page's origin followed by the configured path,
/// `/index.js` unless another was set.
pub fn get_bindgen_url(origin: String, suffix: Option<&str>) -> (url: String)
    ensures
        url@ == origin@ + match suffix {
            Some(s) => s@,
            None => default_suffix(),
        },
{
    let mut url = origin;
    match suffix {
        Some(s) => url.append(s),
        None => url.append("/index.js"),
    }
    url
}

} // verus!
