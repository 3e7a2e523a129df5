//! Window access for modules.
use vstd::prelude::*;

verus! {

/// The clipboard is not shared with modules: always `None`.
pub fn get_clipboard() -> (r: Option<String>)
    ensures
        r is None,
{
    None
}

} // verus!
