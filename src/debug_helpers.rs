use vstd::prelude::*;

verus! {

/// Switches for developing the installer: skip verification and downloads,
/// start from a given directive, skip directives of some kinds, or run only
/// those whose text holds every given phrase.
pub struct DebugHelpers {
    pub skip_verify_and_downloads: bool,
    pub start_from_directive: Option<String>,
    pub skip_kind: Vec<String>,
    pub contains: Vec<String>,
}

impl Default for DebugHelpers {
    fn default() -> (r: Self)
        ensures
            !r.skip_verify_and_downloads,
            r.start_from_directive is None,
            r.skip_kind@.len() == 0,
            r.contains@.len() == 0,
    {
        DebugHelpers {
            skip_verify_and_downloads: false,
            start_from_directive: None,
            skip_kind: Vec::new(),
            contains: Vec::new(),
        }
    }
}

} // verus!
