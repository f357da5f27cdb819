//! Read-only site configuration, injected into request-scope calls
//! instead of living in ambient global state.

use vstd::prelude::*;

verus! {

/// The configuration a request handler needs.
pub trait WebsiteConfig: Send + Sync {
    /// The directory all content paths resolve under.
    fn get_site_root(&self) -> &str;
}

/// A configuration value held in memory.
#[derive(Clone)]
pub struct MemoryWebsiteConfig {
    pub site_root: String,
}

impl WebsiteConfig for MemoryWebsiteConfig {
    fn get_site_root(&self) -> &str {
        self.site_root.as_str()
    }
}

} // verus!
