use vstd::prelude::*;

use crate::text::views;

verus! {

/// The directory that the cache lies under: the one that `XDG_CACHE_HOME` names, or the
/// one that `HOME` names.
#[derive(Debug, Clone, Copy, PartialEq, Eq, Structural)]
pub enum CacheBase {
    XdgCacheHome,
    Home,
}

/// Which directory the cache lies under, from whether `XDG_CACHE_HOME` and `HOME` are set
/// and not empty: the first of the two that is; `None` where neither is.
pub fn cache_base(xdg_cache_home_set: bool, home_set: bool) -> (b: Option<CacheBase>)
    ensures
        b == if xdg_cache_home_set {
            Some(CacheBase::XdgCacheHome)
        } else if home_set {
            Some(CacheBase::Home)
        } else {
            None
        },
{
    if xdg_cache_home_set {
        Some(CacheBase::XdgCacheHome)
    } else if home_set {
        Some(CacheBase::Home)
    } else {
        None
    }
}

impl CacheBase {
    /// The directories from the base down to the cache's own: `wordles` under
    /// `XDG_CACHE_HOME`, `.cache/wordles` under `HOME`.
    pub fn subdirs(&self) -> (v: Vec<&'static str>)
        ensures
            views(v@) == match self {
                CacheBase::XdgCacheHome => seq!["wordles"@],
                CacheBase::Home => seq![".cache"@, "wordles"@],
            },
    {
        let v = match self {
            CacheBase::XdgCacheHome => vec!["wordles"],
            CacheBase::Home => vec![".cache", "wordles"],
        };
        assert(views(v@) =~= match self {
            CacheBase::XdgCacheHome => seq!["wordles"@],
            CacheBase::Home => seq![".cache"@, "wordles"@],
        });
        v
    }
}

} // verus!
