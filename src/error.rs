//! Configuration errors, found once when a router is built.
use vstd::prelude::*;

verus! {

/// Why a configuration was refused.
#[derive(Debug, Clone)]
pub enum ConfigError {
    /// A rule or the default route names a tag that no upstream has.
    MissingTag(String),
    /// A hybrid upstream, named here, refers to a missing tag or, directly or
    /// through other hybrids, to itself.
    BadHybrid(String),
}

impl ConfigError {
    /// The tag that the error is about.
    pub fn tag(&self) -> (r: &String)
        ensures
            r == match self {
                ConfigError::MissingTag(t) => t,
                ConfigError::BadHybrid(t) => t,
            },
    {
        match self {
            ConfigError::MissingTag(t) => t,
            ConfigError::BadHybrid(t) => t,
        }
    }

    /// Whether the error is about a tag that no upstream has.
    pub fn is_missing_tag(&self) -> (r: bool)
        ensures
            r == (self is MissingTag),
    {
        match self {
            ConfigError::MissingTag(_) => true,
            ConfigError::BadHybrid(_) => false,
        }
    }
}

/// Why a query could not be answered by an upstream.
#[derive(Debug, Clone)]
pub enum UpstreamError {
    /// No upstream has this tag.
    UnknownTag(String),
    /// The upstream of this tag timed out or its transport failed.
    Failed(String),
    /// Every upstream of this hybrid tag failed.
    AllFailed(String),
}

} // verus!
