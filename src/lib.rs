//! A rule-based DNS query router: domain-suffix matchers pick, for each
//! query, the upstream resolver that should answer it.

pub mod dns;
pub mod error;
pub mod filter;
pub mod matcher;
pub mod router;
pub mod text;
pub mod upstream;
