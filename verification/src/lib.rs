//! A URL route matcher: route templates with static, `:parameter` and `*`
//! wildcard segments are registered in a trie of path segments, and request
//! URLs are matched against them, binding path parameters and parsing the
//! query string into key/value pairs.

pub mod laws;
pub mod matcher;
pub mod params;
pub mod segment;
pub mod strutil;
pub mod trie;

pub use matcher::MatchedRoute;
pub use matcher::RouteMatcher;
pub use params::StringMap;
