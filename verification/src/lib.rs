//! Incremental construction of `application/x-www-form-urlencoded` query
//! strings: a mutable accumulator that absorbs key/value pairs, key-only
//! entries, and whole serializable values, and finally yields the encoded
//! string or writes it into a URL's query component.

pub mod encoding;
pub mod query;

pub use encoding::Entry;
pub use query::TryExtendError;
pub use query::Unserialized;
pub use query::UrlEncodedQuery;
