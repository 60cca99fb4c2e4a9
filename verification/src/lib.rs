//! Verified core of a batch proxy liveness scanner.
//!
//! Given a list of `ip,port,country,org` candidates, the scanner tunnels an
//! HTTPS request through each candidate to a fixed metadata endpoint and
//! accepts the candidate only when the endpoint reports a client IP that
//! differs from the caller's own. This crate holds the verified logic:
//! candidate-line parsing, cookie-session handling, HTTP request text
//! construction, response splitting, JSON field extraction, the liveness
//! decision, deduplication by `(ip, port)`, the two output orderings, and
//! the country-distribution summary. The binary around the library performs
//! the network and file I/O and hands plain values in and out.

pub mod candidate;
pub mod cookies;
pub mod http;
pub mod json;
pub mod numbers;
pub mod probe;
pub mod results;
pub mod sanitize;
pub mod text;
