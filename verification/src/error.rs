//! The errors of the client.

use vstd::prelude::*;

verus! {

/// What can go wrong in a request or a run.
#[derive(Debug)]
pub enum WurlError {
    /// A GET to the URL failed.
    Get(String, reqwest::Error),
    Post(String, reqwest::Error),
    Put(String, reqwest::Error),
    Patch(String, reqwest::Error),
    Delete(String, reqwest::Error),
    /// The response body could not be read.
    Json(reqwest::Error),
    /// A query argument is not `key=value`.
    Query(String),
    /// A header is not `key:value`.
    Header(String),
    /// That many tests of a run failed.
    TestsFailed(usize),
    /// The request to the URL failed.
    Http(String, reqwest::Error),
    /// The body of a response could not be read.
    ReadBody(reqwest::Error),
}

} // verus!
