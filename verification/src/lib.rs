//! A declarative HTTP client and test runner: the verified core.

pub mod text;
pub mod suite;
pub mod numbers;
pub mod preproc;
pub mod json;
pub mod check;
pub mod request;
pub mod response;
pub mod report;
pub mod outside;
pub mod error;
pub mod hurler;
pub mod outline;
pub mod laws;
pub mod roundtrip;
pub mod semantics;
pub mod json_body;
