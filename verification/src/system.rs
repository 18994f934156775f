//! What the service says of itself at its root.

use vstd::prelude::*;
use vstd::string::*;

verus! {

/// The version of the running service.
#[derive(Debug)]
pub struct AppVersion {
    pub semver: String,
    pub rev: Option<String>,
    pub compile_time: String,
}

/// The answer at the root of the service.
#[derive(Debug)]
pub struct RootResponse {
    /// Relative URL of the interactive documentation.
    pub docs_url: String,
    /// Relative URL of the OpenAPI specification.
    pub openapi_url: String,
    /// Version of the service.
    pub version: AppVersion,
}

/// The answer at the root: where the documentation and the OpenAPI
/// specification are, and the version that was handed in.
pub fn root(version: AppVersion) -> (r: RootResponse)
    ensures
        r.docs_url@ == "/docs"@,
        r.openapi_url@ == "/openapi.json"@,
        r.version == version,
{
    RootResponse {
        docs_url: String::from_str("/docs"),
        openapi_url: String::from_str("/openapi.json"),
        version,
    }
}

} // verus!
