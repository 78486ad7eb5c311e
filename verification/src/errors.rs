//! The error taxonomy of the crate.
//!
//! Every operation returns success or one of these typed failures; nothing is
//! retried or recovered internally.

use vstd::prelude::*;

verus! {

/// A typed failure of a bonnibel operation.
#[derive(Debug, PartialEq, Eq)]
pub enum Error {
    /// The configuration file could not be opened or parsed.
    ConfigError(String),
    /// A module names a dependency that is not a key of the module mapping.
    NoSuchModule(String),
    /// The `depends` graph contains a cycle among the modules reachable from
    /// the seed set of a resolution.
    DependencyCycle,
    /// Neither the specific nor the default template file exists for the
    /// named entity.
    MissingTemplate(String),
    /// The template engine failed; the payload is its full nested cause chain
    /// flattened into one message.
    TemplateRendering(String),
    /// A file could not be created or written.
    IOError(String),
    /// The version oracle failed on the source root.
    VersionError(String),
    /// A `name=value` entry holds no `=` separator.
    InvalidVariable(String),
    /// The persisted variable state file is missing or malformed.
    VariableError(String),
    /// A download failed with a non-2xx status or a transport error.
    NetworkError(String),
    /// An overlay URL is unparsable or has no path segments.
    URLError(String),
    /// The external archive-extraction tool failed.
    ExtractionError(String),
}

impl Error {
    /// A human-readable description of the failure.
    pub fn message(&self) -> (r: String)
        ensures
            (match self {
                Error::ConfigError(s) => r@ == "reading project configuration: "@ + s@,
                Error::NoSuchModule(s) => r@ == "no module named "@ + s@,
                Error::DependencyCycle => r@ == "dependency cycle between modules"@,
                Error::MissingTemplate(s) => r@ == "missing template for "@ + s@,
                Error::TemplateRendering(s) => r@ == "rendering templates: "@ + s@,
                Error::IOError(s) => r@ == "writing build files: "@ + s@,
                Error::VersionError(s) => r@ == "getting current version: "@ + s@,
                Error::InvalidVariable(s) => r@ == "variable does not parse: "@ + s@,
                Error::VariableError(s) => r@ == "reading state file: "@ + s@,
                Error::NetworkError(s) => r@ == "downloading overlay: "@ + s@,
                Error::URLError(s) => r@ == "parsing overlay url: "@ + s@,
                Error::ExtractionError(s) => r@ == "extracting overlay: "@ + s@,
            }),
    {
        match self {
            Error::ConfigError(s) => join_msg("reading project configuration: ", s),
            Error::NoSuchModule(s) => join_msg("no module named ", s),
            Error::DependencyCycle => "dependency cycle between modules".to_owned(),
            Error::MissingTemplate(s) => join_msg("missing template for ", s),
            Error::TemplateRendering(s) => join_msg("rendering templates: ", s),
            Error::IOError(s) => join_msg("writing build files: ", s),
            Error::VersionError(s) => join_msg("getting current version: ", s),
            Error::InvalidVariable(s) => join_msg("variable does not parse: ", s),
            Error::VariableError(s) => join_msg("reading state file: ", s),
            Error::NetworkError(s) => join_msg("downloading overlay: ", s),
            Error::URLError(s) => join_msg("parsing overlay url: ", s),
            Error::ExtractionError(s) => join_msg("extracting overlay: ", s),
        }
    }
}

fn join_msg(prefix: &str, detail: &String) -> (r: String)
    ensures
        r@ == prefix@ + detail@,
{
    let mut s = prefix.to_owned();
    s.append(detail.as_str());
    s
}

} // verus!
