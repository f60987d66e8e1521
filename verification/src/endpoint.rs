//! Where the remote service is.
use tonic::transport::Endpoint;
use vstd::prelude::*;

use crate::config::RemoteBuildConfig;
use crate::error::{Error, ErrorView};
use crate::text::{plus, texts};

verus! {

/// What is wrong with a text that should say where a service is, where something is.
pub uninterp spec fn endpoint_fault(endpoint: Seq<char>) -> Option<Seq<char>>;

/// `Endpoint::from_shared`, by which `Endpoint::new` takes a text, reads where a service is, or
/// fails. The text of the failure is always the same; what is wrong is told by the error behind it,
/// the only one there is, and left to the name.
#[verifier::external_body]
fn parse_endpoint(endpoint: &str) -> (r: Result<(), (String, String)>)
    ensures
        match (r, endpoint_fault(endpoint@)) {
            (Ok(_), None) => true,
            (Err((text, fault)), Some(f)) => text@ == "invalid URI"@ && fault@ == f,
            _ => false,
        },
{
    match Endpoint::from_shared(endpoint.to_owned()) {
        Ok(_) => Ok(()),
        Err(e) => {
            let behind = std::error::Error::source(&e).map(|s| s.to_string());
            Err((e.to_string(), behind.unwrap_or_default()))
        },
    }
}

/// The settings do not say where the service is.
pub open spec fn invalid_endpoint(text: Seq<char>, fault: Seq<char>) -> ErrorView {
    ErrorView { message: "invalid `build.rbe.endpoint`"@, causes: seq![text, fault] }
}

/// What follows from the reading of the settings.
pub fn endpoint_verdict(parsed: Result<(), (String, String)>) -> (r: Result<(), Error>)
    ensures
        match (r, parsed) {
            (Ok(_), Ok(_)) => true,
            (Err(e), Err((text, fault))) => e@ == invalid_endpoint(text@, fault@),
            _ => false,
        },
{
    match parsed {
        Ok(_) => Ok(()),
        Err((text, fault)) => {
            let mut causes: Vec<String> = Vec::new();
            causes.push(text);
            causes.push(fault);
            let e = Error { message: "invalid `build.rbe.endpoint`".to_owned(), causes };
            assert(e@ =~= invalid_endpoint(text@, fault@));
            Err(e)
        },
    }
}

/// Whether the settings say where the service is.
pub fn check_endpoint(config: &RemoteBuildConfig) -> (r: Result<(), Error>)
    ensures
        match (r, endpoint_fault(config@.endpoint)) {
            (Ok(_), None) => true,
            (Err(e), Some(fault)) => e@ == invalid_endpoint("invalid URI"@, fault),
            _ => false,
        },
{
    endpoint_verdict(parse_endpoint(config.endpoint.as_str()))
}

/// The service could not be reached.
pub fn connect_failure(config: &RemoteBuildConfig, causes: Vec<String>) -> (e: Error)
    ensures
        e@ == (ErrorView {
            message: "failed to connect to "@ + config@.endpoint,
            causes: texts(causes@),
        }),
{
    Error { message: plus("failed to connect to ", config.endpoint.as_str()), causes }
}

} // verus!
