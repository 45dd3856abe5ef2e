//! Backend selection: the configuration signal chooses the Remote backend
//! only when it equals the sentinel value; anything else, or no signal at
//! all, falls open to the Local backend.
use vstd::prelude::*;

verus! {

/// Which storage backend to connect to.
#[derive(PartialEq, Eq, Structural, Clone, Copy, Debug)]
pub enum BackendKind {
    Local,
    Remote,
}

/// The configuration signal selects Remote exactly when it is present and
/// equals the sentinel `"Remote"`.
pub open spec fn spec_resolve(value: Option<Seq<char>>) -> BackendKind {
    match value {
        Option::Some(v) => if v == "Remote"@ {
            BackendKind::Remote
        } else {
            BackendKind::Local
        },
        Option::None => BackendKind::Local,
    }
}

/// Resolve the backend from the configuration signal's value, if any.
pub fn resolve_backend(value: Option<&String>) -> (r: BackendKind)
    ensures
        r == spec_resolve(match value {
            Option::Some(v) => Option::Some(v@),
            Option::None => Option::None,
        }),
{
    match value {
        Option::Some(v) => {
            let sentinel: String = "Remote".to_owned();
            if *v == sentinel {
                BackendKind::Remote
            } else {
                BackendKind::Local
            }
        },
        Option::None => BackendKind::Local,
    }
}

/// How many table names the bounded listing call asks for, both in the
/// startup diagnostic and in the per-write existence check.
pub const LISTING_LIMIT: i32 = 10;

/// Only the Remote backend gets a connectivity check at startup; the Local
/// engine variant does not support the lightweight listing call.
pub fn needs_connection_check(kind: BackendKind) -> (r: bool)
    ensures
        r == (kind is Remote),
{
    match kind {
        BackendKind::Local => false,
        BackendKind::Remote => true,
    }
}

/// The target table's name is required: startup must fail before serving
/// any traffic when its environment signal is absent.
pub fn require_table_name(value: Option<String>) -> (r: Result<String, ()>)
    ensures
        match value {
            Option::Some(v) => r == Result::<String, ()>::Ok(v),
            Option::None => r is Err,
        },
{
    match value {
        Option::Some(v) => Result::Ok(v),
        Option::None => Result::Err(()),
    }
}

/// How to bootstrap the connection for a backend: Local uses a fixed
/// endpoint with placeholder credentials, Remote uses ambient credentials
/// and region resolution from the environment.
pub struct ConnectionPlan {
    /// The fixed endpoint to aim at, or `None` to use ambient resolution.
    pub endpoint: Option<String>,
    /// Whether to install non-functional placeholder credentials.
    pub test_credentials: bool,
}

/// The bootstrap plan for each backend variant.
pub fn connection_plan(kind: BackendKind) -> (r: ConnectionPlan)
    ensures
        kind is Local ==> {
            &&& r.endpoint matches Option::Some(e) && e@ == "http://dynamodb:8000"@
            &&& r.test_credentials
        },
        kind is Remote ==> r.endpoint is None && !r.test_credentials,
{
    match kind {
        BackendKind::Local => ConnectionPlan {
            endpoint: Option::Some("http://dynamodb:8000".to_owned()),
            test_credentials: true,
        },
        BackendKind::Remote => ConnectionPlan { endpoint: Option::None, test_credentials: false },
    }
}

} // verus!
