//! Answers of the health check endpoint used by Kubernetes probes:
//! `/healthz` for liveness and `/readyz` for readiness.

use vstd::prelude::*;

verus! {

/// An HTTP status code and a plain-text body.
#[derive(Debug, Clone, PartialEq, Eq)]
pub struct HealthResponse {
    pub status: u16,
    pub body: String,
}

/// The answer to a probe of `path`, given whether the controller is ready.
pub fn handle_request(path: &str, ready: bool) -> (r: HealthResponse)
    ensures
        path@ == "/healthz"@ ==> r.status == 200 && r.body@ == "ok"@,
        path@ == "/readyz"@ && ready ==> r.status == 200 && r.body@ == "ready"@,
        path@ == "/readyz"@ && !ready ==> r.status == 503 && r.body@ == "not ready"@,
        path@ != "/healthz"@ && path@ != "/readyz"@ ==> r.status == 404 && r.body@
            == "not found"@,
{
    proof {
        reveal_strlit("/healthz");
        reveal_strlit("/readyz");
        assert("/healthz"@[1] != "/readyz"@[1]);
    }
    let path = path.to_owned();
    if path == "/healthz".to_owned() {
        HealthResponse { status: 200, body: "ok".to_owned() }
    } else if path == "/readyz".to_owned() {
        if ready {
            HealthResponse { status: 200, body: "ready".to_owned() }
        } else {
            HealthResponse { status: 503, body: "not ready".to_owned() }
        }
    } else {
        HealthResponse { status: 404, body: "not found".to_owned() }
    }
}

} // verus!
