//! The decoded answer of the endpoint to one submission.

use vstd::prelude::*;
use vstd::std_specs::cmp::PartialEqSpecImpl;

verus! {

/// The decoded answer to one submission.
#[derive(Clone, Debug)]
pub struct HttpApiResp {
    /// Zero where the submission was accepted; any other value rejects it.
    pub code: i64,
    /// What the endpoint says of its answer.
    pub message: String,
    /// The time to live that the endpoint gives.
    pub ttl: i64,
}

impl HttpApiResp {
    /// Whether the endpoint accepted the submission: its code is zero.
    pub open spec fn accepted(&self) -> bool {
        self.code == 0
    }

    /// Whether the endpoint accepted the submission.
    pub fn is_accepted(&self) -> (accepted: bool)
        ensures
            accepted == self.accepted(),
    {
        self.code == 0
    }
}

impl Default for HttpApiResp {
    fn default() -> (resp: HttpApiResp)
        ensures
            resp.code == 0,
            resp.message@ == Seq::<char>::empty(),
            resp.ttl == 0,
    {
        HttpApiResp { code: 0, message: String::new(), ttl: 0 }
    }
}

impl PartialEq for HttpApiResp {
    fn eq(&self, other: &HttpApiResp) -> (same: bool) {
        self.code == other.code && self.message == other.message && self.ttl == other.ttl
    }
}

impl PartialEqSpecImpl for HttpApiResp {
    open spec fn obeys_eq_spec() -> bool {
        true
    }

    open spec fn eq_spec(&self, other: &HttpApiResp) -> bool {
        self.code == other.code && self.message@ == other.message@ && self.ttl == other.ttl
    }
}

} // verus!
