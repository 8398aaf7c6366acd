//! The uniform success/data/error wrapper returned by every operation.

use vstd::prelude::*;

verus! {

/// The envelope every endpoint answers with: exactly one of `data` and
/// `error` is present, according to `success`.
pub struct ApiResponse<T> {
    pub success: bool,
    pub data: Option<T>,
    pub error: Option<String>,
}

impl<T> ApiResponse<T> {
    /// The envelope invariant: `success` decides which of the two payload
    /// fields is present.
    pub open spec fn wf(self) -> bool {
        &&& self.success <==> self.data is Some
        &&& !self.success <==> self.error is Some
    }

    /// A successful envelope carrying `data`.
    pub fn ok(data: T) -> (r: ApiResponse<T>)
        ensures
            r.wf(),
            r.success,
            r.data == Some(data),
    {
        ApiResponse { success: true, data: Some(data), error: None }
    }

    /// A failed envelope carrying a human-readable `error` string.
    pub fn err(error: String) -> (r: ApiResponse<T>)
        ensures
            r.wf(),
            !r.success,
            r.error matches Some(e) && e@ == error@,
            r.data is None,
    {
        ApiResponse { success: false, data: None, error: Some(error) }
    }
}

} // verus!
