use vstd::prelude::*;

verus! {

/// Faults surfaced by the library's own logic.
///
/// Configuration faults (bad target fields, an unknown pacing key) are
/// reported before or during setup; `UnsupportedAuthType` surfaces at check
/// time, when the authentication scheme is first attached to a request.
#[derive(Clone, Copy, Debug, PartialEq, Eq, Structural)]
pub enum Error {
    /// A configured success code lies outside the valid status range.
    InvalidStatusCode,
    /// The configured method is not an HTTP token.
    InvalidMethod,
    /// A configured header name holds a byte that header names refuse.
    InvalidHeaderName,
    /// A configured header value holds a control byte.
    InvalidHeaderValue,
    /// The authentication mode is neither `form` nor `basic`.
    UnsupportedAuthType,
    /// A pacing step kind is neither `requests` nor `sleep`.
    UnsupportedStrategyKey,
    /// A `requests` pacing step was given a batch size of zero.
    EmptyBatch,
    /// The total workload does not fit in a machine word.
    WorkloadOverflow,
}

} // verus!
