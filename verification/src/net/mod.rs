pub mod backoff;
pub mod bridge;
pub mod framing;
pub mod negotiate;
pub mod secure;
pub mod signal;
