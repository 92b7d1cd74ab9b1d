//! Fields that trailers often hold.
use vstd::prelude::*;

verus! {

pub const CONTENT_MD5: &'static str = "Content-MD5";

pub const X_CONTENT_SHA256: &'static str = "X-Content-SHA256";

pub const X_CONTENT_SHA512: &'static str = "X-Content-SHA512";

pub const DIGEST: &'static str = "Digest";

pub const X_TRAILER_STATUS: &'static str = "X-Trailer-Status";

pub const X_PROCESSING_TIME: &'static str = "X-Processing-Time";

pub const SERVER_TIMING: &'static str = "Server-Timing";

}
