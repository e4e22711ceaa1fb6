use vstd::prelude::*;

verus! {

/// Highest status code that reports success (the successful-ok range).
pub const SUCCESS_MAX: u16 = 0x00FF;

/// A response status reports success exactly when it lies in `0x0000..=0x00FF`.
pub open spec fn status_is_success(code: u16) -> bool {
    code <= SUCCESS_MAX
}

/// Whether a response status code reports success.
pub fn is_success(code: u16) -> (r: bool)
    ensures
        r == status_is_success(code),
        r <==> 0x0000 <= code <= 0x00FF,
{
    code <= SUCCESS_MAX
}

} // verus!
