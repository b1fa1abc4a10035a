//! The claims of an access token.
use vstd::prelude::*;

verus! {

/// How long a token is valid: 24 hours, in seconds.
pub const TOKEN_LIFETIME_SECS: i64 = 86400i64;

/// The claims of an access token: the user it is for and when it expires.
pub struct Claim {
    /// The user identifier.
    pub sub: String,
    /// Expiry, in seconds since the Unix epoch.
    pub exp: usize,
}

impl Claim {
    /// The claims of a token issued to `userid` at `now_secs` (seconds since
    /// the Unix epoch): it expires 24 hours later.
    pub fn for_user(userid: &str, now_secs: i64) -> (r: Claim)
        requires
            now_secs <= i64::MAX - TOKEN_LIFETIME_SECS,
        ensures
            r.sub@ == userid@,
            r.exp == (now_secs + TOKEN_LIFETIME_SECS) as usize,
    {
        let exp = (now_secs + TOKEN_LIFETIME_SECS) as usize;
        Claim { sub: userid.to_owned(), exp }
    }
}

} // verus!
