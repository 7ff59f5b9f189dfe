//! OAuth access tokens of the cloud providers: a token is reused while it stays valid for a
//! while more, and obtained again with the refresh token otherwise. The program makes the
//! token requests and reads the clock.

use vstd::prelude::*;

verus! {

/// How long, in seconds, a token must stay valid to be reused.
pub open spec fn min_expire_time() -> nat {
    60
}

/// An access token and when it expires (in seconds of a monotonic clock).
pub struct AccessToken {
    pub token: String,
    pub expire_time: u64,
}

/// The access token obtained last, if any.
pub struct TokenCache {
    pub token: Option<AccessToken>,
}

/// The token that a cache gives at a time: the cached one if it stays valid for the minimal
/// time; else none, and a new one must be obtained.
pub open spec fn token_at(cache: Option<(Seq<char>, u64)>, now: u64) -> Option<Seq<char>> {
    match cache {
        Some((token, expire_time)) => if now + min_expire_time() <= expire_time { Some(token) } else { None },
        None => None,
    }
}

/// The cache as values: the token and its expiry time.
pub open spec fn cache_view(c: TokenCache) -> Option<(Seq<char>, u64)> {
    match c.token {
        Some(t) => Some((t.token@, t.expire_time)),
        None => None,
    }
}

/// When a token obtained by a request made at `request_time` expires: `expires_in` seconds
/// later (at the end of the clock, if that does not fit).
pub open spec fn expire_time_spec(request_time: u64, expires_in: u64) -> u64 {
    if request_time + expires_in <= u64::MAX { (request_time + expires_in) as u64 } else { u64::MAX }
}

impl TokenCache {
    /// A cache without a token.
    pub fn new() -> (r: TokenCache)
        ensures
            cache_view(r) is None,
    {
        TokenCache { token: None }
    }

    /// The cached token, if it stays valid for the minimal time from `now` (see `token_at`).
    pub fn valid_token(&self, now: u64) -> (r: Option<String>)
        ensures
            match token_at(cache_view(*self), now) {
                Some(t) => r matches Some(s) && s@ == t,
                None => r is None,
            },
    {
        match &self.token {
            Some(t) => {
                if now <= u64::MAX - 60 && now + 60 <= t.expire_time {
                    Some(String::from_str(t.token.as_str()))
                } else {
                    None
                }
            },
            None => None,
        }
    }

    /// Keeps a token obtained by a request made at `request_time`, valid for `expires_in`
    /// seconds.
    pub fn store(&mut self, token: &str, request_time: u64, expires_in: u64)
        ensures
            cache_view(*final(self)) == Some((token@, expire_time_spec(request_time, expires_in))),
    {
        let expire_time = request_time.saturating_add(expires_in);
        self.token = Some(AccessToken { token: String::from_str(token), expire_time });
    }
}

/// A token obtained at some time is reused for every request made while it stays valid for
/// the minimal time.
pub proof fn lemma_stored_token_is_reused(token: Seq<char>, request_time: u64, expires_in: u64, now: u64)
    requires
        request_time + expires_in <= u64::MAX,
        now + min_expire_time() <= request_time + expires_in,
    ensures
        token_at(Some((token, expire_time_spec(request_time, expires_in))), now) == Some(token),
{
}

/// The value of the header that authenticates a request with a token.
pub fn bearer(token: &str) -> (r: String)
    ensures
        r@ == "Bearer "@ + token@,
{
    let mut r = String::from_str("Bearer ");
    r.append(token);
    r
}

/// The message of a token that could not be obtained.
pub fn token_error(cause: &str) -> (r: String)
    ensures
        r@ == "Unable obtain OAuth token: "@ + cause@,
{
    let mut r = String::from_str("Unable obtain OAuth token: ");
    r.append(cause);
    r
}

/// The error that an OAuth server replied.
pub struct OauthApiError {
    pub error_description: String,
}

impl OauthApiError {
    /// The message of the error.
    pub fn to_string(&self) -> (r: String)
        ensures
            r@ == "OAuth error: "@ + self.error_description@,
    {
        let mut r = String::from_str("OAuth error: ");
        r.append(self.error_description.as_str());
        r
    }
}

} // verus!
