//! What the HTTP client is configured with and what each request carries.
use vstd::prelude::*;

use crate::settings::{token_choice, Settings};
use crate::text::{chars_of, push_all, string_of};

verus! {

/// The proxy the client goes through: none unless enabled, and an enabled
/// proxy must have an address.
pub fn proxy_setting(settings: &Settings) -> (r: Result<Option<String>, String>)
    ensures
        match r {
            Ok(Some(p)) => settings.use_proxy && settings.proxy@.len() > 0 && p@ == settings.proxy@,
            Ok(None) => !settings.use_proxy,
            Err(e) => settings.use_proxy && settings.proxy@.len() == 0
                && e@ == "proxy enabled but proxy address is empty"@,
        },
{
    if !settings.use_proxy {
        return Ok(None);
    }
    if settings.proxy.as_str().is_empty() {
        return Err(string_of(&chars_of("proxy enabled but proxy address is empty")));
    }
    Ok(Some(settings.proxy.clone()))
}

/// Idle connections kept per host: one per worker, at least one.
pub fn pool_size(settings: &Settings) -> (n: usize)
    ensures
        n == (if settings.threads == 0 {
            1
        } else {
            settings.threads as usize
        }),
{
    if settings.threads == 0 {
        1
    } else {
        settings.threads as usize
    }
}

/// The credentials a request carries.
pub struct AuthHeaders {
    /// The `Authorization` value, `Bearer <token>`.
    pub authorization: Option<String>,
    /// The `Cookie` value.
    pub cookie: Option<String>,
}

/// `Authorization: Bearer <token>` when a token is configured (the Hugging
/// Face token first), and the cookie when it is not empty.
pub fn auth_headers(settings: &Settings) -> (r: AuthHeaders)
    ensures
        match token_choice(settings@) {
            Some(t) => r.authorization matches Some(a) && a@ == "Bearer "@ + t,
            None => r.authorization is None,
        },
        match r.cookie {
            Some(c) => settings.cookie@.len() > 0 && c@ == settings.cookie@,
            None => settings.cookie@.len() == 0,
        },
{
    let authorization = match settings.effective_token() {
        Some(t) => {
            let mut v = chars_of("Bearer ");
            let tv = chars_of(t);
            push_all(&mut v, &tv);
            Some(string_of(&v))
        },
        None => None,
    };
    let cookie = if settings.cookie.as_str().is_empty() {
        None
    } else {
        Some(settings.cookie.clone())
    };
    AuthHeaders { authorization, cookie }
}

} // verus!
