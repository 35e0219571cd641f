//! The addresses and credentials of requests to the Zhipu API.
use vstd::prelude::*;
use crate::config::API_BASE_URL;

verus! {

/// The model list address: `<base>/models`.
pub fn models_url() -> (r: String)
    ensures
        r@ == API_BASE_URL@ + "/models"@,
{
    let mut r = API_BASE_URL.to_owned();
    r.append("/models");
    r
}

/// The chat completion address: `<base>/chat/completions`.
pub fn chat_completions_url() -> (r: String)
    ensures
        r@ == API_BASE_URL@ + "/chat/completions"@,
{
    let mut r = API_BASE_URL.to_owned();
    r.append("/chat/completions");
    r
}

/// The `Authorization` header value for an API key: `Bearer <key>`.
pub fn bearer_token(api_key: &str) -> (r: String)
    ensures
        r@ == "Bearer "@ + api_key@,
{
    let mut r = "Bearer ".to_owned();
    r.append(api_key);
    r
}

} // verus!
