//! Choosing the access point to connect to, from the list that the resolver answers.
use vstd::prelude::*;

verus! {

/// What the resolver answers: the access points, best first.
#[derive(Clone, Debug)]
pub struct APResolveData {
    pub ap_list: Vec<String>,
}

/// Why no access point came from the resolver.
#[derive(Clone, Copy, Debug, PartialEq, Eq)]
pub enum APResolveError {
    /// The request failed.
    Http,
    /// The answer was not UTF-8.
    NotUtf8,
    /// The answer was not the expected JSON.
    InvalidJson,
    /// The answer listed no access point.
    EmptyList,
}

impl APResolveError {
    /// The message that describes the error.
    pub fn description(&self) -> (r: &'static str)
        ensures
            r@ == match self {
                APResolveError::Http => "HTTP error"@,
                APResolveError::NotUtf8 => "invalid UTF8 in response"@,
                APResolveError::InvalidJson => "invalid JSON"@,
                APResolveError::EmptyList => "empty AP List"@,
            },
    {
        match self {
            APResolveError::Http => "HTTP error",
            APResolveError::NotUtf8 => "invalid UTF8 in response",
            APResolveError::InvalidJson => "invalid JSON",
            APResolveError::EmptyList => "empty AP List",
        }
    }
}

/// The access point to use when the resolver gives none.
pub open spec fn ap_fallback_spec() -> Seq<char> {
    "ap.spotify.com:80"@
}

/// The access point to use when the resolver gives none: `ap.spotify.com:80`.
pub fn ap_fallback() -> (r: String)
    ensures
        r@ == ap_fallback_spec(),
{
    "ap.spotify.com:80".to_owned()
}

/// The first access point that the resolver listed.
pub fn first_ap(data: &APResolveData) -> (r: Result<String, APResolveError>)
    ensures
        data.ap_list@.len() == 0 ==> r == Err::<String, APResolveError>(APResolveError::EmptyList),
        data.ap_list@.len() > 0 ==> (r matches Ok(s) && s@ == data.ap_list@[0]@),
{
    if data.ap_list.len() == 0 {
        Err(APResolveError::EmptyList)
    } else {
        Ok(data.ap_list[0].clone())
    }
}

/// The access point that the resolver gave, or the fallback where it gave none.
pub fn ap_or_fallback(resolved: Result<String, APResolveError>) -> (r: String)
    ensures
        match resolved {
            Ok(s) => r@ == s@,
            Err(_) => r@ == ap_fallback_spec(),
        },
{
    match resolved {
        Ok(s) => s,
        Err(_) => ap_fallback(),
    }
}

} // verus!
