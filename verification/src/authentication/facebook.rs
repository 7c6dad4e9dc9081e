//! Logging in through Facebook: the local server that receives the access token after the
//! user logged in in a browser, and the credentials made of it.
use vstd::prelude::*;
use vstd::slice::slice_to_vec;
use vstd::utf8::encode_utf8;
use crate::authentication::discovery::Method;
use crate::authentication::Credentials;
use crate::protocol::authentication::AuthenticationType;

verus! {

/// The status of the answer to a request of the browser.
#[derive(Clone, Copy, Debug, PartialEq, Eq)]
pub enum Status {
    Accepted,
    Forbidden,
    NotFound,
}

/// The server's side of the exchange: the secret that the browser must send back with the
/// token.
pub struct LoginServer {
    pub csrf: String,
}

/// The path of the request that carries the token.
pub open spec fn is_login_path(path: Seq<Seq<char>>) -> bool {
    path.len() == 2 && path[0] == "login"@ && path[1] == "facebook_login_sso.json"@
}

/// Whether `path` is the path of the request that carries the token.
pub fn login_path(path: &[String]) -> (r: bool)
    ensures
        r == is_login_path(path@.map_values(|s: String| s@)),
{
    if path.len() != 2 {
        return false;
    }
    let first = path[0].clone() == "login".to_owned();
    let second = path[1].clone() == "facebook_login_sso.json".to_owned();
    first && second
}

impl LoginServer {
    /// The answer to a token that came with the secret `csrf`, and the token to hand on when
    /// the secret is the server's.
    pub fn handle_login(&self, access_token: &str, csrf: &str) -> (r: (Status, Option<String>))
        ensures
            if csrf@ == self.csrf@ {
                r.0 == Status::Accepted && (r.1 matches Some(t) && t@ == access_token@)
            } else {
                r.0 == Status::Forbidden && r.1 is None
            },
    {
        if csrf.to_owned() == self.csrf.clone() {
            (Status::Accepted, Some(access_token.to_owned()))
        } else {
            (Status::Forbidden, None)
        }
    }

    /// The answer to a request of method `method` on `path` with the parameters `access_token`
    /// and `csrf`. The request that carries the token must carry both parameters.
    pub fn handle(&self, method: Method, path: &[String], access_token: Option<&str>, csrf: Option<&str>) -> (r: (Status, Option<String>))
        requires
            method == Method::Get && is_login_path(path@.map_values(|s: String| s@)) ==> access_token is Some
                && csrf is Some,
        ensures
            if method == Method::Get && is_login_path(path@.map_values(|s: String| s@)) {
                if csrf.unwrap()@ == self.csrf@ {
                    r.0 == Status::Accepted && (r.1 matches Some(t) && t@ == access_token.unwrap()@)
                } else {
                    r.0 == Status::Forbidden && r.1 is None
                }
            } else {
                r.0 == Status::NotFound && r.1 is None
            },
    {
        let is_get = match method {
            Method::Get => true,
            _ => false,
        };
        if is_get && login_path(path) {
            match (access_token, csrf) {
                (Some(t), Some(c)) => self.handle_login(t, c),
                _ => (Status::NotFound, None),
            }
        } else {
            (Status::NotFound, None)
        }
    }
}

/// The credentials of a Facebook user: the user's id and the access token.
pub fn facebook_credentials(user_id: String, token: &str) -> (r: Credentials)
    ensures
        r.username@ == user_id@,
        r.auth_type == AuthenticationType::AUTHENTICATION_FACEBOOK_TOKEN,
        r.auth_data@ == encode_utf8(token@),
{
    Credentials {
        username: user_id,
        auth_type: AuthenticationType::AUTHENTICATION_FACEBOOK_TOKEN,
        auth_data: slice_to_vec(token.as_bytes()),
    }
}

} // verus!
