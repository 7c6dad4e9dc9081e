//! The kinds of credentials that a client presents when it logs in.
use vstd::prelude::*;

verus! {

/// The values of the `AuthenticationType` enumeration.
#[allow(non_camel_case_types)]
#[derive(Clone, Copy, Debug, PartialEq, Eq, Hash)]
pub enum AuthenticationType {
    AUTHENTICATION_USER_PASS,
    AUTHENTICATION_STORED_SPOTIFY_CREDENTIALS,
    AUTHENTICATION_STORED_FACEBOOK_CREDENTIALS,
    AUTHENTICATION_SPOTIFY_TOKEN,
    AUTHENTICATION_FACEBOOK_TOKEN,
}

impl AuthenticationType {
    /// The number that stands for each value on the wire.
    pub open spec fn spec_value(self) -> i32 {
        match self {
            AuthenticationType::AUTHENTICATION_USER_PASS => 0i32,
            AuthenticationType::AUTHENTICATION_STORED_SPOTIFY_CREDENTIALS => 1i32,
            AuthenticationType::AUTHENTICATION_STORED_FACEBOOK_CREDENTIALS => 2i32,
            AuthenticationType::AUTHENTICATION_SPOTIFY_TOKEN => 3i32,
            AuthenticationType::AUTHENTICATION_FACEBOOK_TOKEN => 4i32,
        }
    }

    /// The value that a number stands for, if any.
    pub open spec fn spec_from_i32(v: i32) -> Option<AuthenticationType> {
        if v == 0i32 {
            Some(AuthenticationType::AUTHENTICATION_USER_PASS)
        } else if v == 1i32 {
            Some(AuthenticationType::AUTHENTICATION_STORED_SPOTIFY_CREDENTIALS)
        } else if v == 2i32 {
            Some(AuthenticationType::AUTHENTICATION_STORED_FACEBOOK_CREDENTIALS)
        } else if v == 3i32 {
            Some(AuthenticationType::AUTHENTICATION_SPOTIFY_TOKEN)
        } else if v == 4i32 {
            Some(AuthenticationType::AUTHENTICATION_FACEBOOK_TOKEN)
        } else {
            None
        }
    }

    /// The number that stands for this value on the wire.
    pub fn value(&self) -> (r: i32)
        ensures
            r == self.spec_value(),
    {
        match self {
            AuthenticationType::AUTHENTICATION_USER_PASS => 0,
            AuthenticationType::AUTHENTICATION_STORED_SPOTIFY_CREDENTIALS => 1,
            AuthenticationType::AUTHENTICATION_STORED_FACEBOOK_CREDENTIALS => 2,
            AuthenticationType::AUTHENTICATION_SPOTIFY_TOKEN => 3,
            AuthenticationType::AUTHENTICATION_FACEBOOK_TOKEN => 4,
        }
    }

    /// The value that `v` stands for, or `None` for a number of no value.
    pub fn from_i32(v: i32) -> (r: Option<AuthenticationType>)
        ensures
            r == AuthenticationType::spec_from_i32(v),
    {
        match v {
            0 => Some(AuthenticationType::AUTHENTICATION_USER_PASS),
            1 => Some(AuthenticationType::AUTHENTICATION_STORED_SPOTIFY_CREDENTIALS),
            2 => Some(AuthenticationType::AUTHENTICATION_STORED_FACEBOOK_CREDENTIALS),
            3 => Some(AuthenticationType::AUTHENTICATION_SPOTIFY_TOKEN),
            4 => Some(AuthenticationType::AUTHENTICATION_FACEBOOK_TOKEN),
            _ => None,
        }
    }

    /// All values, in the order of their declaration.
    pub fn values() -> (r: Vec<AuthenticationType>)
        ensures
            r@ == seq![AuthenticationType::AUTHENTICATION_USER_PASS, AuthenticationType::AUTHENTICATION_STORED_SPOTIFY_CREDENTIALS, AuthenticationType::AUTHENTICATION_STORED_FACEBOOK_CREDENTIALS, AuthenticationType::AUTHENTICATION_SPOTIFY_TOKEN, AuthenticationType::AUTHENTICATION_FACEBOOK_TOKEN],
    {
        vec![AuthenticationType::AUTHENTICATION_USER_PASS, AuthenticationType::AUTHENTICATION_STORED_SPOTIFY_CREDENTIALS, AuthenticationType::AUTHENTICATION_STORED_FACEBOOK_CREDENTIALS, AuthenticationType::AUTHENTICATION_SPOTIFY_TOKEN, AuthenticationType::AUTHENTICATION_FACEBOOK_TOKEN]
    }

    /// The number of a value stands for that value.
    pub proof fn lemma_value_roundtrip(self)
        ensures
            AuthenticationType::spec_from_i32(self.spec_value()) == Some(self),
    {
    }

    /// A number that stands for a value is that value's number.
    pub proof fn lemma_from_i32_value(v: i32)
        ensures
            AuthenticationType::spec_from_i32(v) matches Some(e) ==> e.spec_value() == v,
    {
    }

    /// The numbers that the protocol's definition gives the values on the wire: each value
    /// has the number listed here, each listed number reads back as its value, and no other
    /// number stands for a value.
    pub proof fn lemma_proto_numbers()
        ensures
            AuthenticationType::AUTHENTICATION_USER_PASS.spec_value() == 0i32,
            AuthenticationType::AUTHENTICATION_STORED_SPOTIFY_CREDENTIALS.spec_value() == 1i32,
            AuthenticationType::AUTHENTICATION_STORED_FACEBOOK_CREDENTIALS.spec_value() == 2i32,
            AuthenticationType::AUTHENTICATION_SPOTIFY_TOKEN.spec_value() == 3i32,
            AuthenticationType::AUTHENTICATION_FACEBOOK_TOKEN.spec_value() == 4i32,
            AuthenticationType::spec_from_i32(0i32) == Some(AuthenticationType::AUTHENTICATION_USER_PASS),
            AuthenticationType::spec_from_i32(1i32) == Some(AuthenticationType::AUTHENTICATION_STORED_SPOTIFY_CREDENTIALS),
            AuthenticationType::spec_from_i32(2i32) == Some(AuthenticationType::AUTHENTICATION_STORED_FACEBOOK_CREDENTIALS),
            AuthenticationType::spec_from_i32(3i32) == Some(AuthenticationType::AUTHENTICATION_SPOTIFY_TOKEN),
            AuthenticationType::spec_from_i32(4i32) == Some(AuthenticationType::AUTHENTICATION_FACEBOOK_TOKEN),
            forall|v: i32| #[trigger] AuthenticationType::spec_from_i32(v) is Some ==> v == 0i32 || v == 1i32 || v == 2i32 || v == 3i32 || v == 4i32,
    {
    }
}

} // verus!
