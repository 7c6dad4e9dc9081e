//! The backends that play the decoded audio, and which one a name picks.
use vstd::prelude::*;

pub mod alsa;
pub mod portaudio;
pub mod stdout;

verus! {

/// The backends built into this library, in the order in which they are offered.
#[derive(Clone, Copy, Debug, PartialEq, Eq)]
pub enum Backend {
    /// Raw samples written to the standard output.
    Pipe,
}

impl Backend {
    /// The name by which the backend is picked.
    pub fn name(&self) -> (r: &'static str)
        ensures
            r@ == backend_name(*self),
    {
        match self {
            Backend::Pipe => "pipe",
        }
    }
}

/// The name by which a backend is picked.
pub open spec fn backend_name(b: Backend) -> Seq<char> {
    match b {
        Backend::Pipe => "pipe"@,
    }
}

/// The backend of the name `name`, or the first one built in when no name is given.
pub fn find(name: Option<String>) -> (r: Option<Backend>)
    ensures
        match name {
            None => r == Some(Backend::Pipe),
            Some(n) => if n@ == backend_name(Backend::Pipe) {
                r == Some(Backend::Pipe)
            } else {
                r is None
            },
        },
{
    match name {
        None => Some(Backend::Pipe),
        Some(n) => {
            if n == "pipe".to_owned() {
                Some(Backend::Pipe)
            } else {
                None
            }
        },
    }
}

} // verus!
