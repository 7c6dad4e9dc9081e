//! The ALSA backend: which device it opens.
use vstd::prelude::*;

verus! {

/// A sink on the ALSA device of the name `device`.
pub struct AlsaSink {
    pub device: String,
}

/// The device that a sink opens when none is named.
pub open spec fn default_device() -> Seq<char> {
    "default"@
}

impl AlsaSink {
    /// A sink on the device `device`, or on the default device when none is named.
    pub fn open(device: Option<String>) -> (r: AlsaSink)
        ensures
            r.device@ == match device {
                Some(d) => d@,
                None => default_device(),
            },
    {
        let name = match device {
            Some(d) => d,
            None => "default".to_owned(),
        };
        AlsaSink { device: name }
    }
}

} // verus!
