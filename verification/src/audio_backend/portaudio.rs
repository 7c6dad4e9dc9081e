//! The PortAudio backend: which output device a name picks.
use vstd::prelude::*;

verus! {

/// An output device: its index, its name, and how many output channels it has.
pub struct OutputDevice {
    pub index: u32,
    pub name: String,
    pub max_output_channels: i32,
}

/// Which device the sink opens.
#[derive(Clone, Copy, Debug, PartialEq, Eq)]
pub enum OutputChoice {
    /// The name `?` asks for the list of output devices instead.
    List,
    /// The device of this index.
    Device(u32),
    /// No device of the name, or no default one.
    NotFound,
}

/// The index of the first output device, that is, of a device with an output channel, of the
/// name `name`.
pub open spec fn first_output_named(devices: Seq<(u32, Seq<char>, i32)>, name: Seq<char>) -> Option<u32>
    decreases devices.len(),
{
    if devices.len() == 0 {
        None
    } else if devices[0].2 > 0 && devices[0].1 == name {
        Some(devices[0].0)
    } else {
        first_output_named(devices.drop_first(), name)
    }
}

/// The model of a device.
pub open spec fn device_model(d: OutputDevice) -> (u32, Seq<char>, i32) {
    (d.index, d.name@, d.max_output_channels)
}

/// The device that the sink opens for the name `device`, among `devices`, with `default`
/// the default output device, if any.
pub fn choose_output(device: Option<&str>, devices: &[OutputDevice], default: Option<u32>) -> (r: OutputChoice)
    ensures
        r == match device {
            Some(d) => if d@ == "?"@ {
                OutputChoice::List
            } else {
                match first_output_named(devices@.map_values(|x: OutputDevice| device_model(x)), d@) {
                    Some(i) => OutputChoice::Device(i),
                    None => OutputChoice::NotFound,
                }
            },
            None => match default {
                Some(i) => OutputChoice::Device(i),
                None => OutputChoice::NotFound,
            },
        },
{
    match device {
        Some(d) => {
            if d.to_owned() == "?".to_owned() {
                return OutputChoice::List;
            }
            let ghost models = devices@.map_values(|x: OutputDevice| device_model(x));
            let mut i: usize = 0;
            assert(models.subrange(0, models.len() as int) =~= models);
            while i < devices.len()
                invariant
                    i <= devices@.len(),
                    d@ != "?"@,
                    device == Some(d),
                    models == devices@.map_values(|x: OutputDevice| device_model(x)),
                    first_output_named(models, d@) == first_output_named(models.subrange(i as int, models.len() as int), d@),
                decreases devices@.len() - i,
            {
                proof {
                    let rest = models.subrange(i as int, models.len() as int);
                    assert(rest.drop_first() =~= models.subrange(i + 1, models.len() as int));
                    assert(rest[0] == device_model(devices@[i as int]));
                }
                if devices[i].max_output_channels > 0 && devices[i].name.clone() == d.to_owned() {
                    return OutputChoice::Device(devices[i].index);
                }
                i = i + 1;
            }
            proof {
                assert(models.subrange(i as int, models.len() as int) =~= Seq::<(u32, Seq<char>, i32)>::empty());
            }
            OutputChoice::NotFound
        },
        None => match default {
            Some(i) => OutputChoice::Device(i),
            None => OutputChoice::NotFound,
        },
    }
}

} // verus!
