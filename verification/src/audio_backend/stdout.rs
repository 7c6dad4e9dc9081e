//! The backend that writes the raw samples to the standard output.
use vstd::prelude::*;

verus! {

/// A sink that writes each sample as two bytes, least significant first.
#[derive(Clone, Copy, Debug)]
pub struct StdoutSink;

/// The two bytes of a sample, least significant first.
pub open spec fn sample_bytes(s: i16) -> Seq<u8> {
    seq![((s as u16) % 256) as u8, ((s as u16) / 256) as u8]
}

/// The bytes of the samples `data`, in order.
pub open spec fn samples_bytes(data: Seq<i16>) -> Seq<u8>
    decreases data.len(),
{
    if data.len() == 0 {
        Seq::empty()
    } else {
        samples_bytes(data.drop_last()) + sample_bytes(data.last())
    }
}

impl StdoutSink {
    /// A sink on the standard output; a device name means nothing to it.
    pub fn open(device: Option<String>) -> (r: StdoutSink) {
        StdoutSink
    }

    /// The bytes that writing `data` puts on the standard output.
    pub fn bytes_of(data: &[i16]) -> (r: Vec<u8>)
        ensures
            r@ == samples_bytes(data@),
    {
        let mut out: Vec<u8> = Vec::new();
        let mut i: usize = 0;
        while i < data.len()
            invariant
                i <= data@.len(),
                out@ == samples_bytes(data@.subrange(0, i as int)),
            decreases data@.len() - i,
        {
            let u = data[i] as u16;
            out.push((u % 256) as u8);
            out.push((u / 256) as u8);
            proof {
                let s = data@.subrange(0, i + 1);
                assert(s.drop_last() =~= data@.subrange(0, i as int));
                assert(s.last() == data@[i as int]);
            }
            i = i + 1;
        }
        assert(data@.subrange(0, data@.len() as int) =~= data@);
        out
    }
}

} // verus!
