use librespot::apresolve::{ap_fallback, ap_or_fallback, first_ap, APResolveData, APResolveError};
use librespot::audio_backend::alsa::AlsaSink;
use librespot::audio_backend::portaudio::{choose_output, OutputChoice, OutputDevice};
use librespot::audio_backend::stdout::StdoutSink;
use librespot::audio_backend::{find, Backend};

#[test]
fn backends_by_name() {
    assert_eq!(find(None), Some(Backend::Pipe));
    assert_eq!(find(Some("pipe".to_string())), Some(Backend::Pipe));
    assert_eq!(find(Some("alsa".to_string())), None);
    assert_eq!(Backend::Pipe.name(), "pipe");
}

#[test]
fn alsa_opens_the_default_device() {
    assert_eq!(AlsaSink::open(None).device, "default");
    assert_eq!(AlsaSink::open(Some("hw:1".to_string())).device, "hw:1");
}

#[test]
fn samples_are_written_least_significant_byte_first() {
    let _sink = StdoutSink::open(None);
    assert_eq!(StdoutSink::bytes_of(&[1, -1, 0x1234, i16::MIN]), vec![1, 0, 0xff, 0xff, 0x34, 0x12, 0, 0x80]);
    assert_eq!(StdoutSink::bytes_of(&[]), Vec::<u8>::new());
}

#[test]
fn output_device_choice() {
    let devices = vec![
        OutputDevice { index: 0, name: "mic".to_string(), max_output_channels: 0 },
        OutputDevice { index: 1, name: "speakers".to_string(), max_output_channels: 2 },
        OutputDevice { index: 2, name: "mic".to_string(), max_output_channels: 2 },
    ];
    assert_eq!(choose_output(Some("?"), &devices, Some(1)), OutputChoice::List);
    assert_eq!(choose_output(Some("speakers"), &devices, None), OutputChoice::Device(1));
    assert_eq!(choose_output(Some("mic"), &devices, None), OutputChoice::Device(2));
    assert_eq!(choose_output(Some("tv"), &devices, Some(1)), OutputChoice::NotFound);
    assert_eq!(choose_output(None, &devices, Some(1)), OutputChoice::Device(1));
    assert_eq!(choose_output(None, &devices, None), OutputChoice::NotFound);
}

#[test]
fn access_point_choice() {
    let data = APResolveData { ap_list: vec!["ap1:4070".to_string(), "ap2:443".to_string()] };
    assert_eq!(first_ap(&data), Ok("ap1:4070".to_string()));
    let empty = APResolveData { ap_list: vec![] };
    assert_eq!(first_ap(&empty), Err(APResolveError::EmptyList));
    assert_eq!(ap_or_fallback(first_ap(&empty)), "ap.spotify.com:80");
    assert_eq!(ap_or_fallback(Err(APResolveError::Http)), ap_fallback());
    assert_eq!(ap_or_fallback(Ok("x:1".to_string())), "x:1");
    assert_eq!(APResolveError::EmptyList.description(), "empty AP List");
    assert_eq!(APResolveError::InvalidJson.description(), "invalid JSON");
}
