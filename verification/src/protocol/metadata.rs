//! The messages that describe artists, albums, tracks and their files, with their wire
//! encodings.
use vstd::prelude::*;
use crate::protocol::{box_mut, field_mut, opt_as_mut};
use crate::wire::{
    bool_varint, bytes_or_empty, chars_or_empty, fits_u32, int32_varint, lemma_bytes_roundtrip,
    lemma_length_delimited_list_cons, lemma_message_window, lemma_skip_chunk, lemma_string_roundtrip,
    lemma_tag_parse_len, lemma_tag_roundtrip, lemma_unknown_list_cons, lemma_unknown_roundtrip,
    lemma_varint_casts, lemma_varint_list_cons, lemma_varint_roundtrip, length_delimited_list_bytes,
    message_window, embedded_window, read_embedded_window, lemma_embedded_window, top_limit,
    opt_length_delimited_field_bytes, opt_varint_field_bytes, opt_view,
    packed_int64_parse, packed_int64_partial, pb_read_raw_varint64, pb_read_sint32, pb_read_tag_unpack, pb_write_raw_varint64,
    pb_write_sint32_no_tag, pb_write_tag, read_bytes, read_packed_int64,
    read_string, read_unknown, string_parse, bytes_parse, tag_bytes, tag_parse, bytes_value_bytes,
    unknown_field_bytes, grouped_insert, insert_unknown, unknown_grouped, lemma_grouped_insert_last,
    lemma_grouped_take, lemma_grouped_empty, unknown_field_wf, unknown_list_bytes, unknown_models, unknown_parse, varint_bool, varint_bytes,
    varint_int32, varint_list_bytes, varint_parse, write_bytes_value, write_string_value,
    write_unknown, zigzag_decode32, zigzag_encode32, DecodeError, UnknownField, UnknownFieldModel,
    WIRE_LENGTH_DELIMITED, WIRE_VARINT, string_models, utf8_encodings, int64_varints,
    lemma_varint_parse_len, lemma_write_chunk, lemma_empty_chunk, lemma_write_list_step,
    lemma_concat_assoc, clone_opt_bytes, clone_opt_string, clone_strings, clone_unknown_fields,
};
use vstd::utf8::encode_utf8;

verus! {

/// The values of the `Album_Type` enumeration.
#[allow(non_camel_case_types)]
#[derive(Clone, Copy, Debug, PartialEq, Eq, Hash)]
pub enum Album_Type {
    ALBUM,
    SINGLE,
    COMPILATION,
    EP,
}

impl Album_Type {
    /// The number that stands for each value on the wire.
    pub open spec fn spec_value(self) -> i32 {
        match self {
            Album_Type::ALBUM => 1i32,
            Album_Type::SINGLE => 2i32,
            Album_Type::COMPILATION => 3i32,
            Album_Type::EP => 4i32,
        }
    }

    /// The value that a number stands for, if any.
    pub open spec fn spec_from_i32(v: i32) -> Option<Album_Type> {
        if v == 1i32 {
            Some(Album_Type::ALBUM)
        } else if v == 2i32 {
            Some(Album_Type::SINGLE)
        } else if v == 3i32 {
            Some(Album_Type::COMPILATION)
        } else if v == 4i32 {
            Some(Album_Type::EP)
        } else {
            None
        }
    }

    /// The number that stands for this value on the wire.
    pub fn value(&self) -> (r: i32)
        ensures
            r == self.spec_value(),
    {
        match self {
            Album_Type::ALBUM => 1,
            Album_Type::SINGLE => 2,
            Album_Type::COMPILATION => 3,
            Album_Type::EP => 4,
        }
    }

    /// The value that `v` stands for, or `None` for a number of no value.
    pub fn from_i32(v: i32) -> (r: Option<Album_Type>)
        ensures
            r == Album_Type::spec_from_i32(v),
    {
        match v {
            1 => Some(Album_Type::ALBUM),
            2 => Some(Album_Type::SINGLE),
            3 => Some(Album_Type::COMPILATION),
            4 => Some(Album_Type::EP),
            _ => None,
        }
    }

    /// All values, in the order of their declaration.
    pub fn values() -> (r: Vec<Album_Type>)
        ensures
            r@ == seq![Album_Type::ALBUM, Album_Type::SINGLE, Album_Type::COMPILATION, Album_Type::EP],
    {
        vec![Album_Type::ALBUM, Album_Type::SINGLE, Album_Type::COMPILATION, Album_Type::EP]
    }

    /// The number of a value stands for that value.
    pub proof fn lemma_value_roundtrip(self)
        ensures
            Album_Type::spec_from_i32(self.spec_value()) == Some(self),
    {
    }

    /// A number that stands for a value is that value's number.
    pub proof fn lemma_from_i32_value(v: i32)
        ensures
            Album_Type::spec_from_i32(v) matches Some(e) ==> e.spec_value() == v,
    {
    }

    /// The numbers that the protocol's definition gives the values on the wire: each value
    /// has the number listed here, each listed number reads back as its value, and no other
    /// number stands for a value.
    pub proof fn lemma_proto_numbers()
        ensures
            Album_Type::ALBUM.spec_value() == 1i32,
            Album_Type::SINGLE.spec_value() == 2i32,
            Album_Type::COMPILATION.spec_value() == 3i32,
            Album_Type::EP.spec_value() == 4i32,
            Album_Type::spec_from_i32(1i32) == Some(Album_Type::ALBUM),
            Album_Type::spec_from_i32(2i32) == Some(Album_Type::SINGLE),
            Album_Type::spec_from_i32(3i32) == Some(Album_Type::COMPILATION),
            Album_Type::spec_from_i32(4i32) == Some(Album_Type::EP),
            forall|v: i32| #[trigger] Album_Type::spec_from_i32(v) is Some ==> v == 1i32 || v == 2i32 || v == 3i32 || v == 4i32,
    {
    }
}

/// The values of the `Image_Size` enumeration.
#[allow(non_camel_case_types)]
#[derive(Clone, Copy, Debug, PartialEq, Eq, Hash)]
pub enum Image_Size {
    DEFAULT,
    SMALL,
    LARGE,
    XLARGE,
}

impl Image_Size {
    /// The number that stands for each value on the wire.
    pub open spec fn spec_value(self) -> i32 {
        match self {
            Image_Size::DEFAULT => 0i32,
            Image_Size::SMALL => 1i32,
            Image_Size::LARGE => 2i32,
            Image_Size::XLARGE => 3i32,
        }
    }

    /// The value that a number stands for, if any.
    pub open spec fn spec_from_i32(v: i32) -> Option<Image_Size> {
        if v == 0i32 {
            Some(Image_Size::DEFAULT)
        } else if v == 1i32 {
            Some(Image_Size::SMALL)
        } else if v == 2i32 {
            Some(Image_Size::LARGE)
        } else if v == 3i32 {
            Some(Image_Size::XLARGE)
        } else {
            None
        }
    }

    /// The number that stands for this value on the wire.
    pub fn value(&self) -> (r: i32)
        ensures
            r == self.spec_value(),
    {
        match self {
            Image_Size::DEFAULT => 0,
            Image_Size::SMALL => 1,
            Image_Size::LARGE => 2,
            Image_Size::XLARGE => 3,
        }
    }

    /// The value that `v` stands for, or `None` for a number of no value.
    pub fn from_i32(v: i32) -> (r: Option<Image_Size>)
        ensures
            r == Image_Size::spec_from_i32(v),
    {
        match v {
            0 => Some(Image_Size::DEFAULT),
            1 => Some(Image_Size::SMALL),
            2 => Some(Image_Size::LARGE),
            3 => Some(Image_Size::XLARGE),
            _ => None,
        }
    }

    /// All values, in the order of their declaration.
    pub fn values() -> (r: Vec<Image_Size>)
        ensures
            r@ == seq![Image_Size::DEFAULT, Image_Size::SMALL, Image_Size::LARGE, Image_Size::XLARGE],
    {
        vec![Image_Size::DEFAULT, Image_Size::SMALL, Image_Size::LARGE, Image_Size::XLARGE]
    }

    /// The number of a value stands for that value.
    pub proof fn lemma_value_roundtrip(self)
        ensures
            Image_Size::spec_from_i32(self.spec_value()) == Some(self),
    {
    }

    /// A number that stands for a value is that value's number.
    pub proof fn lemma_from_i32_value(v: i32)
        ensures
            Image_Size::spec_from_i32(v) matches Some(e) ==> e.spec_value() == v,
    {
    }

    /// The numbers that the protocol's definition gives the values on the wire: each value
    /// has the number listed here, each listed number reads back as its value, and no other
    /// number stands for a value.
    pub proof fn lemma_proto_numbers()
        ensures
            Image_Size::DEFAULT.spec_value() == 0i32,
            Image_Size::SMALL.spec_value() == 1i32,
            Image_Size::LARGE.spec_value() == 2i32,
            Image_Size::XLARGE.spec_value() == 3i32,
            Image_Size::spec_from_i32(0i32) == Some(Image_Size::DEFAULT),
            Image_Size::spec_from_i32(1i32) == Some(Image_Size::SMALL),
            Image_Size::spec_from_i32(2i32) == Some(Image_Size::LARGE),
            Image_Size::spec_from_i32(3i32) == Some(Image_Size::XLARGE),
            forall|v: i32| #[trigger] Image_Size::spec_from_i32(v) is Some ==> v == 0i32 || v == 1i32 || v == 2i32 || v == 3i32,
    {
    }
}

/// The values of the `Copyright_Type` enumeration.
#[allow(non_camel_case_types)]
#[derive(Clone, Copy, Debug, PartialEq, Eq, Hash)]
pub enum Copyright_Type {
    P,
    C,
}

impl Copyright_Type {
    /// The number that stands for each value on the wire.
    pub open spec fn spec_value(self) -> i32 {
        match self {
            Copyright_Type::P => 0i32,
            Copyright_Type::C => 1i32,
        }
    }

    /// The value that a number stands for, if any.
    pub open spec fn spec_from_i32(v: i32) -> Option<Copyright_Type> {
        if v == 0i32 {
            Some(Copyright_Type::P)
        } else if v == 1i32 {
            Some(Copyright_Type::C)
        } else {
            None
        }
    }

    /// The number that stands for this value on the wire.
    pub fn value(&self) -> (r: i32)
        ensures
            r == self.spec_value(),
    {
        match self {
            Copyright_Type::P => 0,
            Copyright_Type::C => 1,
        }
    }

    /// The value that `v` stands for, or `None` for a number of no value.
    pub fn from_i32(v: i32) -> (r: Option<Copyright_Type>)
        ensures
            r == Copyright_Type::spec_from_i32(v),
    {
        match v {
            0 => Some(Copyright_Type::P),
            1 => Some(Copyright_Type::C),
            _ => None,
        }
    }

    /// All values, in the order of their declaration.
    pub fn values() -> (r: Vec<Copyright_Type>)
        ensures
            r@ == seq![Copyright_Type::P, Copyright_Type::C],
    {
        vec![Copyright_Type::P, Copyright_Type::C]
    }

    /// The number of a value stands for that value.
    pub proof fn lemma_value_roundtrip(self)
        ensures
            Copyright_Type::spec_from_i32(self.spec_value()) == Some(self),
    {
    }

    /// A number that stands for a value is that value's number.
    pub proof fn lemma_from_i32_value(v: i32)
        ensures
            Copyright_Type::spec_from_i32(v) matches Some(e) ==> e.spec_value() == v,
    {
    }

    /// The numbers that the protocol's definition gives the values on the wire: each value
    /// has the number listed here, each listed number reads back as its value, and no other
    /// number stands for a value.
    pub proof fn lemma_proto_numbers()
        ensures
            Copyright_Type::P.spec_value() == 0i32,
            Copyright_Type::C.spec_value() == 1i32,
            Copyright_Type::spec_from_i32(0i32) == Some(Copyright_Type::P),
            Copyright_Type::spec_from_i32(1i32) == Some(Copyright_Type::C),
            forall|v: i32| #[trigger] Copyright_Type::spec_from_i32(v) is Some ==> v == 0i32 || v == 1i32,
    {
    }
}

/// The values of the `Restriction_Type` enumeration.
#[allow(non_camel_case_types)]
#[derive(Clone, Copy, Debug, PartialEq, Eq, Hash)]
pub enum Restriction_Type {
    STREAMING,
}

impl Restriction_Type {
    /// The number that stands for each value on the wire.
    pub open spec fn spec_value(self) -> i32 {
        match self {
            Restriction_Type::STREAMING => 0i32,
        }
    }

    /// The value that a number stands for, if any.
    pub open spec fn spec_from_i32(v: i32) -> Option<Restriction_Type> {
        if v == 0i32 {
            Some(Restriction_Type::STREAMING)
        } else {
            None
        }
    }

    /// The number that stands for this value on the wire.
    pub fn value(&self) -> (r: i32)
        ensures
            r == self.spec_value(),
    {
        match self {
            Restriction_Type::STREAMING => 0,
        }
    }

    /// The value that `v` stands for, or `None` for a number of no value.
    pub fn from_i32(v: i32) -> (r: Option<Restriction_Type>)
        ensures
            r == Restriction_Type::spec_from_i32(v),
    {
        match v {
            0 => Some(Restriction_Type::STREAMING),
            _ => None,
        }
    }

    /// All values, in the order of their declaration.
    pub fn values() -> (r: Vec<Restriction_Type>)
        ensures
            r@ == seq![Restriction_Type::STREAMING],
    {
        vec![Restriction_Type::STREAMING]
    }

    /// The number of a value stands for that value.
    pub proof fn lemma_value_roundtrip(self)
        ensures
            Restriction_Type::spec_from_i32(self.spec_value()) == Some(self),
    {
    }

    /// A number that stands for a value is that value's number.
    pub proof fn lemma_from_i32_value(v: i32)
        ensures
            Restriction_Type::spec_from_i32(v) matches Some(e) ==> e.spec_value() == v,
    {
    }

    /// The numbers that the protocol's definition gives the values on the wire: each value
    /// has the number listed here, each listed number reads back as its value, and no other
    /// number stands for a value.
    pub proof fn lemma_proto_numbers()
        ensures
            Restriction_Type::STREAMING.spec_value() == 0i32,
            Restriction_Type::spec_from_i32(0i32) == Some(Restriction_Type::STREAMING),
            forall|v: i32| #[trigger] Restriction_Type::spec_from_i32(v) is Some ==> v == 0i32,
    {
    }
}

/// The values of the `AudioFile_Format` enumeration.
#[allow(non_camel_case_types)]
#[derive(Clone, Copy, Debug, PartialEq, Eq, Hash)]
pub enum AudioFile_Format {
    OGG_VORBIS_96,
    OGG_VORBIS_160,
    OGG_VORBIS_320,
    MP3_256,
    MP3_320,
    MP3_160,
    MP3_96,
    MP3_160_ENC,
    OTHER2,
    OTHER3,
    AAC_160,
    AAC_320,
    OTHER4,
    OTHER5,
}

impl AudioFile_Format {
    /// The number that stands for each value on the wire.
    pub open spec fn spec_value(self) -> i32 {
        match self {
            AudioFile_Format::OGG_VORBIS_96 => 0i32,
            AudioFile_Format::OGG_VORBIS_160 => 1i32,
            AudioFile_Format::OGG_VORBIS_320 => 2i32,
            AudioFile_Format::MP3_256 => 3i32,
            AudioFile_Format::MP3_320 => 4i32,
            AudioFile_Format::MP3_160 => 5i32,
            AudioFile_Format::MP3_96 => 6i32,
            AudioFile_Format::MP3_160_ENC => 7i32,
            AudioFile_Format::OTHER2 => 8i32,
            AudioFile_Format::OTHER3 => 9i32,
            AudioFile_Format::AAC_160 => 10i32,
            AudioFile_Format::AAC_320 => 11i32,
            AudioFile_Format::OTHER4 => 12i32,
            AudioFile_Format::OTHER5 => 13i32,
        }
    }

    /// The value that a number stands for, if any.
    pub open spec fn spec_from_i32(v: i32) -> Option<AudioFile_Format> {
        if v == 0i32 {
            Some(AudioFile_Format::OGG_VORBIS_96)
        } else if v == 1i32 {
            Some(AudioFile_Format::OGG_VORBIS_160)
        } else if v == 2i32 {
            Some(AudioFile_Format::OGG_VORBIS_320)
        } else if v == 3i32 {
            Some(AudioFile_Format::MP3_256)
        } else if v == 4i32 {
            Some(AudioFile_Format::MP3_320)
        } else if v == 5i32 {
            Some(AudioFile_Format::MP3_160)
        } else if v == 6i32 {
            Some(AudioFile_Format::MP3_96)
        } else if v == 7i32 {
            Some(AudioFile_Format::MP3_160_ENC)
        } else if v == 8i32 {
            Some(AudioFile_Format::OTHER2)
        } else if v == 9i32 {
            Some(AudioFile_Format::OTHER3)
        } else if v == 10i32 {
            Some(AudioFile_Format::AAC_160)
        } else if v == 11i32 {
            Some(AudioFile_Format::AAC_320)
        } else if v == 12i32 {
            Some(AudioFile_Format::OTHER4)
        } else if v == 13i32 {
            Some(AudioFile_Format::OTHER5)
        } else {
            None
        }
    }

    /// The number that stands for this value on the wire.
    pub fn value(&self) -> (r: i32)
        ensures
            r == self.spec_value(),
    {
        match self {
            AudioFile_Format::OGG_VORBIS_96 => 0,
            AudioFile_Format::OGG_VORBIS_160 => 1,
            AudioFile_Format::OGG_VORBIS_320 => 2,
            AudioFile_Format::MP3_256 => 3,
            AudioFile_Format::MP3_320 => 4,
            AudioFile_Format::MP3_160 => 5,
            AudioFile_Format::MP3_96 => 6,
            AudioFile_Format::MP3_160_ENC => 7,
            AudioFile_Format::OTHER2 => 8,
            AudioFile_Format::OTHER3 => 9,
            AudioFile_Format::AAC_160 => 10,
            AudioFile_Format::AAC_320 => 11,
            AudioFile_Format::OTHER4 => 12,
            AudioFile_Format::OTHER5 => 13,
        }
    }

    /// The value that `v` stands for, or `None` for a number of no value.
    pub fn from_i32(v: i32) -> (r: Option<AudioFile_Format>)
        ensures
            r == AudioFile_Format::spec_from_i32(v),
    {
        match v {
            0 => Some(AudioFile_Format::OGG_VORBIS_96),
            1 => Some(AudioFile_Format::OGG_VORBIS_160),
            2 => Some(AudioFile_Format::OGG_VORBIS_320),
            3 => Some(AudioFile_Format::MP3_256),
            4 => Some(AudioFile_Format::MP3_320),
            5 => Some(AudioFile_Format::MP3_160),
            6 => Some(AudioFile_Format::MP3_96),
            7 => Some(AudioFile_Format::MP3_160_ENC),
            8 => Some(AudioFile_Format::OTHER2),
            9 => Some(AudioFile_Format::OTHER3),
            10 => Some(AudioFile_Format::AAC_160),
            11 => Some(AudioFile_Format::AAC_320),
            12 => Some(AudioFile_Format::OTHER4),
            13 => Some(AudioFile_Format::OTHER5),
            _ => None,
        }
    }

    /// All values, in the order of their declaration.
    pub fn values() -> (r: Vec<AudioFile_Format>)
        ensures
            r@ == seq![AudioFile_Format::OGG_VORBIS_96, AudioFile_Format::OGG_VORBIS_160, AudioFile_Format::OGG_VORBIS_320, AudioFile_Format::MP3_256, AudioFile_Format::MP3_320, AudioFile_Format::MP3_160, AudioFile_Format::MP3_96, AudioFile_Format::MP3_160_ENC, AudioFile_Format::OTHER2, AudioFile_Format::OTHER3, AudioFile_Format::AAC_160, AudioFile_Format::AAC_320, AudioFile_Format::OTHER4, AudioFile_Format::OTHER5],
    {
        vec![AudioFile_Format::OGG_VORBIS_96, AudioFile_Format::OGG_VORBIS_160, AudioFile_Format::OGG_VORBIS_320, AudioFile_Format::MP3_256, AudioFile_Format::MP3_320, AudioFile_Format::MP3_160, AudioFile_Format::MP3_96, AudioFile_Format::MP3_160_ENC, AudioFile_Format::OTHER2, AudioFile_Format::OTHER3, AudioFile_Format::AAC_160, AudioFile_Format::AAC_320, AudioFile_Format::OTHER4, AudioFile_Format::OTHER5]
    }

    /// The number of a value stands for that value.
    pub proof fn lemma_value_roundtrip(self)
        ensures
            AudioFile_Format::spec_from_i32(self.spec_value()) == Some(self),
    {
    }

    /// A number that stands for a value is that value's number.
    pub proof fn lemma_from_i32_value(v: i32)
        ensures
            AudioFile_Format::spec_from_i32(v) matches Some(e) ==> e.spec_value() == v,
    {
    }

    /// The numbers that the protocol's definition gives the values on the wire: each value
    /// has the number listed here, each listed number reads back as its value, and no other
    /// number stands for a value.
    pub proof fn lemma_proto_numbers()
        ensures
            AudioFile_Format::OGG_VORBIS_96.spec_value() == 0i32,
            AudioFile_Format::OGG_VORBIS_160.spec_value() == 1i32,
            AudioFile_Format::OGG_VORBIS_320.spec_value() == 2i32,
            AudioFile_Format::MP3_256.spec_value() == 3i32,
            AudioFile_Format::MP3_320.spec_value() == 4i32,
            AudioFile_Format::MP3_160.spec_value() == 5i32,
            AudioFile_Format::MP3_96.spec_value() == 6i32,
            AudioFile_Format::MP3_160_ENC.spec_value() == 7i32,
            AudioFile_Format::OTHER2.spec_value() == 8i32,
            AudioFile_Format::OTHER3.spec_value() == 9i32,
            AudioFile_Format::AAC_160.spec_value() == 10i32,
            AudioFile_Format::AAC_320.spec_value() == 11i32,
            AudioFile_Format::OTHER4.spec_value() == 12i32,
            AudioFile_Format::OTHER5.spec_value() == 13i32,
            AudioFile_Format::spec_from_i32(0i32) == Some(AudioFile_Format::OGG_VORBIS_96),
            AudioFile_Format::spec_from_i32(1i32) == Some(AudioFile_Format::OGG_VORBIS_160),
            AudioFile_Format::spec_from_i32(2i32) == Some(AudioFile_Format::OGG_VORBIS_320),
            AudioFile_Format::spec_from_i32(3i32) == Some(AudioFile_Format::MP3_256),
            AudioFile_Format::spec_from_i32(4i32) == Some(AudioFile_Format::MP3_320),
            AudioFile_Format::spec_from_i32(5i32) == Some(AudioFile_Format::MP3_160),
            AudioFile_Format::spec_from_i32(6i32) == Some(AudioFile_Format::MP3_96),
            AudioFile_Format::spec_from_i32(7i32) == Some(AudioFile_Format::MP3_160_ENC),
            AudioFile_Format::spec_from_i32(8i32) == Some(AudioFile_Format::OTHER2),
            AudioFile_Format::spec_from_i32(9i32) == Some(AudioFile_Format::OTHER3),
            AudioFile_Format::spec_from_i32(10i32) == Some(AudioFile_Format::AAC_160),
            AudioFile_Format::spec_from_i32(11i32) == Some(AudioFile_Format::AAC_320),
            AudioFile_Format::spec_from_i32(12i32) == Some(AudioFile_Format::OTHER4),
            AudioFile_Format::spec_from_i32(13i32) == Some(AudioFile_Format::OTHER5),
            forall|v: i32| #[trigger] AudioFile_Format::spec_from_i32(v) is Some ==> v == 0i32 || v == 1i32 || v == 2i32 || v == 3i32 || v == 4i32 || v == 5i32 || v == 6i32 || v == 7i32 || v == 8i32 || v == 9i32 || v == 10i32 || v == 11i32 || v == 12i32 || v == 13i32,
    {
    }
}

/// The `TopTracks` message.
#[allow(non_snake_case)]
#[derive(Debug, PartialEq)]
pub struct TopTracks {
    country: Option<String>,
    track: Vec<Track>,
    unknown_fields: Vec<UnknownField>,
}

/// The model of a `TopTracks`: each field's value, `None` or empty when unset,
/// and the fields of unknown numbers, in the order they were read.
#[allow(non_snake_case)]
pub struct TopTracksModel {
    pub country: Option<Seq<char>>,
    pub track: Seq<TrackModel>,
    pub unknown_fields: Seq<UnknownFieldModel>,
}

impl View for TopTracks {
    type V = TopTracksModel;

    closed spec fn view(&self) -> TopTracksModel {
        self.model()
    }
}

#[allow(non_snake_case)]
impl TopTracks {
    /// The model of the message: the view, written out for the messages that contain one another.
    pub closed spec fn model(self) -> TopTracksModel
        decreases self, 1int,
    {
        TopTracksModel {
            country: opt_view(self.country),
            track: Track::seq_model(self.track@),
            unknown_fields: unknown_models(self.unknown_fields@),
        }
    }
}

#[allow(non_snake_case)]
impl TopTracksModel {
    /// The model of a message with no field set.
    pub open spec fn empty() -> Self {
        TopTracksModel {
            country: None,
            track: Seq::empty(),
            unknown_fields: Seq::empty(),
        }
    }

    /// The encodings of a list of messages.
    pub open spec fn encodings(v: Seq<TopTracksModel>) -> Seq<Seq<u8>> {
        v.map_values(|m: TopTracksModel| m.to_bytes())
    }

    /// Every message of a list can be written, and its encoding fits a 32-bit length.
    pub open spec fn all_writable(v: Seq<TopTracksModel>) -> bool {
        forall|i: int| 0 <= i < v.len() ==> #[trigger] v[i].wf() && fits_u32(v[i].to_bytes())
    }

    /// Every message of a list can be written, element by element.
    pub open spec fn writable_list(v: Seq<TopTracksModel>) -> bool
        decreases v, 0int,
    {
        v.len() == 0 || (v[0].wf() && fits_u32(v[0].to_bytes()) && Self::writable_list(v.subrange(1, v.len() as int)))
    }

    /// Each message of a list that can be written element by element can be written.
    #[verifier::spinoff_prover]
    pub proof fn lemma_writable_list(v: Seq<TopTracksModel>)
        requires
            Self::writable_list(v),
        ensures
            Self::all_writable(v),
        decreases v.len(),
    {
        reveal_with_fuel(TopTracksModel::wf, 1);
        if v.len() > 0 {
            let tail = v.subrange(1, v.len() as int);
            Self::lemma_writable_list(tail);
            assert forall|i: int| 0 <= i < v.len() implies #[trigger] v[i].wf() && fits_u32(v[i].to_bytes()) by {
                if i > 0 {
                    assert(v[i] == tail[i - 1]);
                }
            }
        }
    }

    /// The encoding of the elements of a repeated field of number `f`, each as a length-delimited
    /// value after its tag.
    pub open spec fn list_bytes(f: u32, v: Seq<TopTracksModel>) -> Seq<u8>
        decreases v, 0int,
    {
        if v.len() == 0 {
            Seq::empty()
        } else {
            tag_bytes(f, WIRE_LENGTH_DELIMITED) + bytes_value_bytes(v[0].to_bytes()) + Self::list_bytes(
                f,
                v.subrange(1, v.len() as int),
            )
        }
    }

    /// The encoding of a repeated field is the list of the encodings of its elements.
    #[verifier::spinoff_prover]
    pub proof fn lemma_list_bytes(f: u32, v: Seq<TopTracksModel>)
        ensures
            Self::list_bytes(f, v) == length_delimited_list_bytes(f, Self::encodings(v)),
        decreases v.len(),
    {
        let e = Self::encodings(v);
        if v.len() > 0 {
            let tail = v.subrange(1, v.len() as int);
            Self::lemma_list_bytes(f, tail);
            assert(e.subrange(1, v.len() as int) =~= Self::encodings(tail));
            assert(e[0] == v[0].to_bytes());
            lemma_length_delimited_list_cons(f, e);
            lemma_concat_assoc(tag_bytes(f, WIRE_LENGTH_DELIMITED), bytes_value_bytes(e[0]), Self::list_bytes(f, tail));
        } else {
            assert(e =~= Seq::<Seq<u8>>::empty());
        }
    }

    /// The field numbers that this message knows.
    pub open spec fn is_known_field(f: u32) -> bool {
        f == 1 || f == 2
    }

    /// Merging one field whose tag (number `f`, wire type `wt`) has been read;
    /// `s` holds the bytes after the tag. The result is the merged model and
    /// the number of bytes the value took; a set field is replaced, a repeated
    /// field grows, a field of unknown number is kept or, if a group, skipped.
    pub open spec fn merge_field(self, f: u32, wt: u32, s: Seq<u8>, lim: nat) -> Option<(Self, nat)>
        decreases s.len(),
    {
        if f == 1 {
            if wt != WIRE_LENGTH_DELIMITED {
                None
            } else {
                match string_parse(s) {
                    Some((c, k)) => Some((TopTracksModel { country: Some(c), ..self }, k)),
                    None => None,
                }
            }
        } else if f == 2 {
            if wt != WIRE_LENGTH_DELIMITED {
                None
            } else {
                match embedded_window(s, lim) {
                    Some((a, b, x)) => if 0 < a <= b <= s.len() {
                        match TrackModel::empty().merge(s.subrange(a as int, b as int), x) {
                            Some(x) => Some((TopTracksModel { track: self.track.push(x), ..self }, b)),
                            None => None,
                        }
                    } else {
                        None
                    },
                    None => None,
                }
            }
        } else {
            match unknown_parse(f, wt, s) {
                Some((Some(u), k)) => Some((TopTracksModel { unknown_fields: grouped_insert(self.unknown_fields, u), ..self }, k)),
                Some((None, k)) => Some((self, k)),
                None => None,
            }
        }
    }

    /// What is left of the model when merging one field (number `f`, wire type
    /// `wt`, value at the front of `s`) fails: a string, bytes or message field
    /// of the right wire type is first set to its empty value (a repeated one
    /// gets an empty element) and an embedded message keeps the fields merged
    /// into it before the failure; packed values read before the failure stay.
    pub open spec fn merge_field_failed(self, f: u32, wt: u32, s: Seq<u8>, lim: nat) -> Self
        decreases s.len(),
    {
        if f == 1 {
            if wt != WIRE_LENGTH_DELIMITED {
                self
            } else {
                TopTracksModel { country: Some(Seq::<char>::empty()), ..self }
            }
        } else if f == 2 {
            if wt != WIRE_LENGTH_DELIMITED {
                self
            } else {
                match embedded_window(s, lim) {
                    Some((a, b, x)) => if 0 < a <= b <= s.len() {
                        TopTracksModel { track: self.track.push(TrackModel::empty().merge_partial(s.subrange(a as int, b as int), x)), ..self }
                    } else {
                        TopTracksModel { track: self.track.push(TrackModel::empty()), ..self }
                    },
                    None => TopTracksModel { track: self.track.push(TrackModel::empty()), ..self },
                }
            }
        } else {
            self
        }
    }

    /// The value of a merged field takes no more than the bytes after its tag.
    #[verifier::spinoff_prover]
    pub proof fn lemma_merge_field_len(self, f: u32, wt: u32, s: Seq<u8>, lim: nat)
        ensures
            self.merge_field(f, wt, s, lim) matches Some((_m, k)) ==> k <= s.len(),
    {
        lemma_varint_parse_len(s);
        crate::wire::lemma_unknown_parse_len(f, wt, s);
    }

    /// Merging all the fields that `s` holds, in order, where the length of an
    /// embedded message may reach `lim` bytes past the end of `s` (such a message
    /// is read up to the end of `s`).
    #[verifier::opaque]
    pub open spec fn merge(self, s: Seq<u8>, lim: nat) -> Option<Self>
        decreases s.len(),
    {
        if s.len() == 0 {
            Some(self)
        } else {
            match tag_parse(s) {
                Some((f, wt, n)) => if 0 < n <= s.len() {
                    match self.merge_field(f, wt, s.skip(n as int), lim) {
                        Some((m, k)) => if n + k <= s.len() {
                            m.merge(s.skip((n + k) as int), lim)
                        } else {
                            None
                        },
                        None => None,
                    }
                } else {
                    None
                },
                None => None,
            }
        }
    }

    /// What merging `s` leaves: the fields merged in order up to the first one
    /// whose tag or value cannot be read, then what `merge_field_failed` leaves of
    /// that one; all of `s` where it is a valid encoding.
    #[verifier::opaque]
    pub open spec fn merge_partial(self, s: Seq<u8>, lim: nat) -> Self
        decreases s.len(),
    {
        if s.len() == 0 {
            self
        } else {
            match tag_parse(s) {
                Some((f, wt, n)) => if 0 < n <= s.len() {
                    match self.merge_field(f, wt, s.skip(n as int), lim) {
                        Some((m, k)) => if n + k <= s.len() {
                            m.merge_partial(s.skip((n + k) as int), lim)
                        } else {
                            m
                        },
                        None => self.merge_field_failed(f, wt, s.skip(n as int), lim),
                    }
                } else {
                    self
                },
                None => self,
            }
        }
    }

    /// The encoding of field `country` and of every field written after it.
    pub open spec fn encoded_from_country(self) -> Seq<u8>
        decreases self, 3int,
    {
        opt_length_delimited_field_bytes(1, match self.country { Some(c) => Some(encode_utf8(c)), None => None }) + self.encoded_from_track()
    }

    /// The encoding of field `track` and of every field written after it.
    pub open spec fn encoded_from_track(self) -> Seq<u8>
        decreases self, 2int,
    {
        TrackModel::list_bytes(2, self.track) + self.encoded_from_unknown_fields()
    }

    /// The encoding of the fields of unknown numbers, written last.
    pub open spec fn encoded_from_unknown_fields(self) -> Seq<u8> {
        unknown_list_bytes(self.unknown_fields)
    }

    /// The encoding of the message: its set fields in order of declaration,
    /// each element of a repeated field in order, then the unknown fields.
    #[verifier::opaque]
    pub open spec fn to_bytes(self) -> Seq<u8>
        decreases self, 4int,
    {
        self.encoded_from_country()
    }

    /// A model that can be written and read back: every length fits the
    /// 32-bit length prefix, nested messages can be written, and the unknown
    /// fields have valid numbers that this message does not know.
    #[verifier::opaque]
    pub open spec fn wf(self) -> bool
        decreases self, 1int,
    {
        &&& (self.country matches Some(c) ==> fits_u32(encode_utf8(c)))
        &&& TrackModel::writable_list(self.track)
        &&& (forall|i: int| 0 <= i < self.unknown_fields.len() ==> unknown_field_wf(#[trigger] self.unknown_fields[i]) && !Self::is_known_field(self.unknown_fields[i].number))
        &&& unknown_grouped(self.unknown_fields)
    }

    /// The message with no field set can be written and read back.
    #[verifier::spinoff_prover]
    pub proof fn lemma_empty_wf()
        ensures
            Self::empty().wf(),
    {
        reveal_with_fuel(TopTracksModel::wf, 1);
        lemma_grouped_empty();
    }

    /// Merging a field's tag and value, whatever follows them.
    #[verifier::spinoff_prover]
    pub proof fn lemma_merge_step(acc: Self, f: u32, wt: u32, t: Seq<u8>, b: Seq<u8>, rest: Seq<u8>, acc2: Self, lim: nat)
        requires
            tag_parse(t + (b + rest)) == Some((f, wt, t.len())),
            t.len() > 0,
            acc.merge_field(f, wt, b + rest, lim) == Some((acc2, b.len())),
        ensures
            acc.merge(t + (b + rest), lim) == acc2.merge(rest, lim),
    {
        reveal_with_fuel(TopTracksModel::merge, 1);
        lemma_skip_chunk(t, b, rest);
    }

    /// Merging the encoding of field `country` sets it, whatever follows.
    #[verifier::spinoff_prover]
    pub proof fn lemma_merge_country(acc: Self, v: Option<Seq<char>>, rest: Seq<u8>, lim: nat)
        requires
            (v matches Some(c) ==> fits_u32(encode_utf8(c))),
        ensures
            acc.merge(opt_length_delimited_field_bytes(1, match v { Some(c) => Some(encode_utf8(c)), None => None }) + rest, lim) == (TopTracksModel { country: if v is Some { v } else { acc.country }, ..acc }).merge(rest, lim),
    {
        match v {
            None => {
                assert(opt_length_delimited_field_bytes(1, match v { Some(c) => Some(encode_utf8(c)), None => None }) + rest =~= rest);
                assert((TopTracksModel { country: acc.country, ..acc }) == acc);
            },
            Some(x) => {
                let t = tag_bytes(1, WIRE_LENGTH_DELIMITED);
                let b = bytes_value_bytes(encode_utf8(x));
                assert(opt_length_delimited_field_bytes(1, match v { Some(c) => Some(encode_utf8(c)), None => None }) + rest =~= t + (b + rest));
                lemma_tag_roundtrip(1, WIRE_LENGTH_DELIMITED, b + rest);
                lemma_string_roundtrip(x, rest);
                Self::lemma_merge_step(acc, 1, WIRE_LENGTH_DELIMITED, t, b, rest, TopTracksModel { country: v, ..acc }, lim);
            },
        }
    }

    /// Merging the encoding of the elements of field `track` appends them, whatever follows.
    #[verifier::spinoff_prover]
    #[verifier::rlimit(100)]
    pub proof fn lemma_merge_track(acc: Self, v: Seq<TrackModel>, rest: Seq<u8>, lim: nat)
        requires
            TrackModel::writable_list(v),
        ensures
            acc.merge(TrackModel::list_bytes(2, v) + rest, lim) == (TopTracksModel { track: acc.track + v, ..acc }).merge(rest, lim),
        decreases v, 0int,
    {
        TrackModel::lemma_list_bytes(2, v);
        TrackModel::lemma_writable_list(v);
        reveal_with_fuel(TrackModel::merge, 1);
        let w = TrackModel::encodings(v);
        if v.len() == 0 {
            assert(length_delimited_list_bytes(2, w) + rest =~= rest);
            assert(acc.track + v =~= acc.track);
            assert((TopTracksModel { track: acc.track + v, ..acc }) == acc);
        } else {
            lemma_length_delimited_list_cons(2, w);
            assert(v[0].wf() && fits_u32(v[0].to_bytes()));
            let t = tag_bytes(2, WIRE_LENGTH_DELIMITED);
            let b = bytes_value_bytes(w[0]);
            let tail = length_delimited_list_bytes(2, w.subrange(1, w.len() as int));
            assert(length_delimited_list_bytes(2, w) + rest =~= t + (b + (tail + rest)));
            lemma_tag_roundtrip(2, WIRE_LENGTH_DELIMITED, b + (tail + rest));
            lemma_message_window(v[0].to_bytes(), tail + rest);
            lemma_embedded_window(v[0].to_bytes(), tail + rest, lim);
            v[0].lemma_roundtrip(0);
            lemma_varint_parse_len(b + (tail + rest));
            let acc1 = TopTracksModel { track: acc.track.push(v[0]), ..acc };
            Self::lemma_merge_step(acc, 2, WIRE_LENGTH_DELIMITED, t, b, tail + rest, acc1, lim);
            assert(w.subrange(1, w.len() as int) =~= TrackModel::encodings(v.subrange(1, v.len() as int)));
            assert forall|j: int| 0 <= j < v.len() - 1 implies #[trigger] v.subrange(1, v.len() as int)[j].wf() && fits_u32(v.subrange(1, v.len() as int)[j].to_bytes()) by {
                assert(v.subrange(1, v.len() as int)[j] == v[j + 1]);
            }
            Self::lemma_merge_track(acc1, v.subrange(1, v.len() as int), rest, lim);
            TrackModel::lemma_list_bytes(2, v.subrange(1, v.len() as int));
            assert(acc1.track + v.subrange(1, v.len() as int) =~= acc.track + v);
        }
    }

    /// Merging the encoding of fields of unknown numbers keeps them, whatever follows.
    #[verifier::spinoff_prover]
    #[verifier::rlimit(50)]
    pub proof fn lemma_merge_unknown_fields(acc: Self, v: Seq<UnknownFieldModel>, rest: Seq<u8>, lim: nat)
        requires
            forall|i: int| 0 <= i < v.len() ==> unknown_field_wf(#[trigger] v[i]) && !Self::is_known_field(v[i].number),
            unknown_grouped(acc.unknown_fields + v),
        ensures
            acc.merge(unknown_list_bytes(v) + rest, lim) == (TopTracksModel { unknown_fields: acc.unknown_fields + v, ..acc }).merge(rest, lim),
        decreases v.len(),
    {
        if v.len() == 0 {
            assert(unknown_list_bytes(v) + rest =~= rest);
            assert(acc.unknown_fields + v =~= acc.unknown_fields);
            assert((TopTracksModel { unknown_fields: acc.unknown_fields + v, ..acc }) == acc);
        } else {
            lemma_unknown_list_cons(v);
            let u = v[0];
            let wt = crate::wire::unknown_wire_type(u.value);
            let t = tag_bytes(u.number, wt);
            let b = crate::wire::unknown_value_bytes(u.value);
            let tail = unknown_list_bytes(v.subrange(1, v.len() as int));
            assert(unknown_list_bytes(v) + rest =~= t + (b + (tail + rest)));
            assert(unknown_field_bytes(u) + (tail + rest) =~= t + (b + (tail + rest)));
            lemma_unknown_roundtrip(u, tail + rest);
            assert((t + (b + (tail + rest))).skip(t.len() as int) =~= b + (tail + rest));
            crate::wire::lemma_tag_roundtrip(u.number, wt, b + (tail + rest));
            let acc1 = TopTracksModel { unknown_fields: acc.unknown_fields.push(u), ..acc };
            assert(acc.unknown_fields.push(u) =~= (acc.unknown_fields + v).take(acc.unknown_fields.len() + 1int));
            lemma_grouped_take(acc.unknown_fields + v, acc.unknown_fields.len() + 1int);
            lemma_grouped_insert_last(acc.unknown_fields, u);
            Self::lemma_merge_step(acc, u.number, wt, t, b, tail + rest, acc1, lim);
            assert(acc1.unknown_fields + v.subrange(1, v.len() as int) =~= acc.unknown_fields + v);
            Self::lemma_merge_unknown_fields(acc1, v.subrange(1, v.len() as int), rest, lim);
        }
    }

    /// Reading back the encoding of a model that can be written gives the model,
    /// whatever the limit past its end.
    #[verifier::spinoff_prover]
    #[verifier::rlimit(100)]
    pub proof fn lemma_roundtrip(self, lim: nat)
        requires
            self.wf(),
        ensures
            TopTracksModel::empty().merge(self.to_bytes(), lim) == Some(self),
        decreases self, 1int,
    {
        reveal_with_fuel(TopTracksModel::to_bytes, 1);
        reveal_with_fuel(TopTracksModel::wf, 1);
        reveal_with_fuel(TopTracksModel::merge, 1);
        let a0 = TopTracksModel::empty();
        assert((self.country matches Some(c) ==> fits_u32(encode_utf8(c))));
        Self::lemma_merge_country(a0, self.country, self.encoded_from_track(), lim);
        let a1 = TopTracksModel { country: if self.country is Some { self.country } else { a0.country }, ..a0 };
        assert(TrackModel::writable_list(self.track));
        Self::lemma_merge_track(a1, self.track, self.encoded_from_unknown_fields(), lim);
        let a2 = TopTracksModel { track: a1.track + self.track, ..a1 };
        assert(a2.unknown_fields + self.unknown_fields =~= self.unknown_fields);
        Self::lemma_merge_unknown_fields(a2, self.unknown_fields, Seq::empty(), lim);
        assert(unknown_list_bytes(self.unknown_fields) + Seq::<u8>::empty() =~= unknown_list_bytes(self.unknown_fields));
        let last = TopTracksModel { unknown_fields: a2.unknown_fields + self.unknown_fields, ..a2 };
        assert(last.track =~= self.track);
        assert(last.unknown_fields =~= self.unknown_fields);
        assert(last == self);
    }
    /// A message whose only set field is `country` is written as field number 1 of the
    /// protocol's definition alone: the tag of that number with the wire type of the field,
    /// then the value.
    #[verifier::spinoff_prover]
    pub proof fn lemma_encoding_of_country(v: Option<Seq<char>>)
        ensures
            (TopTracksModel { country: v, ..TopTracksModel::empty() }).to_bytes() == opt_length_delimited_field_bytes(1, match v { Some(c) => Some(encode_utf8(c)), None => None }),
    {
        reveal_with_fuel(TopTracksModel::to_bytes, 5);
        let m = TopTracksModel { country: v, ..TopTracksModel::empty() };
        assert(m.to_bytes() =~= opt_length_delimited_field_bytes(1, match v { Some(c) => Some(encode_utf8(c)), None => None }));
    }

    /// A message whose only set field is `track` is written as field number 2 of the
    /// protocol's definition alone: the tag of that number with the wire type of the field,
    /// then the value.
    #[verifier::spinoff_prover]
    pub proof fn lemma_encoding_of_track(v: Seq<TrackModel>)
        ensures
            (TopTracksModel { track: v, ..TopTracksModel::empty() }).to_bytes() == TrackModel::list_bytes(2, v),
    {
        reveal_with_fuel(TopTracksModel::to_bytes, 5);
        let m = TopTracksModel { track: v, ..TopTracksModel::empty() };
        assert(m.to_bytes() =~= TrackModel::list_bytes(2, v));
    }

}

#[allow(non_snake_case)]
impl TopTracks {
    /// The models of a list of messages.
    pub open spec fn seq_model(v: Seq<TopTracks>) -> Seq<TopTracksModel>
        decreases v, 0int,
    {
        if v.len() == 0 {
            Seq::empty()
        } else {
            Self::seq_model(v.subrange(0, v.len() - 1)).push(v[v.len() - 1].model())
        }
    }

    /// The list of models has an element for each message, its model.
    #[verifier::spinoff_prover]
    pub proof fn lemma_seq_model(v: Seq<TopTracks>)
        ensures
            Self::seq_model(v).len() == v.len(),
            forall|i: int| 0 <= i < v.len() ==> #[trigger] Self::seq_model(v)[i] == v[i]@,
        decreases v.len(),
    {
        if v.len() > 0 {
            Self::lemma_seq_model(v.subrange(0, v.len() - 1));
        }
    }

    /// Appending a message appends its model.
    #[verifier::spinoff_prover]
    pub proof fn lemma_seq_model_push(v: Seq<TopTracks>, x: TopTracks)
        ensures
            Self::seq_model(v.push(x)) == Self::seq_model(v).push(x@),
    {
        assert(v.push(x).subrange(0, v.len() as int) =~= v);
    }

    /// A message with no field set.
    #[verifier::spinoff_prover]
    pub fn new() -> (r: Self)
        ensures
            r@ == TopTracksModel::empty(),
            r@.wf(),
    {
        let r = TopTracks {
            country: None,
            track: Vec::new(),
            unknown_fields: Vec::new(),
        };
        assert(Track::seq_model(r.track@) =~= Seq::<TrackModel>::empty());
        assert(unknown_models(r.unknown_fields@) =~= Seq::<UnknownFieldModel>::empty());
        proof {
            TopTracksModel::lemma_empty_wf();
        }
        r
    }

    /// Unsets field `country`.
    #[verifier::spinoff_prover]
    pub fn clear_country(&mut self)
        ensures
            final(self)@ == (TopTracksModel { country: None, ..old(self)@ }),
    {
        self.country = None;
    }

    /// Whether field `country` is set.
    #[verifier::spinoff_prover]
    pub fn has_country(&self) -> (r: bool)
        ensures
            r == self@.country is Some,
    {
        self.country.is_some()
    }

    /// Sets field `country` to `v`.
    #[verifier::spinoff_prover]
    pub fn set_country(&mut self, v: String)
        ensures
            final(self)@ == (TopTracksModel { country: Some(v@), ..old(self)@ }),
    {
        self.country = Some(v);
    }

    /// Field `country`, to change in place; an unset field is first set to its default.
    #[verifier::spinoff_prover]
    pub fn mut_country(&mut self) -> (r: &mut String)
        ensures
            r@ == chars_or_empty(old(self)@.country),
            final(self)@ == (TopTracksModel { country: Some(final(r)@), ..old(self)@ }),

    {
        if self.country.is_none() {
            self.country = Some(String::new());
        }
        opt_as_mut(&mut self.country).unwrap()
    }

    /// Takes field `country` (its default when unset), leaving it unset.
    #[verifier::spinoff_prover]
    pub fn take_country(&mut self) -> (r: String)
        ensures
            r@ == chars_or_empty(old(self)@.country),
            final(self)@ == (TopTracksModel { country: None, ..old(self)@ }),
    {
        let mut t = None;
        std::mem::swap(&mut t, &mut self.country);
        match t {
            Some(v) => v,
            None => String::new(),
        }
    }

    /// Field `country`, or the empty string when unset.
    #[verifier::spinoff_prover]
    pub fn get_country(&self) -> (r: &str)
        ensures
            r@ == chars_or_empty(self@.country),
    {
        match &self.country {
            Some(v) => v.as_str(),
            None => {
                proof {
                    reveal_strlit("");
                }
                ""
            },
        }
    }

    /// Empties field `track`.
    #[verifier::spinoff_prover]
    pub fn clear_track(&mut self)
        ensures
            final(self)@ == (TopTracksModel { track: Seq::empty(), ..old(self)@ }),
    {
        self.track = Vec::new();
        assert(Track::seq_model(self.track@) =~= Seq::<TrackModel>::empty());
    }

    /// Sets field `track` to the elements of `v`.
    #[verifier::spinoff_prover]
    pub fn set_track(&mut self, v: Vec<Track>)
        ensures
            final(self)@ == (TopTracksModel { track: Track::seq_model(v@), ..old(self)@ }),
    {
        self.track = v;
    }

    /// The elements of field `track`, to change in place.
    #[verifier::spinoff_prover]
    pub fn mut_track(&mut self) -> (r: &mut Vec<Track>)
        ensures
            Track::seq_model(r@) == old(self)@.track,
            final(self)@ == (TopTracksModel { track: Track::seq_model(final(r)@), ..old(self)@ }),
    {
        field_mut(&mut self.track)
    }

    /// Takes the elements of field `track`, leaving it empty.
    #[verifier::spinoff_prover]
    pub fn take_track(&mut self) -> (r: Vec<Track>)
        ensures
            Track::seq_model(r@) == old(self)@.track,
            final(self)@ == (TopTracksModel { track: Seq::empty(), ..old(self)@ }),
    {
        let mut r = Vec::new();
        std::mem::swap(&mut r, &mut self.track);
        assert(Track::seq_model(self.track@) =~= Seq::<TrackModel>::empty());
        r
    }

    /// The elements of field `track`.
    #[verifier::spinoff_prover]
    pub fn get_track(&self) -> (r: &[Track])
        ensures
            Track::seq_model(r@) == self@.track,
    {
        self.track.as_slice()
    }

    /// Merges one field whose tag (number `f`, wire type `wt`) has been read
    /// from the bytes `s` that follow the tag; returns the number of bytes the
    /// value took.
    #[verifier::spinoff_prover]
    fn merge_field(&mut self, f: u32, wt: u32, s: &[u8], lim: u64) -> (r: Option<usize>)
        ensures
            match old(self)@.merge_field(f, wt, s@, lim as nat) {
                Some((m, k)) => r == Some(k as usize) && final(self)@ == m,
                None => r is None && final(self)@ == old(self)@.merge_field_failed(f, wt, s@, lim as nat),
            },
        decreases s@.len(), 1int,
    {

        proof {
            reveal_with_fuel(TrackModel::merge, 1);
        }
        if f == 1 {
            if wt != WIRE_LENGTH_DELIMITED {
                return None;
            }
            match read_string(s) {
                Some((v, k)) => {
                    self.country = Some(v);
                    Some(k)
                },
                None => {
                    self.country = Some(String::new());
                    None
                },
            }
        } else if f == 2 {
            if wt != WIRE_LENGTH_DELIMITED {
                return None;
            }
            match read_embedded_window(s, lim) {
                Some((a, b, past)) => {
                    if a == 0 || a > b || b > s.len() {
                        let x = Track::new();
                        let ghost old_v = self.track@;
                        field_mut(&mut self.track).push(x);
                        proof {
                            assert(self.track@ =~= old_v.push(self.track@.last()));
                            Track::lemma_seq_model_push(old_v, self.track@.last());
                        }
                        return None;
                    }
                    let sub = &s[a..b];
                    let mut x = Track::new();
                    let ok = x.merge_from_slice(sub, past);
                    let ghost old_v = self.track@;
                    field_mut(&mut self.track).push(x);
                    proof {
                        assert(self.track@ =~= old_v.push(self.track@.last()));
                        Track::lemma_seq_model_push(old_v, self.track@.last());
                    }
                    if ok {
                        Some(b)
                    } else {
                        None
                    }
                },
                None => {
                    let x = Track::new();
                    let ghost old_v = self.track@;
                    field_mut(&mut self.track).push(x);
                    proof {
                        assert(self.track@ =~= old_v.push(self.track@.last()));
                        Track::lemma_seq_model_push(old_v, self.track@.last());
                    }
                    None
                },
            }
        } else {
            match read_unknown(f, wt, s) {
                Some((Some(u), k)) => {
                    insert_unknown(field_mut(&mut self.unknown_fields), u);
                    Some(k)
                },
                Some((None, k)) => Some(k),
                None => None,
            }
        }
    }

    /// Merges all the fields that `s` holds, in order; `false` when the bytes
    /// are not a valid encoding (the message then holds what was merged so far).
    #[verifier::spinoff_prover]
    #[verifier::rlimit(100)]
    fn merge_from_slice(&mut self, s: &[u8], lim: u64) -> (ok: bool)
        ensures
            match old(self)@.merge(s@, lim as nat) {
                Some(m) => ok && final(self)@ == m,
                None => !ok && final(self)@ == old(self)@.merge_partial(s@, lim as nat),
            },
        decreases s@.len(), 2int,
    {
        proof {
            reveal_with_fuel(TopTracksModel::merge, 1);
            reveal_with_fuel(TopTracksModel::merge_partial, 1);
        }
        let mut pos: usize = 0;
        assert(s@.skip(0) =~= s@);
        while pos < s.len()
            invariant
                pos <= s.len(),
                old(self)@.merge(s@, lim as nat) == self@.merge(s@.skip(pos as int), lim as nat),
                old(self)@.merge_partial(s@, lim as nat) == self@.merge_partial(s@.skip(pos as int), lim as nat),
            decreases s.len() - pos,
        {
            let rest = &s[pos..s.len()];
            assert(rest@ == s@.skip(pos as int));
            proof {
                reveal_with_fuel(TopTracksModel::merge, 1);
                reveal_with_fuel(TopTracksModel::merge_partial, 1);
                lemma_tag_parse_len(rest@);
            }
            match pb_read_tag_unpack(rest) {
                None => {
                    return false;
                },
                Some((f, wt, n)) => {
                    if n == 0 || n > rest.len() {
                        return false;
                    }
                    let rest2 = &rest[n..rest.len()];
                    assert(rest2@ == rest@.skip(n as int));
                    proof {
                        self@.lemma_merge_field_len(f, wt, rest2@, lim as nat);
                    }
                    match self.merge_field(f, wt, rest2, lim) {
                        None => {
                            return false;
                        },
                        Some(k) => {
                            if k > rest2.len() {
                                return false;
                            }
                            assert(rest@.skip((n + k) as int) =~= s@.skip((pos + n + k) as int));
                            pos = pos + n + k;
                        },
                    }
                },
            }
        }
        assert(s@.skip(pos as int) =~= Seq::<u8>::empty());
        proof {
            reveal_with_fuel(TopTracksModel::merge, 1);
        }
        true
    }

    /// The message that `s` encodes, if it is a valid encoding.
    #[verifier::spinoff_prover]
    fn parse_slice(s: &[u8], lim: u64) -> (r: Option<Self>)
        ensures
            match TopTracksModel::empty().merge(s@, lim as nat) {
                Some(m) => r matches Some(x) && x@ == m,
                None => r is None,
            },
        decreases s@.len(), 3int,
    {
        let mut m = TopTracks::new();
        if m.merge_from_slice(s, lim) {
            Some(m)
        } else {
            None
        }
    }

    /// Merges the fields that `bytes` encodes into this message, in order: a set
    /// field is replaced, a repeated field grows. On an invalid encoding the
    /// error comes back, the fields merged before the first field that could not
    /// be read stay merged, and that field is left as `merge_field_failed` says.
    #[verifier::spinoff_prover]
    pub fn merge_from_bytes(&mut self, bytes: &[u8]) -> (r: Result<(), DecodeError>)
        ensures
            match old(self)@.merge(bytes@, top_limit(bytes@.len())) {
                Some(m) => r is Ok && final(self)@ == m,
                None => r is Err && final(self)@ == old(self)@.merge_partial(bytes@, top_limit(bytes@.len())),
            },
    {
        let lim: u64 = u64::MAX - bytes.len() as u64;
        if self.merge_from_slice(bytes, lim) {
            Ok(())
        } else {
            Err(DecodeError)
        }
    }

    /// Parses a message from its encoding.
    #[verifier::spinoff_prover]
    pub fn parse_from_bytes(bytes: &[u8]) -> (r: Result<Self, DecodeError>)
        ensures
            match TopTracksModel::empty().merge(bytes@, top_limit(bytes@.len())) {
                Some(m) => r matches Ok(x) && x@ == m,
                None => r is Err,
            },
    {
        let lim: u64 = u64::MAX - bytes.len() as u64;
        match Self::parse_slice(bytes, lim) {
            Some(m) => Ok(m),
            None => Err(DecodeError),
        }
    }

    /// Appends the encoding of field `country` to `out`.
    #[verifier::spinoff_prover]
    fn write_field_country(&self, out: &mut Vec<u8>)
        requires
            self@.wf(),
        ensures
            final(out)@ == old(out)@ + opt_length_delimited_field_bytes(1, match self@.country { Some(c) => Some(encode_utf8(c)), None => None }),
            final(out)@ + self@.encoded_from_track() == old(out)@ + self@.encoded_from_country(),
    {
        proof {
            reveal_with_fuel(TopTracksModel::wf, 1);
        }
        let ghost o = out@;
        let ghost m = self@;
        match &self.country {
            Some(v) => {
                pb_write_tag(out, 1, WIRE_LENGTH_DELIMITED);
                write_string_value(out, v.as_str());
                proof {
                    lemma_concat_assoc(o, tag_bytes(1, WIRE_LENGTH_DELIMITED), bytes_value_bytes(encode_utf8(v@)));
                }
            },
            None => {
                assert(o + Seq::<u8>::empty() =~= o);
            },
        }
        proof {
            lemma_concat_assoc(o, opt_length_delimited_field_bytes(1, match m.country { Some(c) => Some(encode_utf8(c)), None => None }), m.encoded_from_track());
        }
    }

    /// Appends the encoding of field `track` to `out`.
    #[verifier::spinoff_prover]
    fn write_field_track(&self, out: &mut Vec<u8>)
        requires
            self@.wf(),
        ensures
            final(out)@ == old(out)@ + TrackModel::list_bytes(2, self@.track),
            final(out)@ + self@.encoded_from_unknown_fields() == old(out)@ + self@.encoded_from_track(),
        decreases self, 1int,
    {
        proof {
            reveal_with_fuel(TopTracksModel::wf, 1);
        }
        let ghost o = out@;
        let ghost m = self@;
        proof {
            Track::lemma_seq_model(self.track@);
        }
        let ghost w = TrackModel::encodings(m.track);
        assert(w.subrange(0, w.len() as int) =~= w);
        assert(o + Seq::<u8>::empty() =~= o);
        let mut i: usize = 0;
        while i < self.track.len()
            invariant
                i <= self.track.len(),
                self@ == m,
                m.wf(),
                w.len() == self.track@.len(),
                w == TrackModel::encodings(m.track),
                o + length_delimited_list_bytes(2, w) == out@ + length_delimited_list_bytes(2, w.subrange(i as int, w.len() as int)),
            decreases self.track.len() - i,
        {
            proof {
                reveal_with_fuel(TopTracksModel::wf, 1);
                Track::lemma_seq_model(self.track@);
                TrackModel::lemma_writable_list(m.track);
                lemma_length_delimited_list_cons(2, w.subrange(i as int, w.len() as int));
                assert(m.track[i as int] == self.track@[i as int]@);
                assert(m.track[i as int].wf());
                assert(w.subrange(i as int, w.len() as int)[0] == w[i as int]);
                assert(w.subrange(i as int, w.len() as int).subrange(1, w.len() - i) =~= w.subrange(i + 1, w.len() as int));
            }
            let ghost before = out@;
            let mut tmp: Vec<u8> = Vec::new();
            self.track[i].write_to(&mut tmp);
            assert(tmp@ =~= w[i as int]);
            pb_write_tag(out, 2, WIRE_LENGTH_DELIMITED);
            write_bytes_value(out, tmp.as_slice());
            proof {
                lemma_write_list_step(before, tag_bytes(2, WIRE_LENGTH_DELIMITED), bytes_value_bytes(w[i as int]), length_delimited_list_bytes(2, w.subrange(i + 1, w.len() as int)), Seq::<u8>::empty());
                assert(length_delimited_list_bytes(2, w.subrange(i + 1, w.len() as int)) + Seq::<u8>::empty() =~= length_delimited_list_bytes(2, w.subrange(i + 1, w.len() as int)));
                assert(tag_bytes(2, WIRE_LENGTH_DELIMITED) + (bytes_value_bytes(w[i as int]) + length_delimited_list_bytes(2, w.subrange(i + 1, w.len() as int))) + Seq::<u8>::empty() =~= tag_bytes(2, WIRE_LENGTH_DELIMITED) + (bytes_value_bytes(w[i as int]) + length_delimited_list_bytes(2, w.subrange(i + 1, w.len() as int))));
            }
            i = i + 1;
        }
        assert(w.subrange(i as int, w.len() as int) =~= Seq::<Seq<u8>>::empty());
        assert(out@ + Seq::<u8>::empty() =~= out@);
        proof {
            TrackModel::lemma_list_bytes(2, m.track);
            lemma_concat_assoc(o, TrackModel::list_bytes(2, m.track), m.encoded_from_unknown_fields());
        }
    }

    /// Appends the fields of unknown numbers to `out`.
    #[verifier::spinoff_prover]
    fn write_unknown_fields(&self, out: &mut Vec<u8>)
        requires
            self@.wf(),
        ensures
            final(out)@ == old(out)@ + unknown_list_bytes(self@.unknown_fields),
    {
        proof {
            reveal_with_fuel(TopTracksModel::wf, 1);
        }
        let ghost o = out@;
        let ghost m = self@;
        let mut j: usize = 0;
        assert(m.unknown_fields.subrange(0, m.unknown_fields.len() as int) =~= m.unknown_fields);
        assert(o + Seq::<u8>::empty() =~= o);
        while j < self.unknown_fields.len()
            invariant
                j <= self.unknown_fields.len(),
                self@ == m,
                m.wf(),
                o + unknown_list_bytes(m.unknown_fields) == out@ + unknown_list_bytes(m.unknown_fields.subrange(j as int, m.unknown_fields.len() as int)),
            decreases self.unknown_fields.len() - j,
        {
            proof {
                reveal_with_fuel(TopTracksModel::wf, 1);
                lemma_unknown_list_cons(m.unknown_fields.subrange(j as int, m.unknown_fields.len() as int));
                assert(m.unknown_fields[j as int] == self.unknown_fields@[j as int]@);
                assert(m.unknown_fields.subrange(j as int, m.unknown_fields.len() as int)[0] == m.unknown_fields[j as int]);
                assert(m.unknown_fields.subrange(j as int, m.unknown_fields.len() as int).subrange(1, m.unknown_fields.len() - j) =~= m.unknown_fields.subrange(j + 1, m.unknown_fields.len() as int));
            }
            let ghost before = out@;
            write_unknown(out, &self.unknown_fields[j]);
            proof {
                lemma_concat_assoc(before, unknown_field_bytes(m.unknown_fields[j as int]), unknown_list_bytes(m.unknown_fields.subrange(j + 1, m.unknown_fields.len() as int)));
            }
            j = j + 1;
        }
        assert(m.unknown_fields.subrange(j as int, m.unknown_fields.len() as int) =~= Seq::<UnknownFieldModel>::empty());
        assert(out@ =~= o + unknown_list_bytes(m.unknown_fields));
    }

    /// Appends the encoding of the message to `out`.
    #[verifier::spinoff_prover]
    fn write_to(&self, out: &mut Vec<u8>)
        requires
            self@.wf(),
        ensures
            final(out)@ == old(out)@ + self@.to_bytes(),
        decreases self, 2int,
    {
        proof {
            reveal_with_fuel(TopTracksModel::to_bytes, 1);
        }
        let ghost o = out@;
        let ghost m = self@;
        assert(o + m.to_bytes() == out@ + m.encoded_from_country());
        self.write_field_country(out);
        self.write_field_track(out);
        self.write_unknown_fields(out);
    }

    /// The encoding of the message.
    #[verifier::spinoff_prover]
    pub fn write_to_bytes(&self) -> (r: Vec<u8>)
        requires
            self@.wf(),
        ensures
            r@ == self@.to_bytes(),
    {
        let mut out: Vec<u8> = Vec::new();
        self.write_to(&mut out);
        assert(out@ =~= self@.to_bytes());
        out
    }

    /// The length of the encoding of the message.
    #[verifier::spinoff_prover]
    pub fn compute_size(&self) -> (r: u32)
        requires
            self@.wf(),
            self@.to_bytes().len() <= u32::MAX,
        ensures
            r == self@.to_bytes().len(),
    {
        let v = self.write_to_bytes();
        v.len() as u32
    }
    /// A copy of the message.
    #[verifier::spinoff_prover]
    pub fn clone_message(&self) -> (r: Self)
        ensures
            r@ == self@,
        decreases self,
    {
        let country = clone_opt_string(&self.country);
        let mut track: Vec<Track> = Vec::new();
        let mut i: usize = 0;
        while i < self.track.len()
            invariant
                i <= self.track@.len(),
                track@.len() == i,
                forall|j: int| 0 <= j < i ==> #[trigger] track@[j]@ == self.track@[j]@,
            decreases self.track@.len() - i,
        {
            track.push(self.track[i].clone_message());
            i = i + 1;
        }
        proof {
            Track::lemma_seq_model(track@);
            Track::lemma_seq_model(self.track@);
        }
        assert(Track::seq_model(track@) =~= Track::seq_model(self.track@));
        let unknown_fields = clone_unknown_fields(&self.unknown_fields);
        TopTracks { country, track, unknown_fields }
    }

}

impl Clone for TopTracks {
    #[verifier::spinoff_prover]
    fn clone(&self) -> (r: Self)
        ensures
            r@ == self@,
    {
        self.clone_message()
    }
}

impl Default for TopTracks {
    #[verifier::spinoff_prover]
    fn default() -> (r: Self)
        ensures
            r@ == TopTracksModel::empty(),
    {
        TopTracks::new()
    }
}

/// The `ActivityPeriod` message.
#[allow(non_snake_case)]
#[derive(Debug, PartialEq)]
pub struct ActivityPeriod {
    start_year: Option<i32>,
    end_year: Option<i32>,
    decade: Option<i32>,
    unknown_fields: Vec<UnknownField>,
}

/// The model of a `ActivityPeriod`: each field's value, `None` or empty when unset,
/// and the fields of unknown numbers, in the order they were read.
#[allow(non_snake_case)]
pub struct ActivityPeriodModel {
    pub start_year: Option<i32>,
    pub end_year: Option<i32>,
    pub decade: Option<i32>,
    pub unknown_fields: Seq<UnknownFieldModel>,
}

impl View for ActivityPeriod {
    type V = ActivityPeriodModel;

    closed spec fn view(&self) -> ActivityPeriodModel {
        ActivityPeriodModel {
            start_year: self.start_year,
            end_year: self.end_year,
            decade: self.decade,
            unknown_fields: unknown_models(self.unknown_fields@),
        }
    }
}

#[allow(non_snake_case)]
impl ActivityPeriodModel {
    /// The model of a message with no field set.
    pub open spec fn empty() -> Self {
        ActivityPeriodModel {
            start_year: None,
            end_year: None,
            decade: None,
            unknown_fields: Seq::empty(),
        }
    }

    /// The encodings of a list of messages.
    pub open spec fn encodings(v: Seq<ActivityPeriodModel>) -> Seq<Seq<u8>> {
        v.map_values(|m: ActivityPeriodModel| m.to_bytes())
    }

    /// Every message of a list can be written, and its encoding fits a 32-bit length.
    pub open spec fn all_writable(v: Seq<ActivityPeriodModel>) -> bool {
        forall|i: int| 0 <= i < v.len() ==> #[trigger] v[i].wf() && fits_u32(v[i].to_bytes())
    }

    /// The field numbers that this message knows.
    pub open spec fn is_known_field(f: u32) -> bool {
        f == 1 || f == 2 || f == 3
    }

    /// Merging one field whose tag (number `f`, wire type `wt`) has been read;
    /// `s` holds the bytes after the tag. The result is the merged model and
    /// the number of bytes the value took; a set field is replaced, a repeated
    /// field grows, a field of unknown number is kept or, if a group, skipped.
    pub open spec fn merge_field(self, f: u32, wt: u32, s: Seq<u8>, lim: nat) -> Option<(Self, nat)> {
        if f == 1 {
            if wt != WIRE_VARINT {
                None
            } else {
                match varint_parse(s) {
                    Some((v, k)) => Some((ActivityPeriodModel { start_year: Some(zigzag_decode32(v as u32)), ..self }, k)),
                    None => None,
                }
            }
        } else if f == 2 {
            if wt != WIRE_VARINT {
                None
            } else {
                match varint_parse(s) {
                    Some((v, k)) => Some((ActivityPeriodModel { end_year: Some(zigzag_decode32(v as u32)), ..self }, k)),
                    None => None,
                }
            }
        } else if f == 3 {
            if wt != WIRE_VARINT {
                None
            } else {
                match varint_parse(s) {
                    Some((v, k)) => Some((ActivityPeriodModel { decade: Some(zigzag_decode32(v as u32)), ..self }, k)),
                    None => None,
                }
            }
        } else {
            match unknown_parse(f, wt, s) {
                Some((Some(u), k)) => Some((ActivityPeriodModel { unknown_fields: grouped_insert(self.unknown_fields, u), ..self }, k)),
                Some((None, k)) => Some((self, k)),
                None => None,
            }
        }
    }

    /// What is left of the model when merging one field (number `f`, wire type
    /// `wt`, value at the front of `s`) fails: a string, bytes or message field
    /// of the right wire type is first set to its empty value (a repeated one
    /// gets an empty element) and an embedded message keeps the fields merged
    /// into it before the failure; packed values read before the failure stay.
    pub open spec fn merge_field_failed(self, f: u32, wt: u32, s: Seq<u8>, lim: nat) -> Self {
        self
    }

    /// The value of a merged field takes no more than the bytes after its tag.
    pub proof fn lemma_merge_field_len(self, f: u32, wt: u32, s: Seq<u8>, lim: nat)
        ensures
            self.merge_field(f, wt, s, lim) matches Some((_m, k)) ==> k <= s.len(),
    {
        lemma_varint_parse_len(s);
        crate::wire::lemma_unknown_parse_len(f, wt, s);
    }

    /// Merging all the fields that `s` holds, in order, where the length of an
    /// embedded message may reach `lim` bytes past the end of `s` (such a message
    /// is read up to the end of `s`).
    #[verifier::opaque]
    pub open spec fn merge(self, s: Seq<u8>, lim: nat) -> Option<Self>
        decreases s.len(),
    {
        if s.len() == 0 {
            Some(self)
        } else {
            match tag_parse(s) {
                Some((f, wt, n)) => if 0 < n <= s.len() {
                    match self.merge_field(f, wt, s.skip(n as int), lim) {
                        Some((m, k)) => if n + k <= s.len() {
                            m.merge(s.skip((n + k) as int), lim)
                        } else {
                            None
                        },
                        None => None,
                    }
                } else {
                    None
                },
                None => None,
            }
        }
    }

    /// What merging `s` leaves: the fields merged in order up to the first one
    /// whose tag or value cannot be read, then what `merge_field_failed` leaves of
    /// that one; all of `s` where it is a valid encoding.
    #[verifier::opaque]
    pub open spec fn merge_partial(self, s: Seq<u8>, lim: nat) -> Self
        decreases s.len(),
    {
        if s.len() == 0 {
            self
        } else {
            match tag_parse(s) {
                Some((f, wt, n)) => if 0 < n <= s.len() {
                    match self.merge_field(f, wt, s.skip(n as int), lim) {
                        Some((m, k)) => if n + k <= s.len() {
                            m.merge_partial(s.skip((n + k) as int), lim)
                        } else {
                            m
                        },
                        None => self.merge_field_failed(f, wt, s.skip(n as int), lim),
                    }
                } else {
                    self
                },
                None => self,
            }
        }
    }

    /// The encoding of field `start_year` and of every field written after it.
    pub open spec fn encoded_from_start_year(self) -> Seq<u8> {
        opt_varint_field_bytes(1, match self.start_year { Some(x) => Some(zigzag_encode32(x) as u64), None => None }) + self.encoded_from_end_year()
    }

    /// The encoding of field `end_year` and of every field written after it.
    pub open spec fn encoded_from_end_year(self) -> Seq<u8> {
        opt_varint_field_bytes(2, match self.end_year { Some(x) => Some(zigzag_encode32(x) as u64), None => None }) + self.encoded_from_decade()
    }

    /// The encoding of field `decade` and of every field written after it.
    pub open spec fn encoded_from_decade(self) -> Seq<u8> {
        opt_varint_field_bytes(3, match self.decade { Some(x) => Some(zigzag_encode32(x) as u64), None => None }) + self.encoded_from_unknown_fields()
    }

    /// The encoding of the fields of unknown numbers, written last.
    pub open spec fn encoded_from_unknown_fields(self) -> Seq<u8> {
        unknown_list_bytes(self.unknown_fields)
    }

    /// The encoding of the message: its set fields in order of declaration,
    /// each element of a repeated field in order, then the unknown fields.
    #[verifier::opaque]
    pub open spec fn to_bytes(self) -> Seq<u8> {
        self.encoded_from_start_year()
    }

    /// A model that can be written and read back: every length fits the
    /// 32-bit length prefix, nested messages can be written, and the unknown
    /// fields have valid numbers that this message does not know.
    #[verifier::opaque]
    pub open spec fn wf(self) -> bool {
        &&& (forall|i: int| 0 <= i < self.unknown_fields.len() ==> unknown_field_wf(#[trigger] self.unknown_fields[i]) && !Self::is_known_field(self.unknown_fields[i].number))
        &&& unknown_grouped(self.unknown_fields)
    }

    /// The message with no field set can be written and read back.
    pub proof fn lemma_empty_wf()
        ensures
            Self::empty().wf(),
    {
        reveal_with_fuel(ActivityPeriodModel::wf, 1);
        lemma_grouped_empty();
    }

    /// Merging a field's tag and value, whatever follows them.
    pub proof fn lemma_merge_step(acc: Self, f: u32, wt: u32, t: Seq<u8>, b: Seq<u8>, rest: Seq<u8>, acc2: Self, lim: nat)
        requires
            tag_parse(t + (b + rest)) == Some((f, wt, t.len())),
            t.len() > 0,
            acc.merge_field(f, wt, b + rest, lim) == Some((acc2, b.len())),
        ensures
            acc.merge(t + (b + rest), lim) == acc2.merge(rest, lim),
    {
        reveal_with_fuel(ActivityPeriodModel::merge, 1);
        lemma_skip_chunk(t, b, rest);
    }

    /// Merging the encoding of field `start_year` sets it, whatever follows.
    pub proof fn lemma_merge_start_year(acc: Self, v: Option<i32>, rest: Seq<u8>, lim: nat)
        ensures
            acc.merge(opt_varint_field_bytes(1, match v { Some(x) => Some(zigzag_encode32(x) as u64), None => None }) + rest, lim) == (ActivityPeriodModel { start_year: if v is Some { v } else { acc.start_year }, ..acc }).merge(rest, lim),
    {
        match v {
            None => {
                assert(opt_varint_field_bytes(1, match v { Some(x) => Some(zigzag_encode32(x) as u64), None => None }) + rest =~= rest);
                assert((ActivityPeriodModel { start_year: acc.start_year, ..acc }) == acc);
            },
            Some(x) => {
                let t = tag_bytes(1, WIRE_VARINT);
                let b = varint_bytes(zigzag_encode32(x) as u64);
                assert(opt_varint_field_bytes(1, match v { Some(x) => Some(zigzag_encode32(x) as u64), None => None }) + rest =~= t + (b + rest));
                lemma_tag_roundtrip(1, WIRE_VARINT, b + rest);
                lemma_varint_roundtrip(zigzag_encode32(x) as u64, rest);
                    lemma_varint_casts(0, 0, 0, false, x);
                    crate::wire::lemma_zigzag_roundtrip(x);
                Self::lemma_merge_step(acc, 1, WIRE_VARINT, t, b, rest, ActivityPeriodModel { start_year: v, ..acc }, lim);
            },
        }
    }

    /// Merging the encoding of field `end_year` sets it, whatever follows.
    pub proof fn lemma_merge_end_year(acc: Self, v: Option<i32>, rest: Seq<u8>, lim: nat)
        ensures
            acc.merge(opt_varint_field_bytes(2, match v { Some(x) => Some(zigzag_encode32(x) as u64), None => None }) + rest, lim) == (ActivityPeriodModel { end_year: if v is Some { v } else { acc.end_year }, ..acc }).merge(rest, lim),
    {
        match v {
            None => {
                assert(opt_varint_field_bytes(2, match v { Some(x) => Some(zigzag_encode32(x) as u64), None => None }) + rest =~= rest);
                assert((ActivityPeriodModel { end_year: acc.end_year, ..acc }) == acc);
            },
            Some(x) => {
                let t = tag_bytes(2, WIRE_VARINT);
                let b = varint_bytes(zigzag_encode32(x) as u64);
                assert(opt_varint_field_bytes(2, match v { Some(x) => Some(zigzag_encode32(x) as u64), None => None }) + rest =~= t + (b + rest));
                lemma_tag_roundtrip(2, WIRE_VARINT, b + rest);
                lemma_varint_roundtrip(zigzag_encode32(x) as u64, rest);
                    lemma_varint_casts(0, 0, 0, false, x);
                    crate::wire::lemma_zigzag_roundtrip(x);
                Self::lemma_merge_step(acc, 2, WIRE_VARINT, t, b, rest, ActivityPeriodModel { end_year: v, ..acc }, lim);
            },
        }
    }

    /// Merging the encoding of field `decade` sets it, whatever follows.
    pub proof fn lemma_merge_decade(acc: Self, v: Option<i32>, rest: Seq<u8>, lim: nat)
        ensures
            acc.merge(opt_varint_field_bytes(3, match v { Some(x) => Some(zigzag_encode32(x) as u64), None => None }) + rest, lim) == (ActivityPeriodModel { decade: if v is Some { v } else { acc.decade }, ..acc }).merge(rest, lim),
    {
        match v {
            None => {
                assert(opt_varint_field_bytes(3, match v { Some(x) => Some(zigzag_encode32(x) as u64), None => None }) + rest =~= rest);
                assert((ActivityPeriodModel { decade: acc.decade, ..acc }) == acc);
            },
            Some(x) => {
                let t = tag_bytes(3, WIRE_VARINT);
                let b = varint_bytes(zigzag_encode32(x) as u64);
                assert(opt_varint_field_bytes(3, match v { Some(x) => Some(zigzag_encode32(x) as u64), None => None }) + rest =~= t + (b + rest));
                lemma_tag_roundtrip(3, WIRE_VARINT, b + rest);
                lemma_varint_roundtrip(zigzag_encode32(x) as u64, rest);
                    lemma_varint_casts(0, 0, 0, false, x);
                    crate::wire::lemma_zigzag_roundtrip(x);
                Self::lemma_merge_step(acc, 3, WIRE_VARINT, t, b, rest, ActivityPeriodModel { decade: v, ..acc }, lim);
            },
        }
    }

    /// Merging the encoding of fields of unknown numbers keeps them, whatever follows.
    #[verifier::rlimit(50)]
    pub proof fn lemma_merge_unknown_fields(acc: Self, v: Seq<UnknownFieldModel>, rest: Seq<u8>, lim: nat)
        requires
            forall|i: int| 0 <= i < v.len() ==> unknown_field_wf(#[trigger] v[i]) && !Self::is_known_field(v[i].number),
            unknown_grouped(acc.unknown_fields + v),
        ensures
            acc.merge(unknown_list_bytes(v) + rest, lim) == (ActivityPeriodModel { unknown_fields: acc.unknown_fields + v, ..acc }).merge(rest, lim),
        decreases v.len(),
    {
        if v.len() == 0 {
            assert(unknown_list_bytes(v) + rest =~= rest);
            assert(acc.unknown_fields + v =~= acc.unknown_fields);
            assert((ActivityPeriodModel { unknown_fields: acc.unknown_fields + v, ..acc }) == acc);
        } else {
            lemma_unknown_list_cons(v);
            let u = v[0];
            let wt = crate::wire::unknown_wire_type(u.value);
            let t = tag_bytes(u.number, wt);
            let b = crate::wire::unknown_value_bytes(u.value);
            let tail = unknown_list_bytes(v.subrange(1, v.len() as int));
            assert(unknown_list_bytes(v) + rest =~= t + (b + (tail + rest)));
            assert(unknown_field_bytes(u) + (tail + rest) =~= t + (b + (tail + rest)));
            lemma_unknown_roundtrip(u, tail + rest);
            assert((t + (b + (tail + rest))).skip(t.len() as int) =~= b + (tail + rest));
            crate::wire::lemma_tag_roundtrip(u.number, wt, b + (tail + rest));
            let acc1 = ActivityPeriodModel { unknown_fields: acc.unknown_fields.push(u), ..acc };
            assert(acc.unknown_fields.push(u) =~= (acc.unknown_fields + v).take(acc.unknown_fields.len() + 1int));
            lemma_grouped_take(acc.unknown_fields + v, acc.unknown_fields.len() + 1int);
            lemma_grouped_insert_last(acc.unknown_fields, u);
            Self::lemma_merge_step(acc, u.number, wt, t, b, tail + rest, acc1, lim);
            assert(acc1.unknown_fields + v.subrange(1, v.len() as int) =~= acc.unknown_fields + v);
            Self::lemma_merge_unknown_fields(acc1, v.subrange(1, v.len() as int), rest, lim);
        }
    }

    /// Reading back the encoding of a model that can be written gives the model,
    /// whatever the limit past its end.
    #[verifier::spinoff_prover]
    #[verifier::rlimit(100)]
    pub proof fn lemma_roundtrip(self, lim: nat)
        requires
            self.wf(),
        ensures
            ActivityPeriodModel::empty().merge(self.to_bytes(), lim) == Some(self),
    {
        reveal(ActivityPeriodModel::to_bytes);
        reveal(ActivityPeriodModel::wf);
        reveal_with_fuel(ActivityPeriodModel::merge, 1);
        let a0 = ActivityPeriodModel::empty();
        Self::lemma_merge_start_year(a0, self.start_year, self.encoded_from_end_year(), lim);
        let a1 = ActivityPeriodModel { start_year: if self.start_year is Some { self.start_year } else { a0.start_year }, ..a0 };
        Self::lemma_merge_end_year(a1, self.end_year, self.encoded_from_decade(), lim);
        let a2 = ActivityPeriodModel { end_year: if self.end_year is Some { self.end_year } else { a1.end_year }, ..a1 };
        Self::lemma_merge_decade(a2, self.decade, self.encoded_from_unknown_fields(), lim);
        let a3 = ActivityPeriodModel { decade: if self.decade is Some { self.decade } else { a2.decade }, ..a2 };
        assert(a3.unknown_fields + self.unknown_fields =~= self.unknown_fields);
        Self::lemma_merge_unknown_fields(a3, self.unknown_fields, Seq::empty(), lim);
        assert(unknown_list_bytes(self.unknown_fields) + Seq::<u8>::empty() =~= unknown_list_bytes(self.unknown_fields));
        let last = ActivityPeriodModel { unknown_fields: a3.unknown_fields + self.unknown_fields, ..a3 };
        assert(last.unknown_fields =~= self.unknown_fields);
        assert(last == self);
    }
    /// A message whose only set field is `start_year` is written as field number 1 of the
    /// protocol's definition alone: the tag of that number with the wire type of the field,
    /// then the value.
    pub proof fn lemma_encoding_of_start_year(v: Option<i32>)
        ensures
            (ActivityPeriodModel { start_year: v, ..ActivityPeriodModel::empty() }).to_bytes() == opt_varint_field_bytes(1, match v { Some(x) => Some(zigzag_encode32(x) as u64), None => None }),
    {
        reveal(ActivityPeriodModel::to_bytes);
        let m = ActivityPeriodModel { start_year: v, ..ActivityPeriodModel::empty() };
        assert(m.to_bytes() =~= opt_varint_field_bytes(1, match v { Some(x) => Some(zigzag_encode32(x) as u64), None => None }));
    }

    /// A message whose only set field is `end_year` is written as field number 2 of the
    /// protocol's definition alone: the tag of that number with the wire type of the field,
    /// then the value.
    pub proof fn lemma_encoding_of_end_year(v: Option<i32>)
        ensures
            (ActivityPeriodModel { end_year: v, ..ActivityPeriodModel::empty() }).to_bytes() == opt_varint_field_bytes(2, match v { Some(x) => Some(zigzag_encode32(x) as u64), None => None }),
    {
        reveal(ActivityPeriodModel::to_bytes);
        let m = ActivityPeriodModel { end_year: v, ..ActivityPeriodModel::empty() };
        assert(m.to_bytes() =~= opt_varint_field_bytes(2, match v { Some(x) => Some(zigzag_encode32(x) as u64), None => None }));
    }

    /// A message whose only set field is `decade` is written as field number 3 of the
    /// protocol's definition alone: the tag of that number with the wire type of the field,
    /// then the value.
    pub proof fn lemma_encoding_of_decade(v: Option<i32>)
        ensures
            (ActivityPeriodModel { decade: v, ..ActivityPeriodModel::empty() }).to_bytes() == opt_varint_field_bytes(3, match v { Some(x) => Some(zigzag_encode32(x) as u64), None => None }),
    {
        reveal(ActivityPeriodModel::to_bytes);
        let m = ActivityPeriodModel { decade: v, ..ActivityPeriodModel::empty() };
        assert(m.to_bytes() =~= opt_varint_field_bytes(3, match v { Some(x) => Some(zigzag_encode32(x) as u64), None => None }));
    }

}

#[allow(non_snake_case)]
impl ActivityPeriod {
    /// The models of a list of messages.
    pub open spec fn seq_model(v: Seq<ActivityPeriod>) -> Seq<ActivityPeriodModel> {
        v.map_values(|m: ActivityPeriod| m@)
    }

    /// A message with no field set.
    pub fn new() -> (r: Self)
        ensures
            r@ == ActivityPeriodModel::empty(),
            r@.wf(),
    {
        let r = ActivityPeriod {
            start_year: None,
            end_year: None,
            decade: None,
            unknown_fields: Vec::new(),
        };
        assert(unknown_models(r.unknown_fields@) =~= Seq::<UnknownFieldModel>::empty());
        proof {
            ActivityPeriodModel::lemma_empty_wf();
        }
        r
    }

    /// Unsets field `start_year`.
    pub fn clear_start_year(&mut self)
        ensures
            final(self)@ == (ActivityPeriodModel { start_year: None, ..old(self)@ }),
    {
        self.start_year = None;
    }

    /// Whether field `start_year` is set.
    pub fn has_start_year(&self) -> (r: bool)
        ensures
            r == self@.start_year is Some,
    {
        self.start_year.is_some()
    }

    /// Sets field `start_year` to `v`.
    pub fn set_start_year(&mut self, v: i32)
        ensures
            final(self)@ == (ActivityPeriodModel { start_year: Some(v), ..old(self)@ }),
    {
        self.start_year = Some(v);
    }

    /// Field `start_year`, or `0` when unset.
    pub fn get_start_year(&self) -> (r: i32)
        ensures
            r == (match self@.start_year { Some(x) => x, None => 0i32 }),
    {
        match self.start_year {
            Some(x) => x,
            None => 0i32,
        }
    }

    /// Unsets field `end_year`.
    pub fn clear_end_year(&mut self)
        ensures
            final(self)@ == (ActivityPeriodModel { end_year: None, ..old(self)@ }),
    {
        self.end_year = None;
    }

    /// Whether field `end_year` is set.
    pub fn has_end_year(&self) -> (r: bool)
        ensures
            r == self@.end_year is Some,
    {
        self.end_year.is_some()
    }

    /// Sets field `end_year` to `v`.
    pub fn set_end_year(&mut self, v: i32)
        ensures
            final(self)@ == (ActivityPeriodModel { end_year: Some(v), ..old(self)@ }),
    {
        self.end_year = Some(v);
    }

    /// Field `end_year`, or `0` when unset.
    pub fn get_end_year(&self) -> (r: i32)
        ensures
            r == (match self@.end_year { Some(x) => x, None => 0i32 }),
    {
        match self.end_year {
            Some(x) => x,
            None => 0i32,
        }
    }

    /// Unsets field `decade`.
    pub fn clear_decade(&mut self)
        ensures
            final(self)@ == (ActivityPeriodModel { decade: None, ..old(self)@ }),
    {
        self.decade = None;
    }

    /// Whether field `decade` is set.
    pub fn has_decade(&self) -> (r: bool)
        ensures
            r == self@.decade is Some,
    {
        self.decade.is_some()
    }

    /// Sets field `decade` to `v`.
    pub fn set_decade(&mut self, v: i32)
        ensures
            final(self)@ == (ActivityPeriodModel { decade: Some(v), ..old(self)@ }),
    {
        self.decade = Some(v);
    }

    /// Field `decade`, or `0` when unset.
    pub fn get_decade(&self) -> (r: i32)
        ensures
            r == (match self@.decade { Some(x) => x, None => 0i32 }),
    {
        match self.decade {
            Some(x) => x,
            None => 0i32,
        }
    }

    /// Merges one field whose tag (number `f`, wire type `wt`) has been read
    /// from the bytes `s` that follow the tag; returns the number of bytes the
    /// value took.
    fn merge_field(&mut self, f: u32, wt: u32, s: &[u8], lim: u64) -> (r: Option<usize>)
        ensures
            match old(self)@.merge_field(f, wt, s@, lim as nat) {
                Some((m, k)) => r == Some(k as usize) && final(self)@ == m,
                None => r is None && final(self)@ == old(self)@.merge_field_failed(f, wt, s@, lim as nat),
            },
    {

        if f == 1 {
            if wt != WIRE_VARINT {
                return None;
            }
            match pb_read_sint32(s) {
                Some((v, k)) => {
                    self.start_year = Some(v);
                    Some(k)
                },
                None => None,
            }
        } else if f == 2 {
            if wt != WIRE_VARINT {
                return None;
            }
            match pb_read_sint32(s) {
                Some((v, k)) => {
                    self.end_year = Some(v);
                    Some(k)
                },
                None => None,
            }
        } else if f == 3 {
            if wt != WIRE_VARINT {
                return None;
            }
            match pb_read_sint32(s) {
                Some((v, k)) => {
                    self.decade = Some(v);
                    Some(k)
                },
                None => None,
            }
        } else {
            match read_unknown(f, wt, s) {
                Some((Some(u), k)) => {
                    insert_unknown(field_mut(&mut self.unknown_fields), u);
                    Some(k)
                },
                Some((None, k)) => Some(k),
                None => None,
            }
        }
    }

    /// Merges all the fields that `s` holds, in order; `false` when the bytes
    /// are not a valid encoding (the message then holds what was merged so far).
    #[verifier::spinoff_prover]
    #[verifier::rlimit(50)]
    fn merge_from_slice(&mut self, s: &[u8], lim: u64) -> (ok: bool)
        ensures
            match old(self)@.merge(s@, lim as nat) {
                Some(m) => ok && final(self)@ == m,
                None => !ok && final(self)@ == old(self)@.merge_partial(s@, lim as nat),
            },
    {
        proof {
            reveal_with_fuel(ActivityPeriodModel::merge, 1);
            reveal_with_fuel(ActivityPeriodModel::merge_partial, 1);
        }
        let mut pos: usize = 0;
        assert(s@.skip(0) =~= s@);
        while pos < s.len()
            invariant
                pos <= s.len(),
                old(self)@.merge(s@, lim as nat) == self@.merge(s@.skip(pos as int), lim as nat),
                old(self)@.merge_partial(s@, lim as nat) == self@.merge_partial(s@.skip(pos as int), lim as nat),
            decreases s.len() - pos,
        {
            let rest = &s[pos..s.len()];
            assert(rest@ == s@.skip(pos as int));
            proof {
                reveal_with_fuel(ActivityPeriodModel::merge, 1);
                reveal_with_fuel(ActivityPeriodModel::merge_partial, 1);
                lemma_tag_parse_len(rest@);
            }
            match pb_read_tag_unpack(rest) {
                None => {
                    return false;
                },
                Some((f, wt, n)) => {
                    if n == 0 || n > rest.len() {
                        return false;
                    }
                    let rest2 = &rest[n..rest.len()];
                    assert(rest2@ == rest@.skip(n as int));
                    proof {
                        self@.lemma_merge_field_len(f, wt, rest2@, lim as nat);
                    }
                    match self.merge_field(f, wt, rest2, lim) {
                        None => {
                            return false;
                        },
                        Some(k) => {
                            if k > rest2.len() {
                                return false;
                            }
                            assert(rest@.skip((n + k) as int) =~= s@.skip((pos + n + k) as int));
                            pos = pos + n + k;
                        },
                    }
                },
            }
        }
        assert(s@.skip(pos as int) =~= Seq::<u8>::empty());
        proof {
            reveal_with_fuel(ActivityPeriodModel::merge, 1);
        }
        true
    }

    /// The message that `s` encodes, if it is a valid encoding.
    fn parse_slice(s: &[u8], lim: u64) -> (r: Option<Self>)
        ensures
            match ActivityPeriodModel::empty().merge(s@, lim as nat) {
                Some(m) => r matches Some(x) && x@ == m,
                None => r is None,
            },
    {
        let mut m = ActivityPeriod::new();
        if m.merge_from_slice(s, lim) {
            Some(m)
        } else {
            None
        }
    }

    /// Merges the fields that `bytes` encodes into this message, in order: a set
    /// field is replaced, a repeated field grows. On an invalid encoding the
    /// error comes back, the fields merged before the first field that could not
    /// be read stay merged, and that field is left as `merge_field_failed` says.
    pub fn merge_from_bytes(&mut self, bytes: &[u8]) -> (r: Result<(), DecodeError>)
        ensures
            match old(self)@.merge(bytes@, top_limit(bytes@.len())) {
                Some(m) => r is Ok && final(self)@ == m,
                None => r is Err && final(self)@ == old(self)@.merge_partial(bytes@, top_limit(bytes@.len())),
            },
    {
        let lim: u64 = u64::MAX - bytes.len() as u64;
        if self.merge_from_slice(bytes, lim) {
            Ok(())
        } else {
            Err(DecodeError)
        }
    }

    /// Parses a message from its encoding.
    pub fn parse_from_bytes(bytes: &[u8]) -> (r: Result<Self, DecodeError>)
        ensures
            match ActivityPeriodModel::empty().merge(bytes@, top_limit(bytes@.len())) {
                Some(m) => r matches Ok(x) && x@ == m,
                None => r is Err,
            },
    {
        let lim: u64 = u64::MAX - bytes.len() as u64;
        match Self::parse_slice(bytes, lim) {
            Some(m) => Ok(m),
            None => Err(DecodeError),
        }
    }

    /// Appends the encoding of field `start_year` to `out`.
    fn write_field_start_year(&self, out: &mut Vec<u8>)
        requires
            self@.wf(),
        ensures
            final(out)@ == old(out)@ + opt_varint_field_bytes(1, match self@.start_year { Some(x) => Some(zigzag_encode32(x) as u64), None => None }),
            final(out)@ + self@.encoded_from_end_year() == old(out)@ + self@.encoded_from_start_year(),
    {
        proof {
            reveal(ActivityPeriodModel::wf);
        }
        let ghost o = out@;
        let ghost m = self@;
        match self.start_year {
            Some(x) => {
                pb_write_tag(out, 1, WIRE_VARINT);
                pb_write_sint32_no_tag(out, x);
                proof {
                    lemma_concat_assoc(o, tag_bytes(1, WIRE_VARINT), varint_bytes(zigzag_encode32(x) as u64));
                }
            },
            None => {
                assert(o + Seq::<u8>::empty() =~= o);
            },
        }
        proof {
            lemma_concat_assoc(o, opt_varint_field_bytes(1, match m.start_year { Some(x) => Some(zigzag_encode32(x) as u64), None => None }), m.encoded_from_end_year());
        }
    }

    /// Appends the encoding of field `end_year` to `out`.
    fn write_field_end_year(&self, out: &mut Vec<u8>)
        requires
            self@.wf(),
        ensures
            final(out)@ == old(out)@ + opt_varint_field_bytes(2, match self@.end_year { Some(x) => Some(zigzag_encode32(x) as u64), None => None }),
            final(out)@ + self@.encoded_from_decade() == old(out)@ + self@.encoded_from_end_year(),
    {
        proof {
            reveal(ActivityPeriodModel::wf);
        }
        let ghost o = out@;
        let ghost m = self@;
        match self.end_year {
            Some(x) => {
                pb_write_tag(out, 2, WIRE_VARINT);
                pb_write_sint32_no_tag(out, x);
                proof {
                    lemma_concat_assoc(o, tag_bytes(2, WIRE_VARINT), varint_bytes(zigzag_encode32(x) as u64));
                }
            },
            None => {
                assert(o + Seq::<u8>::empty() =~= o);
            },
        }
        proof {
            lemma_concat_assoc(o, opt_varint_field_bytes(2, match m.end_year { Some(x) => Some(zigzag_encode32(x) as u64), None => None }), m.encoded_from_decade());
        }
    }

    /// Appends the encoding of field `decade` to `out`.
    fn write_field_decade(&self, out: &mut Vec<u8>)
        requires
            self@.wf(),
        ensures
            final(out)@ == old(out)@ + opt_varint_field_bytes(3, match self@.decade { Some(x) => Some(zigzag_encode32(x) as u64), None => None }),
            final(out)@ + self@.encoded_from_unknown_fields() == old(out)@ + self@.encoded_from_decade(),
    {
        proof {
            reveal(ActivityPeriodModel::wf);
        }
        let ghost o = out@;
        let ghost m = self@;
        match self.decade {
            Some(x) => {
                pb_write_tag(out, 3, WIRE_VARINT);
                pb_write_sint32_no_tag(out, x);
                proof {
                    lemma_concat_assoc(o, tag_bytes(3, WIRE_VARINT), varint_bytes(zigzag_encode32(x) as u64));
                }
            },
            None => {
                assert(o + Seq::<u8>::empty() =~= o);
            },
        }
        proof {
            lemma_concat_assoc(o, opt_varint_field_bytes(3, match m.decade { Some(x) => Some(zigzag_encode32(x) as u64), None => None }), m.encoded_from_unknown_fields());
        }
    }

    /// Appends the fields of unknown numbers to `out`.
    fn write_unknown_fields(&self, out: &mut Vec<u8>)
        requires
            self@.wf(),
        ensures
            final(out)@ == old(out)@ + unknown_list_bytes(self@.unknown_fields),
    {
        proof {
            reveal(ActivityPeriodModel::wf);
        }
        let ghost o = out@;
        let ghost m = self@;
        let mut j: usize = 0;
        assert(m.unknown_fields.subrange(0, m.unknown_fields.len() as int) =~= m.unknown_fields);
        assert(o + Seq::<u8>::empty() =~= o);
        while j < self.unknown_fields.len()
            invariant
                j <= self.unknown_fields.len(),
                self@ == m,
                m.wf(),
                o + unknown_list_bytes(m.unknown_fields) == out@ + unknown_list_bytes(m.unknown_fields.subrange(j as int, m.unknown_fields.len() as int)),
            decreases self.unknown_fields.len() - j,
        {
            proof {
                reveal(ActivityPeriodModel::wf);
                lemma_unknown_list_cons(m.unknown_fields.subrange(j as int, m.unknown_fields.len() as int));
                assert(m.unknown_fields[j as int] == self.unknown_fields@[j as int]@);
                assert(m.unknown_fields.subrange(j as int, m.unknown_fields.len() as int)[0] == m.unknown_fields[j as int]);
                assert(m.unknown_fields.subrange(j as int, m.unknown_fields.len() as int).subrange(1, m.unknown_fields.len() - j) =~= m.unknown_fields.subrange(j + 1, m.unknown_fields.len() as int));
            }
            let ghost before = out@;
            write_unknown(out, &self.unknown_fields[j]);
            proof {
                lemma_concat_assoc(before, unknown_field_bytes(m.unknown_fields[j as int]), unknown_list_bytes(m.unknown_fields.subrange(j + 1, m.unknown_fields.len() as int)));
            }
            j = j + 1;
        }
        assert(m.unknown_fields.subrange(j as int, m.unknown_fields.len() as int) =~= Seq::<UnknownFieldModel>::empty());
        assert(out@ =~= o + unknown_list_bytes(m.unknown_fields));
    }

    /// Appends the encoding of the message to `out`.
    fn write_to(&self, out: &mut Vec<u8>)
        requires
            self@.wf(),
        ensures
            final(out)@ == old(out)@ + self@.to_bytes(),
    {
        proof {
            reveal(ActivityPeriodModel::to_bytes);
        }
        let ghost o = out@;
        let ghost m = self@;
        assert(o + m.to_bytes() == out@ + m.encoded_from_start_year());
        self.write_field_start_year(out);
        self.write_field_end_year(out);
        self.write_field_decade(out);
        self.write_unknown_fields(out);
    }

    /// The encoding of the message.
    pub fn write_to_bytes(&self) -> (r: Vec<u8>)
        requires
            self@.wf(),
        ensures
            r@ == self@.to_bytes(),
    {
        let mut out: Vec<u8> = Vec::new();
        self.write_to(&mut out);
        assert(out@ =~= self@.to_bytes());
        out
    }

    /// The length of the encoding of the message.
    pub fn compute_size(&self) -> (r: u32)
        requires
            self@.wf(),
            self@.to_bytes().len() <= u32::MAX,
        ensures
            r == self@.to_bytes().len(),
    {
        let v = self.write_to_bytes();
        v.len() as u32
    }
    /// A copy of the message.
    pub fn clone_message(&self) -> (r: Self)
        ensures
            r@ == self@,
    {
        let start_year = self.start_year;
        let end_year = self.end_year;
        let decade = self.decade;
        let unknown_fields = clone_unknown_fields(&self.unknown_fields);
        ActivityPeriod { start_year, end_year, decade, unknown_fields }
    }

}

impl Clone for ActivityPeriod {
    fn clone(&self) -> (r: Self)
        ensures
            r@ == self@,
    {
        self.clone_message()
    }
}

impl Default for ActivityPeriod {
    fn default() -> (r: Self)
        ensures
            r@ == ActivityPeriodModel::empty(),
    {
        ActivityPeriod::new()
    }
}

/// The `Artist` message.
#[allow(non_snake_case)]
#[derive(Debug, PartialEq)]
pub struct Artist {
    gid: Option<Vec<u8>>,
    name: Option<String>,
    popularity: Option<i32>,
    top_track: Vec<TopTracks>,
    album_group: Vec<AlbumGroup>,
    single_group: Vec<AlbumGroup>,
    compilation_group: Vec<AlbumGroup>,
    appears_on_group: Vec<AlbumGroup>,
    genre: Vec<String>,
    external_id: Vec<ExternalId>,
    portrait: Vec<Image>,
    biography: Vec<Biography>,
    activity_period: Vec<ActivityPeriod>,
    restriction: Vec<Restriction>,
    related: Vec<Artist>,
    is_portrait_album_cover: Option<bool>,
    portrait_group: Box<ImageGroup>,
    has_portrait_group: bool,
    unknown_fields: Vec<UnknownField>,
}

/// The model of a `Artist`: each field's value, `None` or empty when unset,
/// and the fields of unknown numbers, in the order they were read.
#[allow(non_snake_case)]
pub struct ArtistModel {
    pub gid: Option<Seq<u8>>,
    pub name: Option<Seq<char>>,
    pub popularity: Option<i32>,
    pub top_track: Seq<TopTracksModel>,
    pub album_group: Seq<AlbumGroupModel>,
    pub single_group: Seq<AlbumGroupModel>,
    pub compilation_group: Seq<AlbumGroupModel>,
    pub appears_on_group: Seq<AlbumGroupModel>,
    pub genre: Seq<Seq<char>>,
    pub external_id: Seq<ExternalIdModel>,
    pub portrait: Seq<ImageModel>,
    pub biography: Seq<BiographyModel>,
    pub activity_period: Seq<ActivityPeriodModel>,
    pub restriction: Seq<RestrictionModel>,
    pub related: Seq<ArtistModel>,
    pub is_portrait_album_cover: Option<bool>,
    pub portrait_group: Option<ImageGroupModel>,
    pub unknown_fields: Seq<UnknownFieldModel>,
}

impl View for Artist {
    type V = ArtistModel;

    closed spec fn view(&self) -> ArtistModel {
        self.model()
    }
}

#[allow(non_snake_case)]
impl Artist {
    /// The model of the message: the view, written out for the messages that contain one another.
    pub closed spec fn model(self) -> ArtistModel
        decreases self, 1int,
    {
        ArtistModel {
            gid: opt_view(self.gid),
            name: opt_view(self.name),
            popularity: self.popularity,
            top_track: TopTracks::seq_model(self.top_track@),
            album_group: AlbumGroup::seq_model(self.album_group@),
            single_group: AlbumGroup::seq_model(self.single_group@),
            compilation_group: AlbumGroup::seq_model(self.compilation_group@),
            appears_on_group: AlbumGroup::seq_model(self.appears_on_group@),
            genre: string_models(self.genre@),
            external_id: ExternalId::seq_model(self.external_id@),
            portrait: Image::seq_model(self.portrait@),
            biography: Biography::seq_model(self.biography@),
            activity_period: ActivityPeriod::seq_model(self.activity_period@),
            restriction: Restriction::seq_model(self.restriction@),
            related: Artist::seq_model(self.related@),
            is_portrait_album_cover: self.is_portrait_album_cover,
            portrait_group: if self.has_portrait_group {
                Some(self.portrait_group@)
            } else {
                None
            },
            unknown_fields: unknown_models(self.unknown_fields@),
        }
    }
}

#[allow(non_snake_case)]
impl ArtistModel {
    /// The model of a message with no field set.
    pub open spec fn empty() -> Self {
        ArtistModel {
            gid: None,
            name: None,
            popularity: None,
            top_track: Seq::empty(),
            album_group: Seq::empty(),
            single_group: Seq::empty(),
            compilation_group: Seq::empty(),
            appears_on_group: Seq::empty(),
            genre: Seq::empty(),
            external_id: Seq::empty(),
            portrait: Seq::empty(),
            biography: Seq::empty(),
            activity_period: Seq::empty(),
            restriction: Seq::empty(),
            related: Seq::empty(),
            is_portrait_album_cover: None,
            portrait_group: None,
            unknown_fields: Seq::empty(),
        }
    }

    /// The encodings of a list of messages.
    pub open spec fn encodings(v: Seq<ArtistModel>) -> Seq<Seq<u8>> {
        v.map_values(|m: ArtistModel| m.to_bytes())
    }

    /// Every message of a list can be written, and its encoding fits a 32-bit length.
    pub open spec fn all_writable(v: Seq<ArtistModel>) -> bool {
        forall|i: int| 0 <= i < v.len() ==> #[trigger] v[i].wf() && fits_u32(v[i].to_bytes())
    }

    /// Every message of a list can be written, element by element.
    pub open spec fn writable_list(v: Seq<ArtistModel>) -> bool
        decreases v, 0int,
    {
        v.len() == 0 || (v[0].wf() && fits_u32(v[0].to_bytes()) && Self::writable_list(v.subrange(1, v.len() as int)))
    }

    /// Each message of a list that can be written element by element can be written.
    #[verifier::spinoff_prover]
    pub proof fn lemma_writable_list(v: Seq<ArtistModel>)
        requires
            Self::writable_list(v),
        ensures
            Self::all_writable(v),
        decreases v.len(),
    {
        reveal_with_fuel(ArtistModel::wf, 1);
        if v.len() > 0 {
            let tail = v.subrange(1, v.len() as int);
            Self::lemma_writable_list(tail);
            assert forall|i: int| 0 <= i < v.len() implies #[trigger] v[i].wf() && fits_u32(v[i].to_bytes()) by {
                if i > 0 {
                    assert(v[i] == tail[i - 1]);
                }
            }
        }
    }

    /// The encoding of the elements of a repeated field of number `f`, each as a length-delimited
    /// value after its tag.
    pub open spec fn list_bytes(f: u32, v: Seq<ArtistModel>) -> Seq<u8>
        decreases v, 0int,
    {
        if v.len() == 0 {
            Seq::empty()
        } else {
            tag_bytes(f, WIRE_LENGTH_DELIMITED) + bytes_value_bytes(v[0].to_bytes()) + Self::list_bytes(
                f,
                v.subrange(1, v.len() as int),
            )
        }
    }

    /// The encoding of a repeated field is the list of the encodings of its elements.
    #[verifier::spinoff_prover]
    pub proof fn lemma_list_bytes(f: u32, v: Seq<ArtistModel>)
        ensures
            Self::list_bytes(f, v) == length_delimited_list_bytes(f, Self::encodings(v)),
        decreases v.len(),
    {
        let e = Self::encodings(v);
        if v.len() > 0 {
            let tail = v.subrange(1, v.len() as int);
            Self::lemma_list_bytes(f, tail);
            assert(e.subrange(1, v.len() as int) =~= Self::encodings(tail));
            assert(e[0] == v[0].to_bytes());
            lemma_length_delimited_list_cons(f, e);
            lemma_concat_assoc(tag_bytes(f, WIRE_LENGTH_DELIMITED), bytes_value_bytes(e[0]), Self::list_bytes(f, tail));
        } else {
            assert(e =~= Seq::<Seq<u8>>::empty());
        }
    }

    /// The field numbers that this message knows.
    pub open spec fn is_known_field(f: u32) -> bool {
        f == 1 || f == 2 || f == 3 || f == 4 || f == 5 || f == 6 || f == 7 || f == 8 || f == 9 || f == 10 || f == 11 || f == 12 || f == 13 || f == 14 || f == 15 || f == 16 || f == 17
    }

    /// Merging one field whose tag (number `f`, wire type `wt`) has been read;
    /// `s` holds the bytes after the tag. The result is the merged model and
    /// the number of bytes the value took; a set field is replaced, a repeated
    /// field grows, a field of unknown number is kept or, if a group, skipped.
    pub open spec fn merge_field(self, f: u32, wt: u32, s: Seq<u8>, lim: nat) -> Option<(Self, nat)>
        decreases s.len(),
    {
        if f == 1 {
            if wt != WIRE_LENGTH_DELIMITED {
                None
            } else {
                match bytes_parse(s) {
                    Some((c, k)) => Some((ArtistModel { gid: Some(c), ..self }, k)),
                    None => None,
                }
            }
        } else if f == 2 {
            if wt != WIRE_LENGTH_DELIMITED {
                None
            } else {
                match string_parse(s) {
                    Some((c, k)) => Some((ArtistModel { name: Some(c), ..self }, k)),
                    None => None,
                }
            }
        } else if f == 3 {
            if wt != WIRE_VARINT {
                None
            } else {
                match varint_parse(s) {
                    Some((v, k)) => Some((ArtistModel { popularity: Some(zigzag_decode32(v as u32)), ..self }, k)),
                    None => None,
                }
            }
        } else if f == 4 {
            if wt != WIRE_LENGTH_DELIMITED {
                None
            } else {
                match embedded_window(s, lim) {
                    Some((a, b, x)) => if 0 < a <= b <= s.len() {
                        match TopTracksModel::empty().merge(s.subrange(a as int, b as int), x) {
                            Some(x) => Some((ArtistModel { top_track: self.top_track.push(x), ..self }, b)),
                            None => None,
                        }
                    } else {
                        None
                    },
                    None => None,
                }
            }
        } else if f == 5 {
            if wt != WIRE_LENGTH_DELIMITED {
                None
            } else {
                match embedded_window(s, lim) {
                    Some((a, b, x)) => if 0 < a <= b <= s.len() {
                        match AlbumGroupModel::empty().merge(s.subrange(a as int, b as int), x) {
                            Some(x) => Some((ArtistModel { album_group: self.album_group.push(x), ..self }, b)),
                            None => None,
                        }
                    } else {
                        None
                    },
                    None => None,
                }
            }
        } else if f == 6 {
            if wt != WIRE_LENGTH_DELIMITED {
                None
            } else {
                match embedded_window(s, lim) {
                    Some((a, b, x)) => if 0 < a <= b <= s.len() {
                        match AlbumGroupModel::empty().merge(s.subrange(a as int, b as int), x) {
                            Some(x) => Some((ArtistModel { single_group: self.single_group.push(x), ..self }, b)),
                            None => None,
                        }
                    } else {
                        None
                    },
                    None => None,
                }
            }
        } else if f == 7 {
            if wt != WIRE_LENGTH_DELIMITED {
                None
            } else {
                match embedded_window(s, lim) {
                    Some((a, b, x)) => if 0 < a <= b <= s.len() {
                        match AlbumGroupModel::empty().merge(s.subrange(a as int, b as int), x) {
                            Some(x) => Some((ArtistModel { compilation_group: self.compilation_group.push(x), ..self }, b)),
                            None => None,
                        }
                    } else {
                        None
                    },
                    None => None,
                }
            }
        } else if f == 8 {
            if wt != WIRE_LENGTH_DELIMITED {
                None
            } else {
                match embedded_window(s, lim) {
                    Some((a, b, x)) => if 0 < a <= b <= s.len() {
                        match AlbumGroupModel::empty().merge(s.subrange(a as int, b as int), x) {
                            Some(x) => Some((ArtistModel { appears_on_group: self.appears_on_group.push(x), ..self }, b)),
                            None => None,
                        }
                    } else {
                        None
                    },
                    None => None,
                }
            }
        } else if f == 9 {
            if wt != WIRE_LENGTH_DELIMITED {
                None
            } else {
                match string_parse(s) {
                    Some((c, k)) => Some((ArtistModel { genre: self.genre.push(c), ..self }, k)),
                    None => None,
                }
            }
        } else if f == 10 {
            if wt != WIRE_LENGTH_DELIMITED {
                None
            } else {
                match embedded_window(s, lim) {
                    Some((a, b, x)) => if 0 < a <= b <= s.len() {
                        match ExternalIdModel::empty().merge(s.subrange(a as int, b as int), x) {
                            Some(x) => Some((ArtistModel { external_id: self.external_id.push(x), ..self }, b)),
                            None => None,
                        }
                    } else {
                        None
                    },
                    None => None,
                }
            }
        } else if f == 11 {
            if wt != WIRE_LENGTH_DELIMITED {
                None
            } else {
                match embedded_window(s, lim) {
                    Some((a, b, x)) => if 0 < a <= b <= s.len() {
                        match ImageModel::empty().merge(s.subrange(a as int, b as int), x) {
                            Some(x) => Some((ArtistModel { portrait: self.portrait.push(x), ..self }, b)),
                            None => None,
                        }
                    } else {
                        None
                    },
                    None => None,
                }
            }
        } else if f == 12 {
            if wt != WIRE_LENGTH_DELIMITED {
                None
            } else {
                match embedded_window(s, lim) {
                    Some((a, b, x)) => if 0 < a <= b <= s.len() {
                        match BiographyModel::empty().merge(s.subrange(a as int, b as int), x) {
                            Some(x) => Some((ArtistModel { biography: self.biography.push(x), ..self }, b)),
                            None => None,
                        }
                    } else {
                        None
                    },
                    None => None,
                }
            }
        } else if f == 13 {
            if wt != WIRE_LENGTH_DELIMITED {
                None
            } else {
                match embedded_window(s, lim) {
                    Some((a, b, x)) => if 0 < a <= b <= s.len() {
                        match ActivityPeriodModel::empty().merge(s.subrange(a as int, b as int), x) {
                            Some(x) => Some((ArtistModel { activity_period: self.activity_period.push(x), ..self }, b)),
                            None => None,
                        }
                    } else {
                        None
                    },
                    None => None,
                }
            }
        } else if f == 14 {
            if wt != WIRE_LENGTH_DELIMITED {
                None
            } else {
                match embedded_window(s, lim) {
                    Some((a, b, x)) => if 0 < a <= b <= s.len() {
                        match RestrictionModel::empty().merge(s.subrange(a as int, b as int), x) {
                            Some(x) => Some((ArtistModel { restriction: self.restriction.push(x), ..self }, b)),
                            None => None,
                        }
                    } else {
                        None
                    },
                    None => None,
                }
            }
        } else if f == 15 {
            if wt != WIRE_LENGTH_DELIMITED {
                None
            } else {
                match embedded_window(s, lim) {
                    Some((a, b, x)) => if 0 < a <= b <= s.len() {
                        match ArtistModel::empty().merge(s.subrange(a as int, b as int), x) {
                            Some(x) => Some((ArtistModel { related: self.related.push(x), ..self }, b)),
                            None => None,
                        }
                    } else {
                        None
                    },
                    None => None,
                }
            }
        } else if f == 16 {
            if wt != WIRE_VARINT {
                None
            } else {
                match varint_parse(s) {
                    Some((v, k)) => Some((ArtistModel { is_portrait_album_cover: Some(varint_bool(v)), ..self }, k)),
                    None => None,
                }
            }
        } else if f == 17 {
            if wt != WIRE_LENGTH_DELIMITED {
                None
            } else {
                match embedded_window(s, lim) {
                    Some((a, b, x)) => if 0 < a <= b <= s.len() {
                        match ImageGroupModel::empty().merge(s.subrange(a as int, b as int), x) {
                            Some(x) => Some((ArtistModel { portrait_group: Some(x), ..self }, b)),
                            None => None,
                        }
                    } else {
                        None
                    },
                    None => None,
                }
            }
        } else {
            match unknown_parse(f, wt, s) {
                Some((Some(u), k)) => Some((ArtistModel { unknown_fields: grouped_insert(self.unknown_fields, u), ..self }, k)),
                Some((None, k)) => Some((self, k)),
                None => None,
            }
        }
    }

    /// What is left of the model when merging one field (number `f`, wire type
    /// `wt`, value at the front of `s`) fails: a string, bytes or message field
    /// of the right wire type is first set to its empty value (a repeated one
    /// gets an empty element) and an embedded message keeps the fields merged
    /// into it before the failure; packed values read before the failure stay.
    pub open spec fn merge_field_failed(self, f: u32, wt: u32, s: Seq<u8>, lim: nat) -> Self
        decreases s.len(),
    {
        if f == 1 {
            if wt != WIRE_LENGTH_DELIMITED {
                self
            } else {
                ArtistModel { gid: Some(Seq::<u8>::empty()), ..self }
            }
        } else if f == 2 {
            if wt != WIRE_LENGTH_DELIMITED {
                self
            } else {
                ArtistModel { name: Some(Seq::<char>::empty()), ..self }
            }
        } else if f == 4 {
            if wt != WIRE_LENGTH_DELIMITED {
                self
            } else {
                match embedded_window(s, lim) {
                    Some((a, b, x)) => if 0 < a <= b <= s.len() {
                        ArtistModel { top_track: self.top_track.push(TopTracksModel::empty().merge_partial(s.subrange(a as int, b as int), x)), ..self }
                    } else {
                        ArtistModel { top_track: self.top_track.push(TopTracksModel::empty()), ..self }
                    },
                    None => ArtistModel { top_track: self.top_track.push(TopTracksModel::empty()), ..self },
                }
            }
        } else if f == 5 {
            if wt != WIRE_LENGTH_DELIMITED {
                self
            } else {
                match embedded_window(s, lim) {
                    Some((a, b, x)) => if 0 < a <= b <= s.len() {
                        ArtistModel { album_group: self.album_group.push(AlbumGroupModel::empty().merge_partial(s.subrange(a as int, b as int), x)), ..self }
                    } else {
                        ArtistModel { album_group: self.album_group.push(AlbumGroupModel::empty()), ..self }
                    },
                    None => ArtistModel { album_group: self.album_group.push(AlbumGroupModel::empty()), ..self },
                }
            }
        } else if f == 6 {
            if wt != WIRE_LENGTH_DELIMITED {
                self
            } else {
                match embedded_window(s, lim) {
                    Some((a, b, x)) => if 0 < a <= b <= s.len() {
                        ArtistModel { single_group: self.single_group.push(AlbumGroupModel::empty().merge_partial(s.subrange(a as int, b as int), x)), ..self }
                    } else {
                        ArtistModel { single_group: self.single_group.push(AlbumGroupModel::empty()), ..self }
                    },
                    None => ArtistModel { single_group: self.single_group.push(AlbumGroupModel::empty()), ..self },
                }
            }
        } else if f == 7 {
            if wt != WIRE_LENGTH_DELIMITED {
                self
            } else {
                match embedded_window(s, lim) {
                    Some((a, b, x)) => if 0 < a <= b <= s.len() {
                        ArtistModel { compilation_group: self.compilation_group.push(AlbumGroupModel::empty().merge_partial(s.subrange(a as int, b as int), x)), ..self }
                    } else {
                        ArtistModel { compilation_group: self.compilation_group.push(AlbumGroupModel::empty()), ..self }
                    },
                    None => ArtistModel { compilation_group: self.compilation_group.push(AlbumGroupModel::empty()), ..self },
                }
            }
        } else if f == 8 {
            if wt != WIRE_LENGTH_DELIMITED {
                self
            } else {
                match embedded_window(s, lim) {
                    Some((a, b, x)) => if 0 < a <= b <= s.len() {
                        ArtistModel { appears_on_group: self.appears_on_group.push(AlbumGroupModel::empty().merge_partial(s.subrange(a as int, b as int), x)), ..self }
                    } else {
                        ArtistModel { appears_on_group: self.appears_on_group.push(AlbumGroupModel::empty()), ..self }
                    },
                    None => ArtistModel { appears_on_group: self.appears_on_group.push(AlbumGroupModel::empty()), ..self },
                }
            }
        } else if f == 9 {
            if wt != WIRE_LENGTH_DELIMITED {
                self
            } else {
                ArtistModel { genre: self.genre.push(Seq::<char>::empty()), ..self }
            }
        } else if f == 10 {
            if wt != WIRE_LENGTH_DELIMITED {
                self
            } else {
                match embedded_window(s, lim) {
                    Some((a, b, x)) => if 0 < a <= b <= s.len() {
                        ArtistModel { external_id: self.external_id.push(ExternalIdModel::empty().merge_partial(s.subrange(a as int, b as int), x)), ..self }
                    } else {
                        ArtistModel { external_id: self.external_id.push(ExternalIdModel::empty()), ..self }
                    },
                    None => ArtistModel { external_id: self.external_id.push(ExternalIdModel::empty()), ..self },
                }
            }
        } else if f == 11 {
            if wt != WIRE_LENGTH_DELIMITED {
                self
            } else {
                match embedded_window(s, lim) {
                    Some((a, b, x)) => if 0 < a <= b <= s.len() {
                        ArtistModel { portrait: self.portrait.push(ImageModel::empty().merge_partial(s.subrange(a as int, b as int), x)), ..self }
                    } else {
                        ArtistModel { portrait: self.portrait.push(ImageModel::empty()), ..self }
                    },
                    None => ArtistModel { portrait: self.portrait.push(ImageModel::empty()), ..self },
                }
            }
        } else if f == 12 {
            if wt != WIRE_LENGTH_DELIMITED {
                self
            } else {
                match embedded_window(s, lim) {
                    Some((a, b, x)) => if 0 < a <= b <= s.len() {
                        ArtistModel { biography: self.biography.push(BiographyModel::empty().merge_partial(s.subrange(a as int, b as int), x)), ..self }
                    } else {
                        ArtistModel { biography: self.biography.push(BiographyModel::empty()), ..self }
                    },
                    None => ArtistModel { biography: self.biography.push(BiographyModel::empty()), ..self },
                }
            }
        } else if f == 13 {
            if wt != WIRE_LENGTH_DELIMITED {
                self
            } else {
                match embedded_window(s, lim) {
                    Some((a, b, x)) => if 0 < a <= b <= s.len() {
                        ArtistModel { activity_period: self.activity_period.push(ActivityPeriodModel::empty().merge_partial(s.subrange(a as int, b as int), x)), ..self }
                    } else {
                        ArtistModel { activity_period: self.activity_period.push(ActivityPeriodModel::empty()), ..self }
                    },
                    None => ArtistModel { activity_period: self.activity_period.push(ActivityPeriodModel::empty()), ..self },
                }
            }
        } else if f == 14 {
            if wt != WIRE_LENGTH_DELIMITED {
                self
            } else {
                match embedded_window(s, lim) {
                    Some((a, b, x)) => if 0 < a <= b <= s.len() {
                        ArtistModel { restriction: self.restriction.push(RestrictionModel::empty().merge_partial(s.subrange(a as int, b as int), x)), ..self }
                    } else {
                        ArtistModel { restriction: self.restriction.push(RestrictionModel::empty()), ..self }
                    },
                    None => ArtistModel { restriction: self.restriction.push(RestrictionModel::empty()), ..self },
                }
            }
        } else if f == 15 {
            if wt != WIRE_LENGTH_DELIMITED {
                self
            } else {
                match embedded_window(s, lim) {
                    Some((a, b, x)) => if 0 < a <= b <= s.len() {
                        ArtistModel { related: self.related.push(ArtistModel::empty().merge_partial(s.subrange(a as int, b as int), x)), ..self }
                    } else {
                        ArtistModel { related: self.related.push(ArtistModel::empty()), ..self }
                    },
                    None => ArtistModel { related: self.related.push(ArtistModel::empty()), ..self },
                }
            }
        } else if f == 17 {
            if wt != WIRE_LENGTH_DELIMITED {
                self
            } else {
                match embedded_window(s, lim) {
                    Some((a, b, x)) => if 0 < a <= b <= s.len() {
                        ArtistModel { portrait_group: Some(ImageGroupModel::empty().merge_partial(s.subrange(a as int, b as int), x)), ..self }
                    } else {
                        ArtistModel { portrait_group: Some(ImageGroupModel::empty()), ..self }
                    },
                    None => ArtistModel { portrait_group: Some(ImageGroupModel::empty()), ..self },
                }
            }
        } else {
            self
        }
    }

    /// The value of a merged field takes no more than the bytes after its tag.
    #[verifier::spinoff_prover]
    pub proof fn lemma_merge_field_len(self, f: u32, wt: u32, s: Seq<u8>, lim: nat)
        ensures
            self.merge_field(f, wt, s, lim) matches Some((_m, k)) ==> k <= s.len(),
    {
        lemma_varint_parse_len(s);
        crate::wire::lemma_unknown_parse_len(f, wt, s);
    }

    /// Merging all the fields that `s` holds, in order, where the length of an
    /// embedded message may reach `lim` bytes past the end of `s` (such a message
    /// is read up to the end of `s`).
    #[verifier::opaque]
    pub open spec fn merge(self, s: Seq<u8>, lim: nat) -> Option<Self>
        decreases s.len(),
    {
        if s.len() == 0 {
            Some(self)
        } else {
            match tag_parse(s) {
                Some((f, wt, n)) => if 0 < n <= s.len() {
                    match self.merge_field(f, wt, s.skip(n as int), lim) {
                        Some((m, k)) => if n + k <= s.len() {
                            m.merge(s.skip((n + k) as int), lim)
                        } else {
                            None
                        },
                        None => None,
                    }
                } else {
                    None
                },
                None => None,
            }
        }
    }

    /// What merging `s` leaves: the fields merged in order up to the first one
    /// whose tag or value cannot be read, then what `merge_field_failed` leaves of
    /// that one; all of `s` where it is a valid encoding.
    #[verifier::opaque]
    pub open spec fn merge_partial(self, s: Seq<u8>, lim: nat) -> Self
        decreases s.len(),
    {
        if s.len() == 0 {
            self
        } else {
            match tag_parse(s) {
                Some((f, wt, n)) => if 0 < n <= s.len() {
                    match self.merge_field(f, wt, s.skip(n as int), lim) {
                        Some((m, k)) => if n + k <= s.len() {
                            m.merge_partial(s.skip((n + k) as int), lim)
                        } else {
                            m
                        },
                        None => self.merge_field_failed(f, wt, s.skip(n as int), lim),
                    }
                } else {
                    self
                },
                None => self,
            }
        }
    }

    /// The encoding of field `gid` and of every field written after it.
    pub open spec fn encoded_from_gid(self) -> Seq<u8>
        decreases self, 18int,
    {
        opt_length_delimited_field_bytes(1, self.gid) + self.encoded_from_name()
    }

    /// The encoding of field `name` and of every field written after it.
    pub open spec fn encoded_from_name(self) -> Seq<u8>
        decreases self, 17int,
    {
        opt_length_delimited_field_bytes(2, match self.name { Some(c) => Some(encode_utf8(c)), None => None }) + self.encoded_from_popularity()
    }

    /// The encoding of field `popularity` and of every field written after it.
    pub open spec fn encoded_from_popularity(self) -> Seq<u8>
        decreases self, 16int,
    {
        opt_varint_field_bytes(3, match self.popularity { Some(x) => Some(zigzag_encode32(x) as u64), None => None }) + self.encoded_from_top_track()
    }

    /// The encoding of field `top_track` and of every field written after it.
    pub open spec fn encoded_from_top_track(self) -> Seq<u8>
        decreases self, 15int,
    {
        TopTracksModel::list_bytes(4, self.top_track) + self.encoded_from_album_group()
    }

    /// The encoding of field `album_group` and of every field written after it.
    pub open spec fn encoded_from_album_group(self) -> Seq<u8>
        decreases self, 14int,
    {
        AlbumGroupModel::list_bytes(5, self.album_group) + self.encoded_from_single_group()
    }

    /// The encoding of field `single_group` and of every field written after it.
    pub open spec fn encoded_from_single_group(self) -> Seq<u8>
        decreases self, 13int,
    {
        AlbumGroupModel::list_bytes(6, self.single_group) + self.encoded_from_compilation_group()
    }

    /// The encoding of field `compilation_group` and of every field written after it.
    pub open spec fn encoded_from_compilation_group(self) -> Seq<u8>
        decreases self, 12int,
    {
        AlbumGroupModel::list_bytes(7, self.compilation_group) + self.encoded_from_appears_on_group()
    }

    /// The encoding of field `appears_on_group` and of every field written after it.
    pub open spec fn encoded_from_appears_on_group(self) -> Seq<u8>
        decreases self, 11int,
    {
        AlbumGroupModel::list_bytes(8, self.appears_on_group) + self.encoded_from_genre()
    }

    /// The encoding of field `genre` and of every field written after it.
    pub open spec fn encoded_from_genre(self) -> Seq<u8>
        decreases self, 10int,
    {
        length_delimited_list_bytes(9, utf8_encodings(self.genre)) + self.encoded_from_external_id()
    }

    /// The encoding of field `external_id` and of every field written after it.
    pub open spec fn encoded_from_external_id(self) -> Seq<u8>
        decreases self, 9int,
    {
        length_delimited_list_bytes(10, ExternalIdModel::encodings(self.external_id)) + self.encoded_from_portrait()
    }

    /// The encoding of field `portrait` and of every field written after it.
    pub open spec fn encoded_from_portrait(self) -> Seq<u8>
        decreases self, 8int,
    {
        length_delimited_list_bytes(11, ImageModel::encodings(self.portrait)) + self.encoded_from_biography()
    }

    /// The encoding of field `biography` and of every field written after it.
    pub open spec fn encoded_from_biography(self) -> Seq<u8>
        decreases self, 7int,
    {
        length_delimited_list_bytes(12, BiographyModel::encodings(self.biography)) + self.encoded_from_activity_period()
    }

    /// The encoding of field `activity_period` and of every field written after it.
    pub open spec fn encoded_from_activity_period(self) -> Seq<u8>
        decreases self, 6int,
    {
        length_delimited_list_bytes(13, ActivityPeriodModel::encodings(self.activity_period)) + self.encoded_from_restriction()
    }

    /// The encoding of field `restriction` and of every field written after it.
    pub open spec fn encoded_from_restriction(self) -> Seq<u8>
        decreases self, 5int,
    {
        length_delimited_list_bytes(14, RestrictionModel::encodings(self.restriction)) + self.encoded_from_related()
    }

    /// The encoding of field `related` and of every field written after it.
    pub open spec fn encoded_from_related(self) -> Seq<u8>
        decreases self, 4int,
    {
        ArtistModel::list_bytes(15, self.related) + self.encoded_from_is_portrait_album_cover()
    }

    /// The encoding of field `is_portrait_album_cover` and of every field written after it.
    pub open spec fn encoded_from_is_portrait_album_cover(self) -> Seq<u8>
        decreases self, 3int,
    {
        opt_varint_field_bytes(16, match self.is_portrait_album_cover { Some(x) => Some(bool_varint(x)), None => None }) + self.encoded_from_portrait_group()
    }

    /// The encoding of field `portrait_group` and of every field written after it.
    pub open spec fn encoded_from_portrait_group(self) -> Seq<u8>
        decreases self, 2int,
    {
        opt_length_delimited_field_bytes(17, match self.portrait_group { Some(m) => Some(m.to_bytes()), None => None }) + self.encoded_from_unknown_fields()
    }

    /// The encoding of the fields of unknown numbers, written last.
    pub open spec fn encoded_from_unknown_fields(self) -> Seq<u8> {
        unknown_list_bytes(self.unknown_fields)
    }

    /// The encoding of the message: its set fields in order of declaration,
    /// each element of a repeated field in order, then the unknown fields.
    #[verifier::opaque]
    pub open spec fn to_bytes(self) -> Seq<u8>
        decreases self, 19int,
    {
        self.encoded_from_gid()
    }

    /// A model that can be written and read back: every length fits the
    /// 32-bit length prefix, nested messages can be written, and the unknown
    /// fields have valid numbers that this message does not know.
    #[verifier::opaque]
    pub open spec fn wf(self) -> bool
        decreases self, 1int,
    {
        &&& (self.gid matches Some(b) ==> fits_u32(b))
        &&& (self.name matches Some(c) ==> fits_u32(encode_utf8(c)))
        &&& TopTracksModel::writable_list(self.top_track)
        &&& AlbumGroupModel::writable_list(self.album_group)
        &&& AlbumGroupModel::writable_list(self.single_group)
        &&& AlbumGroupModel::writable_list(self.compilation_group)
        &&& AlbumGroupModel::writable_list(self.appears_on_group)
        &&& crate::wire::all_fit_u32(utf8_encodings(self.genre))
        &&& ExternalIdModel::all_writable(self.external_id)
        &&& ImageModel::all_writable(self.portrait)
        &&& BiographyModel::all_writable(self.biography)
        &&& ActivityPeriodModel::all_writable(self.activity_period)
        &&& RestrictionModel::all_writable(self.restriction)
        &&& ArtistModel::writable_list(self.related)
        &&& (self.portrait_group matches Some(m) ==> m.wf() && fits_u32(m.to_bytes()))
        &&& (forall|i: int| 0 <= i < self.unknown_fields.len() ==> unknown_field_wf(#[trigger] self.unknown_fields[i]) && !Self::is_known_field(self.unknown_fields[i].number))
        &&& unknown_grouped(self.unknown_fields)
    }

    /// The message with no field set can be written and read back.
    #[verifier::spinoff_prover]
    pub proof fn lemma_empty_wf()
        ensures
            Self::empty().wf(),
    {
        reveal_with_fuel(ArtistModel::wf, 1);
        lemma_grouped_empty();
    }

    /// Merging a field's tag and value, whatever follows them.
    #[verifier::spinoff_prover]
    pub proof fn lemma_merge_step(acc: Self, f: u32, wt: u32, t: Seq<u8>, b: Seq<u8>, rest: Seq<u8>, acc2: Self, lim: nat)
        requires
            tag_parse(t + (b + rest)) == Some((f, wt, t.len())),
            t.len() > 0,
            acc.merge_field(f, wt, b + rest, lim) == Some((acc2, b.len())),
        ensures
            acc.merge(t + (b + rest), lim) == acc2.merge(rest, lim),
    {
        reveal_with_fuel(ArtistModel::merge, 1);
        lemma_skip_chunk(t, b, rest);
    }

    /// Merging the encoding of field `gid` sets it, whatever follows.
    #[verifier::spinoff_prover]
    pub proof fn lemma_merge_gid(acc: Self, v: Option<Seq<u8>>, rest: Seq<u8>, lim: nat)
        requires
            (v matches Some(b) ==> fits_u32(b)),
        ensures
            acc.merge(opt_length_delimited_field_bytes(1, v) + rest, lim) == (ArtistModel { gid: if v is Some { v } else { acc.gid }, ..acc }).merge(rest, lim),
    {
        match v {
            None => {
                assert(opt_length_delimited_field_bytes(1, v) + rest =~= rest);
                assert((ArtistModel { gid: acc.gid, ..acc }) == acc);
            },
            Some(x) => {
                let t = tag_bytes(1, WIRE_LENGTH_DELIMITED);
                let b = bytes_value_bytes(x);
                assert(opt_length_delimited_field_bytes(1, v) + rest =~= t + (b + rest));
                lemma_tag_roundtrip(1, WIRE_LENGTH_DELIMITED, b + rest);
                lemma_bytes_roundtrip(x, rest);
                Self::lemma_merge_step(acc, 1, WIRE_LENGTH_DELIMITED, t, b, rest, ArtistModel { gid: v, ..acc }, lim);
            },
        }
    }

    /// Merging the encoding of field `name` sets it, whatever follows.
    #[verifier::spinoff_prover]
    pub proof fn lemma_merge_name(acc: Self, v: Option<Seq<char>>, rest: Seq<u8>, lim: nat)
        requires
            (v matches Some(c) ==> fits_u32(encode_utf8(c))),
        ensures
            acc.merge(opt_length_delimited_field_bytes(2, match v { Some(c) => Some(encode_utf8(c)), None => None }) + rest, lim) == (ArtistModel { name: if v is Some { v } else { acc.name }, ..acc }).merge(rest, lim),
    {
        match v {
            None => {
                assert(opt_length_delimited_field_bytes(2, match v { Some(c) => Some(encode_utf8(c)), None => None }) + rest =~= rest);
                assert((ArtistModel { name: acc.name, ..acc }) == acc);
            },
            Some(x) => {
                let t = tag_bytes(2, WIRE_LENGTH_DELIMITED);
                let b = bytes_value_bytes(encode_utf8(x));
                assert(opt_length_delimited_field_bytes(2, match v { Some(c) => Some(encode_utf8(c)), None => None }) + rest =~= t + (b + rest));
                lemma_tag_roundtrip(2, WIRE_LENGTH_DELIMITED, b + rest);
                lemma_string_roundtrip(x, rest);
                Self::lemma_merge_step(acc, 2, WIRE_LENGTH_DELIMITED, t, b, rest, ArtistModel { name: v, ..acc }, lim);
            },
        }
    }

    /// Merging the encoding of field `popularity` sets it, whatever follows.
    #[verifier::spinoff_prover]
    pub proof fn lemma_merge_popularity(acc: Self, v: Option<i32>, rest: Seq<u8>, lim: nat)
        ensures
            acc.merge(opt_varint_field_bytes(3, match v { Some(x) => Some(zigzag_encode32(x) as u64), None => None }) + rest, lim) == (ArtistModel { popularity: if v is Some { v } else { acc.popularity }, ..acc }).merge(rest, lim),
    {
        match v {
            None => {
                assert(opt_varint_field_bytes(3, match v { Some(x) => Some(zigzag_encode32(x) as u64), None => None }) + rest =~= rest);
                assert((ArtistModel { popularity: acc.popularity, ..acc }) == acc);
            },
            Some(x) => {
                let t = tag_bytes(3, WIRE_VARINT);
                let b = varint_bytes(zigzag_encode32(x) as u64);
                assert(opt_varint_field_bytes(3, match v { Some(x) => Some(zigzag_encode32(x) as u64), None => None }) + rest =~= t + (b + rest));
                lemma_tag_roundtrip(3, WIRE_VARINT, b + rest);
                lemma_varint_roundtrip(zigzag_encode32(x) as u64, rest);
                    lemma_varint_casts(0, 0, 0, false, x);
                    crate::wire::lemma_zigzag_roundtrip(x);
                Self::lemma_merge_step(acc, 3, WIRE_VARINT, t, b, rest, ArtistModel { popularity: v, ..acc }, lim);
            },
        }
    }

    /// Merging the encoding of the elements of field `top_track` appends them, whatever follows.
    #[verifier::spinoff_prover]
    #[verifier::rlimit(100)]
    pub proof fn lemma_merge_top_track(acc: Self, v: Seq<TopTracksModel>, rest: Seq<u8>, lim: nat)
        requires
            TopTracksModel::writable_list(v),
        ensures
            acc.merge(TopTracksModel::list_bytes(4, v) + rest, lim) == (ArtistModel { top_track: acc.top_track + v, ..acc }).merge(rest, lim),
        decreases v, 0int,
    {
        TopTracksModel::lemma_list_bytes(4, v);
        TopTracksModel::lemma_writable_list(v);
        reveal_with_fuel(TopTracksModel::merge, 1);
        let w = TopTracksModel::encodings(v);
        if v.len() == 0 {
            assert(length_delimited_list_bytes(4, w) + rest =~= rest);
            assert(acc.top_track + v =~= acc.top_track);
            assert((ArtistModel { top_track: acc.top_track + v, ..acc }) == acc);
        } else {
            lemma_length_delimited_list_cons(4, w);
            assert(v[0].wf() && fits_u32(v[0].to_bytes()));
            let t = tag_bytes(4, WIRE_LENGTH_DELIMITED);
            let b = bytes_value_bytes(w[0]);
            let tail = length_delimited_list_bytes(4, w.subrange(1, w.len() as int));
            assert(length_delimited_list_bytes(4, w) + rest =~= t + (b + (tail + rest)));
            lemma_tag_roundtrip(4, WIRE_LENGTH_DELIMITED, b + (tail + rest));
            lemma_message_window(v[0].to_bytes(), tail + rest);
            lemma_embedded_window(v[0].to_bytes(), tail + rest, lim);
            v[0].lemma_roundtrip(0);
            lemma_varint_parse_len(b + (tail + rest));
            let acc1 = ArtistModel { top_track: acc.top_track.push(v[0]), ..acc };
            Self::lemma_merge_step(acc, 4, WIRE_LENGTH_DELIMITED, t, b, tail + rest, acc1, lim);
            assert(w.subrange(1, w.len() as int) =~= TopTracksModel::encodings(v.subrange(1, v.len() as int)));
            assert forall|j: int| 0 <= j < v.len() - 1 implies #[trigger] v.subrange(1, v.len() as int)[j].wf() && fits_u32(v.subrange(1, v.len() as int)[j].to_bytes()) by {
                assert(v.subrange(1, v.len() as int)[j] == v[j + 1]);
            }
            Self::lemma_merge_top_track(acc1, v.subrange(1, v.len() as int), rest, lim);
            TopTracksModel::lemma_list_bytes(4, v.subrange(1, v.len() as int));
            assert(acc1.top_track + v.subrange(1, v.len() as int) =~= acc.top_track + v);
        }
    }

    /// Merging the encoding of the elements of field `album_group` appends them, whatever follows.
    #[verifier::spinoff_prover]
    #[verifier::rlimit(100)]
    pub proof fn lemma_merge_album_group(acc: Self, v: Seq<AlbumGroupModel>, rest: Seq<u8>, lim: nat)
        requires
            AlbumGroupModel::writable_list(v),
        ensures
            acc.merge(AlbumGroupModel::list_bytes(5, v) + rest, lim) == (ArtistModel { album_group: acc.album_group + v, ..acc }).merge(rest, lim),
        decreases v, 0int,
    {
        AlbumGroupModel::lemma_list_bytes(5, v);
        AlbumGroupModel::lemma_writable_list(v);
        reveal_with_fuel(AlbumGroupModel::merge, 1);
        let w = AlbumGroupModel::encodings(v);
        if v.len() == 0 {
            assert(length_delimited_list_bytes(5, w) + rest =~= rest);
            assert(acc.album_group + v =~= acc.album_group);
            assert((ArtistModel { album_group: acc.album_group + v, ..acc }) == acc);
        } else {
            lemma_length_delimited_list_cons(5, w);
            assert(v[0].wf() && fits_u32(v[0].to_bytes()));
            let t = tag_bytes(5, WIRE_LENGTH_DELIMITED);
            let b = bytes_value_bytes(w[0]);
            let tail = length_delimited_list_bytes(5, w.subrange(1, w.len() as int));
            assert(length_delimited_list_bytes(5, w) + rest =~= t + (b + (tail + rest)));
            lemma_tag_roundtrip(5, WIRE_LENGTH_DELIMITED, b + (tail + rest));
            lemma_message_window(v[0].to_bytes(), tail + rest);
            lemma_embedded_window(v[0].to_bytes(), tail + rest, lim);
            v[0].lemma_roundtrip(0);
            lemma_varint_parse_len(b + (tail + rest));
            let acc1 = ArtistModel { album_group: acc.album_group.push(v[0]), ..acc };
            Self::lemma_merge_step(acc, 5, WIRE_LENGTH_DELIMITED, t, b, tail + rest, acc1, lim);
            assert(w.subrange(1, w.len() as int) =~= AlbumGroupModel::encodings(v.subrange(1, v.len() as int)));
            assert forall|j: int| 0 <= j < v.len() - 1 implies #[trigger] v.subrange(1, v.len() as int)[j].wf() && fits_u32(v.subrange(1, v.len() as int)[j].to_bytes()) by {
                assert(v.subrange(1, v.len() as int)[j] == v[j + 1]);
            }
            Self::lemma_merge_album_group(acc1, v.subrange(1, v.len() as int), rest, lim);
            AlbumGroupModel::lemma_list_bytes(5, v.subrange(1, v.len() as int));
            assert(acc1.album_group + v.subrange(1, v.len() as int) =~= acc.album_group + v);
        }
    }

    /// Merging the encoding of the elements of field `single_group` appends them, whatever follows.
    #[verifier::spinoff_prover]
    #[verifier::rlimit(100)]
    pub proof fn lemma_merge_single_group(acc: Self, v: Seq<AlbumGroupModel>, rest: Seq<u8>, lim: nat)
        requires
            AlbumGroupModel::writable_list(v),
        ensures
            acc.merge(AlbumGroupModel::list_bytes(6, v) + rest, lim) == (ArtistModel { single_group: acc.single_group + v, ..acc }).merge(rest, lim),
        decreases v, 0int,
    {
        AlbumGroupModel::lemma_list_bytes(6, v);
        AlbumGroupModel::lemma_writable_list(v);
        reveal_with_fuel(AlbumGroupModel::merge, 1);
        let w = AlbumGroupModel::encodings(v);
        if v.len() == 0 {
            assert(length_delimited_list_bytes(6, w) + rest =~= rest);
            assert(acc.single_group + v =~= acc.single_group);
            assert((ArtistModel { single_group: acc.single_group + v, ..acc }) == acc);
        } else {
            lemma_length_delimited_list_cons(6, w);
            assert(v[0].wf() && fits_u32(v[0].to_bytes()));
            let t = tag_bytes(6, WIRE_LENGTH_DELIMITED);
            let b = bytes_value_bytes(w[0]);
            let tail = length_delimited_list_bytes(6, w.subrange(1, w.len() as int));
            assert(length_delimited_list_bytes(6, w) + rest =~= t + (b + (tail + rest)));
            lemma_tag_roundtrip(6, WIRE_LENGTH_DELIMITED, b + (tail + rest));
            lemma_message_window(v[0].to_bytes(), tail + rest);
            lemma_embedded_window(v[0].to_bytes(), tail + rest, lim);
            v[0].lemma_roundtrip(0);
            lemma_varint_parse_len(b + (tail + rest));
            let acc1 = ArtistModel { single_group: acc.single_group.push(v[0]), ..acc };
            Self::lemma_merge_step(acc, 6, WIRE_LENGTH_DELIMITED, t, b, tail + rest, acc1, lim);
            assert(w.subrange(1, w.len() as int) =~= AlbumGroupModel::encodings(v.subrange(1, v.len() as int)));
            assert forall|j: int| 0 <= j < v.len() - 1 implies #[trigger] v.subrange(1, v.len() as int)[j].wf() && fits_u32(v.subrange(1, v.len() as int)[j].to_bytes()) by {
                assert(v.subrange(1, v.len() as int)[j] == v[j + 1]);
            }
            Self::lemma_merge_single_group(acc1, v.subrange(1, v.len() as int), rest, lim);
            AlbumGroupModel::lemma_list_bytes(6, v.subrange(1, v.len() as int));
            assert(acc1.single_group + v.subrange(1, v.len() as int) =~= acc.single_group + v);
        }
    }

    /// Merging the encoding of the elements of field `compilation_group` appends them, whatever follows.
    #[verifier::spinoff_prover]
    #[verifier::rlimit(100)]
    pub proof fn lemma_merge_compilation_group(acc: Self, v: Seq<AlbumGroupModel>, rest: Seq<u8>, lim: nat)
        requires
            AlbumGroupModel::writable_list(v),
        ensures
            acc.merge(AlbumGroupModel::list_bytes(7, v) + rest, lim) == (ArtistModel { compilation_group: acc.compilation_group + v, ..acc }).merge(rest, lim),
        decreases v, 0int,
    {
        AlbumGroupModel::lemma_list_bytes(7, v);
        AlbumGroupModel::lemma_writable_list(v);
        reveal_with_fuel(AlbumGroupModel::merge, 1);
        let w = AlbumGroupModel::encodings(v);
        if v.len() == 0 {
            assert(length_delimited_list_bytes(7, w) + rest =~= rest);
            assert(acc.compilation_group + v =~= acc.compilation_group);
            assert((ArtistModel { compilation_group: acc.compilation_group + v, ..acc }) == acc);
        } else {
            lemma_length_delimited_list_cons(7, w);
            assert(v[0].wf() && fits_u32(v[0].to_bytes()));
            let t = tag_bytes(7, WIRE_LENGTH_DELIMITED);
            let b = bytes_value_bytes(w[0]);
            let tail = length_delimited_list_bytes(7, w.subrange(1, w.len() as int));
            assert(length_delimited_list_bytes(7, w) + rest =~= t + (b + (tail + rest)));
            lemma_tag_roundtrip(7, WIRE_LENGTH_DELIMITED, b + (tail + rest));
            lemma_message_window(v[0].to_bytes(), tail + rest);
            lemma_embedded_window(v[0].to_bytes(), tail + rest, lim);
            v[0].lemma_roundtrip(0);
            lemma_varint_parse_len(b + (tail + rest));
            let acc1 = ArtistModel { compilation_group: acc.compilation_group.push(v[0]), ..acc };
            Self::lemma_merge_step(acc, 7, WIRE_LENGTH_DELIMITED, t, b, tail + rest, acc1, lim);
            assert(w.subrange(1, w.len() as int) =~= AlbumGroupModel::encodings(v.subrange(1, v.len() as int)));
            assert forall|j: int| 0 <= j < v.len() - 1 implies #[trigger] v.subrange(1, v.len() as int)[j].wf() && fits_u32(v.subrange(1, v.len() as int)[j].to_bytes()) by {
                assert(v.subrange(1, v.len() as int)[j] == v[j + 1]);
            }
            Self::lemma_merge_compilation_group(acc1, v.subrange(1, v.len() as int), rest, lim);
            AlbumGroupModel::lemma_list_bytes(7, v.subrange(1, v.len() as int));
            assert(acc1.compilation_group + v.subrange(1, v.len() as int) =~= acc.compilation_group + v);
        }
    }

    /// Merging the encoding of the elements of field `appears_on_group` appends them, whatever follows.
    #[verifier::spinoff_prover]
    #[verifier::rlimit(100)]
    pub proof fn lemma_merge_appears_on_group(acc: Self, v: Seq<AlbumGroupModel>, rest: Seq<u8>, lim: nat)
        requires
            AlbumGroupModel::writable_list(v),
        ensures
            acc.merge(AlbumGroupModel::list_bytes(8, v) + rest, lim) == (ArtistModel { appears_on_group: acc.appears_on_group + v, ..acc }).merge(rest, lim),
        decreases v, 0int,
    {
        AlbumGroupModel::lemma_list_bytes(8, v);
        AlbumGroupModel::lemma_writable_list(v);
        reveal_with_fuel(AlbumGroupModel::merge, 1);
        let w = AlbumGroupModel::encodings(v);
        if v.len() == 0 {
            assert(length_delimited_list_bytes(8, w) + rest =~= rest);
            assert(acc.appears_on_group + v =~= acc.appears_on_group);
            assert((ArtistModel { appears_on_group: acc.appears_on_group + v, ..acc }) == acc);
        } else {
            lemma_length_delimited_list_cons(8, w);
            assert(v[0].wf() && fits_u32(v[0].to_bytes()));
            let t = tag_bytes(8, WIRE_LENGTH_DELIMITED);
            let b = bytes_value_bytes(w[0]);
            let tail = length_delimited_list_bytes(8, w.subrange(1, w.len() as int));
            assert(length_delimited_list_bytes(8, w) + rest =~= t + (b + (tail + rest)));
            lemma_tag_roundtrip(8, WIRE_LENGTH_DELIMITED, b + (tail + rest));
            lemma_message_window(v[0].to_bytes(), tail + rest);
            lemma_embedded_window(v[0].to_bytes(), tail + rest, lim);
            v[0].lemma_roundtrip(0);
            lemma_varint_parse_len(b + (tail + rest));
            let acc1 = ArtistModel { appears_on_group: acc.appears_on_group.push(v[0]), ..acc };
            Self::lemma_merge_step(acc, 8, WIRE_LENGTH_DELIMITED, t, b, tail + rest, acc1, lim);
            assert(w.subrange(1, w.len() as int) =~= AlbumGroupModel::encodings(v.subrange(1, v.len() as int)));
            assert forall|j: int| 0 <= j < v.len() - 1 implies #[trigger] v.subrange(1, v.len() as int)[j].wf() && fits_u32(v.subrange(1, v.len() as int)[j].to_bytes()) by {
                assert(v.subrange(1, v.len() as int)[j] == v[j + 1]);
            }
            Self::lemma_merge_appears_on_group(acc1, v.subrange(1, v.len() as int), rest, lim);
            AlbumGroupModel::lemma_list_bytes(8, v.subrange(1, v.len() as int));
            assert(acc1.appears_on_group + v.subrange(1, v.len() as int) =~= acc.appears_on_group + v);
        }
    }

    /// Merging the encoding of the elements of field `genre` appends them, whatever follows.
    #[verifier::spinoff_prover]
    #[verifier::rlimit(50)]
    pub proof fn lemma_merge_genre(acc: Self, v: Seq<Seq<char>>, rest: Seq<u8>, lim: nat)
        requires
            crate::wire::all_fit_u32(utf8_encodings(v)),
        ensures
            acc.merge(length_delimited_list_bytes(9, utf8_encodings(v)) + rest, lim) == (ArtistModel { genre: acc.genre + v, ..acc }).merge(rest, lim),
        decreases v.len(),
    {
        let w = utf8_encodings(v);
        if v.len() == 0 {
            assert(length_delimited_list_bytes(9, w) + rest =~= rest);
            assert(acc.genre + v =~= acc.genre);
            assert((ArtistModel { genre: acc.genre + v, ..acc }) == acc);
        } else {
            lemma_length_delimited_list_cons(9, w);
            assert(fits_u32(w[0]));
            let t = tag_bytes(9, WIRE_LENGTH_DELIMITED);
            let b = bytes_value_bytes(w[0]);
            let tail = length_delimited_list_bytes(9, w.subrange(1, w.len() as int));
            assert(length_delimited_list_bytes(9, w) + rest =~= t + (b + (tail + rest)));
            lemma_tag_roundtrip(9, WIRE_LENGTH_DELIMITED, b + (tail + rest));
            lemma_string_roundtrip(v[0], tail + rest);
            let acc1 = ArtistModel { genre: acc.genre.push(v[0]), ..acc };
            Self::lemma_merge_step(acc, 9, WIRE_LENGTH_DELIMITED, t, b, tail + rest, acc1, lim);
            assert(w.subrange(1, w.len() as int) =~= utf8_encodings(v.subrange(1, v.len() as int)));
            assert forall|j: int| 0 <= j < w.len() - 1 implies fits_u32(#[trigger] w.subrange(1, w.len() as int)[j]) by {
                assert(w.subrange(1, w.len() as int)[j] == w[j + 1]);
            }
            Self::lemma_merge_genre(acc1, v.subrange(1, v.len() as int), rest, lim);
            assert(acc1.genre + v.subrange(1, v.len() as int) =~= acc.genre + v);
        }
    }

    /// Merging the encoding of the elements of field `external_id` appends them, whatever follows.
    #[verifier::spinoff_prover]
    #[verifier::rlimit(50)]
    pub proof fn lemma_merge_external_id(acc: Self, v: Seq<ExternalIdModel>, rest: Seq<u8>, lim: nat)
        requires
            ExternalIdModel::all_writable(v),
        ensures
            acc.merge(length_delimited_list_bytes(10, ExternalIdModel::encodings(v)) + rest, lim) == (ArtistModel { external_id: acc.external_id + v, ..acc }).merge(rest, lim),
        decreases v.len(),
    {
        let w = ExternalIdModel::encodings(v);
        if v.len() == 0 {
            assert(length_delimited_list_bytes(10, w) + rest =~= rest);
            assert(acc.external_id + v =~= acc.external_id);
            assert((ArtistModel { external_id: acc.external_id + v, ..acc }) == acc);
        } else {
            lemma_length_delimited_list_cons(10, w);
            assert(v[0].wf() && fits_u32(v[0].to_bytes()));
            let t = tag_bytes(10, WIRE_LENGTH_DELIMITED);
            let b = bytes_value_bytes(w[0]);
            let tail = length_delimited_list_bytes(10, w.subrange(1, w.len() as int));
            assert(length_delimited_list_bytes(10, w) + rest =~= t + (b + (tail + rest)));
            lemma_tag_roundtrip(10, WIRE_LENGTH_DELIMITED, b + (tail + rest));
            lemma_message_window(v[0].to_bytes(), tail + rest);
            lemma_embedded_window(v[0].to_bytes(), tail + rest, lim);
            v[0].lemma_roundtrip(0);
            lemma_varint_parse_len(b + (tail + rest));
            let acc1 = ArtistModel { external_id: acc.external_id.push(v[0]), ..acc };
            Self::lemma_merge_step(acc, 10, WIRE_LENGTH_DELIMITED, t, b, tail + rest, acc1, lim);
            assert(w.subrange(1, w.len() as int) =~= ExternalIdModel::encodings(v.subrange(1, v.len() as int)));
            assert forall|j: int| 0 <= j < v.len() - 1 implies #[trigger] v.subrange(1, v.len() as int)[j].wf() && fits_u32(v.subrange(1, v.len() as int)[j].to_bytes()) by {
                assert(v.subrange(1, v.len() as int)[j] == v[j + 1]);
            }
            Self::lemma_merge_external_id(acc1, v.subrange(1, v.len() as int), rest, lim);
            assert(acc1.external_id + v.subrange(1, v.len() as int) =~= acc.external_id + v);
        }
    }

    /// Merging the encoding of the elements of field `portrait` appends them, whatever follows.
    #[verifier::spinoff_prover]
    #[verifier::rlimit(50)]
    pub proof fn lemma_merge_portrait(acc: Self, v: Seq<ImageModel>, rest: Seq<u8>, lim: nat)
        requires
            ImageModel::all_writable(v),
        ensures
            acc.merge(length_delimited_list_bytes(11, ImageModel::encodings(v)) + rest, lim) == (ArtistModel { portrait: acc.portrait + v, ..acc }).merge(rest, lim),
        decreases v.len(),
    {
        let w = ImageModel::encodings(v);
        if v.len() == 0 {
            assert(length_delimited_list_bytes(11, w) + rest =~= rest);
            assert(acc.portrait + v =~= acc.portrait);
            assert((ArtistModel { portrait: acc.portrait + v, ..acc }) == acc);
        } else {
            lemma_length_delimited_list_cons(11, w);
            assert(v[0].wf() && fits_u32(v[0].to_bytes()));
            let t = tag_bytes(11, WIRE_LENGTH_DELIMITED);
            let b = bytes_value_bytes(w[0]);
            let tail = length_delimited_list_bytes(11, w.subrange(1, w.len() as int));
            assert(length_delimited_list_bytes(11, w) + rest =~= t + (b + (tail + rest)));
            lemma_tag_roundtrip(11, WIRE_LENGTH_DELIMITED, b + (tail + rest));
            lemma_message_window(v[0].to_bytes(), tail + rest);
            lemma_embedded_window(v[0].to_bytes(), tail + rest, lim);
            v[0].lemma_roundtrip(0);
            lemma_varint_parse_len(b + (tail + rest));
            let acc1 = ArtistModel { portrait: acc.portrait.push(v[0]), ..acc };
            Self::lemma_merge_step(acc, 11, WIRE_LENGTH_DELIMITED, t, b, tail + rest, acc1, lim);
            assert(w.subrange(1, w.len() as int) =~= ImageModel::encodings(v.subrange(1, v.len() as int)));
            assert forall|j: int| 0 <= j < v.len() - 1 implies #[trigger] v.subrange(1, v.len() as int)[j].wf() && fits_u32(v.subrange(1, v.len() as int)[j].to_bytes()) by {
                assert(v.subrange(1, v.len() as int)[j] == v[j + 1]);
            }
            Self::lemma_merge_portrait(acc1, v.subrange(1, v.len() as int), rest, lim);
            assert(acc1.portrait + v.subrange(1, v.len() as int) =~= acc.portrait + v);
        }
    }

    /// Merging the encoding of the elements of field `biography` appends them, whatever follows.
    #[verifier::spinoff_prover]
    #[verifier::rlimit(50)]
    pub proof fn lemma_merge_biography(acc: Self, v: Seq<BiographyModel>, rest: Seq<u8>, lim: nat)
        requires
            BiographyModel::all_writable(v),
        ensures
            acc.merge(length_delimited_list_bytes(12, BiographyModel::encodings(v)) + rest, lim) == (ArtistModel { biography: acc.biography + v, ..acc }).merge(rest, lim),
        decreases v.len(),
    {
        let w = BiographyModel::encodings(v);
        if v.len() == 0 {
            assert(length_delimited_list_bytes(12, w) + rest =~= rest);
            assert(acc.biography + v =~= acc.biography);
            assert((ArtistModel { biography: acc.biography + v, ..acc }) == acc);
        } else {
            lemma_length_delimited_list_cons(12, w);
            assert(v[0].wf() && fits_u32(v[0].to_bytes()));
            let t = tag_bytes(12, WIRE_LENGTH_DELIMITED);
            let b = bytes_value_bytes(w[0]);
            let tail = length_delimited_list_bytes(12, w.subrange(1, w.len() as int));
            assert(length_delimited_list_bytes(12, w) + rest =~= t + (b + (tail + rest)));
            lemma_tag_roundtrip(12, WIRE_LENGTH_DELIMITED, b + (tail + rest));
            lemma_message_window(v[0].to_bytes(), tail + rest);
            lemma_embedded_window(v[0].to_bytes(), tail + rest, lim);
            v[0].lemma_roundtrip(0);
            lemma_varint_parse_len(b + (tail + rest));
            let acc1 = ArtistModel { biography: acc.biography.push(v[0]), ..acc };
            Self::lemma_merge_step(acc, 12, WIRE_LENGTH_DELIMITED, t, b, tail + rest, acc1, lim);
            assert(w.subrange(1, w.len() as int) =~= BiographyModel::encodings(v.subrange(1, v.len() as int)));
            assert forall|j: int| 0 <= j < v.len() - 1 implies #[trigger] v.subrange(1, v.len() as int)[j].wf() && fits_u32(v.subrange(1, v.len() as int)[j].to_bytes()) by {
                assert(v.subrange(1, v.len() as int)[j] == v[j + 1]);
            }
            Self::lemma_merge_biography(acc1, v.subrange(1, v.len() as int), rest, lim);
            assert(acc1.biography + v.subrange(1, v.len() as int) =~= acc.biography + v);
        }
    }

    /// Merging the encoding of the elements of field `activity_period` appends them, whatever follows.
    #[verifier::spinoff_prover]
    #[verifier::rlimit(50)]
    pub proof fn lemma_merge_activity_period(acc: Self, v: Seq<ActivityPeriodModel>, rest: Seq<u8>, lim: nat)
        requires
            ActivityPeriodModel::all_writable(v),
        ensures
            acc.merge(length_delimited_list_bytes(13, ActivityPeriodModel::encodings(v)) + rest, lim) == (ArtistModel { activity_period: acc.activity_period + v, ..acc }).merge(rest, lim),
        decreases v.len(),
    {
        let w = ActivityPeriodModel::encodings(v);
        if v.len() == 0 {
            assert(length_delimited_list_bytes(13, w) + rest =~= rest);
            assert(acc.activity_period + v =~= acc.activity_period);
            assert((ArtistModel { activity_period: acc.activity_period + v, ..acc }) == acc);
        } else {
            lemma_length_delimited_list_cons(13, w);
            assert(v[0].wf() && fits_u32(v[0].to_bytes()));
            let t = tag_bytes(13, WIRE_LENGTH_DELIMITED);
            let b = bytes_value_bytes(w[0]);
            let tail = length_delimited_list_bytes(13, w.subrange(1, w.len() as int));
            assert(length_delimited_list_bytes(13, w) + rest =~= t + (b + (tail + rest)));
            lemma_tag_roundtrip(13, WIRE_LENGTH_DELIMITED, b + (tail + rest));
            lemma_message_window(v[0].to_bytes(), tail + rest);
            lemma_embedded_window(v[0].to_bytes(), tail + rest, lim);
            v[0].lemma_roundtrip(0);
            lemma_varint_parse_len(b + (tail + rest));
            let acc1 = ArtistModel { activity_period: acc.activity_period.push(v[0]), ..acc };
            Self::lemma_merge_step(acc, 13, WIRE_LENGTH_DELIMITED, t, b, tail + rest, acc1, lim);
            assert(w.subrange(1, w.len() as int) =~= ActivityPeriodModel::encodings(v.subrange(1, v.len() as int)));
            assert forall|j: int| 0 <= j < v.len() - 1 implies #[trigger] v.subrange(1, v.len() as int)[j].wf() && fits_u32(v.subrange(1, v.len() as int)[j].to_bytes()) by {
                assert(v.subrange(1, v.len() as int)[j] == v[j + 1]);
            }
            Self::lemma_merge_activity_period(acc1, v.subrange(1, v.len() as int), rest, lim);
            assert(acc1.activity_period + v.subrange(1, v.len() as int) =~= acc.activity_period + v);
        }
    }

    /// Merging the encoding of the elements of field `restriction` appends them, whatever follows.
    #[verifier::spinoff_prover]
    #[verifier::rlimit(50)]
    pub proof fn lemma_merge_restriction(acc: Self, v: Seq<RestrictionModel>, rest: Seq<u8>, lim: nat)
        requires
            RestrictionModel::all_writable(v),
        ensures
            acc.merge(length_delimited_list_bytes(14, RestrictionModel::encodings(v)) + rest, lim) == (ArtistModel { restriction: acc.restriction + v, ..acc }).merge(rest, lim),
        decreases v.len(),
    {
        let w = RestrictionModel::encodings(v);
        if v.len() == 0 {
            assert(length_delimited_list_bytes(14, w) + rest =~= rest);
            assert(acc.restriction + v =~= acc.restriction);
            assert((ArtistModel { restriction: acc.restriction + v, ..acc }) == acc);
        } else {
            lemma_length_delimited_list_cons(14, w);
            assert(v[0].wf() && fits_u32(v[0].to_bytes()));
            let t = tag_bytes(14, WIRE_LENGTH_DELIMITED);
            let b = bytes_value_bytes(w[0]);
            let tail = length_delimited_list_bytes(14, w.subrange(1, w.len() as int));
            assert(length_delimited_list_bytes(14, w) + rest =~= t + (b + (tail + rest)));
            lemma_tag_roundtrip(14, WIRE_LENGTH_DELIMITED, b + (tail + rest));
            lemma_message_window(v[0].to_bytes(), tail + rest);
            lemma_embedded_window(v[0].to_bytes(), tail + rest, lim);
            v[0].lemma_roundtrip(0);
            lemma_varint_parse_len(b + (tail + rest));
            let acc1 = ArtistModel { restriction: acc.restriction.push(v[0]), ..acc };
            Self::lemma_merge_step(acc, 14, WIRE_LENGTH_DELIMITED, t, b, tail + rest, acc1, lim);
            assert(w.subrange(1, w.len() as int) =~= RestrictionModel::encodings(v.subrange(1, v.len() as int)));
            assert forall|j: int| 0 <= j < v.len() - 1 implies #[trigger] v.subrange(1, v.len() as int)[j].wf() && fits_u32(v.subrange(1, v.len() as int)[j].to_bytes()) by {
                assert(v.subrange(1, v.len() as int)[j] == v[j + 1]);
            }
            Self::lemma_merge_restriction(acc1, v.subrange(1, v.len() as int), rest, lim);
            assert(acc1.restriction + v.subrange(1, v.len() as int) =~= acc.restriction + v);
        }
    }

    /// Merging the encoding of the elements of field `related` appends them, whatever follows.
    #[verifier::spinoff_prover]
    #[verifier::rlimit(100)]
    pub proof fn lemma_merge_related(acc: Self, v: Seq<ArtistModel>, rest: Seq<u8>, lim: nat)
        requires
            ArtistModel::writable_list(v),
        ensures
            acc.merge(ArtistModel::list_bytes(15, v) + rest, lim) == (ArtistModel { related: acc.related + v, ..acc }).merge(rest, lim),
        decreases v, 0int,
    {
        ArtistModel::lemma_list_bytes(15, v);
        ArtistModel::lemma_writable_list(v);
        reveal_with_fuel(ArtistModel::merge, 1);
        let w = ArtistModel::encodings(v);
        if v.len() == 0 {
            assert(length_delimited_list_bytes(15, w) + rest =~= rest);
            assert(acc.related + v =~= acc.related);
            assert((ArtistModel { related: acc.related + v, ..acc }) == acc);
        } else {
            lemma_length_delimited_list_cons(15, w);
            assert(v[0].wf() && fits_u32(v[0].to_bytes()));
            let t = tag_bytes(15, WIRE_LENGTH_DELIMITED);
            let b = bytes_value_bytes(w[0]);
            let tail = length_delimited_list_bytes(15, w.subrange(1, w.len() as int));
            assert(length_delimited_list_bytes(15, w) + rest =~= t + (b + (tail + rest)));
            lemma_tag_roundtrip(15, WIRE_LENGTH_DELIMITED, b + (tail + rest));
            lemma_message_window(v[0].to_bytes(), tail + rest);
            lemma_embedded_window(v[0].to_bytes(), tail + rest, lim);
            v[0].lemma_roundtrip(0);
            lemma_varint_parse_len(b + (tail + rest));
            let acc1 = ArtistModel { related: acc.related.push(v[0]), ..acc };
            Self::lemma_merge_step(acc, 15, WIRE_LENGTH_DELIMITED, t, b, tail + rest, acc1, lim);
            assert(w.subrange(1, w.len() as int) =~= ArtistModel::encodings(v.subrange(1, v.len() as int)));
            assert forall|j: int| 0 <= j < v.len() - 1 implies #[trigger] v.subrange(1, v.len() as int)[j].wf() && fits_u32(v.subrange(1, v.len() as int)[j].to_bytes()) by {
                assert(v.subrange(1, v.len() as int)[j] == v[j + 1]);
            }
            Self::lemma_merge_related(acc1, v.subrange(1, v.len() as int), rest, lim);
            ArtistModel::lemma_list_bytes(15, v.subrange(1, v.len() as int));
            assert(acc1.related + v.subrange(1, v.len() as int) =~= acc.related + v);
        }
    }

    /// Merging the encoding of field `is_portrait_album_cover` sets it, whatever follows.
    #[verifier::spinoff_prover]
    pub proof fn lemma_merge_is_portrait_album_cover(acc: Self, v: Option<bool>, rest: Seq<u8>, lim: nat)
        ensures
            acc.merge(opt_varint_field_bytes(16, match v { Some(x) => Some(bool_varint(x)), None => None }) + rest, lim) == (ArtistModel { is_portrait_album_cover: if v is Some { v } else { acc.is_portrait_album_cover }, ..acc }).merge(rest, lim),
    {
        match v {
            None => {
                assert(opt_varint_field_bytes(16, match v { Some(x) => Some(bool_varint(x)), None => None }) + rest =~= rest);
                assert((ArtistModel { is_portrait_album_cover: acc.is_portrait_album_cover, ..acc }) == acc);
            },
            Some(x) => {
                let t = tag_bytes(16, WIRE_VARINT);
                let b = varint_bytes(bool_varint(x));
                assert(opt_varint_field_bytes(16, match v { Some(x) => Some(bool_varint(x)), None => None }) + rest =~= t + (b + rest));
                lemma_tag_roundtrip(16, WIRE_VARINT, b + rest);
                lemma_varint_roundtrip(bool_varint(x), rest);
                    lemma_varint_casts(0, 0, 0, x, 0);
                Self::lemma_merge_step(acc, 16, WIRE_VARINT, t, b, rest, ArtistModel { is_portrait_album_cover: v, ..acc }, lim);
            },
        }
    }

    /// Merging the encoding of field `portrait_group` sets it, whatever follows.
    #[verifier::spinoff_prover]
    pub proof fn lemma_merge_portrait_group(acc: Self, v: Option<ImageGroupModel>, rest: Seq<u8>, lim: nat)
        requires
            (v matches Some(m) ==> m.wf() && fits_u32(m.to_bytes())),
        ensures
            acc.merge(opt_length_delimited_field_bytes(17, match v { Some(m) => Some(m.to_bytes()), None => None }) + rest, lim) == (ArtistModel { portrait_group: if v is Some { v } else { acc.portrait_group }, ..acc }).merge(rest, lim),
    {
        match v {
            None => {
                assert(opt_length_delimited_field_bytes(17, match v { Some(m) => Some(m.to_bytes()), None => None }) + rest =~= rest);
                assert((ArtistModel { portrait_group: acc.portrait_group, ..acc }) == acc);
            },
            Some(x) => {
                let t = tag_bytes(17, WIRE_LENGTH_DELIMITED);
                let b = bytes_value_bytes(x.to_bytes());
                assert(opt_length_delimited_field_bytes(17, match v { Some(m) => Some(m.to_bytes()), None => None }) + rest =~= t + (b + rest));
                lemma_tag_roundtrip(17, WIRE_LENGTH_DELIMITED, b + rest);
                lemma_message_window(x.to_bytes(), rest);
                    lemma_embedded_window(x.to_bytes(), rest, lim);
                    x.lemma_roundtrip(0);
                    lemma_varint_parse_len(bytes_value_bytes(x.to_bytes()) + rest);
                Self::lemma_merge_step(acc, 17, WIRE_LENGTH_DELIMITED, t, b, rest, ArtistModel { portrait_group: v, ..acc }, lim);
            },
        }
    }

    /// Merging the encoding of fields of unknown numbers keeps them, whatever follows.
    #[verifier::spinoff_prover]
    #[verifier::rlimit(50)]
    pub proof fn lemma_merge_unknown_fields(acc: Self, v: Seq<UnknownFieldModel>, rest: Seq<u8>, lim: nat)
        requires
            forall|i: int| 0 <= i < v.len() ==> unknown_field_wf(#[trigger] v[i]) && !Self::is_known_field(v[i].number),
            unknown_grouped(acc.unknown_fields + v),
        ensures
            acc.merge(unknown_list_bytes(v) + rest, lim) == (ArtistModel { unknown_fields: acc.unknown_fields + v, ..acc }).merge(rest, lim),
        decreases v.len(),
    {
        if v.len() == 0 {
            assert(unknown_list_bytes(v) + rest =~= rest);
            assert(acc.unknown_fields + v =~= acc.unknown_fields);
            assert((ArtistModel { unknown_fields: acc.unknown_fields + v, ..acc }) == acc);
        } else {
            lemma_unknown_list_cons(v);
            let u = v[0];
            let wt = crate::wire::unknown_wire_type(u.value);
            let t = tag_bytes(u.number, wt);
            let b = crate::wire::unknown_value_bytes(u.value);
            let tail = unknown_list_bytes(v.subrange(1, v.len() as int));
            assert(unknown_list_bytes(v) + rest =~= t + (b + (tail + rest)));
            assert(unknown_field_bytes(u) + (tail + rest) =~= t + (b + (tail + rest)));
            lemma_unknown_roundtrip(u, tail + rest);
            assert((t + (b + (tail + rest))).skip(t.len() as int) =~= b + (tail + rest));
            crate::wire::lemma_tag_roundtrip(u.number, wt, b + (tail + rest));
            let acc1 = ArtistModel { unknown_fields: acc.unknown_fields.push(u), ..acc };
            assert(acc.unknown_fields.push(u) =~= (acc.unknown_fields + v).take(acc.unknown_fields.len() + 1int));
            lemma_grouped_take(acc.unknown_fields + v, acc.unknown_fields.len() + 1int);
            lemma_grouped_insert_last(acc.unknown_fields, u);
            Self::lemma_merge_step(acc, u.number, wt, t, b, tail + rest, acc1, lim);
            assert(acc1.unknown_fields + v.subrange(1, v.len() as int) =~= acc.unknown_fields + v);
            Self::lemma_merge_unknown_fields(acc1, v.subrange(1, v.len() as int), rest, lim);
        }
    }

    /// Reading back the encoding of a model that can be written gives the model,
    /// whatever the limit past its end.
    #[verifier::spinoff_prover]
    #[verifier::rlimit(100)]
    pub proof fn lemma_roundtrip(self, lim: nat)
        requires
            self.wf(),
        ensures
            ArtistModel::empty().merge(self.to_bytes(), lim) == Some(self),
        decreases self, 1int,
    {
        reveal_with_fuel(ArtistModel::to_bytes, 1);
        reveal_with_fuel(ArtistModel::wf, 1);
        reveal_with_fuel(ArtistModel::merge, 1);
        let a0 = ArtistModel::empty();
        assert((self.gid matches Some(b) ==> fits_u32(b)));
        Self::lemma_merge_gid(a0, self.gid, self.encoded_from_name(), lim);
        let a1 = ArtistModel { gid: if self.gid is Some { self.gid } else { a0.gid }, ..a0 };
        assert((self.name matches Some(c) ==> fits_u32(encode_utf8(c))));
        Self::lemma_merge_name(a1, self.name, self.encoded_from_popularity(), lim);
        let a2 = ArtistModel { name: if self.name is Some { self.name } else { a1.name }, ..a1 };
        Self::lemma_merge_popularity(a2, self.popularity, self.encoded_from_top_track(), lim);
        let a3 = ArtistModel { popularity: if self.popularity is Some { self.popularity } else { a2.popularity }, ..a2 };
        assert(TopTracksModel::writable_list(self.top_track));
        Self::lemma_merge_top_track(a3, self.top_track, self.encoded_from_album_group(), lim);
        let a4 = ArtistModel { top_track: a3.top_track + self.top_track, ..a3 };
        assert(AlbumGroupModel::writable_list(self.album_group));
        Self::lemma_merge_album_group(a4, self.album_group, self.encoded_from_single_group(), lim);
        let a5 = ArtistModel { album_group: a4.album_group + self.album_group, ..a4 };
        assert(AlbumGroupModel::writable_list(self.single_group));
        Self::lemma_merge_single_group(a5, self.single_group, self.encoded_from_compilation_group(), lim);
        let a6 = ArtistModel { single_group: a5.single_group + self.single_group, ..a5 };
        assert(AlbumGroupModel::writable_list(self.compilation_group));
        Self::lemma_merge_compilation_group(a6, self.compilation_group, self.encoded_from_appears_on_group(), lim);
        let a7 = ArtistModel { compilation_group: a6.compilation_group + self.compilation_group, ..a6 };
        assert(AlbumGroupModel::writable_list(self.appears_on_group));
        Self::lemma_merge_appears_on_group(a7, self.appears_on_group, self.encoded_from_genre(), lim);
        let a8 = ArtistModel { appears_on_group: a7.appears_on_group + self.appears_on_group, ..a7 };
        assert(crate::wire::all_fit_u32(utf8_encodings(self.genre)));
        Self::lemma_merge_genre(a8, self.genre, self.encoded_from_external_id(), lim);
        let a9 = ArtistModel { genre: a8.genre + self.genre, ..a8 };
        assert(ExternalIdModel::all_writable(self.external_id));
        Self::lemma_merge_external_id(a9, self.external_id, self.encoded_from_portrait(), lim);
        let a10 = ArtistModel { external_id: a9.external_id + self.external_id, ..a9 };
        assert(ImageModel::all_writable(self.portrait));
        Self::lemma_merge_portrait(a10, self.portrait, self.encoded_from_biography(), lim);
        let a11 = ArtistModel { portrait: a10.portrait + self.portrait, ..a10 };
        assert(BiographyModel::all_writable(self.biography));
        Self::lemma_merge_biography(a11, self.biography, self.encoded_from_activity_period(), lim);
        let a12 = ArtistModel { biography: a11.biography + self.biography, ..a11 };
        assert(ActivityPeriodModel::all_writable(self.activity_period));
        Self::lemma_merge_activity_period(a12, self.activity_period, self.encoded_from_restriction(), lim);
        let a13 = ArtistModel { activity_period: a12.activity_period + self.activity_period, ..a12 };
        assert(RestrictionModel::all_writable(self.restriction));
        Self::lemma_merge_restriction(a13, self.restriction, self.encoded_from_related(), lim);
        let a14 = ArtistModel { restriction: a13.restriction + self.restriction, ..a13 };
        assert(ArtistModel::writable_list(self.related));
        Self::lemma_merge_related(a14, self.related, self.encoded_from_is_portrait_album_cover(), lim);
        let a15 = ArtistModel { related: a14.related + self.related, ..a14 };
        Self::lemma_merge_is_portrait_album_cover(a15, self.is_portrait_album_cover, self.encoded_from_portrait_group(), lim);
        let a16 = ArtistModel { is_portrait_album_cover: if self.is_portrait_album_cover is Some { self.is_portrait_album_cover } else { a15.is_portrait_album_cover }, ..a15 };
        assert((self.portrait_group matches Some(m) ==> m.wf() && fits_u32(m.to_bytes())));
        Self::lemma_merge_portrait_group(a16, self.portrait_group, self.encoded_from_unknown_fields(), lim);
        let a17 = ArtistModel { portrait_group: if self.portrait_group is Some { self.portrait_group } else { a16.portrait_group }, ..a16 };
        assert(a17.unknown_fields + self.unknown_fields =~= self.unknown_fields);
        Self::lemma_merge_unknown_fields(a17, self.unknown_fields, Seq::empty(), lim);
        assert(unknown_list_bytes(self.unknown_fields) + Seq::<u8>::empty() =~= unknown_list_bytes(self.unknown_fields));
        let last = ArtistModel { unknown_fields: a17.unknown_fields + self.unknown_fields, ..a17 };
        assert(last.top_track =~= self.top_track);
        assert(last.album_group =~= self.album_group);
        assert(last.single_group =~= self.single_group);
        assert(last.compilation_group =~= self.compilation_group);
        assert(last.appears_on_group =~= self.appears_on_group);
        assert(last.genre =~= self.genre);
        assert(last.external_id =~= self.external_id);
        assert(last.portrait =~= self.portrait);
        assert(last.biography =~= self.biography);
        assert(last.activity_period =~= self.activity_period);
        assert(last.restriction =~= self.restriction);
        assert(last.related =~= self.related);
        assert(last.unknown_fields =~= self.unknown_fields);
        assert(last == self);
    }
    /// A message whose only set field is `gid` is written as field number 1 of the
    /// protocol's definition alone: the tag of that number with the wire type of the field,
    /// then the value.
    #[verifier::spinoff_prover]
    pub proof fn lemma_encoding_of_gid(v: Option<Seq<u8>>)
        ensures
            (ArtistModel { gid: v, ..ArtistModel::empty() }).to_bytes() == opt_length_delimited_field_bytes(1, v),
    {
        reveal_with_fuel(ArtistModel::to_bytes, 20);
        let m = ArtistModel { gid: v, ..ArtistModel::empty() };
        assert(m.to_bytes() =~= opt_length_delimited_field_bytes(1, v));
    }

    /// A message whose only set field is `name` is written as field number 2 of the
    /// protocol's definition alone: the tag of that number with the wire type of the field,
    /// then the value.
    #[verifier::spinoff_prover]
    pub proof fn lemma_encoding_of_name(v: Option<Seq<char>>)
        ensures
            (ArtistModel { name: v, ..ArtistModel::empty() }).to_bytes() == opt_length_delimited_field_bytes(2, match v { Some(c) => Some(encode_utf8(c)), None => None }),
    {
        reveal_with_fuel(ArtistModel::to_bytes, 20);
        let m = ArtistModel { name: v, ..ArtistModel::empty() };
        assert(m.to_bytes() =~= opt_length_delimited_field_bytes(2, match v { Some(c) => Some(encode_utf8(c)), None => None }));
    }

    /// A message whose only set field is `popularity` is written as field number 3 of the
    /// protocol's definition alone: the tag of that number with the wire type of the field,
    /// then the value.
    #[verifier::spinoff_prover]
    pub proof fn lemma_encoding_of_popularity(v: Option<i32>)
        ensures
            (ArtistModel { popularity: v, ..ArtistModel::empty() }).to_bytes() == opt_varint_field_bytes(3, match v { Some(x) => Some(zigzag_encode32(x) as u64), None => None }),
    {
        reveal_with_fuel(ArtistModel::to_bytes, 20);
        let m = ArtistModel { popularity: v, ..ArtistModel::empty() };
        assert(m.to_bytes() =~= opt_varint_field_bytes(3, match v { Some(x) => Some(zigzag_encode32(x) as u64), None => None }));
    }

    /// A message whose only set field is `top_track` is written as field number 4 of the
    /// protocol's definition alone: the tag of that number with the wire type of the field,
    /// then the value.
    #[verifier::spinoff_prover]
    pub proof fn lemma_encoding_of_top_track(v: Seq<TopTracksModel>)
        ensures
            (ArtistModel { top_track: v, ..ArtistModel::empty() }).to_bytes() == TopTracksModel::list_bytes(4, v),
    {
        reveal_with_fuel(ArtistModel::to_bytes, 20);
        let m = ArtistModel { top_track: v, ..ArtistModel::empty() };
        assert(m.to_bytes() =~= TopTracksModel::list_bytes(4, v));
    }

    /// A message whose only set field is `album_group` is written as field number 5 of the
    /// protocol's definition alone: the tag of that number with the wire type of the field,
    /// then the value.
    #[verifier::spinoff_prover]
    pub proof fn lemma_encoding_of_album_group(v: Seq<AlbumGroupModel>)
        ensures
            (ArtistModel { album_group: v, ..ArtistModel::empty() }).to_bytes() == AlbumGroupModel::list_bytes(5, v),
    {
        reveal_with_fuel(ArtistModel::to_bytes, 20);
        let m = ArtistModel { album_group: v, ..ArtistModel::empty() };
        assert(m.to_bytes() =~= AlbumGroupModel::list_bytes(5, v));
    }

    /// A message whose only set field is `single_group` is written as field number 6 of the
    /// protocol's definition alone: the tag of that number with the wire type of the field,
    /// then the value.
    #[verifier::spinoff_prover]
    pub proof fn lemma_encoding_of_single_group(v: Seq<AlbumGroupModel>)
        ensures
            (ArtistModel { single_group: v, ..ArtistModel::empty() }).to_bytes() == AlbumGroupModel::list_bytes(6, v),
    {
        reveal_with_fuel(ArtistModel::to_bytes, 20);
        let m = ArtistModel { single_group: v, ..ArtistModel::empty() };
        assert(m.to_bytes() =~= AlbumGroupModel::list_bytes(6, v));
    }

    /// A message whose only set field is `compilation_group` is written as field number 7 of the
    /// protocol's definition alone: the tag of that number with the wire type of the field,
    /// then the value.
    #[verifier::spinoff_prover]
    pub proof fn lemma_encoding_of_compilation_group(v: Seq<AlbumGroupModel>)
        ensures
            (ArtistModel { compilation_group: v, ..ArtistModel::empty() }).to_bytes() == AlbumGroupModel::list_bytes(7, v),
    {
        reveal_with_fuel(ArtistModel::to_bytes, 20);
        let m = ArtistModel { compilation_group: v, ..ArtistModel::empty() };
        assert(m.to_bytes() =~= AlbumGroupModel::list_bytes(7, v));
    }

    /// A message whose only set field is `appears_on_group` is written as field number 8 of the
    /// protocol's definition alone: the tag of that number with the wire type of the field,
    /// then the value.
    #[verifier::spinoff_prover]
    pub proof fn lemma_encoding_of_appears_on_group(v: Seq<AlbumGroupModel>)
        ensures
            (ArtistModel { appears_on_group: v, ..ArtistModel::empty() }).to_bytes() == AlbumGroupModel::list_bytes(8, v),
    {
        reveal_with_fuel(ArtistModel::to_bytes, 20);
        let m = ArtistModel { appears_on_group: v, ..ArtistModel::empty() };
        assert(m.to_bytes() =~= AlbumGroupModel::list_bytes(8, v));
    }

    /// A message whose only set field is `genre` is written as field number 9 of the
    /// protocol's definition alone: the tag of that number with the wire type of the field,
    /// then the value.
    #[verifier::spinoff_prover]
    pub proof fn lemma_encoding_of_genre(v: Seq<Seq<char>>)
        ensures
            (ArtistModel { genre: v, ..ArtistModel::empty() }).to_bytes() == length_delimited_list_bytes(9, utf8_encodings(v)),
    {
        reveal_with_fuel(ArtistModel::to_bytes, 20);
        let m = ArtistModel { genre: v, ..ArtistModel::empty() };
        assert(m.to_bytes() =~= length_delimited_list_bytes(9, utf8_encodings(v)));
    }

    /// A message whose only set field is `external_id` is written as field number 10 of the
    /// protocol's definition alone: the tag of that number with the wire type of the field,
    /// then the value.
    #[verifier::spinoff_prover]
    pub proof fn lemma_encoding_of_external_id(v: Seq<ExternalIdModel>)
        ensures
            (ArtistModel { external_id: v, ..ArtistModel::empty() }).to_bytes() == length_delimited_list_bytes(10, ExternalIdModel::encodings(v)),
    {
        reveal_with_fuel(ArtistModel::to_bytes, 20);
        let m = ArtistModel { external_id: v, ..ArtistModel::empty() };
        assert(m.to_bytes() =~= length_delimited_list_bytes(10, ExternalIdModel::encodings(v)));
    }

    /// A message whose only set field is `portrait` is written as field number 11 of the
    /// protocol's definition alone: the tag of that number with the wire type of the field,
    /// then the value.
    #[verifier::spinoff_prover]
    pub proof fn lemma_encoding_of_portrait(v: Seq<ImageModel>)
        ensures
            (ArtistModel { portrait: v, ..ArtistModel::empty() }).to_bytes() == length_delimited_list_bytes(11, ImageModel::encodings(v)),
    {
        reveal_with_fuel(ArtistModel::to_bytes, 20);
        let m = ArtistModel { portrait: v, ..ArtistModel::empty() };
        assert(m.to_bytes() =~= length_delimited_list_bytes(11, ImageModel::encodings(v)));
    }

    /// A message whose only set field is `biography` is written as field number 12 of the
    /// protocol's definition alone: the tag of that number with the wire type of the field,
    /// then the value.
    #[verifier::spinoff_prover]
    pub proof fn lemma_encoding_of_biography(v: Seq<BiographyModel>)
        ensures
            (ArtistModel { biography: v, ..ArtistModel::empty() }).to_bytes() == length_delimited_list_bytes(12, BiographyModel::encodings(v)),
    {
        reveal_with_fuel(ArtistModel::to_bytes, 20);
        let m = ArtistModel { biography: v, ..ArtistModel::empty() };
        assert(m.to_bytes() =~= length_delimited_list_bytes(12, BiographyModel::encodings(v)));
    }

    /// A message whose only set field is `activity_period` is written as field number 13 of the
    /// protocol's definition alone: the tag of that number with the wire type of the field,
    /// then the value.
    #[verifier::spinoff_prover]
    pub proof fn lemma_encoding_of_activity_period(v: Seq<ActivityPeriodModel>)
        ensures
            (ArtistModel { activity_period: v, ..ArtistModel::empty() }).to_bytes() == length_delimited_list_bytes(13, ActivityPeriodModel::encodings(v)),
    {
        reveal_with_fuel(ArtistModel::to_bytes, 20);
        let m = ArtistModel { activity_period: v, ..ArtistModel::empty() };
        assert(m.to_bytes() =~= length_delimited_list_bytes(13, ActivityPeriodModel::encodings(v)));
    }

    /// A message whose only set field is `restriction` is written as field number 14 of the
    /// protocol's definition alone: the tag of that number with the wire type of the field,
    /// then the value.
    #[verifier::spinoff_prover]
    pub proof fn lemma_encoding_of_restriction(v: Seq<RestrictionModel>)
        ensures
            (ArtistModel { restriction: v, ..ArtistModel::empty() }).to_bytes() == length_delimited_list_bytes(14, RestrictionModel::encodings(v)),
    {
        reveal_with_fuel(ArtistModel::to_bytes, 20);
        let m = ArtistModel { restriction: v, ..ArtistModel::empty() };
        assert(m.to_bytes() =~= length_delimited_list_bytes(14, RestrictionModel::encodings(v)));
    }

    /// A message whose only set field is `related` is written as field number 15 of the
    /// protocol's definition alone: the tag of that number with the wire type of the field,
    /// then the value.
    #[verifier::spinoff_prover]
    pub proof fn lemma_encoding_of_related(v: Seq<ArtistModel>)
        ensures
            (ArtistModel { related: v, ..ArtistModel::empty() }).to_bytes() == ArtistModel::list_bytes(15, v),
    {
        reveal_with_fuel(ArtistModel::to_bytes, 20);
        let m = ArtistModel { related: v, ..ArtistModel::empty() };
        assert(m.to_bytes() =~= ArtistModel::list_bytes(15, v));
    }

    /// A message whose only set field is `is_portrait_album_cover` is written as field number 16 of the
    /// protocol's definition alone: the tag of that number with the wire type of the field,
    /// then the value.
    #[verifier::spinoff_prover]
    pub proof fn lemma_encoding_of_is_portrait_album_cover(v: Option<bool>)
        ensures
            (ArtistModel { is_portrait_album_cover: v, ..ArtistModel::empty() }).to_bytes() == opt_varint_field_bytes(16, match v { Some(x) => Some(bool_varint(x)), None => None }),
    {
        reveal_with_fuel(ArtistModel::to_bytes, 20);
        let m = ArtistModel { is_portrait_album_cover: v, ..ArtistModel::empty() };
        assert(m.to_bytes() =~= opt_varint_field_bytes(16, match v { Some(x) => Some(bool_varint(x)), None => None }));
    }

    /// A message whose only set field is `portrait_group` is written as field number 17 of the
    /// protocol's definition alone: the tag of that number with the wire type of the field,
    /// then the value.
    #[verifier::spinoff_prover]
    pub proof fn lemma_encoding_of_portrait_group(v: Option<ImageGroupModel>)
        ensures
            (ArtistModel { portrait_group: v, ..ArtistModel::empty() }).to_bytes() == opt_length_delimited_field_bytes(17, match v { Some(m) => Some(m.to_bytes()), None => None }),
    {
        reveal_with_fuel(ArtistModel::to_bytes, 20);
        let m = ArtistModel { portrait_group: v, ..ArtistModel::empty() };
        assert(m.to_bytes() =~= opt_length_delimited_field_bytes(17, match v { Some(m) => Some(m.to_bytes()), None => None }));
    }

}

#[allow(non_snake_case)]
impl Artist {
    #[verifier::type_invariant]
    spec fn unset_fields_are_empty(self) -> bool {
        (!self.has_portrait_group ==> self.portrait_group@ == ImageGroupModel::empty())
    }

    /// The models of a list of messages.
    pub open spec fn seq_model(v: Seq<Artist>) -> Seq<ArtistModel>
        decreases v, 0int,
    {
        if v.len() == 0 {
            Seq::empty()
        } else {
            Self::seq_model(v.subrange(0, v.len() - 1)).push(v[v.len() - 1].model())
        }
    }

    /// The list of models has an element for each message, its model.
    #[verifier::spinoff_prover]
    pub proof fn lemma_seq_model(v: Seq<Artist>)
        ensures
            Self::seq_model(v).len() == v.len(),
            forall|i: int| 0 <= i < v.len() ==> #[trigger] Self::seq_model(v)[i] == v[i]@,
        decreases v.len(),
    {
        if v.len() > 0 {
            Self::lemma_seq_model(v.subrange(0, v.len() - 1));
        }
    }

    /// Appending a message appends its model.
    #[verifier::spinoff_prover]
    pub proof fn lemma_seq_model_push(v: Seq<Artist>, x: Artist)
        ensures
            Self::seq_model(v.push(x)) == Self::seq_model(v).push(x@),
    {
        assert(v.push(x).subrange(0, v.len() as int) =~= v);
    }

    /// A message with no field set.
    #[verifier::spinoff_prover]
    pub fn new() -> (r: Self)
        ensures
            r@ == ArtistModel::empty(),
            r@.wf(),
    {
        let r = Artist {
            gid: None,
            name: None,
            popularity: None,
            top_track: Vec::new(),
            album_group: Vec::new(),
            single_group: Vec::new(),
            compilation_group: Vec::new(),
            appears_on_group: Vec::new(),
            genre: Vec::new(),
            external_id: Vec::new(),
            portrait: Vec::new(),
            biography: Vec::new(),
            activity_period: Vec::new(),
            restriction: Vec::new(),
            related: Vec::new(),
            is_portrait_album_cover: None,
            portrait_group: Box::new(ImageGroup::new()),
            has_portrait_group: false,
            unknown_fields: Vec::new(),
        };
        assert(TopTracks::seq_model(r.top_track@) =~= Seq::<TopTracksModel>::empty());
        assert(AlbumGroup::seq_model(r.album_group@) =~= Seq::<AlbumGroupModel>::empty());
        assert(AlbumGroup::seq_model(r.single_group@) =~= Seq::<AlbumGroupModel>::empty());
        assert(AlbumGroup::seq_model(r.compilation_group@) =~= Seq::<AlbumGroupModel>::empty());
        assert(AlbumGroup::seq_model(r.appears_on_group@) =~= Seq::<AlbumGroupModel>::empty());
        assert(string_models(r.genre@) =~= Seq::<Seq<char>>::empty());
        assert(ExternalId::seq_model(r.external_id@) =~= Seq::<ExternalIdModel>::empty());
        assert(Image::seq_model(r.portrait@) =~= Seq::<ImageModel>::empty());
        assert(Biography::seq_model(r.biography@) =~= Seq::<BiographyModel>::empty());
        assert(ActivityPeriod::seq_model(r.activity_period@) =~= Seq::<ActivityPeriodModel>::empty());
        assert(Restriction::seq_model(r.restriction@) =~= Seq::<RestrictionModel>::empty());
        assert(Artist::seq_model(r.related@) =~= Seq::<ArtistModel>::empty());
        assert(unknown_models(r.unknown_fields@) =~= Seq::<UnknownFieldModel>::empty());
        proof {
            ArtistModel::lemma_empty_wf();
        }
        r
    }

    /// Unsets field `gid`.
    #[verifier::spinoff_prover]
    pub fn clear_gid(&mut self)
        ensures
            final(self)@ == (ArtistModel { gid: None, ..old(self)@ }),
    {
        proof {
            use_type_invariant(&*self);
        }
        self.gid = None;
    }

    /// Whether field `gid` is set.
    #[verifier::spinoff_prover]
    pub fn has_gid(&self) -> (r: bool)
        ensures
            r == self@.gid is Some,
    {
        self.gid.is_some()
    }

    /// Sets field `gid` to `v`.
    #[verifier::spinoff_prover]
    pub fn set_gid(&mut self, v: Vec<u8>)
        ensures
            final(self)@ == (ArtistModel { gid: Some(v@), ..old(self)@ }),
    {
        proof {
            use_type_invariant(&*self);
        }
        self.gid = Some(v);
    }

    /// Field `gid`, to change in place; an unset field is first set to its default.
    #[verifier::spinoff_prover]
    pub fn mut_gid(&mut self) -> (r: &mut Vec<u8>)
        ensures
            r@ == bytes_or_empty(old(self)@.gid),
            final(self)@ == (ArtistModel { gid: Some(final(r)@), ..old(self)@ }),

    {
        proof {
            use_type_invariant(&*self);
        }
        if self.gid.is_none() {
            self.gid = Some(Vec::new());
        }
        opt_as_mut(&mut self.gid).unwrap()
    }

    /// Takes field `gid` (its default when unset), leaving it unset.
    #[verifier::spinoff_prover]
    pub fn take_gid(&mut self) -> (r: Vec<u8>)
        ensures
            r@ == bytes_or_empty(old(self)@.gid),
            final(self)@ == (ArtistModel { gid: None, ..old(self)@ }),
    {
        proof {
            use_type_invariant(&*self);
        }
        let mut t = None;
        std::mem::swap(&mut t, &mut self.gid);
        match t {
            Some(v) => v,
            None => Vec::new(),
        }
    }

    /// Field `gid`, or no bytes when unset.
    #[verifier::spinoff_prover]
    pub fn get_gid(&self) -> (r: &[u8])
        ensures
            r@ == bytes_or_empty(self@.gid),
    {
        match &self.gid {
            Some(v) => v.as_slice(),
            None => &[],
        }
    }

    /// Unsets field `name`.
    #[verifier::spinoff_prover]
    pub fn clear_name(&mut self)
        ensures
            final(self)@ == (ArtistModel { name: None, ..old(self)@ }),
    {
        proof {
            use_type_invariant(&*self);
        }
        self.name = None;
    }

    /// Whether field `name` is set.
    #[verifier::spinoff_prover]
    pub fn has_name(&self) -> (r: bool)
        ensures
            r == self@.name is Some,
    {
        self.name.is_some()
    }

    /// Sets field `name` to `v`.
    #[verifier::spinoff_prover]
    pub fn set_name(&mut self, v: String)
        ensures
            final(self)@ == (ArtistModel { name: Some(v@), ..old(self)@ }),
    {
        proof {
            use_type_invariant(&*self);
        }
        self.name = Some(v);
    }

    /// Field `name`, to change in place; an unset field is first set to its default.
    #[verifier::spinoff_prover]
    pub fn mut_name(&mut self) -> (r: &mut String)
        ensures
            r@ == chars_or_empty(old(self)@.name),
            final(self)@ == (ArtistModel { name: Some(final(r)@), ..old(self)@ }),

    {
        proof {
            use_type_invariant(&*self);
        }
        if self.name.is_none() {
            self.name = Some(String::new());
        }
        opt_as_mut(&mut self.name).unwrap()
    }

    /// Takes field `name` (its default when unset), leaving it unset.
    #[verifier::spinoff_prover]
    pub fn take_name(&mut self) -> (r: String)
        ensures
            r@ == chars_or_empty(old(self)@.name),
            final(self)@ == (ArtistModel { name: None, ..old(self)@ }),
    {
        proof {
            use_type_invariant(&*self);
        }
        let mut t = None;
        std::mem::swap(&mut t, &mut self.name);
        match t {
            Some(v) => v,
            None => String::new(),
        }
    }

    /// Field `name`, or the empty string when unset.
    #[verifier::spinoff_prover]
    pub fn get_name(&self) -> (r: &str)
        ensures
            r@ == chars_or_empty(self@.name),
    {
        match &self.name {
            Some(v) => v.as_str(),
            None => {
                proof {
                    reveal_strlit("");
                }
                ""
            },
        }
    }

    /// Unsets field `popularity`.
    #[verifier::spinoff_prover]
    pub fn clear_popularity(&mut self)
        ensures
            final(self)@ == (ArtistModel { popularity: None, ..old(self)@ }),
    {
        proof {
            use_type_invariant(&*self);
        }
        self.popularity = None;
    }

    /// Whether field `popularity` is set.
    #[verifier::spinoff_prover]
    pub fn has_popularity(&self) -> (r: bool)
        ensures
            r == self@.popularity is Some,
    {
        self.popularity.is_some()
    }

    /// Sets field `popularity` to `v`.
    #[verifier::spinoff_prover]
    pub fn set_popularity(&mut self, v: i32)
        ensures
            final(self)@ == (ArtistModel { popularity: Some(v), ..old(self)@ }),
    {
        proof {
            use_type_invariant(&*self);
        }
        self.popularity = Some(v);
    }

    /// Field `popularity`, or `0` when unset.
    #[verifier::spinoff_prover]
    pub fn get_popularity(&self) -> (r: i32)
        ensures
            r == (match self@.popularity { Some(x) => x, None => 0i32 }),
    {
        match self.popularity {
            Some(x) => x,
            None => 0i32,
        }
    }

    /// Empties field `top_track`.
    #[verifier::spinoff_prover]
    pub fn clear_top_track(&mut self)
        ensures
            final(self)@ == (ArtistModel { top_track: Seq::empty(), ..old(self)@ }),
    {
        proof {
            use_type_invariant(&*self);
        }
        self.top_track = Vec::new();
        assert(TopTracks::seq_model(self.top_track@) =~= Seq::<TopTracksModel>::empty());
    }

    /// Sets field `top_track` to the elements of `v`.
    #[verifier::spinoff_prover]
    pub fn set_top_track(&mut self, v: Vec<TopTracks>)
        ensures
            final(self)@ == (ArtistModel { top_track: TopTracks::seq_model(v@), ..old(self)@ }),
    {
        proof {
            use_type_invariant(&*self);
        }
        self.top_track = v;
    }

    /// The elements of field `top_track`, to change in place.
    #[verifier::spinoff_prover]
    pub fn mut_top_track(&mut self) -> (r: &mut Vec<TopTracks>)
        ensures
            TopTracks::seq_model(r@) == old(self)@.top_track,
            final(self)@ == (ArtistModel { top_track: TopTracks::seq_model(final(r)@), ..old(self)@ }),
    {
        proof {
            use_type_invariant(&*self);
        }
        field_mut(&mut self.top_track)
    }

    /// Takes the elements of field `top_track`, leaving it empty.
    #[verifier::spinoff_prover]
    pub fn take_top_track(&mut self) -> (r: Vec<TopTracks>)
        ensures
            TopTracks::seq_model(r@) == old(self)@.top_track,
            final(self)@ == (ArtistModel { top_track: Seq::empty(), ..old(self)@ }),
    {
        proof {
            use_type_invariant(&*self);
        }
        let mut r = Vec::new();
        std::mem::swap(&mut r, &mut self.top_track);
        assert(TopTracks::seq_model(self.top_track@) =~= Seq::<TopTracksModel>::empty());
        r
    }

    /// The elements of field `top_track`.
    #[verifier::spinoff_prover]
    pub fn get_top_track(&self) -> (r: &[TopTracks])
        ensures
            TopTracks::seq_model(r@) == self@.top_track,
    {
        self.top_track.as_slice()
    }

    /// Empties field `album_group`.
    #[verifier::spinoff_prover]
    pub fn clear_album_group(&mut self)
        ensures
            final(self)@ == (ArtistModel { album_group: Seq::empty(), ..old(self)@ }),
    {
        proof {
            use_type_invariant(&*self);
        }
        self.album_group = Vec::new();
        assert(AlbumGroup::seq_model(self.album_group@) =~= Seq::<AlbumGroupModel>::empty());
    }

    /// Sets field `album_group` to the elements of `v`.
    #[verifier::spinoff_prover]
    pub fn set_album_group(&mut self, v: Vec<AlbumGroup>)
        ensures
            final(self)@ == (ArtistModel { album_group: AlbumGroup::seq_model(v@), ..old(self)@ }),
    {
        proof {
            use_type_invariant(&*self);
        }
        self.album_group = v;
    }

    /// The elements of field `album_group`, to change in place.
    #[verifier::spinoff_prover]
    pub fn mut_album_group(&mut self) -> (r: &mut Vec<AlbumGroup>)
        ensures
            AlbumGroup::seq_model(r@) == old(self)@.album_group,
            final(self)@ == (ArtistModel { album_group: AlbumGroup::seq_model(final(r)@), ..old(self)@ }),
    {
        proof {
            use_type_invariant(&*self);
        }
        field_mut(&mut self.album_group)
    }

    /// Takes the elements of field `album_group`, leaving it empty.
    #[verifier::spinoff_prover]
    pub fn take_album_group(&mut self) -> (r: Vec<AlbumGroup>)
        ensures
            AlbumGroup::seq_model(r@) == old(self)@.album_group,
            final(self)@ == (ArtistModel { album_group: Seq::empty(), ..old(self)@ }),
    {
        proof {
            use_type_invariant(&*self);
        }
        let mut r = Vec::new();
        std::mem::swap(&mut r, &mut self.album_group);
        assert(AlbumGroup::seq_model(self.album_group@) =~= Seq::<AlbumGroupModel>::empty());
        r
    }

    /// The elements of field `album_group`.
    #[verifier::spinoff_prover]
    pub fn get_album_group(&self) -> (r: &[AlbumGroup])
        ensures
            AlbumGroup::seq_model(r@) == self@.album_group,
    {
        self.album_group.as_slice()
    }

    /// Empties field `single_group`.
    #[verifier::spinoff_prover]
    pub fn clear_single_group(&mut self)
        ensures
            final(self)@ == (ArtistModel { single_group: Seq::empty(), ..old(self)@ }),
    {
        proof {
            use_type_invariant(&*self);
        }
        self.single_group = Vec::new();
        assert(AlbumGroup::seq_model(self.single_group@) =~= Seq::<AlbumGroupModel>::empty());
    }

    /// Sets field `single_group` to the elements of `v`.
    #[verifier::spinoff_prover]
    pub fn set_single_group(&mut self, v: Vec<AlbumGroup>)
        ensures
            final(self)@ == (ArtistModel { single_group: AlbumGroup::seq_model(v@), ..old(self)@ }),
    {
        proof {
            use_type_invariant(&*self);
        }
        self.single_group = v;
    }

    /// The elements of field `single_group`, to change in place.
    #[verifier::spinoff_prover]
    pub fn mut_single_group(&mut self) -> (r: &mut Vec<AlbumGroup>)
        ensures
            AlbumGroup::seq_model(r@) == old(self)@.single_group,
            final(self)@ == (ArtistModel { single_group: AlbumGroup::seq_model(final(r)@), ..old(self)@ }),
    {
        proof {
            use_type_invariant(&*self);
        }
        field_mut(&mut self.single_group)
    }

    /// Takes the elements of field `single_group`, leaving it empty.
    #[verifier::spinoff_prover]
    pub fn take_single_group(&mut self) -> (r: Vec<AlbumGroup>)
        ensures
            AlbumGroup::seq_model(r@) == old(self)@.single_group,
            final(self)@ == (ArtistModel { single_group: Seq::empty(), ..old(self)@ }),
    {
        proof {
            use_type_invariant(&*self);
        }
        let mut r = Vec::new();
        std::mem::swap(&mut r, &mut self.single_group);
        assert(AlbumGroup::seq_model(self.single_group@) =~= Seq::<AlbumGroupModel>::empty());
        r
    }

    /// The elements of field `single_group`.
    #[verifier::spinoff_prover]
    pub fn get_single_group(&self) -> (r: &[AlbumGroup])
        ensures
            AlbumGroup::seq_model(r@) == self@.single_group,
    {
        self.single_group.as_slice()
    }

    /// Empties field `compilation_group`.
    #[verifier::spinoff_prover]
    pub fn clear_compilation_group(&mut self)
        ensures
            final(self)@ == (ArtistModel { compilation_group: Seq::empty(), ..old(self)@ }),
    {
        proof {
            use_type_invariant(&*self);
        }
        self.compilation_group = Vec::new();
        assert(AlbumGroup::seq_model(self.compilation_group@) =~= Seq::<AlbumGroupModel>::empty());
    }

    /// Sets field `compilation_group` to the elements of `v`.
    #[verifier::spinoff_prover]
    pub fn set_compilation_group(&mut self, v: Vec<AlbumGroup>)
        ensures
            final(self)@ == (ArtistModel { compilation_group: AlbumGroup::seq_model(v@), ..old(self)@ }),
    {
        proof {
            use_type_invariant(&*self);
        }
        self.compilation_group = v;
    }

    /// The elements of field `compilation_group`, to change in place.
    #[verifier::spinoff_prover]
    pub fn mut_compilation_group(&mut self) -> (r: &mut Vec<AlbumGroup>)
        ensures
            AlbumGroup::seq_model(r@) == old(self)@.compilation_group,
            final(self)@ == (ArtistModel { compilation_group: AlbumGroup::seq_model(final(r)@), ..old(self)@ }),
    {
        proof {
            use_type_invariant(&*self);
        }
        field_mut(&mut self.compilation_group)
    }

    /// Takes the elements of field `compilation_group`, leaving it empty.
    #[verifier::spinoff_prover]
    pub fn take_compilation_group(&mut self) -> (r: Vec<AlbumGroup>)
        ensures
            AlbumGroup::seq_model(r@) == old(self)@.compilation_group,
            final(self)@ == (ArtistModel { compilation_group: Seq::empty(), ..old(self)@ }),
    {
        proof {
            use_type_invariant(&*self);
        }
        let mut r = Vec::new();
        std::mem::swap(&mut r, &mut self.compilation_group);
        assert(AlbumGroup::seq_model(self.compilation_group@) =~= Seq::<AlbumGroupModel>::empty());
        r
    }

    /// The elements of field `compilation_group`.
    #[verifier::spinoff_prover]
    pub fn get_compilation_group(&self) -> (r: &[AlbumGroup])
        ensures
            AlbumGroup::seq_model(r@) == self@.compilation_group,
    {
        self.compilation_group.as_slice()
    }

    /// Empties field `appears_on_group`.
    #[verifier::spinoff_prover]
    pub fn clear_appears_on_group(&mut self)
        ensures
            final(self)@ == (ArtistModel { appears_on_group: Seq::empty(), ..old(self)@ }),
    {
        proof {
            use_type_invariant(&*self);
        }
        self.appears_on_group = Vec::new();
        assert(AlbumGroup::seq_model(self.appears_on_group@) =~= Seq::<AlbumGroupModel>::empty());
    }

    /// Sets field `appears_on_group` to the elements of `v`.
    #[verifier::spinoff_prover]
    pub fn set_appears_on_group(&mut self, v: Vec<AlbumGroup>)
        ensures
            final(self)@ == (ArtistModel { appears_on_group: AlbumGroup::seq_model(v@), ..old(self)@ }),
    {
        proof {
            use_type_invariant(&*self);
        }
        self.appears_on_group = v;
    }

    /// The elements of field `appears_on_group`, to change in place.
    #[verifier::spinoff_prover]
    pub fn mut_appears_on_group(&mut self) -> (r: &mut Vec<AlbumGroup>)
        ensures
            AlbumGroup::seq_model(r@) == old(self)@.appears_on_group,
            final(self)@ == (ArtistModel { appears_on_group: AlbumGroup::seq_model(final(r)@), ..old(self)@ }),
    {
        proof {
            use_type_invariant(&*self);
        }
        field_mut(&mut self.appears_on_group)
    }

    /// Takes the elements of field `appears_on_group`, leaving it empty.
    #[verifier::spinoff_prover]
    pub fn take_appears_on_group(&mut self) -> (r: Vec<AlbumGroup>)
        ensures
            AlbumGroup::seq_model(r@) == old(self)@.appears_on_group,
            final(self)@ == (ArtistModel { appears_on_group: Seq::empty(), ..old(self)@ }),
    {
        proof {
            use_type_invariant(&*self);
        }
        let mut r = Vec::new();
        std::mem::swap(&mut r, &mut self.appears_on_group);
        assert(AlbumGroup::seq_model(self.appears_on_group@) =~= Seq::<AlbumGroupModel>::empty());
        r
    }

    /// The elements of field `appears_on_group`.
    #[verifier::spinoff_prover]
    pub fn get_appears_on_group(&self) -> (r: &[AlbumGroup])
        ensures
            AlbumGroup::seq_model(r@) == self@.appears_on_group,
    {
        self.appears_on_group.as_slice()
    }

    /// Empties field `genre`.
    #[verifier::spinoff_prover]
    pub fn clear_genre(&mut self)
        ensures
            final(self)@ == (ArtistModel { genre: Seq::empty(), ..old(self)@ }),
    {
        proof {
            use_type_invariant(&*self);
        }
        self.genre = Vec::new();
        assert(string_models(self.genre@) =~= Seq::<Seq<char>>::empty());
    }

    /// Sets field `genre` to the elements of `v`.
    #[verifier::spinoff_prover]
    pub fn set_genre(&mut self, v: Vec<String>)
        ensures
            final(self)@ == (ArtistModel { genre: string_models(v@), ..old(self)@ }),
    {
        proof {
            use_type_invariant(&*self);
        }
        self.genre = v;
    }

    /// The elements of field `genre`, to change in place.
    #[verifier::spinoff_prover]
    pub fn mut_genre(&mut self) -> (r: &mut Vec<String>)
        ensures
            string_models(r@) == old(self)@.genre,
            final(self)@ == (ArtistModel { genre: string_models(final(r)@), ..old(self)@ }),
    {
        proof {
            use_type_invariant(&*self);
        }
        field_mut(&mut self.genre)
    }

    /// Takes the elements of field `genre`, leaving it empty.
    #[verifier::spinoff_prover]
    pub fn take_genre(&mut self) -> (r: Vec<String>)
        ensures
            string_models(r@) == old(self)@.genre,
            final(self)@ == (ArtistModel { genre: Seq::empty(), ..old(self)@ }),
    {
        proof {
            use_type_invariant(&*self);
        }
        let mut r = Vec::new();
        std::mem::swap(&mut r, &mut self.genre);
        assert(string_models(self.genre@) =~= Seq::<Seq<char>>::empty());
        r
    }

    /// The elements of field `genre`.
    #[verifier::spinoff_prover]
    pub fn get_genre(&self) -> (r: &[String])
        ensures
            string_models(r@) == self@.genre,
    {
        self.genre.as_slice()
    }

    /// Empties field `external_id`.
    #[verifier::spinoff_prover]
    pub fn clear_external_id(&mut self)
        ensures
            final(self)@ == (ArtistModel { external_id: Seq::empty(), ..old(self)@ }),
    {
        proof {
            use_type_invariant(&*self);
        }
        self.external_id = Vec::new();
        assert(ExternalId::seq_model(self.external_id@) =~= Seq::<ExternalIdModel>::empty());
    }

    /// Sets field `external_id` to the elements of `v`.
    #[verifier::spinoff_prover]
    pub fn set_external_id(&mut self, v: Vec<ExternalId>)
        ensures
            final(self)@ == (ArtistModel { external_id: ExternalId::seq_model(v@), ..old(self)@ }),
    {
        proof {
            use_type_invariant(&*self);
        }
        self.external_id = v;
    }

    /// The elements of field `external_id`, to change in place.
    #[verifier::spinoff_prover]
    pub fn mut_external_id(&mut self) -> (r: &mut Vec<ExternalId>)
        ensures
            ExternalId::seq_model(r@) == old(self)@.external_id,
            final(self)@ == (ArtistModel { external_id: ExternalId::seq_model(final(r)@), ..old(self)@ }),
    {
        proof {
            use_type_invariant(&*self);
        }
        field_mut(&mut self.external_id)
    }

    /// Takes the elements of field `external_id`, leaving it empty.
    #[verifier::spinoff_prover]
    pub fn take_external_id(&mut self) -> (r: Vec<ExternalId>)
        ensures
            ExternalId::seq_model(r@) == old(self)@.external_id,
            final(self)@ == (ArtistModel { external_id: Seq::empty(), ..old(self)@ }),
    {
        proof {
            use_type_invariant(&*self);
        }
        let mut r = Vec::new();
        std::mem::swap(&mut r, &mut self.external_id);
        assert(ExternalId::seq_model(self.external_id@) =~= Seq::<ExternalIdModel>::empty());
        r
    }

    /// The elements of field `external_id`.
    #[verifier::spinoff_prover]
    pub fn get_external_id(&self) -> (r: &[ExternalId])
        ensures
            ExternalId::seq_model(r@) == self@.external_id,
    {
        self.external_id.as_slice()
    }

    /// Empties field `portrait`.
    #[verifier::spinoff_prover]
    pub fn clear_portrait(&mut self)
        ensures
            final(self)@ == (ArtistModel { portrait: Seq::empty(), ..old(self)@ }),
    {
        proof {
            use_type_invariant(&*self);
        }
        self.portrait = Vec::new();
        assert(Image::seq_model(self.portrait@) =~= Seq::<ImageModel>::empty());
    }

    /// Sets field `portrait` to the elements of `v`.
    #[verifier::spinoff_prover]
    pub fn set_portrait(&mut self, v: Vec<Image>)
        ensures
            final(self)@ == (ArtistModel { portrait: Image::seq_model(v@), ..old(self)@ }),
    {
        proof {
            use_type_invariant(&*self);
        }
        self.portrait = v;
    }

    /// The elements of field `portrait`, to change in place.
    #[verifier::spinoff_prover]
    pub fn mut_portrait(&mut self) -> (r: &mut Vec<Image>)
        ensures
            Image::seq_model(r@) == old(self)@.portrait,
            final(self)@ == (ArtistModel { portrait: Image::seq_model(final(r)@), ..old(self)@ }),
    {
        proof {
            use_type_invariant(&*self);
        }
        field_mut(&mut self.portrait)
    }

    /// Takes the elements of field `portrait`, leaving it empty.
    #[verifier::spinoff_prover]
    pub fn take_portrait(&mut self) -> (r: Vec<Image>)
        ensures
            Image::seq_model(r@) == old(self)@.portrait,
            final(self)@ == (ArtistModel { portrait: Seq::empty(), ..old(self)@ }),
    {
        proof {
            use_type_invariant(&*self);
        }
        let mut r = Vec::new();
        std::mem::swap(&mut r, &mut self.portrait);
        assert(Image::seq_model(self.portrait@) =~= Seq::<ImageModel>::empty());
        r
    }

    /// The elements of field `portrait`.
    #[verifier::spinoff_prover]
    pub fn get_portrait(&self) -> (r: &[Image])
        ensures
            Image::seq_model(r@) == self@.portrait,
    {
        self.portrait.as_slice()
    }

    /// Empties field `biography`.
    #[verifier::spinoff_prover]
    pub fn clear_biography(&mut self)
        ensures
            final(self)@ == (ArtistModel { biography: Seq::empty(), ..old(self)@ }),
    {
        proof {
            use_type_invariant(&*self);
        }
        self.biography = Vec::new();
        assert(Biography::seq_model(self.biography@) =~= Seq::<BiographyModel>::empty());
    }

    /// Sets field `biography` to the elements of `v`.
    #[verifier::spinoff_prover]
    pub fn set_biography(&mut self, v: Vec<Biography>)
        ensures
            final(self)@ == (ArtistModel { biography: Biography::seq_model(v@), ..old(self)@ }),
    {
        proof {
            use_type_invariant(&*self);
        }
        self.biography = v;
    }

    /// The elements of field `biography`, to change in place.
    #[verifier::spinoff_prover]
    pub fn mut_biography(&mut self) -> (r: &mut Vec<Biography>)
        ensures
            Biography::seq_model(r@) == old(self)@.biography,
            final(self)@ == (ArtistModel { biography: Biography::seq_model(final(r)@), ..old(self)@ }),
    {
        proof {
            use_type_invariant(&*self);
        }
        field_mut(&mut self.biography)
    }

    /// Takes the elements of field `biography`, leaving it empty.
    #[verifier::spinoff_prover]
    pub fn take_biography(&mut self) -> (r: Vec<Biography>)
        ensures
            Biography::seq_model(r@) == old(self)@.biography,
            final(self)@ == (ArtistModel { biography: Seq::empty(), ..old(self)@ }),
    {
        proof {
            use_type_invariant(&*self);
        }
        let mut r = Vec::new();
        std::mem::swap(&mut r, &mut self.biography);
        assert(Biography::seq_model(self.biography@) =~= Seq::<BiographyModel>::empty());
        r
    }

    /// The elements of field `biography`.
    #[verifier::spinoff_prover]
    pub fn get_biography(&self) -> (r: &[Biography])
        ensures
            Biography::seq_model(r@) == self@.biography,
    {
        self.biography.as_slice()
    }

    /// Empties field `activity_period`.
    #[verifier::spinoff_prover]
    pub fn clear_activity_period(&mut self)
        ensures
            final(self)@ == (ArtistModel { activity_period: Seq::empty(), ..old(self)@ }),
    {
        proof {
            use_type_invariant(&*self);
        }
        self.activity_period = Vec::new();
        assert(ActivityPeriod::seq_model(self.activity_period@) =~= Seq::<ActivityPeriodModel>::empty());
    }

    /// Sets field `activity_period` to the elements of `v`.
    #[verifier::spinoff_prover]
    pub fn set_activity_period(&mut self, v: Vec<ActivityPeriod>)
        ensures
            final(self)@ == (ArtistModel { activity_period: ActivityPeriod::seq_model(v@), ..old(self)@ }),
    {
        proof {
            use_type_invariant(&*self);
        }
        self.activity_period = v;
    }

    /// The elements of field `activity_period`, to change in place.
    #[verifier::spinoff_prover]
    pub fn mut_activity_period(&mut self) -> (r: &mut Vec<ActivityPeriod>)
        ensures
            ActivityPeriod::seq_model(r@) == old(self)@.activity_period,
            final(self)@ == (ArtistModel { activity_period: ActivityPeriod::seq_model(final(r)@), ..old(self)@ }),
    {
        proof {
            use_type_invariant(&*self);
        }
        field_mut(&mut self.activity_period)
    }

    /// Takes the elements of field `activity_period`, leaving it empty.
    #[verifier::spinoff_prover]
    pub fn take_activity_period(&mut self) -> (r: Vec<ActivityPeriod>)
        ensures
            ActivityPeriod::seq_model(r@) == old(self)@.activity_period,
            final(self)@ == (ArtistModel { activity_period: Seq::empty(), ..old(self)@ }),
    {
        proof {
            use_type_invariant(&*self);
        }
        let mut r = Vec::new();
        std::mem::swap(&mut r, &mut self.activity_period);
        assert(ActivityPeriod::seq_model(self.activity_period@) =~= Seq::<ActivityPeriodModel>::empty());
        r
    }

    /// The elements of field `activity_period`.
    #[verifier::spinoff_prover]
    pub fn get_activity_period(&self) -> (r: &[ActivityPeriod])
        ensures
            ActivityPeriod::seq_model(r@) == self@.activity_period,
    {
        self.activity_period.as_slice()
    }

    /// Empties field `restriction`.
    #[verifier::spinoff_prover]
    pub fn clear_restriction(&mut self)
        ensures
            final(self)@ == (ArtistModel { restriction: Seq::empty(), ..old(self)@ }),
    {
        proof {
            use_type_invariant(&*self);
        }
        self.restriction = Vec::new();
        assert(Restriction::seq_model(self.restriction@) =~= Seq::<RestrictionModel>::empty());
    }

    /// Sets field `restriction` to the elements of `v`.
    #[verifier::spinoff_prover]
    pub fn set_restriction(&mut self, v: Vec<Restriction>)
        ensures
            final(self)@ == (ArtistModel { restriction: Restriction::seq_model(v@), ..old(self)@ }),
    {
        proof {
            use_type_invariant(&*self);
        }
        self.restriction = v;
    }

    /// The elements of field `restriction`, to change in place.
    #[verifier::spinoff_prover]
    pub fn mut_restriction(&mut self) -> (r: &mut Vec<Restriction>)
        ensures
            Restriction::seq_model(r@) == old(self)@.restriction,
            final(self)@ == (ArtistModel { restriction: Restriction::seq_model(final(r)@), ..old(self)@ }),
    {
        proof {
            use_type_invariant(&*self);
        }
        field_mut(&mut self.restriction)
    }

    /// Takes the elements of field `restriction`, leaving it empty.
    #[verifier::spinoff_prover]
    pub fn take_restriction(&mut self) -> (r: Vec<Restriction>)
        ensures
            Restriction::seq_model(r@) == old(self)@.restriction,
            final(self)@ == (ArtistModel { restriction: Seq::empty(), ..old(self)@ }),
    {
        proof {
            use_type_invariant(&*self);
        }
        let mut r = Vec::new();
        std::mem::swap(&mut r, &mut self.restriction);
        assert(Restriction::seq_model(self.restriction@) =~= Seq::<RestrictionModel>::empty());
        r
    }

    /// The elements of field `restriction`.
    #[verifier::spinoff_prover]
    pub fn get_restriction(&self) -> (r: &[Restriction])
        ensures
            Restriction::seq_model(r@) == self@.restriction,
    {
        self.restriction.as_slice()
    }

    /// Empties field `related`.
    #[verifier::spinoff_prover]
    pub fn clear_related(&mut self)
        ensures
            final(self)@ == (ArtistModel { related: Seq::empty(), ..old(self)@ }),
    {
        proof {
            use_type_invariant(&*self);
        }
        self.related = Vec::new();
        assert(Artist::seq_model(self.related@) =~= Seq::<ArtistModel>::empty());
    }

    /// Sets field `related` to the elements of `v`.
    #[verifier::spinoff_prover]
    pub fn set_related(&mut self, v: Vec<Artist>)
        ensures
            final(self)@ == (ArtistModel { related: Artist::seq_model(v@), ..old(self)@ }),
    {
        proof {
            use_type_invariant(&*self);
        }
        self.related = v;
    }

    /// The elements of field `related`, to change in place.
    #[verifier::spinoff_prover]
    pub fn mut_related(&mut self) -> (r: &mut Vec<Artist>)
        ensures
            Artist::seq_model(r@) == old(self)@.related,
            final(self)@ == (ArtistModel { related: Artist::seq_model(final(r)@), ..old(self)@ }),
    {
        proof {
            use_type_invariant(&*self);
        }
        field_mut(&mut self.related)
    }

    /// Takes the elements of field `related`, leaving it empty.
    #[verifier::spinoff_prover]
    pub fn take_related(&mut self) -> (r: Vec<Artist>)
        ensures
            Artist::seq_model(r@) == old(self)@.related,
            final(self)@ == (ArtistModel { related: Seq::empty(), ..old(self)@ }),
    {
        proof {
            use_type_invariant(&*self);
        }
        let mut r = Vec::new();
        std::mem::swap(&mut r, &mut self.related);
        assert(Artist::seq_model(self.related@) =~= Seq::<ArtistModel>::empty());
        r
    }

    /// The elements of field `related`.
    #[verifier::spinoff_prover]
    pub fn get_related(&self) -> (r: &[Artist])
        ensures
            Artist::seq_model(r@) == self@.related,
    {
        self.related.as_slice()
    }

    /// Unsets field `is_portrait_album_cover`.
    #[verifier::spinoff_prover]
    pub fn clear_is_portrait_album_cover(&mut self)
        ensures
            final(self)@ == (ArtistModel { is_portrait_album_cover: None, ..old(self)@ }),
    {
        proof {
            use_type_invariant(&*self);
        }
        self.is_portrait_album_cover = None;
    }

    /// Whether field `is_portrait_album_cover` is set.
    #[verifier::spinoff_prover]
    pub fn has_is_portrait_album_cover(&self) -> (r: bool)
        ensures
            r == self@.is_portrait_album_cover is Some,
    {
        self.is_portrait_album_cover.is_some()
    }

    /// Sets field `is_portrait_album_cover` to `v`.
    #[verifier::spinoff_prover]
    pub fn set_is_portrait_album_cover(&mut self, v: bool)
        ensures
            final(self)@ == (ArtistModel { is_portrait_album_cover: Some(v), ..old(self)@ }),
    {
        proof {
            use_type_invariant(&*self);
        }
        self.is_portrait_album_cover = Some(v);
    }

    /// Field `is_portrait_album_cover`, or `false` when unset.
    #[verifier::spinoff_prover]
    pub fn get_is_portrait_album_cover(&self) -> (r: bool)
        ensures
            r == (match self@.is_portrait_album_cover { Some(x) => x, None => false }),
    {
        match self.is_portrait_album_cover {
            Some(x) => x,
            None => false,
        }
    }

    /// Unsets field `portrait_group`.
    #[verifier::spinoff_prover]
    pub fn clear_portrait_group(&mut self)
        ensures
            final(self)@ == (ArtistModel { portrait_group: None, ..old(self)@ }),
    {
        proof {
            use_type_invariant(&*self);
        }
        self.portrait_group = Box::new(ImageGroup::new());
        self.has_portrait_group = false;
    }

    /// Whether field `portrait_group` is set.
    #[verifier::spinoff_prover]
    pub fn has_portrait_group(&self) -> (r: bool)
        ensures
            r == self@.portrait_group is Some,
    {
        self.has_portrait_group
    }

    /// Sets field `portrait_group` to `v`.
    #[verifier::spinoff_prover]
    pub fn set_portrait_group(&mut self, v: ImageGroup)
        ensures
            final(self)@ == (ArtistModel { portrait_group: Some(v@), ..old(self)@ }),
    {
        proof {
            use_type_invariant(&*self);
        }
        self.has_portrait_group = true;
        self.portrait_group = Box::new(v);
    }

    /// Field `portrait_group`, to change in place; an unset field is first set to its default.
    #[verifier::spinoff_prover]
    pub fn mut_portrait_group(&mut self) -> (r: &mut ImageGroup)
        ensures
            r@ == (match old(self)@.portrait_group { Some(x) => x, None => ImageGroupModel::empty() }),
            final(self)@ == (ArtistModel { portrait_group: Some(final(r)@), ..old(self)@ }),

        no_unwind
    {
        proof {
            use_type_invariant(&*self);
        }
        self.has_portrait_group = true;
        box_mut(&mut self.portrait_group)
    }

    /// Takes field `portrait_group` (its default when unset), leaving it unset.
    #[verifier::spinoff_prover]
    pub fn take_portrait_group(&mut self) -> (r: ImageGroup)
        ensures
            r@ == (match old(self)@.portrait_group { Some(x) => x, None => ImageGroupModel::empty() }),
            final(self)@ == (ArtistModel { portrait_group: None, ..old(self)@ }),
    {
        proof {
            use_type_invariant(&*self);
        }
        let mut b = Box::new(ImageGroup::new());
        std::mem::swap(&mut b, &mut self.portrait_group);
        self.has_portrait_group = false;
        *b
    }

    /// Field `portrait_group`, or a message with no field set when unset.
    #[verifier::spinoff_prover]
    pub fn get_portrait_group(&self) -> (r: &ImageGroup)
        ensures
            r@ == (match self@.portrait_group { Some(x) => x, None => ImageGroupModel::empty() }),
    {
        proof {
            use_type_invariant(self);
        }
        &self.portrait_group
    }

    /// Merges one field whose tag (number `f`, wire type `wt`) has been read
    /// from the bytes `s` that follow the tag; returns the number of bytes the
    /// value took.
    #[verifier::spinoff_prover]
    fn merge_field(&mut self, f: u32, wt: u32, s: &[u8], lim: u64) -> (r: Option<usize>)
        ensures
            match old(self)@.merge_field(f, wt, s@, lim as nat) {
                Some((m, k)) => r == Some(k as usize) && final(self)@ == m,
                None => r is None && final(self)@ == old(self)@.merge_field_failed(f, wt, s@, lim as nat),
            },
        decreases s@.len(), 1int,
    {
        proof {
            use_type_invariant(&*self);
        }
        proof {
            reveal_with_fuel(AlbumGroupModel::merge, 1);
            reveal_with_fuel(ArtistModel::merge, 1);
            reveal_with_fuel(TopTracksModel::merge, 1);
        }
        if f == 1 {
            if wt != WIRE_LENGTH_DELIMITED {
                return None;
            }
            match read_bytes(s) {
                Some((v, k)) => {
                    self.gid = Some(v);
                    Some(k)
                },
                None => {
                    self.gid = Some(Vec::new());
                    None
                },
            }
        } else if f == 2 {
            if wt != WIRE_LENGTH_DELIMITED {
                return None;
            }
            match read_string(s) {
                Some((v, k)) => {
                    self.name = Some(v);
                    Some(k)
                },
                None => {
                    self.name = Some(String::new());
                    None
                },
            }
        } else if f == 3 {
            if wt != WIRE_VARINT {
                return None;
            }
            match pb_read_sint32(s) {
                Some((v, k)) => {
                    self.popularity = Some(v);
                    Some(k)
                },
                None => None,
            }
        } else if f == 4 {
            if wt != WIRE_LENGTH_DELIMITED {
                return None;
            }
            match read_embedded_window(s, lim) {
                Some((a, b, past)) => {
                    if a == 0 || a > b || b > s.len() {
                        let x = TopTracks::new();
                        let ghost old_v = self.top_track@;
                        field_mut(&mut self.top_track).push(x);
                        proof {
                            assert(self.top_track@ =~= old_v.push(self.top_track@.last()));
                            TopTracks::lemma_seq_model_push(old_v, self.top_track@.last());
                        }
                        return None;
                    }
                    let sub = &s[a..b];
                    let mut x = TopTracks::new();
                    let ok = x.merge_from_slice(sub, past);
                    let ghost old_v = self.top_track@;
                    field_mut(&mut self.top_track).push(x);
                    proof {
                        assert(self.top_track@ =~= old_v.push(self.top_track@.last()));
                        TopTracks::lemma_seq_model_push(old_v, self.top_track@.last());
                    }
                    if ok {
                        Some(b)
                    } else {
                        None
                    }
                },
                None => {
                    let x = TopTracks::new();
                    let ghost old_v = self.top_track@;
                    field_mut(&mut self.top_track).push(x);
                    proof {
                        assert(self.top_track@ =~= old_v.push(self.top_track@.last()));
                        TopTracks::lemma_seq_model_push(old_v, self.top_track@.last());
                    }
                    None
                },
            }
        } else if f == 5 {
            if wt != WIRE_LENGTH_DELIMITED {
                return None;
            }
            match read_embedded_window(s, lim) {
                Some((a, b, past)) => {
                    if a == 0 || a > b || b > s.len() {
                        let x = AlbumGroup::new();
                        let ghost old_v = self.album_group@;
                        field_mut(&mut self.album_group).push(x);
                        proof {
                            assert(self.album_group@ =~= old_v.push(self.album_group@.last()));
                            AlbumGroup::lemma_seq_model_push(old_v, self.album_group@.last());
                        }
                        return None;
                    }
                    let sub = &s[a..b];
                    let mut x = AlbumGroup::new();
                    let ok = x.merge_from_slice(sub, past);
                    let ghost old_v = self.album_group@;
                    field_mut(&mut self.album_group).push(x);
                    proof {
                        assert(self.album_group@ =~= old_v.push(self.album_group@.last()));
                        AlbumGroup::lemma_seq_model_push(old_v, self.album_group@.last());
                    }
                    if ok {
                        Some(b)
                    } else {
                        None
                    }
                },
                None => {
                    let x = AlbumGroup::new();
                    let ghost old_v = self.album_group@;
                    field_mut(&mut self.album_group).push(x);
                    proof {
                        assert(self.album_group@ =~= old_v.push(self.album_group@.last()));
                        AlbumGroup::lemma_seq_model_push(old_v, self.album_group@.last());
                    }
                    None
                },
            }
        } else if f == 6 {
            if wt != WIRE_LENGTH_DELIMITED {
                return None;
            }
            match read_embedded_window(s, lim) {
                Some((a, b, past)) => {
                    if a == 0 || a > b || b > s.len() {
                        let x = AlbumGroup::new();
                        let ghost old_v = self.single_group@;
                        field_mut(&mut self.single_group).push(x);
                        proof {
                            assert(self.single_group@ =~= old_v.push(self.single_group@.last()));
                            AlbumGroup::lemma_seq_model_push(old_v, self.single_group@.last());
                        }
                        return None;
                    }
                    let sub = &s[a..b];
                    let mut x = AlbumGroup::new();
                    let ok = x.merge_from_slice(sub, past);
                    let ghost old_v = self.single_group@;
                    field_mut(&mut self.single_group).push(x);
                    proof {
                        assert(self.single_group@ =~= old_v.push(self.single_group@.last()));
                        AlbumGroup::lemma_seq_model_push(old_v, self.single_group@.last());
                    }
                    if ok {
                        Some(b)
                    } else {
                        None
                    }
                },
                None => {
                    let x = AlbumGroup::new();
                    let ghost old_v = self.single_group@;
                    field_mut(&mut self.single_group).push(x);
                    proof {
                        assert(self.single_group@ =~= old_v.push(self.single_group@.last()));
                        AlbumGroup::lemma_seq_model_push(old_v, self.single_group@.last());
                    }
                    None
                },
            }
        } else if f == 7 {
            if wt != WIRE_LENGTH_DELIMITED {
                return None;
            }
            match read_embedded_window(s, lim) {
                Some((a, b, past)) => {
                    if a == 0 || a > b || b > s.len() {
                        let x = AlbumGroup::new();
                        let ghost old_v = self.compilation_group@;
                        field_mut(&mut self.compilation_group).push(x);
                        proof {
                            assert(self.compilation_group@ =~= old_v.push(self.compilation_group@.last()));
                            AlbumGroup::lemma_seq_model_push(old_v, self.compilation_group@.last());
                        }
                        return None;
                    }
                    let sub = &s[a..b];
                    let mut x = AlbumGroup::new();
                    let ok = x.merge_from_slice(sub, past);
                    let ghost old_v = self.compilation_group@;
                    field_mut(&mut self.compilation_group).push(x);
                    proof {
                        assert(self.compilation_group@ =~= old_v.push(self.compilation_group@.last()));
                        AlbumGroup::lemma_seq_model_push(old_v, self.compilation_group@.last());
                    }
                    if ok {
                        Some(b)
                    } else {
                        None
                    }
                },
                None => {
                    let x = AlbumGroup::new();
                    let ghost old_v = self.compilation_group@;
                    field_mut(&mut self.compilation_group).push(x);
                    proof {
                        assert(self.compilation_group@ =~= old_v.push(self.compilation_group@.last()));
                        AlbumGroup::lemma_seq_model_push(old_v, self.compilation_group@.last());
                    }
                    None
                },
            }
        } else if f == 8 {
            if wt != WIRE_LENGTH_DELIMITED {
                return None;
            }
            match read_embedded_window(s, lim) {
                Some((a, b, past)) => {
                    if a == 0 || a > b || b > s.len() {
                        let x = AlbumGroup::new();
                        let ghost old_v = self.appears_on_group@;
                        field_mut(&mut self.appears_on_group).push(x);
                        proof {
                            assert(self.appears_on_group@ =~= old_v.push(self.appears_on_group@.last()));
                            AlbumGroup::lemma_seq_model_push(old_v, self.appears_on_group@.last());
                        }
                        return None;
                    }
                    let sub = &s[a..b];
                    let mut x = AlbumGroup::new();
                    let ok = x.merge_from_slice(sub, past);
                    let ghost old_v = self.appears_on_group@;
                    field_mut(&mut self.appears_on_group).push(x);
                    proof {
                        assert(self.appears_on_group@ =~= old_v.push(self.appears_on_group@.last()));
                        AlbumGroup::lemma_seq_model_push(old_v, self.appears_on_group@.last());
                    }
                    if ok {
                        Some(b)
                    } else {
                        None
                    }
                },
                None => {
                    let x = AlbumGroup::new();
                    let ghost old_v = self.appears_on_group@;
                    field_mut(&mut self.appears_on_group).push(x);
                    proof {
                        assert(self.appears_on_group@ =~= old_v.push(self.appears_on_group@.last()));
                        AlbumGroup::lemma_seq_model_push(old_v, self.appears_on_group@.last());
                    }
                    None
                },
            }
        } else if f == 9 {
            if wt != WIRE_LENGTH_DELIMITED {
                return None;
            }
            match read_string(s) {
                Some((v, k)) => {
                    let ghost old_v = self.genre@;
                    field_mut(&mut self.genre).push(v);
                    assert(string_models(self.genre@) =~= string_models(old_v).push(self.genre@.last()@));
                    Some(k)
                },
                None => {
                    let ghost old_v = self.genre@;
                    field_mut(&mut self.genre).push(String::new());
                    assert(string_models(self.genre@) =~= string_models(old_v).push(Seq::<char>::empty()));
                    None
                },
            }
        } else if f == 10 {
            if wt != WIRE_LENGTH_DELIMITED {
                return None;
            }
            match read_embedded_window(s, lim) {
                Some((a, b, past)) => {
                    if a == 0 || a > b || b > s.len() {
                        let x = ExternalId::new();
                        let ghost old_v = self.external_id@;
                        field_mut(&mut self.external_id).push(x);
                        assert(ExternalId::seq_model(self.external_id@) =~= ExternalId::seq_model(old_v).push(self.external_id@.last()@));
                        return None;
                    }
                    let sub = &s[a..b];
                    let mut x = ExternalId::new();
                    let ok = x.merge_from_slice(sub, past);
                    let ghost old_v = self.external_id@;
                    field_mut(&mut self.external_id).push(x);
                    assert(ExternalId::seq_model(self.external_id@) =~= ExternalId::seq_model(old_v).push(self.external_id@.last()@));
                    if ok {
                        Some(b)
                    } else {
                        None
                    }
                },
                None => {
                    let x = ExternalId::new();
                    let ghost old_v = self.external_id@;
                    field_mut(&mut self.external_id).push(x);
                    assert(ExternalId::seq_model(self.external_id@) =~= ExternalId::seq_model(old_v).push(self.external_id@.last()@));
                    None
                },
            }
        } else if f == 11 {
            if wt != WIRE_LENGTH_DELIMITED {
                return None;
            }
            match read_embedded_window(s, lim) {
                Some((a, b, past)) => {
                    if a == 0 || a > b || b > s.len() {
                        let x = Image::new();
                        let ghost old_v = self.portrait@;
                        field_mut(&mut self.portrait).push(x);
                        assert(Image::seq_model(self.portrait@) =~= Image::seq_model(old_v).push(self.portrait@.last()@));
                        return None;
                    }
                    let sub = &s[a..b];
                    let mut x = Image::new();
                    let ok = x.merge_from_slice(sub, past);
                    let ghost old_v = self.portrait@;
                    field_mut(&mut self.portrait).push(x);
                    assert(Image::seq_model(self.portrait@) =~= Image::seq_model(old_v).push(self.portrait@.last()@));
                    if ok {
                        Some(b)
                    } else {
                        None
                    }
                },
                None => {
                    let x = Image::new();
                    let ghost old_v = self.portrait@;
                    field_mut(&mut self.portrait).push(x);
                    assert(Image::seq_model(self.portrait@) =~= Image::seq_model(old_v).push(self.portrait@.last()@));
                    None
                },
            }
        } else if f == 12 {
            if wt != WIRE_LENGTH_DELIMITED {
                return None;
            }
            match read_embedded_window(s, lim) {
                Some((a, b, past)) => {
                    if a == 0 || a > b || b > s.len() {
                        let x = Biography::new();
                        let ghost old_v = self.biography@;
                        field_mut(&mut self.biography).push(x);
                        assert(Biography::seq_model(self.biography@) =~= Biography::seq_model(old_v).push(self.biography@.last()@));
                        return None;
                    }
                    let sub = &s[a..b];
                    let mut x = Biography::new();
                    let ok = x.merge_from_slice(sub, past);
                    let ghost old_v = self.biography@;
                    field_mut(&mut self.biography).push(x);
                    assert(Biography::seq_model(self.biography@) =~= Biography::seq_model(old_v).push(self.biography@.last()@));
                    if ok {
                        Some(b)
                    } else {
                        None
                    }
                },
                None => {
                    let x = Biography::new();
                    let ghost old_v = self.biography@;
                    field_mut(&mut self.biography).push(x);
                    assert(Biography::seq_model(self.biography@) =~= Biography::seq_model(old_v).push(self.biography@.last()@));
                    None
                },
            }
        } else if f == 13 {
            if wt != WIRE_LENGTH_DELIMITED {
                return None;
            }
            match read_embedded_window(s, lim) {
                Some((a, b, past)) => {
                    if a == 0 || a > b || b > s.len() {
                        let x = ActivityPeriod::new();
                        let ghost old_v = self.activity_period@;
                        field_mut(&mut self.activity_period).push(x);
                        assert(ActivityPeriod::seq_model(self.activity_period@) =~= ActivityPeriod::seq_model(old_v).push(self.activity_period@.last()@));
                        return None;
                    }
                    let sub = &s[a..b];
                    let mut x = ActivityPeriod::new();
                    let ok = x.merge_from_slice(sub, past);
                    let ghost old_v = self.activity_period@;
                    field_mut(&mut self.activity_period).push(x);
                    assert(ActivityPeriod::seq_model(self.activity_period@) =~= ActivityPeriod::seq_model(old_v).push(self.activity_period@.last()@));
                    if ok {
                        Some(b)
                    } else {
                        None
                    }
                },
                None => {
                    let x = ActivityPeriod::new();
                    let ghost old_v = self.activity_period@;
                    field_mut(&mut self.activity_period).push(x);
                    assert(ActivityPeriod::seq_model(self.activity_period@) =~= ActivityPeriod::seq_model(old_v).push(self.activity_period@.last()@));
                    None
                },
            }
        } else if f == 14 {
            if wt != WIRE_LENGTH_DELIMITED {
                return None;
            }
            match read_embedded_window(s, lim) {
                Some((a, b, past)) => {
                    if a == 0 || a > b || b > s.len() {
                        let x = Restriction::new();
                        let ghost old_v = self.restriction@;
                        field_mut(&mut self.restriction).push(x);
                        assert(Restriction::seq_model(self.restriction@) =~= Restriction::seq_model(old_v).push(self.restriction@.last()@));
                        return None;
                    }
                    let sub = &s[a..b];
                    let mut x = Restriction::new();
                    let ok = x.merge_from_slice(sub, past);
                    let ghost old_v = self.restriction@;
                    field_mut(&mut self.restriction).push(x);
                    assert(Restriction::seq_model(self.restriction@) =~= Restriction::seq_model(old_v).push(self.restriction@.last()@));
                    if ok {
                        Some(b)
                    } else {
                        None
                    }
                },
                None => {
                    let x = Restriction::new();
                    let ghost old_v = self.restriction@;
                    field_mut(&mut self.restriction).push(x);
                    assert(Restriction::seq_model(self.restriction@) =~= Restriction::seq_model(old_v).push(self.restriction@.last()@));
                    None
                },
            }
        } else if f == 15 {
            if wt != WIRE_LENGTH_DELIMITED {
                return None;
            }
            match read_embedded_window(s, lim) {
                Some((a, b, past)) => {
                    if a == 0 || a > b || b > s.len() {
                        let x = Artist::new();
                        let ghost old_v = self.related@;
                        field_mut(&mut self.related).push(x);
                        proof {
                            assert(self.related@ =~= old_v.push(self.related@.last()));
                            Artist::lemma_seq_model_push(old_v, self.related@.last());
                        }
                        return None;
                    }
                    let sub = &s[a..b];
                    let mut x = Artist::new();
                    let ok = x.merge_from_slice(sub, past);
                    let ghost old_v = self.related@;
                    field_mut(&mut self.related).push(x);
                    proof {
                        assert(self.related@ =~= old_v.push(self.related@.last()));
                        Artist::lemma_seq_model_push(old_v, self.related@.last());
                    }
                    if ok {
                        Some(b)
                    } else {
                        None
                    }
                },
                None => {
                    let x = Artist::new();
                    let ghost old_v = self.related@;
                    field_mut(&mut self.related).push(x);
                    proof {
                        assert(self.related@ =~= old_v.push(self.related@.last()));
                        Artist::lemma_seq_model_push(old_v, self.related@.last());
                    }
                    None
                },
            }
        } else if f == 16 {
            if wt != WIRE_VARINT {
                return None;
            }
            proof {
                lemma_varint_parse_len(s@);
            }
            match pb_read_raw_varint64(s) {
                Some((v, k)) => {
                    self.is_portrait_album_cover = Some((v as u32) != 0);
                    Some(k)
                },
                None => None,
            }
        } else if f == 17 {
            if wt != WIRE_LENGTH_DELIMITED {
                return None;
            }
            match read_embedded_window(s, lim) {
                Some((a, b, past)) => {
                    if a == 0 || a > b || b > s.len() {
                        let x = ImageGroup::new();
                        self.has_portrait_group = true;
                        self.portrait_group = Box::new(x);
                        return None;
                    }
                    let sub = &s[a..b];
                    let mut x = ImageGroup::new();
                    let ok = x.merge_from_slice(sub, past);
                    self.has_portrait_group = true;
                    self.portrait_group = Box::new(x);
                    if ok {
                        Some(b)
                    } else {
                        None
                    }
                },
                None => {
                    let x = ImageGroup::new();
                    self.has_portrait_group = true;
                    self.portrait_group = Box::new(x);
                    None
                },
            }
        } else {
            match read_unknown(f, wt, s) {
                Some((Some(u), k)) => {
                    insert_unknown(field_mut(&mut self.unknown_fields), u);
                    Some(k)
                },
                Some((None, k)) => Some(k),
                None => None,
            }
        }
    }

    /// Merges all the fields that `s` holds, in order; `false` when the bytes
    /// are not a valid encoding (the message then holds what was merged so far).
    #[verifier::spinoff_prover]
    #[verifier::rlimit(100)]
    fn merge_from_slice(&mut self, s: &[u8], lim: u64) -> (ok: bool)
        ensures
            match old(self)@.merge(s@, lim as nat) {
                Some(m) => ok && final(self)@ == m,
                None => !ok && final(self)@ == old(self)@.merge_partial(s@, lim as nat),
            },
        decreases s@.len(), 2int,
    {
        proof {
            reveal_with_fuel(ArtistModel::merge, 1);
            reveal_with_fuel(ArtistModel::merge_partial, 1);
        }
        let mut pos: usize = 0;
        assert(s@.skip(0) =~= s@);
        while pos < s.len()
            invariant
                pos <= s.len(),
                old(self)@.merge(s@, lim as nat) == self@.merge(s@.skip(pos as int), lim as nat),
                old(self)@.merge_partial(s@, lim as nat) == self@.merge_partial(s@.skip(pos as int), lim as nat),
            decreases s.len() - pos,
        {
            let rest = &s[pos..s.len()];
            assert(rest@ == s@.skip(pos as int));
            proof {
                reveal_with_fuel(ArtistModel::merge, 1);
                reveal_with_fuel(ArtistModel::merge_partial, 1);
                lemma_tag_parse_len(rest@);
            }
            match pb_read_tag_unpack(rest) {
                None => {
                    return false;
                },
                Some((f, wt, n)) => {
                    if n == 0 || n > rest.len() {
                        return false;
                    }
                    let rest2 = &rest[n..rest.len()];
                    assert(rest2@ == rest@.skip(n as int));
                    proof {
                        self@.lemma_merge_field_len(f, wt, rest2@, lim as nat);
                    }
                    match self.merge_field(f, wt, rest2, lim) {
                        None => {
                            return false;
                        },
                        Some(k) => {
                            if k > rest2.len() {
                                return false;
                            }
                            assert(rest@.skip((n + k) as int) =~= s@.skip((pos + n + k) as int));
                            pos = pos + n + k;
                        },
                    }
                },
            }
        }
        assert(s@.skip(pos as int) =~= Seq::<u8>::empty());
        proof {
            reveal_with_fuel(ArtistModel::merge, 1);
        }
        true
    }

    /// The message that `s` encodes, if it is a valid encoding.
    #[verifier::spinoff_prover]
    fn parse_slice(s: &[u8], lim: u64) -> (r: Option<Self>)
        ensures
            match ArtistModel::empty().merge(s@, lim as nat) {
                Some(m) => r matches Some(x) && x@ == m,
                None => r is None,
            },
        decreases s@.len(), 3int,
    {
        let mut m = Artist::new();
        if m.merge_from_slice(s, lim) {
            Some(m)
        } else {
            None
        }
    }

    /// Merges the fields that `bytes` encodes into this message, in order: a set
    /// field is replaced, a repeated field grows. On an invalid encoding the
    /// error comes back, the fields merged before the first field that could not
    /// be read stay merged, and that field is left as `merge_field_failed` says.
    #[verifier::spinoff_prover]
    pub fn merge_from_bytes(&mut self, bytes: &[u8]) -> (r: Result<(), DecodeError>)
        ensures
            match old(self)@.merge(bytes@, top_limit(bytes@.len())) {
                Some(m) => r is Ok && final(self)@ == m,
                None => r is Err && final(self)@ == old(self)@.merge_partial(bytes@, top_limit(bytes@.len())),
            },
    {
        let lim: u64 = u64::MAX - bytes.len() as u64;
        if self.merge_from_slice(bytes, lim) {
            Ok(())
        } else {
            Err(DecodeError)
        }
    }

    /// Parses a message from its encoding.
    #[verifier::spinoff_prover]
    pub fn parse_from_bytes(bytes: &[u8]) -> (r: Result<Self, DecodeError>)
        ensures
            match ArtistModel::empty().merge(bytes@, top_limit(bytes@.len())) {
                Some(m) => r matches Ok(x) && x@ == m,
                None => r is Err,
            },
    {
        let lim: u64 = u64::MAX - bytes.len() as u64;
        match Self::parse_slice(bytes, lim) {
            Some(m) => Ok(m),
            None => Err(DecodeError),
        }
    }

    /// Appends the encoding of field `gid` to `out`.
    #[verifier::spinoff_prover]
    fn write_field_gid(&self, out: &mut Vec<u8>)
        requires
            self@.wf(),
        ensures
            final(out)@ == old(out)@ + opt_length_delimited_field_bytes(1, self@.gid),
            final(out)@ + self@.encoded_from_name() == old(out)@ + self@.encoded_from_gid(),
    {
        proof {
            use_type_invariant(self);
        }
        proof {
            reveal_with_fuel(ArtistModel::wf, 1);
        }
        let ghost o = out@;
        let ghost m = self@;
        match &self.gid {
            Some(v) => {
                pb_write_tag(out, 1, WIRE_LENGTH_DELIMITED);
                write_bytes_value(out, v.as_slice());
                proof {
                    lemma_concat_assoc(o, tag_bytes(1, WIRE_LENGTH_DELIMITED), bytes_value_bytes(v@));
                }
            },
            None => {
                assert(o + Seq::<u8>::empty() =~= o);
            },
        }
        proof {
            lemma_concat_assoc(o, opt_length_delimited_field_bytes(1, m.gid), m.encoded_from_name());
        }
    }

    /// Appends the encoding of field `name` to `out`.
    #[verifier::spinoff_prover]
    fn write_field_name(&self, out: &mut Vec<u8>)
        requires
            self@.wf(),
        ensures
            final(out)@ == old(out)@ + opt_length_delimited_field_bytes(2, match self@.name { Some(c) => Some(encode_utf8(c)), None => None }),
            final(out)@ + self@.encoded_from_popularity() == old(out)@ + self@.encoded_from_name(),
    {
        proof {
            use_type_invariant(self);
        }
        proof {
            reveal_with_fuel(ArtistModel::wf, 1);
        }
        let ghost o = out@;
        let ghost m = self@;
        match &self.name {
            Some(v) => {
                pb_write_tag(out, 2, WIRE_LENGTH_DELIMITED);
                write_string_value(out, v.as_str());
                proof {
                    lemma_concat_assoc(o, tag_bytes(2, WIRE_LENGTH_DELIMITED), bytes_value_bytes(encode_utf8(v@)));
                }
            },
            None => {
                assert(o + Seq::<u8>::empty() =~= o);
            },
        }
        proof {
            lemma_concat_assoc(o, opt_length_delimited_field_bytes(2, match m.name { Some(c) => Some(encode_utf8(c)), None => None }), m.encoded_from_popularity());
        }
    }

    /// Appends the encoding of field `popularity` to `out`.
    #[verifier::spinoff_prover]
    fn write_field_popularity(&self, out: &mut Vec<u8>)
        requires
            self@.wf(),
        ensures
            final(out)@ == old(out)@ + opt_varint_field_bytes(3, match self@.popularity { Some(x) => Some(zigzag_encode32(x) as u64), None => None }),
            final(out)@ + self@.encoded_from_top_track() == old(out)@ + self@.encoded_from_popularity(),
    {
        proof {
            use_type_invariant(self);
        }
        proof {
            reveal_with_fuel(ArtistModel::wf, 1);
        }
        let ghost o = out@;
        let ghost m = self@;
        match self.popularity {
            Some(x) => {
                pb_write_tag(out, 3, WIRE_VARINT);
                pb_write_sint32_no_tag(out, x);
                proof {
                    lemma_concat_assoc(o, tag_bytes(3, WIRE_VARINT), varint_bytes(zigzag_encode32(x) as u64));
                }
            },
            None => {
                assert(o + Seq::<u8>::empty() =~= o);
            },
        }
        proof {
            lemma_concat_assoc(o, opt_varint_field_bytes(3, match m.popularity { Some(x) => Some(zigzag_encode32(x) as u64), None => None }), m.encoded_from_top_track());
        }
    }

    /// Appends the encoding of field `top_track` to `out`.
    #[verifier::spinoff_prover]
    fn write_field_top_track(&self, out: &mut Vec<u8>)
        requires
            self@.wf(),
        ensures
            final(out)@ == old(out)@ + TopTracksModel::list_bytes(4, self@.top_track),
            final(out)@ + self@.encoded_from_album_group() == old(out)@ + self@.encoded_from_top_track(),
        decreases self, 1int,
    {
        proof {
            use_type_invariant(self);
        }
        proof {
            reveal_with_fuel(ArtistModel::wf, 1);
        }
        let ghost o = out@;
        let ghost m = self@;
        proof {
            TopTracks::lemma_seq_model(self.top_track@);
        }
        let ghost w = TopTracksModel::encodings(m.top_track);
        assert(w.subrange(0, w.len() as int) =~= w);
        assert(o + Seq::<u8>::empty() =~= o);
        let mut i: usize = 0;
        while i < self.top_track.len()
            invariant
                i <= self.top_track.len(),
                self@ == m,
                m.wf(),
                w.len() == self.top_track@.len(),
                w == TopTracksModel::encodings(m.top_track),
                o + length_delimited_list_bytes(4, w) == out@ + length_delimited_list_bytes(4, w.subrange(i as int, w.len() as int)),
            decreases self.top_track.len() - i,
        {
            proof {
                reveal_with_fuel(ArtistModel::wf, 1);
                TopTracks::lemma_seq_model(self.top_track@);
                TopTracksModel::lemma_writable_list(m.top_track);
                lemma_length_delimited_list_cons(4, w.subrange(i as int, w.len() as int));
                assert(m.top_track[i as int] == self.top_track@[i as int]@);
                assert(m.top_track[i as int].wf());
                assert(w.subrange(i as int, w.len() as int)[0] == w[i as int]);
                assert(w.subrange(i as int, w.len() as int).subrange(1, w.len() - i) =~= w.subrange(i + 1, w.len() as int));
            }
            let ghost before = out@;
            let mut tmp: Vec<u8> = Vec::new();
            self.top_track[i].write_to(&mut tmp);
            assert(tmp@ =~= w[i as int]);
            pb_write_tag(out, 4, WIRE_LENGTH_DELIMITED);
            write_bytes_value(out, tmp.as_slice());
            proof {
                lemma_write_list_step(before, tag_bytes(4, WIRE_LENGTH_DELIMITED), bytes_value_bytes(w[i as int]), length_delimited_list_bytes(4, w.subrange(i + 1, w.len() as int)), Seq::<u8>::empty());
                assert(length_delimited_list_bytes(4, w.subrange(i + 1, w.len() as int)) + Seq::<u8>::empty() =~= length_delimited_list_bytes(4, w.subrange(i + 1, w.len() as int)));
                assert(tag_bytes(4, WIRE_LENGTH_DELIMITED) + (bytes_value_bytes(w[i as int]) + length_delimited_list_bytes(4, w.subrange(i + 1, w.len() as int))) + Seq::<u8>::empty() =~= tag_bytes(4, WIRE_LENGTH_DELIMITED) + (bytes_value_bytes(w[i as int]) + length_delimited_list_bytes(4, w.subrange(i + 1, w.len() as int))));
            }
            i = i + 1;
        }
        assert(w.subrange(i as int, w.len() as int) =~= Seq::<Seq<u8>>::empty());
        assert(out@ + Seq::<u8>::empty() =~= out@);
        proof {
            TopTracksModel::lemma_list_bytes(4, m.top_track);
            lemma_concat_assoc(o, TopTracksModel::list_bytes(4, m.top_track), m.encoded_from_album_group());
        }
    }

    /// Appends the encoding of field `album_group` to `out`.
    #[verifier::spinoff_prover]
    fn write_field_album_group(&self, out: &mut Vec<u8>)
        requires
            self@.wf(),
        ensures
            final(out)@ == old(out)@ + AlbumGroupModel::list_bytes(5, self@.album_group),
            final(out)@ + self@.encoded_from_single_group() == old(out)@ + self@.encoded_from_album_group(),
        decreases self, 1int,
    {
        proof {
            use_type_invariant(self);
        }
        proof {
            reveal_with_fuel(ArtistModel::wf, 1);
        }
        let ghost o = out@;
        let ghost m = self@;
        proof {
            AlbumGroup::lemma_seq_model(self.album_group@);
        }
        let ghost w = AlbumGroupModel::encodings(m.album_group);
        assert(w.subrange(0, w.len() as int) =~= w);
        assert(o + Seq::<u8>::empty() =~= o);
        let mut i: usize = 0;
        while i < self.album_group.len()
            invariant
                i <= self.album_group.len(),
                self@ == m,
                m.wf(),
                w.len() == self.album_group@.len(),
                w == AlbumGroupModel::encodings(m.album_group),
                o + length_delimited_list_bytes(5, w) == out@ + length_delimited_list_bytes(5, w.subrange(i as int, w.len() as int)),
            decreases self.album_group.len() - i,
        {
            proof {
                reveal_with_fuel(ArtistModel::wf, 1);
                AlbumGroup::lemma_seq_model(self.album_group@);
                AlbumGroupModel::lemma_writable_list(m.album_group);
                lemma_length_delimited_list_cons(5, w.subrange(i as int, w.len() as int));
                assert(m.album_group[i as int] == self.album_group@[i as int]@);
                assert(m.album_group[i as int].wf());
                assert(w.subrange(i as int, w.len() as int)[0] == w[i as int]);
                assert(w.subrange(i as int, w.len() as int).subrange(1, w.len() - i) =~= w.subrange(i + 1, w.len() as int));
            }
            let ghost before = out@;
            let mut tmp: Vec<u8> = Vec::new();
            self.album_group[i].write_to(&mut tmp);
            assert(tmp@ =~= w[i as int]);
            pb_write_tag(out, 5, WIRE_LENGTH_DELIMITED);
            write_bytes_value(out, tmp.as_slice());
            proof {
                lemma_write_list_step(before, tag_bytes(5, WIRE_LENGTH_DELIMITED), bytes_value_bytes(w[i as int]), length_delimited_list_bytes(5, w.subrange(i + 1, w.len() as int)), Seq::<u8>::empty());
                assert(length_delimited_list_bytes(5, w.subrange(i + 1, w.len() as int)) + Seq::<u8>::empty() =~= length_delimited_list_bytes(5, w.subrange(i + 1, w.len() as int)));
                assert(tag_bytes(5, WIRE_LENGTH_DELIMITED) + (bytes_value_bytes(w[i as int]) + length_delimited_list_bytes(5, w.subrange(i + 1, w.len() as int))) + Seq::<u8>::empty() =~= tag_bytes(5, WIRE_LENGTH_DELIMITED) + (bytes_value_bytes(w[i as int]) + length_delimited_list_bytes(5, w.subrange(i + 1, w.len() as int))));
            }
            i = i + 1;
        }
        assert(w.subrange(i as int, w.len() as int) =~= Seq::<Seq<u8>>::empty());
        assert(out@ + Seq::<u8>::empty() =~= out@);
        proof {
            AlbumGroupModel::lemma_list_bytes(5, m.album_group);
            lemma_concat_assoc(o, AlbumGroupModel::list_bytes(5, m.album_group), m.encoded_from_single_group());
        }
    }

    /// Appends the encoding of field `single_group` to `out`.
    #[verifier::spinoff_prover]
    fn write_field_single_group(&self, out: &mut Vec<u8>)
        requires
            self@.wf(),
        ensures
            final(out)@ == old(out)@ + AlbumGroupModel::list_bytes(6, self@.single_group),
            final(out)@ + self@.encoded_from_compilation_group() == old(out)@ + self@.encoded_from_single_group(),
        decreases self, 1int,
    {
        proof {
            use_type_invariant(self);
        }
        proof {
            reveal_with_fuel(ArtistModel::wf, 1);
        }
        let ghost o = out@;
        let ghost m = self@;
        proof {
            AlbumGroup::lemma_seq_model(self.single_group@);
        }
        let ghost w = AlbumGroupModel::encodings(m.single_group);
        assert(w.subrange(0, w.len() as int) =~= w);
        assert(o + Seq::<u8>::empty() =~= o);
        let mut i: usize = 0;
        while i < self.single_group.len()
            invariant
                i <= self.single_group.len(),
                self@ == m,
                m.wf(),
                w.len() == self.single_group@.len(),
                w == AlbumGroupModel::encodings(m.single_group),
                o + length_delimited_list_bytes(6, w) == out@ + length_delimited_list_bytes(6, w.subrange(i as int, w.len() as int)),
            decreases self.single_group.len() - i,
        {
            proof {
                reveal_with_fuel(ArtistModel::wf, 1);
                AlbumGroup::lemma_seq_model(self.single_group@);
                AlbumGroupModel::lemma_writable_list(m.single_group);
                lemma_length_delimited_list_cons(6, w.subrange(i as int, w.len() as int));
                assert(m.single_group[i as int] == self.single_group@[i as int]@);
                assert(m.single_group[i as int].wf());
                assert(w.subrange(i as int, w.len() as int)[0] == w[i as int]);
                assert(w.subrange(i as int, w.len() as int).subrange(1, w.len() - i) =~= w.subrange(i + 1, w.len() as int));
            }
            let ghost before = out@;
            let mut tmp: Vec<u8> = Vec::new();
            self.single_group[i].write_to(&mut tmp);
            assert(tmp@ =~= w[i as int]);
            pb_write_tag(out, 6, WIRE_LENGTH_DELIMITED);
            write_bytes_value(out, tmp.as_slice());
            proof {
                lemma_write_list_step(before, tag_bytes(6, WIRE_LENGTH_DELIMITED), bytes_value_bytes(w[i as int]), length_delimited_list_bytes(6, w.subrange(i + 1, w.len() as int)), Seq::<u8>::empty());
                assert(length_delimited_list_bytes(6, w.subrange(i + 1, w.len() as int)) + Seq::<u8>::empty() =~= length_delimited_list_bytes(6, w.subrange(i + 1, w.len() as int)));
                assert(tag_bytes(6, WIRE_LENGTH_DELIMITED) + (bytes_value_bytes(w[i as int]) + length_delimited_list_bytes(6, w.subrange(i + 1, w.len() as int))) + Seq::<u8>::empty() =~= tag_bytes(6, WIRE_LENGTH_DELIMITED) + (bytes_value_bytes(w[i as int]) + length_delimited_list_bytes(6, w.subrange(i + 1, w.len() as int))));
            }
            i = i + 1;
        }
        assert(w.subrange(i as int, w.len() as int) =~= Seq::<Seq<u8>>::empty());
        assert(out@ + Seq::<u8>::empty() =~= out@);
        proof {
            AlbumGroupModel::lemma_list_bytes(6, m.single_group);
            lemma_concat_assoc(o, AlbumGroupModel::list_bytes(6, m.single_group), m.encoded_from_compilation_group());
        }
    }

    /// Appends the encoding of field `compilation_group` to `out`.
    #[verifier::spinoff_prover]
    fn write_field_compilation_group(&self, out: &mut Vec<u8>)
        requires
            self@.wf(),
        ensures
            final(out)@ == old(out)@ + AlbumGroupModel::list_bytes(7, self@.compilation_group),
            final(out)@ + self@.encoded_from_appears_on_group() == old(out)@ + self@.encoded_from_compilation_group(),
        decreases self, 1int,
    {
        proof {
            use_type_invariant(self);
        }
        proof {
            reveal_with_fuel(ArtistModel::wf, 1);
        }
        let ghost o = out@;
        let ghost m = self@;
        proof {
            AlbumGroup::lemma_seq_model(self.compilation_group@);
        }
        let ghost w = AlbumGroupModel::encodings(m.compilation_group);
        assert(w.subrange(0, w.len() as int) =~= w);
        assert(o + Seq::<u8>::empty() =~= o);
        let mut i: usize = 0;
        while i < self.compilation_group.len()
            invariant
                i <= self.compilation_group.len(),
                self@ == m,
                m.wf(),
                w.len() == self.compilation_group@.len(),
                w == AlbumGroupModel::encodings(m.compilation_group),
                o + length_delimited_list_bytes(7, w) == out@ + length_delimited_list_bytes(7, w.subrange(i as int, w.len() as int)),
            decreases self.compilation_group.len() - i,
        {
            proof {
                reveal_with_fuel(ArtistModel::wf, 1);
                AlbumGroup::lemma_seq_model(self.compilation_group@);
                AlbumGroupModel::lemma_writable_list(m.compilation_group);
                lemma_length_delimited_list_cons(7, w.subrange(i as int, w.len() as int));
                assert(m.compilation_group[i as int] == self.compilation_group@[i as int]@);
                assert(m.compilation_group[i as int].wf());
                assert(w.subrange(i as int, w.len() as int)[0] == w[i as int]);
                assert(w.subrange(i as int, w.len() as int).subrange(1, w.len() - i) =~= w.subrange(i + 1, w.len() as int));
            }
            let ghost before = out@;
            let mut tmp: Vec<u8> = Vec::new();
            self.compilation_group[i].write_to(&mut tmp);
            assert(tmp@ =~= w[i as int]);
            pb_write_tag(out, 7, WIRE_LENGTH_DELIMITED);
            write_bytes_value(out, tmp.as_slice());
            proof {
                lemma_write_list_step(before, tag_bytes(7, WIRE_LENGTH_DELIMITED), bytes_value_bytes(w[i as int]), length_delimited_list_bytes(7, w.subrange(i + 1, w.len() as int)), Seq::<u8>::empty());
                assert(length_delimited_list_bytes(7, w.subrange(i + 1, w.len() as int)) + Seq::<u8>::empty() =~= length_delimited_list_bytes(7, w.subrange(i + 1, w.len() as int)));
                assert(tag_bytes(7, WIRE_LENGTH_DELIMITED) + (bytes_value_bytes(w[i as int]) + length_delimited_list_bytes(7, w.subrange(i + 1, w.len() as int))) + Seq::<u8>::empty() =~= tag_bytes(7, WIRE_LENGTH_DELIMITED) + (bytes_value_bytes(w[i as int]) + length_delimited_list_bytes(7, w.subrange(i + 1, w.len() as int))));
            }
            i = i + 1;
        }
        assert(w.subrange(i as int, w.len() as int) =~= Seq::<Seq<u8>>::empty());
        assert(out@ + Seq::<u8>::empty() =~= out@);
        proof {
            AlbumGroupModel::lemma_list_bytes(7, m.compilation_group);
            lemma_concat_assoc(o, AlbumGroupModel::list_bytes(7, m.compilation_group), m.encoded_from_appears_on_group());
        }
    }

    /// Appends the encoding of field `appears_on_group` to `out`.
    #[verifier::spinoff_prover]
    fn write_field_appears_on_group(&self, out: &mut Vec<u8>)
        requires
            self@.wf(),
        ensures
            final(out)@ == old(out)@ + AlbumGroupModel::list_bytes(8, self@.appears_on_group),
            final(out)@ + self@.encoded_from_genre() == old(out)@ + self@.encoded_from_appears_on_group(),
        decreases self, 1int,
    {
        proof {
            use_type_invariant(self);
        }
        proof {
            reveal_with_fuel(ArtistModel::wf, 1);
        }
        let ghost o = out@;
        let ghost m = self@;
        proof {
            AlbumGroup::lemma_seq_model(self.appears_on_group@);
        }
        let ghost w = AlbumGroupModel::encodings(m.appears_on_group);
        assert(w.subrange(0, w.len() as int) =~= w);
        assert(o + Seq::<u8>::empty() =~= o);
        let mut i: usize = 0;
        while i < self.appears_on_group.len()
            invariant
                i <= self.appears_on_group.len(),
                self@ == m,
                m.wf(),
                w.len() == self.appears_on_group@.len(),
                w == AlbumGroupModel::encodings(m.appears_on_group),
                o + length_delimited_list_bytes(8, w) == out@ + length_delimited_list_bytes(8, w.subrange(i as int, w.len() as int)),
            decreases self.appears_on_group.len() - i,
        {
            proof {
                reveal_with_fuel(ArtistModel::wf, 1);
                AlbumGroup::lemma_seq_model(self.appears_on_group@);
                AlbumGroupModel::lemma_writable_list(m.appears_on_group);
                lemma_length_delimited_list_cons(8, w.subrange(i as int, w.len() as int));
                assert(m.appears_on_group[i as int] == self.appears_on_group@[i as int]@);
                assert(m.appears_on_group[i as int].wf());
                assert(w.subrange(i as int, w.len() as int)[0] == w[i as int]);
                assert(w.subrange(i as int, w.len() as int).subrange(1, w.len() - i) =~= w.subrange(i + 1, w.len() as int));
            }
            let ghost before = out@;
            let mut tmp: Vec<u8> = Vec::new();
            self.appears_on_group[i].write_to(&mut tmp);
            assert(tmp@ =~= w[i as int]);
            pb_write_tag(out, 8, WIRE_LENGTH_DELIMITED);
            write_bytes_value(out, tmp.as_slice());
            proof {
                lemma_write_list_step(before, tag_bytes(8, WIRE_LENGTH_DELIMITED), bytes_value_bytes(w[i as int]), length_delimited_list_bytes(8, w.subrange(i + 1, w.len() as int)), Seq::<u8>::empty());
                assert(length_delimited_list_bytes(8, w.subrange(i + 1, w.len() as int)) + Seq::<u8>::empty() =~= length_delimited_list_bytes(8, w.subrange(i + 1, w.len() as int)));
                assert(tag_bytes(8, WIRE_LENGTH_DELIMITED) + (bytes_value_bytes(w[i as int]) + length_delimited_list_bytes(8, w.subrange(i + 1, w.len() as int))) + Seq::<u8>::empty() =~= tag_bytes(8, WIRE_LENGTH_DELIMITED) + (bytes_value_bytes(w[i as int]) + length_delimited_list_bytes(8, w.subrange(i + 1, w.len() as int))));
            }
            i = i + 1;
        }
        assert(w.subrange(i as int, w.len() as int) =~= Seq::<Seq<u8>>::empty());
        assert(out@ + Seq::<u8>::empty() =~= out@);
        proof {
            AlbumGroupModel::lemma_list_bytes(8, m.appears_on_group);
            lemma_concat_assoc(o, AlbumGroupModel::list_bytes(8, m.appears_on_group), m.encoded_from_genre());
        }
    }

    /// Appends the encoding of field `genre` to `out`.
    #[verifier::spinoff_prover]
    fn write_field_genre(&self, out: &mut Vec<u8>)
        requires
            self@.wf(),
        ensures
            final(out)@ == old(out)@ + length_delimited_list_bytes(9, utf8_encodings(self@.genre)),
            final(out)@ + self@.encoded_from_external_id() == old(out)@ + self@.encoded_from_genre(),
    {
        proof {
            use_type_invariant(self);
        }
        proof {
            reveal_with_fuel(ArtistModel::wf, 1);
        }
        let ghost o = out@;
        let ghost m = self@;
        let ghost w = utf8_encodings(m.genre);
        assert(w.subrange(0, w.len() as int) =~= w);
        assert(o + Seq::<u8>::empty() =~= o);
        let mut i: usize = 0;
        while i < self.genre.len()
            invariant
                i <= self.genre.len(),
                self@ == m,
                m.wf(),
                w.len() == self.genre@.len(),
                w == utf8_encodings(m.genre),
                o + length_delimited_list_bytes(9, w) == out@ + length_delimited_list_bytes(9, w.subrange(i as int, w.len() as int)),
            decreases self.genre.len() - i,
        {
            proof {
                reveal_with_fuel(ArtistModel::wf, 1);
                lemma_length_delimited_list_cons(9, w.subrange(i as int, w.len() as int));
                assert(m.genre[i as int] == self.genre@[i as int]@);
                assert(fits_u32(w[i as int]));
                assert(w.subrange(i as int, w.len() as int)[0] == w[i as int]);
                assert(w.subrange(i as int, w.len() as int).subrange(1, w.len() - i) =~= w.subrange(i + 1, w.len() as int));
            }
            let ghost before = out@;
            pb_write_tag(out, 9, WIRE_LENGTH_DELIMITED);
            write_string_value(out, self.genre[i].as_str());
            proof {
                lemma_write_list_step(before, tag_bytes(9, WIRE_LENGTH_DELIMITED), bytes_value_bytes(w[i as int]), length_delimited_list_bytes(9, w.subrange(i + 1, w.len() as int)), Seq::<u8>::empty());
                assert(length_delimited_list_bytes(9, w.subrange(i + 1, w.len() as int)) + Seq::<u8>::empty() =~= length_delimited_list_bytes(9, w.subrange(i + 1, w.len() as int)));
                assert(tag_bytes(9, WIRE_LENGTH_DELIMITED) + (bytes_value_bytes(w[i as int]) + length_delimited_list_bytes(9, w.subrange(i + 1, w.len() as int))) + Seq::<u8>::empty() =~= tag_bytes(9, WIRE_LENGTH_DELIMITED) + (bytes_value_bytes(w[i as int]) + length_delimited_list_bytes(9, w.subrange(i + 1, w.len() as int))));
            }
            i = i + 1;
        }
        assert(w.subrange(i as int, w.len() as int) =~= Seq::<Seq<u8>>::empty());
        assert(out@ + Seq::<u8>::empty() =~= out@);
        proof {
            lemma_concat_assoc(o, length_delimited_list_bytes(9, utf8_encodings(m.genre)), m.encoded_from_external_id());
        }
    }

    /// Appends the encoding of field `external_id` to `out`.
    #[verifier::spinoff_prover]
    fn write_field_external_id(&self, out: &mut Vec<u8>)
        requires
            self@.wf(),
        ensures
            final(out)@ == old(out)@ + length_delimited_list_bytes(10, ExternalIdModel::encodings(self@.external_id)),
            final(out)@ + self@.encoded_from_portrait() == old(out)@ + self@.encoded_from_external_id(),
    {
        proof {
            use_type_invariant(self);
        }
        proof {
            reveal_with_fuel(ArtistModel::wf, 1);
        }
        let ghost o = out@;
        let ghost m = self@;
        let ghost w = ExternalIdModel::encodings(m.external_id);
        assert(w.subrange(0, w.len() as int) =~= w);
        assert(o + Seq::<u8>::empty() =~= o);
        let mut i: usize = 0;
        while i < self.external_id.len()
            invariant
                i <= self.external_id.len(),
                self@ == m,
                m.wf(),
                w.len() == self.external_id@.len(),
                w == ExternalIdModel::encodings(m.external_id),
                o + length_delimited_list_bytes(10, w) == out@ + length_delimited_list_bytes(10, w.subrange(i as int, w.len() as int)),
            decreases self.external_id.len() - i,
        {
            proof {
                reveal_with_fuel(ArtistModel::wf, 1);
                lemma_length_delimited_list_cons(10, w.subrange(i as int, w.len() as int));
                assert(m.external_id[i as int] == self.external_id@[i as int]@);
                assert(m.external_id[i as int].wf());
                assert(w.subrange(i as int, w.len() as int)[0] == w[i as int]);
                assert(w.subrange(i as int, w.len() as int).subrange(1, w.len() - i) =~= w.subrange(i + 1, w.len() as int));
            }
            let ghost before = out@;
            let mut tmp: Vec<u8> = Vec::new();
            self.external_id[i].write_to(&mut tmp);
            assert(tmp@ =~= w[i as int]);
            pb_write_tag(out, 10, WIRE_LENGTH_DELIMITED);
            write_bytes_value(out, tmp.as_slice());
            proof {
                lemma_write_list_step(before, tag_bytes(10, WIRE_LENGTH_DELIMITED), bytes_value_bytes(w[i as int]), length_delimited_list_bytes(10, w.subrange(i + 1, w.len() as int)), Seq::<u8>::empty());
                assert(length_delimited_list_bytes(10, w.subrange(i + 1, w.len() as int)) + Seq::<u8>::empty() =~= length_delimited_list_bytes(10, w.subrange(i + 1, w.len() as int)));
                assert(tag_bytes(10, WIRE_LENGTH_DELIMITED) + (bytes_value_bytes(w[i as int]) + length_delimited_list_bytes(10, w.subrange(i + 1, w.len() as int))) + Seq::<u8>::empty() =~= tag_bytes(10, WIRE_LENGTH_DELIMITED) + (bytes_value_bytes(w[i as int]) + length_delimited_list_bytes(10, w.subrange(i + 1, w.len() as int))));
            }
            i = i + 1;
        }
        assert(w.subrange(i as int, w.len() as int) =~= Seq::<Seq<u8>>::empty());
        assert(out@ + Seq::<u8>::empty() =~= out@);
        proof {
            lemma_concat_assoc(o, length_delimited_list_bytes(10, ExternalIdModel::encodings(m.external_id)), m.encoded_from_portrait());
        }
    }

    /// Appends the encoding of field `portrait` to `out`.
    #[verifier::spinoff_prover]
    fn write_field_portrait(&self, out: &mut Vec<u8>)
        requires
            self@.wf(),
        ensures
            final(out)@ == old(out)@ + length_delimited_list_bytes(11, ImageModel::encodings(self@.portrait)),
            final(out)@ + self@.encoded_from_biography() == old(out)@ + self@.encoded_from_portrait(),
    {
        proof {
            use_type_invariant(self);
        }
        proof {
            reveal_with_fuel(ArtistModel::wf, 1);
        }
        let ghost o = out@;
        let ghost m = self@;
        let ghost w = ImageModel::encodings(m.portrait);
        assert(w.subrange(0, w.len() as int) =~= w);
        assert(o + Seq::<u8>::empty() =~= o);
        let mut i: usize = 0;
        while i < self.portrait.len()
            invariant
                i <= self.portrait.len(),
                self@ == m,
                m.wf(),
                w.len() == self.portrait@.len(),
                w == ImageModel::encodings(m.portrait),
                o + length_delimited_list_bytes(11, w) == out@ + length_delimited_list_bytes(11, w.subrange(i as int, w.len() as int)),
            decreases self.portrait.len() - i,
        {
            proof {
                reveal_with_fuel(ArtistModel::wf, 1);
                lemma_length_delimited_list_cons(11, w.subrange(i as int, w.len() as int));
                assert(m.portrait[i as int] == self.portrait@[i as int]@);
                assert(m.portrait[i as int].wf());
                assert(w.subrange(i as int, w.len() as int)[0] == w[i as int]);
                assert(w.subrange(i as int, w.len() as int).subrange(1, w.len() - i) =~= w.subrange(i + 1, w.len() as int));
            }
            let ghost before = out@;
            let mut tmp: Vec<u8> = Vec::new();
            self.portrait[i].write_to(&mut tmp);
            assert(tmp@ =~= w[i as int]);
            pb_write_tag(out, 11, WIRE_LENGTH_DELIMITED);
            write_bytes_value(out, tmp.as_slice());
            proof {
                lemma_write_list_step(before, tag_bytes(11, WIRE_LENGTH_DELIMITED), bytes_value_bytes(w[i as int]), length_delimited_list_bytes(11, w.subrange(i + 1, w.len() as int)), Seq::<u8>::empty());
                assert(length_delimited_list_bytes(11, w.subrange(i + 1, w.len() as int)) + Seq::<u8>::empty() =~= length_delimited_list_bytes(11, w.subrange(i + 1, w.len() as int)));
                assert(tag_bytes(11, WIRE_LENGTH_DELIMITED) + (bytes_value_bytes(w[i as int]) + length_delimited_list_bytes(11, w.subrange(i + 1, w.len() as int))) + Seq::<u8>::empty() =~= tag_bytes(11, WIRE_LENGTH_DELIMITED) + (bytes_value_bytes(w[i as int]) + length_delimited_list_bytes(11, w.subrange(i + 1, w.len() as int))));
            }
            i = i + 1;
        }
        assert(w.subrange(i as int, w.len() as int) =~= Seq::<Seq<u8>>::empty());
        assert(out@ + Seq::<u8>::empty() =~= out@);
        proof {
            lemma_concat_assoc(o, length_delimited_list_bytes(11, ImageModel::encodings(m.portrait)), m.encoded_from_biography());
        }
    }

    /// Appends the encoding of field `biography` to `out`.
    #[verifier::spinoff_prover]
    fn write_field_biography(&self, out: &mut Vec<u8>)
        requires
            self@.wf(),
        ensures
            final(out)@ == old(out)@ + length_delimited_list_bytes(12, BiographyModel::encodings(self@.biography)),
            final(out)@ + self@.encoded_from_activity_period() == old(out)@ + self@.encoded_from_biography(),
    {
        proof {
            use_type_invariant(self);
        }
        proof {
            reveal_with_fuel(ArtistModel::wf, 1);
        }
        let ghost o = out@;
        let ghost m = self@;
        let ghost w = BiographyModel::encodings(m.biography);
        assert(w.subrange(0, w.len() as int) =~= w);
        assert(o + Seq::<u8>::empty() =~= o);
        let mut i: usize = 0;
        while i < self.biography.len()
            invariant
                i <= self.biography.len(),
                self@ == m,
                m.wf(),
                w.len() == self.biography@.len(),
                w == BiographyModel::encodings(m.biography),
                o + length_delimited_list_bytes(12, w) == out@ + length_delimited_list_bytes(12, w.subrange(i as int, w.len() as int)),
            decreases self.biography.len() - i,
        {
            proof {
                reveal_with_fuel(ArtistModel::wf, 1);
                lemma_length_delimited_list_cons(12, w.subrange(i as int, w.len() as int));
                assert(m.biography[i as int] == self.biography@[i as int]@);
                assert(m.biography[i as int].wf());
                assert(w.subrange(i as int, w.len() as int)[0] == w[i as int]);
                assert(w.subrange(i as int, w.len() as int).subrange(1, w.len() - i) =~= w.subrange(i + 1, w.len() as int));
            }
            let ghost before = out@;
            let mut tmp: Vec<u8> = Vec::new();
            self.biography[i].write_to(&mut tmp);
            assert(tmp@ =~= w[i as int]);
            pb_write_tag(out, 12, WIRE_LENGTH_DELIMITED);
            write_bytes_value(out, tmp.as_slice());
            proof {
                lemma_write_list_step(before, tag_bytes(12, WIRE_LENGTH_DELIMITED), bytes_value_bytes(w[i as int]), length_delimited_list_bytes(12, w.subrange(i + 1, w.len() as int)), Seq::<u8>::empty());
                assert(length_delimited_list_bytes(12, w.subrange(i + 1, w.len() as int)) + Seq::<u8>::empty() =~= length_delimited_list_bytes(12, w.subrange(i + 1, w.len() as int)));
                assert(tag_bytes(12, WIRE_LENGTH_DELIMITED) + (bytes_value_bytes(w[i as int]) + length_delimited_list_bytes(12, w.subrange(i + 1, w.len() as int))) + Seq::<u8>::empty() =~= tag_bytes(12, WIRE_LENGTH_DELIMITED) + (bytes_value_bytes(w[i as int]) + length_delimited_list_bytes(12, w.subrange(i + 1, w.len() as int))));
            }
            i = i + 1;
        }
        assert(w.subrange(i as int, w.len() as int) =~= Seq::<Seq<u8>>::empty());
        assert(out@ + Seq::<u8>::empty() =~= out@);
        proof {
            lemma_concat_assoc(o, length_delimited_list_bytes(12, BiographyModel::encodings(m.biography)), m.encoded_from_activity_period());
        }
    }

    /// Appends the encoding of field `activity_period` to `out`.
    #[verifier::spinoff_prover]
    fn write_field_activity_period(&self, out: &mut Vec<u8>)
        requires
            self@.wf(),
        ensures
            final(out)@ == old(out)@ + length_delimited_list_bytes(13, ActivityPeriodModel::encodings(self@.activity_period)),
            final(out)@ + self@.encoded_from_restriction() == old(out)@ + self@.encoded_from_activity_period(),
    {
        proof {
            use_type_invariant(self);
        }
        proof {
            reveal_with_fuel(ArtistModel::wf, 1);
        }
        let ghost o = out@;
        let ghost m = self@;
        let ghost w = ActivityPeriodModel::encodings(m.activity_period);
        assert(w.subrange(0, w.len() as int) =~= w);
        assert(o + Seq::<u8>::empty() =~= o);
        let mut i: usize = 0;
        while i < self.activity_period.len()
            invariant
                i <= self.activity_period.len(),
                self@ == m,
                m.wf(),
                w.len() == self.activity_period@.len(),
                w == ActivityPeriodModel::encodings(m.activity_period),
                o + length_delimited_list_bytes(13, w) == out@ + length_delimited_list_bytes(13, w.subrange(i as int, w.len() as int)),
            decreases self.activity_period.len() - i,
        {
            proof {
                reveal_with_fuel(ArtistModel::wf, 1);
                lemma_length_delimited_list_cons(13, w.subrange(i as int, w.len() as int));
                assert(m.activity_period[i as int] == self.activity_period@[i as int]@);
                assert(m.activity_period[i as int].wf());
                assert(w.subrange(i as int, w.len() as int)[0] == w[i as int]);
                assert(w.subrange(i as int, w.len() as int).subrange(1, w.len() - i) =~= w.subrange(i + 1, w.len() as int));
            }
            let ghost before = out@;
            let mut tmp: Vec<u8> = Vec::new();
            self.activity_period[i].write_to(&mut tmp);
            assert(tmp@ =~= w[i as int]);
            pb_write_tag(out, 13, WIRE_LENGTH_DELIMITED);
            write_bytes_value(out, tmp.as_slice());
            proof {
                lemma_write_list_step(before, tag_bytes(13, WIRE_LENGTH_DELIMITED), bytes_value_bytes(w[i as int]), length_delimited_list_bytes(13, w.subrange(i + 1, w.len() as int)), Seq::<u8>::empty());
                assert(length_delimited_list_bytes(13, w.subrange(i + 1, w.len() as int)) + Seq::<u8>::empty() =~= length_delimited_list_bytes(13, w.subrange(i + 1, w.len() as int)));
                assert(tag_bytes(13, WIRE_LENGTH_DELIMITED) + (bytes_value_bytes(w[i as int]) + length_delimited_list_bytes(13, w.subrange(i + 1, w.len() as int))) + Seq::<u8>::empty() =~= tag_bytes(13, WIRE_LENGTH_DELIMITED) + (bytes_value_bytes(w[i as int]) + length_delimited_list_bytes(13, w.subrange(i + 1, w.len() as int))));
            }
            i = i + 1;
        }
        assert(w.subrange(i as int, w.len() as int) =~= Seq::<Seq<u8>>::empty());
        assert(out@ + Seq::<u8>::empty() =~= out@);
        proof {
            lemma_concat_assoc(o, length_delimited_list_bytes(13, ActivityPeriodModel::encodings(m.activity_period)), m.encoded_from_restriction());
        }
    }

    /// Appends the encoding of field `restriction` to `out`.
    #[verifier::spinoff_prover]
    fn write_field_restriction(&self, out: &mut Vec<u8>)
        requires
            self@.wf(),
        ensures
            final(out)@ == old(out)@ + length_delimited_list_bytes(14, RestrictionModel::encodings(self@.restriction)),
            final(out)@ + self@.encoded_from_related() == old(out)@ + self@.encoded_from_restriction(),
    {
        proof {
            use_type_invariant(self);
        }
        proof {
            reveal_with_fuel(ArtistModel::wf, 1);
        }
        let ghost o = out@;
        let ghost m = self@;
        let ghost w = RestrictionModel::encodings(m.restriction);
        assert(w.subrange(0, w.len() as int) =~= w);
        assert(o + Seq::<u8>::empty() =~= o);
        let mut i: usize = 0;
        while i < self.restriction.len()
            invariant
                i <= self.restriction.len(),
                self@ == m,
                m.wf(),
                w.len() == self.restriction@.len(),
                w == RestrictionModel::encodings(m.restriction),
                o + length_delimited_list_bytes(14, w) == out@ + length_delimited_list_bytes(14, w.subrange(i as int, w.len() as int)),
            decreases self.restriction.len() - i,
        {
            proof {
                reveal_with_fuel(ArtistModel::wf, 1);
                lemma_length_delimited_list_cons(14, w.subrange(i as int, w.len() as int));
                assert(m.restriction[i as int] == self.restriction@[i as int]@);
                assert(m.restriction[i as int].wf());
                assert(w.subrange(i as int, w.len() as int)[0] == w[i as int]);
                assert(w.subrange(i as int, w.len() as int).subrange(1, w.len() - i) =~= w.subrange(i + 1, w.len() as int));
            }
            let ghost before = out@;
            let mut tmp: Vec<u8> = Vec::new();
            self.restriction[i].write_to(&mut tmp);
            assert(tmp@ =~= w[i as int]);
            pb_write_tag(out, 14, WIRE_LENGTH_DELIMITED);
            write_bytes_value(out, tmp.as_slice());
            proof {
                lemma_write_list_step(before, tag_bytes(14, WIRE_LENGTH_DELIMITED), bytes_value_bytes(w[i as int]), length_delimited_list_bytes(14, w.subrange(i + 1, w.len() as int)), Seq::<u8>::empty());
                assert(length_delimited_list_bytes(14, w.subrange(i + 1, w.len() as int)) + Seq::<u8>::empty() =~= length_delimited_list_bytes(14, w.subrange(i + 1, w.len() as int)));
                assert(tag_bytes(14, WIRE_LENGTH_DELIMITED) + (bytes_value_bytes(w[i as int]) + length_delimited_list_bytes(14, w.subrange(i + 1, w.len() as int))) + Seq::<u8>::empty() =~= tag_bytes(14, WIRE_LENGTH_DELIMITED) + (bytes_value_bytes(w[i as int]) + length_delimited_list_bytes(14, w.subrange(i + 1, w.len() as int))));
            }
            i = i + 1;
        }
        assert(w.subrange(i as int, w.len() as int) =~= Seq::<Seq<u8>>::empty());
        assert(out@ + Seq::<u8>::empty() =~= out@);
        proof {
            lemma_concat_assoc(o, length_delimited_list_bytes(14, RestrictionModel::encodings(m.restriction)), m.encoded_from_related());
        }
    }

    /// Appends the encoding of field `related` to `out`.
    #[verifier::spinoff_prover]
    fn write_field_related(&self, out: &mut Vec<u8>)
        requires
            self@.wf(),
        ensures
            final(out)@ == old(out)@ + ArtistModel::list_bytes(15, self@.related),
            final(out)@ + self@.encoded_from_is_portrait_album_cover() == old(out)@ + self@.encoded_from_related(),
        decreases self, 1int,
    {
        proof {
            use_type_invariant(self);
        }
        proof {
            reveal_with_fuel(ArtistModel::wf, 1);
        }
        let ghost o = out@;
        let ghost m = self@;
        proof {
            Artist::lemma_seq_model(self.related@);
        }
        let ghost w = ArtistModel::encodings(m.related);
        assert(w.subrange(0, w.len() as int) =~= w);
        assert(o + Seq::<u8>::empty() =~= o);
        let mut i: usize = 0;
        while i < self.related.len()
            invariant
                i <= self.related.len(),
                self@ == m,
                m.wf(),
                w.len() == self.related@.len(),
                w == ArtistModel::encodings(m.related),
                o + length_delimited_list_bytes(15, w) == out@ + length_delimited_list_bytes(15, w.subrange(i as int, w.len() as int)),
            decreases self.related.len() - i,
        {
            proof {
                reveal_with_fuel(ArtistModel::wf, 1);
                Artist::lemma_seq_model(self.related@);
                ArtistModel::lemma_writable_list(m.related);
                lemma_length_delimited_list_cons(15, w.subrange(i as int, w.len() as int));
                assert(m.related[i as int] == self.related@[i as int]@);
                assert(m.related[i as int].wf());
                assert(w.subrange(i as int, w.len() as int)[0] == w[i as int]);
                assert(w.subrange(i as int, w.len() as int).subrange(1, w.len() - i) =~= w.subrange(i + 1, w.len() as int));
            }
            let ghost before = out@;
            let mut tmp: Vec<u8> = Vec::new();
            self.related[i].write_to(&mut tmp);
            assert(tmp@ =~= w[i as int]);
            pb_write_tag(out, 15, WIRE_LENGTH_DELIMITED);
            write_bytes_value(out, tmp.as_slice());
            proof {
                lemma_write_list_step(before, tag_bytes(15, WIRE_LENGTH_DELIMITED), bytes_value_bytes(w[i as int]), length_delimited_list_bytes(15, w.subrange(i + 1, w.len() as int)), Seq::<u8>::empty());
                assert(length_delimited_list_bytes(15, w.subrange(i + 1, w.len() as int)) + Seq::<u8>::empty() =~= length_delimited_list_bytes(15, w.subrange(i + 1, w.len() as int)));
                assert(tag_bytes(15, WIRE_LENGTH_DELIMITED) + (bytes_value_bytes(w[i as int]) + length_delimited_list_bytes(15, w.subrange(i + 1, w.len() as int))) + Seq::<u8>::empty() =~= tag_bytes(15, WIRE_LENGTH_DELIMITED) + (bytes_value_bytes(w[i as int]) + length_delimited_list_bytes(15, w.subrange(i + 1, w.len() as int))));
            }
            i = i + 1;
        }
        assert(w.subrange(i as int, w.len() as int) =~= Seq::<Seq<u8>>::empty());
        assert(out@ + Seq::<u8>::empty() =~= out@);
        proof {
            ArtistModel::lemma_list_bytes(15, m.related);
            lemma_concat_assoc(o, ArtistModel::list_bytes(15, m.related), m.encoded_from_is_portrait_album_cover());
        }
    }

    /// Appends the encoding of field `is_portrait_album_cover` to `out`.
    #[verifier::spinoff_prover]
    fn write_field_is_portrait_album_cover(&self, out: &mut Vec<u8>)
        requires
            self@.wf(),
        ensures
            final(out)@ == old(out)@ + opt_varint_field_bytes(16, match self@.is_portrait_album_cover { Some(x) => Some(bool_varint(x)), None => None }),
            final(out)@ + self@.encoded_from_portrait_group() == old(out)@ + self@.encoded_from_is_portrait_album_cover(),
    {
        proof {
            use_type_invariant(self);
        }
        proof {
            reveal_with_fuel(ArtistModel::wf, 1);
        }
        let ghost o = out@;
        let ghost m = self@;
        match self.is_portrait_album_cover {
            Some(x) => {
                pb_write_tag(out, 16, WIRE_VARINT);
                pb_write_raw_varint64(out, if x {
                    1
                } else {
                    0
                });
                proof {
                    lemma_concat_assoc(o, tag_bytes(16, WIRE_VARINT), varint_bytes(bool_varint(x)));
                }
            },
            None => {
                assert(o + Seq::<u8>::empty() =~= o);
            },
        }
        proof {
            lemma_concat_assoc(o, opt_varint_field_bytes(16, match m.is_portrait_album_cover { Some(x) => Some(bool_varint(x)), None => None }), m.encoded_from_portrait_group());
        }
    }

    /// Appends the encoding of field `portrait_group` to `out`.
    #[verifier::spinoff_prover]
    fn write_field_portrait_group(&self, out: &mut Vec<u8>)
        requires
            self@.wf(),
        ensures
            final(out)@ == old(out)@ + opt_length_delimited_field_bytes(17, match self@.portrait_group { Some(m) => Some(m.to_bytes()), None => None }),
            final(out)@ + self@.encoded_from_unknown_fields() == old(out)@ + self@.encoded_from_portrait_group(),
    {
        proof {
            use_type_invariant(self);
        }
        proof {
            reveal_with_fuel(ArtistModel::wf, 1);
        }
        let ghost o = out@;
        let ghost m = self@;
        if self.has_portrait_group {
            let mut tmp: Vec<u8> = Vec::new();
            self.portrait_group.write_to(&mut tmp);
            assert(tmp@ =~= m.portrait_group.unwrap().to_bytes());
            pb_write_tag(out, 17, WIRE_LENGTH_DELIMITED);
            write_bytes_value(out, tmp.as_slice());
            proof {
                lemma_concat_assoc(o, tag_bytes(17, WIRE_LENGTH_DELIMITED), bytes_value_bytes(tmp@));
            }
        } else {
            assert(o + Seq::<u8>::empty() =~= o);
        }
        proof {
            lemma_concat_assoc(o, opt_length_delimited_field_bytes(17, match m.portrait_group { Some(m) => Some(m.to_bytes()), None => None }), m.encoded_from_unknown_fields());
        }
    }

    /// Appends the fields of unknown numbers to `out`.
    #[verifier::spinoff_prover]
    fn write_unknown_fields(&self, out: &mut Vec<u8>)
        requires
            self@.wf(),
        ensures
            final(out)@ == old(out)@ + unknown_list_bytes(self@.unknown_fields),
    {
        proof {
            reveal_with_fuel(ArtistModel::wf, 1);
        }
        let ghost o = out@;
        let ghost m = self@;
        let mut j: usize = 0;
        assert(m.unknown_fields.subrange(0, m.unknown_fields.len() as int) =~= m.unknown_fields);
        assert(o + Seq::<u8>::empty() =~= o);
        while j < self.unknown_fields.len()
            invariant
                j <= self.unknown_fields.len(),
                self@ == m,
                m.wf(),
                o + unknown_list_bytes(m.unknown_fields) == out@ + unknown_list_bytes(m.unknown_fields.subrange(j as int, m.unknown_fields.len() as int)),
            decreases self.unknown_fields.len() - j,
        {
            proof {
                reveal_with_fuel(ArtistModel::wf, 1);
                lemma_unknown_list_cons(m.unknown_fields.subrange(j as int, m.unknown_fields.len() as int));
                assert(m.unknown_fields[j as int] == self.unknown_fields@[j as int]@);
                assert(m.unknown_fields.subrange(j as int, m.unknown_fields.len() as int)[0] == m.unknown_fields[j as int]);
                assert(m.unknown_fields.subrange(j as int, m.unknown_fields.len() as int).subrange(1, m.unknown_fields.len() - j) =~= m.unknown_fields.subrange(j + 1, m.unknown_fields.len() as int));
            }
            let ghost before = out@;
            write_unknown(out, &self.unknown_fields[j]);
            proof {
                lemma_concat_assoc(before, unknown_field_bytes(m.unknown_fields[j as int]), unknown_list_bytes(m.unknown_fields.subrange(j + 1, m.unknown_fields.len() as int)));
            }
            j = j + 1;
        }
        assert(m.unknown_fields.subrange(j as int, m.unknown_fields.len() as int) =~= Seq::<UnknownFieldModel>::empty());
        assert(out@ =~= o + unknown_list_bytes(m.unknown_fields));
    }

    /// Appends the encoding of the message to `out`.
    #[verifier::spinoff_prover]
    fn write_to(&self, out: &mut Vec<u8>)
        requires
            self@.wf(),
        ensures
            final(out)@ == old(out)@ + self@.to_bytes(),
        decreases self, 2int,
    {
        proof {
            reveal_with_fuel(ArtistModel::to_bytes, 1);
        }
        let ghost o = out@;
        let ghost m = self@;
        assert(o + m.to_bytes() == out@ + m.encoded_from_gid());
        self.write_field_gid(out);
        self.write_field_name(out);
        self.write_field_popularity(out);
        self.write_field_top_track(out);
        self.write_field_album_group(out);
        self.write_field_single_group(out);
        self.write_field_compilation_group(out);
        self.write_field_appears_on_group(out);
        self.write_field_genre(out);
        self.write_field_external_id(out);
        self.write_field_portrait(out);
        self.write_field_biography(out);
        self.write_field_activity_period(out);
        self.write_field_restriction(out);
        self.write_field_related(out);
        self.write_field_is_portrait_album_cover(out);
        self.write_field_portrait_group(out);
        self.write_unknown_fields(out);
    }

    /// The encoding of the message.
    #[verifier::spinoff_prover]
    pub fn write_to_bytes(&self) -> (r: Vec<u8>)
        requires
            self@.wf(),
        ensures
            r@ == self@.to_bytes(),
    {
        let mut out: Vec<u8> = Vec::new();
        self.write_to(&mut out);
        assert(out@ =~= self@.to_bytes());
        out
    }

    /// The length of the encoding of the message.
    #[verifier::spinoff_prover]
    pub fn compute_size(&self) -> (r: u32)
        requires
            self@.wf(),
            self@.to_bytes().len() <= u32::MAX,
        ensures
            r == self@.to_bytes().len(),
    {
        let v = self.write_to_bytes();
        v.len() as u32
    }
    /// A copy of the message.
    #[verifier::spinoff_prover]
    pub fn clone_message(&self) -> (r: Self)
        ensures
            r@ == self@,
        decreases self,
    {
        proof {
            use_type_invariant(self);
        }
        let gid = clone_opt_bytes(&self.gid);
        let name = clone_opt_string(&self.name);
        let popularity = self.popularity;
        let mut top_track: Vec<TopTracks> = Vec::new();
        let mut i: usize = 0;
        while i < self.top_track.len()
            invariant
                i <= self.top_track@.len(),
                top_track@.len() == i,
                forall|j: int| 0 <= j < i ==> #[trigger] top_track@[j]@ == self.top_track@[j]@,
            decreases self.top_track@.len() - i,
        {
            top_track.push(self.top_track[i].clone_message());
            i = i + 1;
        }
        proof {
            TopTracks::lemma_seq_model(top_track@);
            TopTracks::lemma_seq_model(self.top_track@);
        }
        assert(TopTracks::seq_model(top_track@) =~= TopTracks::seq_model(self.top_track@));
        let mut album_group: Vec<AlbumGroup> = Vec::new();
        let mut i: usize = 0;
        while i < self.album_group.len()
            invariant
                i <= self.album_group@.len(),
                album_group@.len() == i,
                forall|j: int| 0 <= j < i ==> #[trigger] album_group@[j]@ == self.album_group@[j]@,
            decreases self.album_group@.len() - i,
        {
            album_group.push(self.album_group[i].clone_message());
            i = i + 1;
        }
        proof {
            AlbumGroup::lemma_seq_model(album_group@);
            AlbumGroup::lemma_seq_model(self.album_group@);
        }
        assert(AlbumGroup::seq_model(album_group@) =~= AlbumGroup::seq_model(self.album_group@));
        let mut single_group: Vec<AlbumGroup> = Vec::new();
        let mut i: usize = 0;
        while i < self.single_group.len()
            invariant
                i <= self.single_group@.len(),
                single_group@.len() == i,
                forall|j: int| 0 <= j < i ==> #[trigger] single_group@[j]@ == self.single_group@[j]@,
            decreases self.single_group@.len() - i,
        {
            single_group.push(self.single_group[i].clone_message());
            i = i + 1;
        }
        proof {
            AlbumGroup::lemma_seq_model(single_group@);
            AlbumGroup::lemma_seq_model(self.single_group@);
        }
        assert(AlbumGroup::seq_model(single_group@) =~= AlbumGroup::seq_model(self.single_group@));
        let mut compilation_group: Vec<AlbumGroup> = Vec::new();
        let mut i: usize = 0;
        while i < self.compilation_group.len()
            invariant
                i <= self.compilation_group@.len(),
                compilation_group@.len() == i,
                forall|j: int| 0 <= j < i ==> #[trigger] compilation_group@[j]@ == self.compilation_group@[j]@,
            decreases self.compilation_group@.len() - i,
        {
            compilation_group.push(self.compilation_group[i].clone_message());
            i = i + 1;
        }
        proof {
            AlbumGroup::lemma_seq_model(compilation_group@);
            AlbumGroup::lemma_seq_model(self.compilation_group@);
        }
        assert(AlbumGroup::seq_model(compilation_group@) =~= AlbumGroup::seq_model(self.compilation_group@));
        let mut appears_on_group: Vec<AlbumGroup> = Vec::new();
        let mut i: usize = 0;
        while i < self.appears_on_group.len()
            invariant
                i <= self.appears_on_group@.len(),
                appears_on_group@.len() == i,
                forall|j: int| 0 <= j < i ==> #[trigger] appears_on_group@[j]@ == self.appears_on_group@[j]@,
            decreases self.appears_on_group@.len() - i,
        {
            appears_on_group.push(self.appears_on_group[i].clone_message());
            i = i + 1;
        }
        proof {
            AlbumGroup::lemma_seq_model(appears_on_group@);
            AlbumGroup::lemma_seq_model(self.appears_on_group@);
        }
        assert(AlbumGroup::seq_model(appears_on_group@) =~= AlbumGroup::seq_model(self.appears_on_group@));
        let genre = clone_strings(&self.genre);
        let mut external_id: Vec<ExternalId> = Vec::new();
        let mut i: usize = 0;
        while i < self.external_id.len()
            invariant
                i <= self.external_id@.len(),
                external_id@.len() == i,
                forall|j: int| 0 <= j < i ==> #[trigger] external_id@[j]@ == self.external_id@[j]@,
            decreases self.external_id@.len() - i,
        {
            external_id.push(self.external_id[i].clone_message());
            i = i + 1;
        }
        assert(ExternalId::seq_model(external_id@) =~= ExternalId::seq_model(self.external_id@));
        let mut portrait: Vec<Image> = Vec::new();
        let mut i: usize = 0;
        while i < self.portrait.len()
            invariant
                i <= self.portrait@.len(),
                portrait@.len() == i,
                forall|j: int| 0 <= j < i ==> #[trigger] portrait@[j]@ == self.portrait@[j]@,
            decreases self.portrait@.len() - i,
        {
            portrait.push(self.portrait[i].clone_message());
            i = i + 1;
        }
        assert(Image::seq_model(portrait@) =~= Image::seq_model(self.portrait@));
        let mut biography: Vec<Biography> = Vec::new();
        let mut i: usize = 0;
        while i < self.biography.len()
            invariant
                i <= self.biography@.len(),
                biography@.len() == i,
                forall|j: int| 0 <= j < i ==> #[trigger] biography@[j]@ == self.biography@[j]@,
            decreases self.biography@.len() - i,
        {
            biography.push(self.biography[i].clone_message());
            i = i + 1;
        }
        assert(Biography::seq_model(biography@) =~= Biography::seq_model(self.biography@));
        let mut activity_period: Vec<ActivityPeriod> = Vec::new();
        let mut i: usize = 0;
        while i < self.activity_period.len()
            invariant
                i <= self.activity_period@.len(),
                activity_period@.len() == i,
                forall|j: int| 0 <= j < i ==> #[trigger] activity_period@[j]@ == self.activity_period@[j]@,
            decreases self.activity_period@.len() - i,
        {
            activity_period.push(self.activity_period[i].clone_message());
            i = i + 1;
        }
        assert(ActivityPeriod::seq_model(activity_period@) =~= ActivityPeriod::seq_model(self.activity_period@));
        let mut restriction: Vec<Restriction> = Vec::new();
        let mut i: usize = 0;
        while i < self.restriction.len()
            invariant
                i <= self.restriction@.len(),
                restriction@.len() == i,
                forall|j: int| 0 <= j < i ==> #[trigger] restriction@[j]@ == self.restriction@[j]@,
            decreases self.restriction@.len() - i,
        {
            restriction.push(self.restriction[i].clone_message());
            i = i + 1;
        }
        assert(Restriction::seq_model(restriction@) =~= Restriction::seq_model(self.restriction@));
        let mut related: Vec<Artist> = Vec::new();
        let mut i: usize = 0;
        while i < self.related.len()
            invariant
                i <= self.related@.len(),
                related@.len() == i,
                forall|j: int| 0 <= j < i ==> #[trigger] related@[j]@ == self.related@[j]@,
            decreases self.related@.len() - i,
        {
            related.push(self.related[i].clone_message());
            i = i + 1;
        }
        proof {
            Artist::lemma_seq_model(related@);
            Artist::lemma_seq_model(self.related@);
        }
        assert(Artist::seq_model(related@) =~= Artist::seq_model(self.related@));
        let is_portrait_album_cover = self.is_portrait_album_cover;
        let portrait_group = Box::new(self.portrait_group.clone_message());
        let has_portrait_group = self.has_portrait_group;
        let unknown_fields = clone_unknown_fields(&self.unknown_fields);
        Artist { gid, name, popularity, top_track, album_group, single_group, compilation_group, appears_on_group, genre, external_id, portrait, biography, activity_period, restriction, related, is_portrait_album_cover, has_portrait_group, portrait_group, unknown_fields }
    }

}

impl Clone for Artist {
    #[verifier::spinoff_prover]
    fn clone(&self) -> (r: Self)
        ensures
            r@ == self@,
    {
        self.clone_message()
    }
}

impl Default for Artist {
    #[verifier::spinoff_prover]
    fn default() -> (r: Self)
        ensures
            r@ == ArtistModel::empty(),
    {
        Artist::new()
    }
}

/// The `AlbumGroup` message.
#[allow(non_snake_case)]
#[derive(Debug, PartialEq)]
pub struct AlbumGroup {
    album: Vec<Album>,
    unknown_fields: Vec<UnknownField>,
}

/// The model of a `AlbumGroup`: each field's value, `None` or empty when unset,
/// and the fields of unknown numbers, in the order they were read.
#[allow(non_snake_case)]
pub struct AlbumGroupModel {
    pub album: Seq<AlbumModel>,
    pub unknown_fields: Seq<UnknownFieldModel>,
}

impl View for AlbumGroup {
    type V = AlbumGroupModel;

    closed spec fn view(&self) -> AlbumGroupModel {
        self.model()
    }
}

#[allow(non_snake_case)]
impl AlbumGroup {
    /// The model of the message: the view, written out for the messages that contain one another.
    pub closed spec fn model(self) -> AlbumGroupModel
        decreases self, 1int,
    {
        AlbumGroupModel {
            album: Album::seq_model(self.album@),
            unknown_fields: unknown_models(self.unknown_fields@),
        }
    }
}

#[allow(non_snake_case)]
impl AlbumGroupModel {
    /// The model of a message with no field set.
    pub open spec fn empty() -> Self {
        AlbumGroupModel {
            album: Seq::empty(),
            unknown_fields: Seq::empty(),
        }
    }

    /// The encodings of a list of messages.
    pub open spec fn encodings(v: Seq<AlbumGroupModel>) -> Seq<Seq<u8>> {
        v.map_values(|m: AlbumGroupModel| m.to_bytes())
    }

    /// Every message of a list can be written, and its encoding fits a 32-bit length.
    pub open spec fn all_writable(v: Seq<AlbumGroupModel>) -> bool {
        forall|i: int| 0 <= i < v.len() ==> #[trigger] v[i].wf() && fits_u32(v[i].to_bytes())
    }

    /// Every message of a list can be written, element by element.
    pub open spec fn writable_list(v: Seq<AlbumGroupModel>) -> bool
        decreases v, 0int,
    {
        v.len() == 0 || (v[0].wf() && fits_u32(v[0].to_bytes()) && Self::writable_list(v.subrange(1, v.len() as int)))
    }

    /// Each message of a list that can be written element by element can be written.
    #[verifier::spinoff_prover]
    pub proof fn lemma_writable_list(v: Seq<AlbumGroupModel>)
        requires
            Self::writable_list(v),
        ensures
            Self::all_writable(v),
        decreases v.len(),
    {
        reveal_with_fuel(AlbumGroupModel::wf, 1);
        if v.len() > 0 {
            let tail = v.subrange(1, v.len() as int);
            Self::lemma_writable_list(tail);
            assert forall|i: int| 0 <= i < v.len() implies #[trigger] v[i].wf() && fits_u32(v[i].to_bytes()) by {
                if i > 0 {
                    assert(v[i] == tail[i - 1]);
                }
            }
        }
    }

    /// The encoding of the elements of a repeated field of number `f`, each as a length-delimited
    /// value after its tag.
    pub open spec fn list_bytes(f: u32, v: Seq<AlbumGroupModel>) -> Seq<u8>
        decreases v, 0int,
    {
        if v.len() == 0 {
            Seq::empty()
        } else {
            tag_bytes(f, WIRE_LENGTH_DELIMITED) + bytes_value_bytes(v[0].to_bytes()) + Self::list_bytes(
                f,
                v.subrange(1, v.len() as int),
            )
        }
    }

    /// The encoding of a repeated field is the list of the encodings of its elements.
    #[verifier::spinoff_prover]
    pub proof fn lemma_list_bytes(f: u32, v: Seq<AlbumGroupModel>)
        ensures
            Self::list_bytes(f, v) == length_delimited_list_bytes(f, Self::encodings(v)),
        decreases v.len(),
    {
        let e = Self::encodings(v);
        if v.len() > 0 {
            let tail = v.subrange(1, v.len() as int);
            Self::lemma_list_bytes(f, tail);
            assert(e.subrange(1, v.len() as int) =~= Self::encodings(tail));
            assert(e[0] == v[0].to_bytes());
            lemma_length_delimited_list_cons(f, e);
            lemma_concat_assoc(tag_bytes(f, WIRE_LENGTH_DELIMITED), bytes_value_bytes(e[0]), Self::list_bytes(f, tail));
        } else {
            assert(e =~= Seq::<Seq<u8>>::empty());
        }
    }

    /// The field numbers that this message knows.
    pub open spec fn is_known_field(f: u32) -> bool {
        f == 1
    }

    /// Merging one field whose tag (number `f`, wire type `wt`) has been read;
    /// `s` holds the bytes after the tag. The result is the merged model and
    /// the number of bytes the value took; a set field is replaced, a repeated
    /// field grows, a field of unknown number is kept or, if a group, skipped.
    pub open spec fn merge_field(self, f: u32, wt: u32, s: Seq<u8>, lim: nat) -> Option<(Self, nat)>
        decreases s.len(),
    {
        if f == 1 {
            if wt != WIRE_LENGTH_DELIMITED {
                None
            } else {
                match embedded_window(s, lim) {
                    Some((a, b, x)) => if 0 < a <= b <= s.len() {
                        match AlbumModel::empty().merge(s.subrange(a as int, b as int), x) {
                            Some(x) => Some((AlbumGroupModel { album: self.album.push(x), ..self }, b)),
                            None => None,
                        }
                    } else {
                        None
                    },
                    None => None,
                }
            }
        } else {
            match unknown_parse(f, wt, s) {
                Some((Some(u), k)) => Some((AlbumGroupModel { unknown_fields: grouped_insert(self.unknown_fields, u), ..self }, k)),
                Some((None, k)) => Some((self, k)),
                None => None,
            }
        }
    }

    /// What is left of the model when merging one field (number `f`, wire type
    /// `wt`, value at the front of `s`) fails: a string, bytes or message field
    /// of the right wire type is first set to its empty value (a repeated one
    /// gets an empty element) and an embedded message keeps the fields merged
    /// into it before the failure; packed values read before the failure stay.
    pub open spec fn merge_field_failed(self, f: u32, wt: u32, s: Seq<u8>, lim: nat) -> Self
        decreases s.len(),
    {
        if f == 1 {
            if wt != WIRE_LENGTH_DELIMITED {
                self
            } else {
                match embedded_window(s, lim) {
                    Some((a, b, x)) => if 0 < a <= b <= s.len() {
                        AlbumGroupModel { album: self.album.push(AlbumModel::empty().merge_partial(s.subrange(a as int, b as int), x)), ..self }
                    } else {
                        AlbumGroupModel { album: self.album.push(AlbumModel::empty()), ..self }
                    },
                    None => AlbumGroupModel { album: self.album.push(AlbumModel::empty()), ..self },
                }
            }
        } else {
            self
        }
    }

    /// The value of a merged field takes no more than the bytes after its tag.
    #[verifier::spinoff_prover]
    pub proof fn lemma_merge_field_len(self, f: u32, wt: u32, s: Seq<u8>, lim: nat)
        ensures
            self.merge_field(f, wt, s, lim) matches Some((_m, k)) ==> k <= s.len(),
    {
        lemma_varint_parse_len(s);
        crate::wire::lemma_unknown_parse_len(f, wt, s);
    }

    /// Merging all the fields that `s` holds, in order, where the length of an
    /// embedded message may reach `lim` bytes past the end of `s` (such a message
    /// is read up to the end of `s`).
    #[verifier::opaque]
    pub open spec fn merge(self, s: Seq<u8>, lim: nat) -> Option<Self>
        decreases s.len(),
    {
        if s.len() == 0 {
            Some(self)
        } else {
            match tag_parse(s) {
                Some((f, wt, n)) => if 0 < n <= s.len() {
                    match self.merge_field(f, wt, s.skip(n as int), lim) {
                        Some((m, k)) => if n + k <= s.len() {
                            m.merge(s.skip((n + k) as int), lim)
                        } else {
                            None
                        },
                        None => None,
                    }
                } else {
                    None
                },
                None => None,
            }
        }
    }

    /// What merging `s` leaves: the fields merged in order up to the first one
    /// whose tag or value cannot be read, then what `merge_field_failed` leaves of
    /// that one; all of `s` where it is a valid encoding.
    #[verifier::opaque]
    pub open spec fn merge_partial(self, s: Seq<u8>, lim: nat) -> Self
        decreases s.len(),
    {
        if s.len() == 0 {
            self
        } else {
            match tag_parse(s) {
                Some((f, wt, n)) => if 0 < n <= s.len() {
                    match self.merge_field(f, wt, s.skip(n as int), lim) {
                        Some((m, k)) => if n + k <= s.len() {
                            m.merge_partial(s.skip((n + k) as int), lim)
                        } else {
                            m
                        },
                        None => self.merge_field_failed(f, wt, s.skip(n as int), lim),
                    }
                } else {
                    self
                },
                None => self,
            }
        }
    }

    /// The encoding of field `album` and of every field written after it.
    pub open spec fn encoded_from_album(self) -> Seq<u8>
        decreases self, 2int,
    {
        AlbumModel::list_bytes(1, self.album) + self.encoded_from_unknown_fields()
    }

    /// The encoding of the fields of unknown numbers, written last.
    pub open spec fn encoded_from_unknown_fields(self) -> Seq<u8> {
        unknown_list_bytes(self.unknown_fields)
    }

    /// The encoding of the message: its set fields in order of declaration,
    /// each element of a repeated field in order, then the unknown fields.
    #[verifier::opaque]
    pub open spec fn to_bytes(self) -> Seq<u8>
        decreases self, 3int,
    {
        self.encoded_from_album()
    }

    /// A model that can be written and read back: every length fits the
    /// 32-bit length prefix, nested messages can be written, and the unknown
    /// fields have valid numbers that this message does not know.
    #[verifier::opaque]
    pub open spec fn wf(self) -> bool
        decreases self, 1int,
    {
        &&& AlbumModel::writable_list(self.album)
        &&& (forall|i: int| 0 <= i < self.unknown_fields.len() ==> unknown_field_wf(#[trigger] self.unknown_fields[i]) && !Self::is_known_field(self.unknown_fields[i].number))
        &&& unknown_grouped(self.unknown_fields)
    }

    /// The message with no field set can be written and read back.
    #[verifier::spinoff_prover]
    pub proof fn lemma_empty_wf()
        ensures
            Self::empty().wf(),
    {
        reveal_with_fuel(AlbumGroupModel::wf, 1);
        lemma_grouped_empty();
    }

    /// Merging a field's tag and value, whatever follows them.
    #[verifier::spinoff_prover]
    pub proof fn lemma_merge_step(acc: Self, f: u32, wt: u32, t: Seq<u8>, b: Seq<u8>, rest: Seq<u8>, acc2: Self, lim: nat)
        requires
            tag_parse(t + (b + rest)) == Some((f, wt, t.len())),
            t.len() > 0,
            acc.merge_field(f, wt, b + rest, lim) == Some((acc2, b.len())),
        ensures
            acc.merge(t + (b + rest), lim) == acc2.merge(rest, lim),
    {
        reveal_with_fuel(AlbumGroupModel::merge, 1);
        lemma_skip_chunk(t, b, rest);
    }

    /// Merging the encoding of the elements of field `album` appends them, whatever follows.
    #[verifier::spinoff_prover]
    #[verifier::rlimit(100)]
    pub proof fn lemma_merge_album(acc: Self, v: Seq<AlbumModel>, rest: Seq<u8>, lim: nat)
        requires
            AlbumModel::writable_list(v),
        ensures
            acc.merge(AlbumModel::list_bytes(1, v) + rest, lim) == (AlbumGroupModel { album: acc.album + v, ..acc }).merge(rest, lim),
        decreases v, 0int,
    {
        AlbumModel::lemma_list_bytes(1, v);
        AlbumModel::lemma_writable_list(v);
        reveal_with_fuel(AlbumModel::merge, 1);
        let w = AlbumModel::encodings(v);
        if v.len() == 0 {
            assert(length_delimited_list_bytes(1, w) + rest =~= rest);
            assert(acc.album + v =~= acc.album);
            assert((AlbumGroupModel { album: acc.album + v, ..acc }) == acc);
        } else {
            lemma_length_delimited_list_cons(1, w);
            assert(v[0].wf() && fits_u32(v[0].to_bytes()));
            let t = tag_bytes(1, WIRE_LENGTH_DELIMITED);
            let b = bytes_value_bytes(w[0]);
            let tail = length_delimited_list_bytes(1, w.subrange(1, w.len() as int));
            assert(length_delimited_list_bytes(1, w) + rest =~= t + (b + (tail + rest)));
            lemma_tag_roundtrip(1, WIRE_LENGTH_DELIMITED, b + (tail + rest));
            lemma_message_window(v[0].to_bytes(), tail + rest);
            lemma_embedded_window(v[0].to_bytes(), tail + rest, lim);
            v[0].lemma_roundtrip(0);
            lemma_varint_parse_len(b + (tail + rest));
            let acc1 = AlbumGroupModel { album: acc.album.push(v[0]), ..acc };
            Self::lemma_merge_step(acc, 1, WIRE_LENGTH_DELIMITED, t, b, tail + rest, acc1, lim);
            assert(w.subrange(1, w.len() as int) =~= AlbumModel::encodings(v.subrange(1, v.len() as int)));
            assert forall|j: int| 0 <= j < v.len() - 1 implies #[trigger] v.subrange(1, v.len() as int)[j].wf() && fits_u32(v.subrange(1, v.len() as int)[j].to_bytes()) by {
                assert(v.subrange(1, v.len() as int)[j] == v[j + 1]);
            }
            Self::lemma_merge_album(acc1, v.subrange(1, v.len() as int), rest, lim);
            AlbumModel::lemma_list_bytes(1, v.subrange(1, v.len() as int));
            assert(acc1.album + v.subrange(1, v.len() as int) =~= acc.album + v);
        }
    }

    /// Merging the encoding of fields of unknown numbers keeps them, whatever follows.
    #[verifier::spinoff_prover]
    #[verifier::rlimit(50)]
    pub proof fn lemma_merge_unknown_fields(acc: Self, v: Seq<UnknownFieldModel>, rest: Seq<u8>, lim: nat)
        requires
            forall|i: int| 0 <= i < v.len() ==> unknown_field_wf(#[trigger] v[i]) && !Self::is_known_field(v[i].number),
            unknown_grouped(acc.unknown_fields + v),
        ensures
            acc.merge(unknown_list_bytes(v) + rest, lim) == (AlbumGroupModel { unknown_fields: acc.unknown_fields + v, ..acc }).merge(rest, lim),
        decreases v.len(),
    {
        if v.len() == 0 {
            assert(unknown_list_bytes(v) + rest =~= rest);
            assert(acc.unknown_fields + v =~= acc.unknown_fields);
            assert((AlbumGroupModel { unknown_fields: acc.unknown_fields + v, ..acc }) == acc);
        } else {
            lemma_unknown_list_cons(v);
            let u = v[0];
            let wt = crate::wire::unknown_wire_type(u.value);
            let t = tag_bytes(u.number, wt);
            let b = crate::wire::unknown_value_bytes(u.value);
            let tail = unknown_list_bytes(v.subrange(1, v.len() as int));
            assert(unknown_list_bytes(v) + rest =~= t + (b + (tail + rest)));
            assert(unknown_field_bytes(u) + (tail + rest) =~= t + (b + (tail + rest)));
            lemma_unknown_roundtrip(u, tail + rest);
            assert((t + (b + (tail + rest))).skip(t.len() as int) =~= b + (tail + rest));
            crate::wire::lemma_tag_roundtrip(u.number, wt, b + (tail + rest));
            let acc1 = AlbumGroupModel { unknown_fields: acc.unknown_fields.push(u), ..acc };
            assert(acc.unknown_fields.push(u) =~= (acc.unknown_fields + v).take(acc.unknown_fields.len() + 1int));
            lemma_grouped_take(acc.unknown_fields + v, acc.unknown_fields.len() + 1int);
            lemma_grouped_insert_last(acc.unknown_fields, u);
            Self::lemma_merge_step(acc, u.number, wt, t, b, tail + rest, acc1, lim);
            assert(acc1.unknown_fields + v.subrange(1, v.len() as int) =~= acc.unknown_fields + v);
            Self::lemma_merge_unknown_fields(acc1, v.subrange(1, v.len() as int), rest, lim);
        }
    }

    /// Reading back the encoding of a model that can be written gives the model,
    /// whatever the limit past its end.
    #[verifier::spinoff_prover]
    #[verifier::rlimit(100)]
    pub proof fn lemma_roundtrip(self, lim: nat)
        requires
            self.wf(),
        ensures
            AlbumGroupModel::empty().merge(self.to_bytes(), lim) == Some(self),
        decreases self, 1int,
    {
        reveal_with_fuel(AlbumGroupModel::to_bytes, 1);
        reveal_with_fuel(AlbumGroupModel::wf, 1);
        reveal_with_fuel(AlbumGroupModel::merge, 1);
        let a0 = AlbumGroupModel::empty();
        assert(AlbumModel::writable_list(self.album));
        Self::lemma_merge_album(a0, self.album, self.encoded_from_unknown_fields(), lim);
        let a1 = AlbumGroupModel { album: a0.album + self.album, ..a0 };
        assert(a1.unknown_fields + self.unknown_fields =~= self.unknown_fields);
        Self::lemma_merge_unknown_fields(a1, self.unknown_fields, Seq::empty(), lim);
        assert(unknown_list_bytes(self.unknown_fields) + Seq::<u8>::empty() =~= unknown_list_bytes(self.unknown_fields));
        let last = AlbumGroupModel { unknown_fields: a1.unknown_fields + self.unknown_fields, ..a1 };
        assert(last.album =~= self.album);
        assert(last.unknown_fields =~= self.unknown_fields);
        assert(last == self);
    }
    /// A message whose only set field is `album` is written as field number 1 of the
    /// protocol's definition alone: the tag of that number with the wire type of the field,
    /// then the value.
    #[verifier::spinoff_prover]
    pub proof fn lemma_encoding_of_album(v: Seq<AlbumModel>)
        ensures
            (AlbumGroupModel { album: v, ..AlbumGroupModel::empty() }).to_bytes() == AlbumModel::list_bytes(1, v),
    {
        reveal_with_fuel(AlbumGroupModel::to_bytes, 4);
        let m = AlbumGroupModel { album: v, ..AlbumGroupModel::empty() };
        assert(m.to_bytes() =~= AlbumModel::list_bytes(1, v));
    }

}

#[allow(non_snake_case)]
impl AlbumGroup {
    /// The models of a list of messages.
    pub open spec fn seq_model(v: Seq<AlbumGroup>) -> Seq<AlbumGroupModel>
        decreases v, 0int,
    {
        if v.len() == 0 {
            Seq::empty()
        } else {
            Self::seq_model(v.subrange(0, v.len() - 1)).push(v[v.len() - 1].model())
        }
    }

    /// The list of models has an element for each message, its model.
    #[verifier::spinoff_prover]
    pub proof fn lemma_seq_model(v: Seq<AlbumGroup>)
        ensures
            Self::seq_model(v).len() == v.len(),
            forall|i: int| 0 <= i < v.len() ==> #[trigger] Self::seq_model(v)[i] == v[i]@,
        decreases v.len(),
    {
        if v.len() > 0 {
            Self::lemma_seq_model(v.subrange(0, v.len() - 1));
        }
    }

    /// Appending a message appends its model.
    #[verifier::spinoff_prover]
    pub proof fn lemma_seq_model_push(v: Seq<AlbumGroup>, x: AlbumGroup)
        ensures
            Self::seq_model(v.push(x)) == Self::seq_model(v).push(x@),
    {
        assert(v.push(x).subrange(0, v.len() as int) =~= v);
    }

    /// A message with no field set.
    #[verifier::spinoff_prover]
    pub fn new() -> (r: Self)
        ensures
            r@ == AlbumGroupModel::empty(),
            r@.wf(),
    {
        let r = AlbumGroup {
            album: Vec::new(),
            unknown_fields: Vec::new(),
        };
        assert(Album::seq_model(r.album@) =~= Seq::<AlbumModel>::empty());
        assert(unknown_models(r.unknown_fields@) =~= Seq::<UnknownFieldModel>::empty());
        proof {
            AlbumGroupModel::lemma_empty_wf();
        }
        r
    }

    /// Empties field `album`.
    #[verifier::spinoff_prover]
    pub fn clear_album(&mut self)
        ensures
            final(self)@ == (AlbumGroupModel { album: Seq::empty(), ..old(self)@ }),
    {
        self.album = Vec::new();
        assert(Album::seq_model(self.album@) =~= Seq::<AlbumModel>::empty());
    }

    /// Sets field `album` to the elements of `v`.
    #[verifier::spinoff_prover]
    pub fn set_album(&mut self, v: Vec<Album>)
        ensures
            final(self)@ == (AlbumGroupModel { album: Album::seq_model(v@), ..old(self)@ }),
    {
        self.album = v;
    }

    /// The elements of field `album`, to change in place.
    #[verifier::spinoff_prover]
    pub fn mut_album(&mut self) -> (r: &mut Vec<Album>)
        ensures
            Album::seq_model(r@) == old(self)@.album,
            final(self)@ == (AlbumGroupModel { album: Album::seq_model(final(r)@), ..old(self)@ }),
    {
        field_mut(&mut self.album)
    }

    /// Takes the elements of field `album`, leaving it empty.
    #[verifier::spinoff_prover]
    pub fn take_album(&mut self) -> (r: Vec<Album>)
        ensures
            Album::seq_model(r@) == old(self)@.album,
            final(self)@ == (AlbumGroupModel { album: Seq::empty(), ..old(self)@ }),
    {
        let mut r = Vec::new();
        std::mem::swap(&mut r, &mut self.album);
        assert(Album::seq_model(self.album@) =~= Seq::<AlbumModel>::empty());
        r
    }

    /// The elements of field `album`.
    #[verifier::spinoff_prover]
    pub fn get_album(&self) -> (r: &[Album])
        ensures
            Album::seq_model(r@) == self@.album,
    {
        self.album.as_slice()
    }

    /// Merges one field whose tag (number `f`, wire type `wt`) has been read
    /// from the bytes `s` that follow the tag; returns the number of bytes the
    /// value took.
    #[verifier::spinoff_prover]
    fn merge_field(&mut self, f: u32, wt: u32, s: &[u8], lim: u64) -> (r: Option<usize>)
        ensures
            match old(self)@.merge_field(f, wt, s@, lim as nat) {
                Some((m, k)) => r == Some(k as usize) && final(self)@ == m,
                None => r is None && final(self)@ == old(self)@.merge_field_failed(f, wt, s@, lim as nat),
            },
        decreases s@.len(), 1int,
    {

        proof {
            reveal_with_fuel(AlbumModel::merge, 1);
        }
        if f == 1 {
            if wt != WIRE_LENGTH_DELIMITED {
                return None;
            }
            match read_embedded_window(s, lim) {
                Some((a, b, past)) => {
                    if a == 0 || a > b || b > s.len() {
                        let x = Album::new();
                        let ghost old_v = self.album@;
                        field_mut(&mut self.album).push(x);
                        proof {
                            assert(self.album@ =~= old_v.push(self.album@.last()));
                            Album::lemma_seq_model_push(old_v, self.album@.last());
                        }
                        return None;
                    }
                    let sub = &s[a..b];
                    let mut x = Album::new();
                    let ok = x.merge_from_slice(sub, past);
                    let ghost old_v = self.album@;
                    field_mut(&mut self.album).push(x);
                    proof {
                        assert(self.album@ =~= old_v.push(self.album@.last()));
                        Album::lemma_seq_model_push(old_v, self.album@.last());
                    }
                    if ok {
                        Some(b)
                    } else {
                        None
                    }
                },
                None => {
                    let x = Album::new();
                    let ghost old_v = self.album@;
                    field_mut(&mut self.album).push(x);
                    proof {
                        assert(self.album@ =~= old_v.push(self.album@.last()));
                        Album::lemma_seq_model_push(old_v, self.album@.last());
                    }
                    None
                },
            }
        } else {
            match read_unknown(f, wt, s) {
                Some((Some(u), k)) => {
                    insert_unknown(field_mut(&mut self.unknown_fields), u);
                    Some(k)
                },
                Some((None, k)) => Some(k),
                None => None,
            }
        }
    }

    /// Merges all the fields that `s` holds, in order; `false` when the bytes
    /// are not a valid encoding (the message then holds what was merged so far).
    #[verifier::spinoff_prover]
    #[verifier::rlimit(100)]
    fn merge_from_slice(&mut self, s: &[u8], lim: u64) -> (ok: bool)
        ensures
            match old(self)@.merge(s@, lim as nat) {
                Some(m) => ok && final(self)@ == m,
                None => !ok && final(self)@ == old(self)@.merge_partial(s@, lim as nat),
            },
        decreases s@.len(), 2int,
    {
        proof {
            reveal_with_fuel(AlbumGroupModel::merge, 1);
            reveal_with_fuel(AlbumGroupModel::merge_partial, 1);
        }
        let mut pos: usize = 0;
        assert(s@.skip(0) =~= s@);
        while pos < s.len()
            invariant
                pos <= s.len(),
                old(self)@.merge(s@, lim as nat) == self@.merge(s@.skip(pos as int), lim as nat),
                old(self)@.merge_partial(s@, lim as nat) == self@.merge_partial(s@.skip(pos as int), lim as nat),
            decreases s.len() - pos,
        {
            let rest = &s[pos..s.len()];
            assert(rest@ == s@.skip(pos as int));
            proof {
                reveal_with_fuel(AlbumGroupModel::merge, 1);
                reveal_with_fuel(AlbumGroupModel::merge_partial, 1);
                lemma_tag_parse_len(rest@);
            }
            match pb_read_tag_unpack(rest) {
                None => {
                    return false;
                },
                Some((f, wt, n)) => {
                    if n == 0 || n > rest.len() {
                        return false;
                    }
                    let rest2 = &rest[n..rest.len()];
                    assert(rest2@ == rest@.skip(n as int));
                    proof {
                        self@.lemma_merge_field_len(f, wt, rest2@, lim as nat);
                    }
                    match self.merge_field(f, wt, rest2, lim) {
                        None => {
                            return false;
                        },
                        Some(k) => {
                            if k > rest2.len() {
                                return false;
                            }
                            assert(rest@.skip((n + k) as int) =~= s@.skip((pos + n + k) as int));
                            pos = pos + n + k;
                        },
                    }
                },
            }
        }
        assert(s@.skip(pos as int) =~= Seq::<u8>::empty());
        proof {
            reveal_with_fuel(AlbumGroupModel::merge, 1);
        }
        true
    }

    /// The message that `s` encodes, if it is a valid encoding.
    #[verifier::spinoff_prover]
    fn parse_slice(s: &[u8], lim: u64) -> (r: Option<Self>)
        ensures
            match AlbumGroupModel::empty().merge(s@, lim as nat) {
                Some(m) => r matches Some(x) && x@ == m,
                None => r is None,
            },
        decreases s@.len(), 3int,
    {
        let mut m = AlbumGroup::new();
        if m.merge_from_slice(s, lim) {
            Some(m)
        } else {
            None
        }
    }

    /// Merges the fields that `bytes` encodes into this message, in order: a set
    /// field is replaced, a repeated field grows. On an invalid encoding the
    /// error comes back, the fields merged before the first field that could not
    /// be read stay merged, and that field is left as `merge_field_failed` says.
    #[verifier::spinoff_prover]
    pub fn merge_from_bytes(&mut self, bytes: &[u8]) -> (r: Result<(), DecodeError>)
        ensures
            match old(self)@.merge(bytes@, top_limit(bytes@.len())) {
                Some(m) => r is Ok && final(self)@ == m,
                None => r is Err && final(self)@ == old(self)@.merge_partial(bytes@, top_limit(bytes@.len())),
            },
    {
        let lim: u64 = u64::MAX - bytes.len() as u64;
        if self.merge_from_slice(bytes, lim) {
            Ok(())
        } else {
            Err(DecodeError)
        }
    }

    /// Parses a message from its encoding.
    #[verifier::spinoff_prover]
    pub fn parse_from_bytes(bytes: &[u8]) -> (r: Result<Self, DecodeError>)
        ensures
            match AlbumGroupModel::empty().merge(bytes@, top_limit(bytes@.len())) {
                Some(m) => r matches Ok(x) && x@ == m,
                None => r is Err,
            },
    {
        let lim: u64 = u64::MAX - bytes.len() as u64;
        match Self::parse_slice(bytes, lim) {
            Some(m) => Ok(m),
            None => Err(DecodeError),
        }
    }

    /// Appends the encoding of field `album` to `out`.
    #[verifier::spinoff_prover]
    fn write_field_album(&self, out: &mut Vec<u8>)
        requires
            self@.wf(),
        ensures
            final(out)@ == old(out)@ + AlbumModel::list_bytes(1, self@.album),
            final(out)@ + self@.encoded_from_unknown_fields() == old(out)@ + self@.encoded_from_album(),
        decreases self, 1int,
    {
        proof {
            reveal_with_fuel(AlbumGroupModel::wf, 1);
        }
        let ghost o = out@;
        let ghost m = self@;
        proof {
            Album::lemma_seq_model(self.album@);
        }
        let ghost w = AlbumModel::encodings(m.album);
        assert(w.subrange(0, w.len() as int) =~= w);
        assert(o + Seq::<u8>::empty() =~= o);
        let mut i: usize = 0;
        while i < self.album.len()
            invariant
                i <= self.album.len(),
                self@ == m,
                m.wf(),
                w.len() == self.album@.len(),
                w == AlbumModel::encodings(m.album),
                o + length_delimited_list_bytes(1, w) == out@ + length_delimited_list_bytes(1, w.subrange(i as int, w.len() as int)),
            decreases self.album.len() - i,
        {
            proof {
                reveal_with_fuel(AlbumGroupModel::wf, 1);
                Album::lemma_seq_model(self.album@);
                AlbumModel::lemma_writable_list(m.album);
                lemma_length_delimited_list_cons(1, w.subrange(i as int, w.len() as int));
                assert(m.album[i as int] == self.album@[i as int]@);
                assert(m.album[i as int].wf());
                assert(w.subrange(i as int, w.len() as int)[0] == w[i as int]);
                assert(w.subrange(i as int, w.len() as int).subrange(1, w.len() - i) =~= w.subrange(i + 1, w.len() as int));
            }
            let ghost before = out@;
            let mut tmp: Vec<u8> = Vec::new();
            self.album[i].write_to(&mut tmp);
            assert(tmp@ =~= w[i as int]);
            pb_write_tag(out, 1, WIRE_LENGTH_DELIMITED);
            write_bytes_value(out, tmp.as_slice());
            proof {
                lemma_write_list_step(before, tag_bytes(1, WIRE_LENGTH_DELIMITED), bytes_value_bytes(w[i as int]), length_delimited_list_bytes(1, w.subrange(i + 1, w.len() as int)), Seq::<u8>::empty());
                assert(length_delimited_list_bytes(1, w.subrange(i + 1, w.len() as int)) + Seq::<u8>::empty() =~= length_delimited_list_bytes(1, w.subrange(i + 1, w.len() as int)));
                assert(tag_bytes(1, WIRE_LENGTH_DELIMITED) + (bytes_value_bytes(w[i as int]) + length_delimited_list_bytes(1, w.subrange(i + 1, w.len() as int))) + Seq::<u8>::empty() =~= tag_bytes(1, WIRE_LENGTH_DELIMITED) + (bytes_value_bytes(w[i as int]) + length_delimited_list_bytes(1, w.subrange(i + 1, w.len() as int))));
            }
            i = i + 1;
        }
        assert(w.subrange(i as int, w.len() as int) =~= Seq::<Seq<u8>>::empty());
        assert(out@ + Seq::<u8>::empty() =~= out@);
        proof {
            AlbumModel::lemma_list_bytes(1, m.album);
            lemma_concat_assoc(o, AlbumModel::list_bytes(1, m.album), m.encoded_from_unknown_fields());
        }
    }

    /// Appends the fields of unknown numbers to `out`.
    #[verifier::spinoff_prover]
    fn write_unknown_fields(&self, out: &mut Vec<u8>)
        requires
            self@.wf(),
        ensures
            final(out)@ == old(out)@ + unknown_list_bytes(self@.unknown_fields),
    {
        proof {
            reveal_with_fuel(AlbumGroupModel::wf, 1);
        }
        let ghost o = out@;
        let ghost m = self@;
        let mut j: usize = 0;
        assert(m.unknown_fields.subrange(0, m.unknown_fields.len() as int) =~= m.unknown_fields);
        assert(o + Seq::<u8>::empty() =~= o);
        while j < self.unknown_fields.len()
            invariant
                j <= self.unknown_fields.len(),
                self@ == m,
                m.wf(),
                o + unknown_list_bytes(m.unknown_fields) == out@ + unknown_list_bytes(m.unknown_fields.subrange(j as int, m.unknown_fields.len() as int)),
            decreases self.unknown_fields.len() - j,
        {
            proof {
                reveal_with_fuel(AlbumGroupModel::wf, 1);
                lemma_unknown_list_cons(m.unknown_fields.subrange(j as int, m.unknown_fields.len() as int));
                assert(m.unknown_fields[j as int] == self.unknown_fields@[j as int]@);
                assert(m.unknown_fields.subrange(j as int, m.unknown_fields.len() as int)[0] == m.unknown_fields[j as int]);
                assert(m.unknown_fields.subrange(j as int, m.unknown_fields.len() as int).subrange(1, m.unknown_fields.len() - j) =~= m.unknown_fields.subrange(j + 1, m.unknown_fields.len() as int));
            }
            let ghost before = out@;
            write_unknown(out, &self.unknown_fields[j]);
            proof {
                lemma_concat_assoc(before, unknown_field_bytes(m.unknown_fields[j as int]), unknown_list_bytes(m.unknown_fields.subrange(j + 1, m.unknown_fields.len() as int)));
            }
            j = j + 1;
        }
        assert(m.unknown_fields.subrange(j as int, m.unknown_fields.len() as int) =~= Seq::<UnknownFieldModel>::empty());
        assert(out@ =~= o + unknown_list_bytes(m.unknown_fields));
    }

    /// Appends the encoding of the message to `out`.
    #[verifier::spinoff_prover]
    fn write_to(&self, out: &mut Vec<u8>)
        requires
            self@.wf(),
        ensures
            final(out)@ == old(out)@ + self@.to_bytes(),
        decreases self, 2int,
    {
        proof {
            reveal_with_fuel(AlbumGroupModel::to_bytes, 1);
        }
        let ghost o = out@;
        let ghost m = self@;
        assert(o + m.to_bytes() == out@ + m.encoded_from_album());
        self.write_field_album(out);
        self.write_unknown_fields(out);
    }

    /// The encoding of the message.
    #[verifier::spinoff_prover]
    pub fn write_to_bytes(&self) -> (r: Vec<u8>)
        requires
            self@.wf(),
        ensures
            r@ == self@.to_bytes(),
    {
        let mut out: Vec<u8> = Vec::new();
        self.write_to(&mut out);
        assert(out@ =~= self@.to_bytes());
        out
    }

    /// The length of the encoding of the message.
    #[verifier::spinoff_prover]
    pub fn compute_size(&self) -> (r: u32)
        requires
            self@.wf(),
            self@.to_bytes().len() <= u32::MAX,
        ensures
            r == self@.to_bytes().len(),
    {
        let v = self.write_to_bytes();
        v.len() as u32
    }
    /// A copy of the message.
    #[verifier::spinoff_prover]
    pub fn clone_message(&self) -> (r: Self)
        ensures
            r@ == self@,
        decreases self,
    {
        let mut album: Vec<Album> = Vec::new();
        let mut i: usize = 0;
        while i < self.album.len()
            invariant
                i <= self.album@.len(),
                album@.len() == i,
                forall|j: int| 0 <= j < i ==> #[trigger] album@[j]@ == self.album@[j]@,
            decreases self.album@.len() - i,
        {
            album.push(self.album[i].clone_message());
            i = i + 1;
        }
        proof {
            Album::lemma_seq_model(album@);
            Album::lemma_seq_model(self.album@);
        }
        assert(Album::seq_model(album@) =~= Album::seq_model(self.album@));
        let unknown_fields = clone_unknown_fields(&self.unknown_fields);
        AlbumGroup { album, unknown_fields }
    }

}

impl Clone for AlbumGroup {
    #[verifier::spinoff_prover]
    fn clone(&self) -> (r: Self)
        ensures
            r@ == self@,
    {
        self.clone_message()
    }
}

impl Default for AlbumGroup {
    #[verifier::spinoff_prover]
    fn default() -> (r: Self)
        ensures
            r@ == AlbumGroupModel::empty(),
    {
        AlbumGroup::new()
    }
}

/// The `Date` message.
#[allow(non_snake_case)]
#[derive(Debug, PartialEq)]
pub struct Date {
    year: Option<i32>,
    month: Option<i32>,
    day: Option<i32>,
    unknown_fields: Vec<UnknownField>,
}

/// The model of a `Date`: each field's value, `None` or empty when unset,
/// and the fields of unknown numbers, in the order they were read.
#[allow(non_snake_case)]
pub struct DateModel {
    pub year: Option<i32>,
    pub month: Option<i32>,
    pub day: Option<i32>,
    pub unknown_fields: Seq<UnknownFieldModel>,
}

impl View for Date {
    type V = DateModel;

    closed spec fn view(&self) -> DateModel {
        DateModel {
            year: self.year,
            month: self.month,
            day: self.day,
            unknown_fields: unknown_models(self.unknown_fields@),
        }
    }
}

#[allow(non_snake_case)]
impl DateModel {
    /// The model of a message with no field set.
    pub open spec fn empty() -> Self {
        DateModel {
            year: None,
            month: None,
            day: None,
            unknown_fields: Seq::empty(),
        }
    }

    /// The encodings of a list of messages.
    pub open spec fn encodings(v: Seq<DateModel>) -> Seq<Seq<u8>> {
        v.map_values(|m: DateModel| m.to_bytes())
    }

    /// Every message of a list can be written, and its encoding fits a 32-bit length.
    pub open spec fn all_writable(v: Seq<DateModel>) -> bool {
        forall|i: int| 0 <= i < v.len() ==> #[trigger] v[i].wf() && fits_u32(v[i].to_bytes())
    }

    /// The field numbers that this message knows.
    pub open spec fn is_known_field(f: u32) -> bool {
        f == 1 || f == 2 || f == 3
    }

    /// Merging one field whose tag (number `f`, wire type `wt`) has been read;
    /// `s` holds the bytes after the tag. The result is the merged model and
    /// the number of bytes the value took; a set field is replaced, a repeated
    /// field grows, a field of unknown number is kept or, if a group, skipped.
    pub open spec fn merge_field(self, f: u32, wt: u32, s: Seq<u8>, lim: nat) -> Option<(Self, nat)> {
        if f == 1 {
            if wt != WIRE_VARINT {
                None
            } else {
                match varint_parse(s) {
                    Some((v, k)) => Some((DateModel { year: Some(zigzag_decode32(v as u32)), ..self }, k)),
                    None => None,
                }
            }
        } else if f == 2 {
            if wt != WIRE_VARINT {
                None
            } else {
                match varint_parse(s) {
                    Some((v, k)) => Some((DateModel { month: Some(zigzag_decode32(v as u32)), ..self }, k)),
                    None => None,
                }
            }
        } else if f == 3 {
            if wt != WIRE_VARINT {
                None
            } else {
                match varint_parse(s) {
                    Some((v, k)) => Some((DateModel { day: Some(zigzag_decode32(v as u32)), ..self }, k)),
                    None => None,
                }
            }
        } else {
            match unknown_parse(f, wt, s) {
                Some((Some(u), k)) => Some((DateModel { unknown_fields: grouped_insert(self.unknown_fields, u), ..self }, k)),
                Some((None, k)) => Some((self, k)),
                None => None,
            }
        }
    }

    /// What is left of the model when merging one field (number `f`, wire type
    /// `wt`, value at the front of `s`) fails: a string, bytes or message field
    /// of the right wire type is first set to its empty value (a repeated one
    /// gets an empty element) and an embedded message keeps the fields merged
    /// into it before the failure; packed values read before the failure stay.
    pub open spec fn merge_field_failed(self, f: u32, wt: u32, s: Seq<u8>, lim: nat) -> Self {
        self
    }

    /// The value of a merged field takes no more than the bytes after its tag.
    pub proof fn lemma_merge_field_len(self, f: u32, wt: u32, s: Seq<u8>, lim: nat)
        ensures
            self.merge_field(f, wt, s, lim) matches Some((_m, k)) ==> k <= s.len(),
    {
        lemma_varint_parse_len(s);
        crate::wire::lemma_unknown_parse_len(f, wt, s);
    }

    /// Merging all the fields that `s` holds, in order, where the length of an
    /// embedded message may reach `lim` bytes past the end of `s` (such a message
    /// is read up to the end of `s`).
    #[verifier::opaque]
    pub open spec fn merge(self, s: Seq<u8>, lim: nat) -> Option<Self>
        decreases s.len(),
    {
        if s.len() == 0 {
            Some(self)
        } else {
            match tag_parse(s) {
                Some((f, wt, n)) => if 0 < n <= s.len() {
                    match self.merge_field(f, wt, s.skip(n as int), lim) {
                        Some((m, k)) => if n + k <= s.len() {
                            m.merge(s.skip((n + k) as int), lim)
                        } else {
                            None
                        },
                        None => None,
                    }
                } else {
                    None
                },
                None => None,
            }
        }
    }

    /// What merging `s` leaves: the fields merged in order up to the first one
    /// whose tag or value cannot be read, then what `merge_field_failed` leaves of
    /// that one; all of `s` where it is a valid encoding.
    #[verifier::opaque]
    pub open spec fn merge_partial(self, s: Seq<u8>, lim: nat) -> Self
        decreases s.len(),
    {
        if s.len() == 0 {
            self
        } else {
            match tag_parse(s) {
                Some((f, wt, n)) => if 0 < n <= s.len() {
                    match self.merge_field(f, wt, s.skip(n as int), lim) {
                        Some((m, k)) => if n + k <= s.len() {
                            m.merge_partial(s.skip((n + k) as int), lim)
                        } else {
                            m
                        },
                        None => self.merge_field_failed(f, wt, s.skip(n as int), lim),
                    }
                } else {
                    self
                },
                None => self,
            }
        }
    }

    /// The encoding of field `year` and of every field written after it.
    pub open spec fn encoded_from_year(self) -> Seq<u8> {
        opt_varint_field_bytes(1, match self.year { Some(x) => Some(zigzag_encode32(x) as u64), None => None }) + self.encoded_from_month()
    }

    /// The encoding of field `month` and of every field written after it.
    pub open spec fn encoded_from_month(self) -> Seq<u8> {
        opt_varint_field_bytes(2, match self.month { Some(x) => Some(zigzag_encode32(x) as u64), None => None }) + self.encoded_from_day()
    }

    /// The encoding of field `day` and of every field written after it.
    pub open spec fn encoded_from_day(self) -> Seq<u8> {
        opt_varint_field_bytes(3, match self.day { Some(x) => Some(zigzag_encode32(x) as u64), None => None }) + self.encoded_from_unknown_fields()
    }

    /// The encoding of the fields of unknown numbers, written last.
    pub open spec fn encoded_from_unknown_fields(self) -> Seq<u8> {
        unknown_list_bytes(self.unknown_fields)
    }

    /// The encoding of the message: its set fields in order of declaration,
    /// each element of a repeated field in order, then the unknown fields.
    #[verifier::opaque]
    pub open spec fn to_bytes(self) -> Seq<u8> {
        self.encoded_from_year()
    }

    /// A model that can be written and read back: every length fits the
    /// 32-bit length prefix, nested messages can be written, and the unknown
    /// fields have valid numbers that this message does not know.
    #[verifier::opaque]
    pub open spec fn wf(self) -> bool {
        &&& (forall|i: int| 0 <= i < self.unknown_fields.len() ==> unknown_field_wf(#[trigger] self.unknown_fields[i]) && !Self::is_known_field(self.unknown_fields[i].number))
        &&& unknown_grouped(self.unknown_fields)
    }

    /// The message with no field set can be written and read back.
    pub proof fn lemma_empty_wf()
        ensures
            Self::empty().wf(),
    {
        reveal_with_fuel(DateModel::wf, 1);
        lemma_grouped_empty();
    }

    /// Merging a field's tag and value, whatever follows them.
    pub proof fn lemma_merge_step(acc: Self, f: u32, wt: u32, t: Seq<u8>, b: Seq<u8>, rest: Seq<u8>, acc2: Self, lim: nat)
        requires
            tag_parse(t + (b + rest)) == Some((f, wt, t.len())),
            t.len() > 0,
            acc.merge_field(f, wt, b + rest, lim) == Some((acc2, b.len())),
        ensures
            acc.merge(t + (b + rest), lim) == acc2.merge(rest, lim),
    {
        reveal_with_fuel(DateModel::merge, 1);
        lemma_skip_chunk(t, b, rest);
    }

    /// Merging the encoding of field `year` sets it, whatever follows.
    pub proof fn lemma_merge_year(acc: Self, v: Option<i32>, rest: Seq<u8>, lim: nat)
        ensures
            acc.merge(opt_varint_field_bytes(1, match v { Some(x) => Some(zigzag_encode32(x) as u64), None => None }) + rest, lim) == (DateModel { year: if v is Some { v } else { acc.year }, ..acc }).merge(rest, lim),
    {
        match v {
            None => {
                assert(opt_varint_field_bytes(1, match v { Some(x) => Some(zigzag_encode32(x) as u64), None => None }) + rest =~= rest);
                assert((DateModel { year: acc.year, ..acc }) == acc);
            },
            Some(x) => {
                let t = tag_bytes(1, WIRE_VARINT);
                let b = varint_bytes(zigzag_encode32(x) as u64);
                assert(opt_varint_field_bytes(1, match v { Some(x) => Some(zigzag_encode32(x) as u64), None => None }) + rest =~= t + (b + rest));
                lemma_tag_roundtrip(1, WIRE_VARINT, b + rest);
                lemma_varint_roundtrip(zigzag_encode32(x) as u64, rest);
                    lemma_varint_casts(0, 0, 0, false, x);
                    crate::wire::lemma_zigzag_roundtrip(x);
                Self::lemma_merge_step(acc, 1, WIRE_VARINT, t, b, rest, DateModel { year: v, ..acc }, lim);
            },
        }
    }

    /// Merging the encoding of field `month` sets it, whatever follows.
    pub proof fn lemma_merge_month(acc: Self, v: Option<i32>, rest: Seq<u8>, lim: nat)
        ensures
            acc.merge(opt_varint_field_bytes(2, match v { Some(x) => Some(zigzag_encode32(x) as u64), None => None }) + rest, lim) == (DateModel { month: if v is Some { v } else { acc.month }, ..acc }).merge(rest, lim),
    {
        match v {
            None => {
                assert(opt_varint_field_bytes(2, match v { Some(x) => Some(zigzag_encode32(x) as u64), None => None }) + rest =~= rest);
                assert((DateModel { month: acc.month, ..acc }) == acc);
            },
            Some(x) => {
                let t = tag_bytes(2, WIRE_VARINT);
                let b = varint_bytes(zigzag_encode32(x) as u64);
                assert(opt_varint_field_bytes(2, match v { Some(x) => Some(zigzag_encode32(x) as u64), None => None }) + rest =~= t + (b + rest));
                lemma_tag_roundtrip(2, WIRE_VARINT, b + rest);
                lemma_varint_roundtrip(zigzag_encode32(x) as u64, rest);
                    lemma_varint_casts(0, 0, 0, false, x);
                    crate::wire::lemma_zigzag_roundtrip(x);
                Self::lemma_merge_step(acc, 2, WIRE_VARINT, t, b, rest, DateModel { month: v, ..acc }, lim);
            },
        }
    }

    /// Merging the encoding of field `day` sets it, whatever follows.
    pub proof fn lemma_merge_day(acc: Self, v: Option<i32>, rest: Seq<u8>, lim: nat)
        ensures
            acc.merge(opt_varint_field_bytes(3, match v { Some(x) => Some(zigzag_encode32(x) as u64), None => None }) + rest, lim) == (DateModel { day: if v is Some { v } else { acc.day }, ..acc }).merge(rest, lim),
    {
        match v {
            None => {
                assert(opt_varint_field_bytes(3, match v { Some(x) => Some(zigzag_encode32(x) as u64), None => None }) + rest =~= rest);
                assert((DateModel { day: acc.day, ..acc }) == acc);
            },
            Some(x) => {
                let t = tag_bytes(3, WIRE_VARINT);
                let b = varint_bytes(zigzag_encode32(x) as u64);
                assert(opt_varint_field_bytes(3, match v { Some(x) => Some(zigzag_encode32(x) as u64), None => None }) + rest =~= t + (b + rest));
                lemma_tag_roundtrip(3, WIRE_VARINT, b + rest);
                lemma_varint_roundtrip(zigzag_encode32(x) as u64, rest);
                    lemma_varint_casts(0, 0, 0, false, x);
                    crate::wire::lemma_zigzag_roundtrip(x);
                Self::lemma_merge_step(acc, 3, WIRE_VARINT, t, b, rest, DateModel { day: v, ..acc }, lim);
            },
        }
    }

    /// Merging the encoding of fields of unknown numbers keeps them, whatever follows.
    #[verifier::rlimit(50)]
    pub proof fn lemma_merge_unknown_fields(acc: Self, v: Seq<UnknownFieldModel>, rest: Seq<u8>, lim: nat)
        requires
            forall|i: int| 0 <= i < v.len() ==> unknown_field_wf(#[trigger] v[i]) && !Self::is_known_field(v[i].number),
            unknown_grouped(acc.unknown_fields + v),
        ensures
            acc.merge(unknown_list_bytes(v) + rest, lim) == (DateModel { unknown_fields: acc.unknown_fields + v, ..acc }).merge(rest, lim),
        decreases v.len(),
    {
        if v.len() == 0 {
            assert(unknown_list_bytes(v) + rest =~= rest);
            assert(acc.unknown_fields + v =~= acc.unknown_fields);
            assert((DateModel { unknown_fields: acc.unknown_fields + v, ..acc }) == acc);
        } else {
            lemma_unknown_list_cons(v);
            let u = v[0];
            let wt = crate::wire::unknown_wire_type(u.value);
            let t = tag_bytes(u.number, wt);
            let b = crate::wire::unknown_value_bytes(u.value);
            let tail = unknown_list_bytes(v.subrange(1, v.len() as int));
            assert(unknown_list_bytes(v) + rest =~= t + (b + (tail + rest)));
            assert(unknown_field_bytes(u) + (tail + rest) =~= t + (b + (tail + rest)));
            lemma_unknown_roundtrip(u, tail + rest);
            assert((t + (b + (tail + rest))).skip(t.len() as int) =~= b + (tail + rest));
            crate::wire::lemma_tag_roundtrip(u.number, wt, b + (tail + rest));
            let acc1 = DateModel { unknown_fields: acc.unknown_fields.push(u), ..acc };
            assert(acc.unknown_fields.push(u) =~= (acc.unknown_fields + v).take(acc.unknown_fields.len() + 1int));
            lemma_grouped_take(acc.unknown_fields + v, acc.unknown_fields.len() + 1int);
            lemma_grouped_insert_last(acc.unknown_fields, u);
            Self::lemma_merge_step(acc, u.number, wt, t, b, tail + rest, acc1, lim);
            assert(acc1.unknown_fields + v.subrange(1, v.len() as int) =~= acc.unknown_fields + v);
            Self::lemma_merge_unknown_fields(acc1, v.subrange(1, v.len() as int), rest, lim);
        }
    }

    /// Reading back the encoding of a model that can be written gives the model,
    /// whatever the limit past its end.
    #[verifier::spinoff_prover]
    #[verifier::rlimit(100)]
    pub proof fn lemma_roundtrip(self, lim: nat)
        requires
            self.wf(),
        ensures
            DateModel::empty().merge(self.to_bytes(), lim) == Some(self),
    {
        reveal(DateModel::to_bytes);
        reveal(DateModel::wf);
        reveal_with_fuel(DateModel::merge, 1);
        let a0 = DateModel::empty();
        Self::lemma_merge_year(a0, self.year, self.encoded_from_month(), lim);
        let a1 = DateModel { year: if self.year is Some { self.year } else { a0.year }, ..a0 };
        Self::lemma_merge_month(a1, self.month, self.encoded_from_day(), lim);
        let a2 = DateModel { month: if self.month is Some { self.month } else { a1.month }, ..a1 };
        Self::lemma_merge_day(a2, self.day, self.encoded_from_unknown_fields(), lim);
        let a3 = DateModel { day: if self.day is Some { self.day } else { a2.day }, ..a2 };
        assert(a3.unknown_fields + self.unknown_fields =~= self.unknown_fields);
        Self::lemma_merge_unknown_fields(a3, self.unknown_fields, Seq::empty(), lim);
        assert(unknown_list_bytes(self.unknown_fields) + Seq::<u8>::empty() =~= unknown_list_bytes(self.unknown_fields));
        let last = DateModel { unknown_fields: a3.unknown_fields + self.unknown_fields, ..a3 };
        assert(last.unknown_fields =~= self.unknown_fields);
        assert(last == self);
    }
    /// A message whose only set field is `year` is written as field number 1 of the
    /// protocol's definition alone: the tag of that number with the wire type of the field,
    /// then the value.
    pub proof fn lemma_encoding_of_year(v: Option<i32>)
        ensures
            (DateModel { year: v, ..DateModel::empty() }).to_bytes() == opt_varint_field_bytes(1, match v { Some(x) => Some(zigzag_encode32(x) as u64), None => None }),
    {
        reveal(DateModel::to_bytes);
        let m = DateModel { year: v, ..DateModel::empty() };
        assert(m.to_bytes() =~= opt_varint_field_bytes(1, match v { Some(x) => Some(zigzag_encode32(x) as u64), None => None }));
    }

    /// A message whose only set field is `month` is written as field number 2 of the
    /// protocol's definition alone: the tag of that number with the wire type of the field,
    /// then the value.
    pub proof fn lemma_encoding_of_month(v: Option<i32>)
        ensures
            (DateModel { month: v, ..DateModel::empty() }).to_bytes() == opt_varint_field_bytes(2, match v { Some(x) => Some(zigzag_encode32(x) as u64), None => None }),
    {
        reveal(DateModel::to_bytes);
        let m = DateModel { month: v, ..DateModel::empty() };
        assert(m.to_bytes() =~= opt_varint_field_bytes(2, match v { Some(x) => Some(zigzag_encode32(x) as u64), None => None }));
    }

    /// A message whose only set field is `day` is written as field number 3 of the
    /// protocol's definition alone: the tag of that number with the wire type of the field,
    /// then the value.
    pub proof fn lemma_encoding_of_day(v: Option<i32>)
        ensures
            (DateModel { day: v, ..DateModel::empty() }).to_bytes() == opt_varint_field_bytes(3, match v { Some(x) => Some(zigzag_encode32(x) as u64), None => None }),
    {
        reveal(DateModel::to_bytes);
        let m = DateModel { day: v, ..DateModel::empty() };
        assert(m.to_bytes() =~= opt_varint_field_bytes(3, match v { Some(x) => Some(zigzag_encode32(x) as u64), None => None }));
    }

}

#[allow(non_snake_case)]
impl Date {
    /// The models of a list of messages.
    pub open spec fn seq_model(v: Seq<Date>) -> Seq<DateModel> {
        v.map_values(|m: Date| m@)
    }

    /// A message with no field set.
    pub fn new() -> (r: Self)
        ensures
            r@ == DateModel::empty(),
            r@.wf(),
    {
        let r = Date {
            year: None,
            month: None,
            day: None,
            unknown_fields: Vec::new(),
        };
        assert(unknown_models(r.unknown_fields@) =~= Seq::<UnknownFieldModel>::empty());
        proof {
            DateModel::lemma_empty_wf();
        }
        r
    }

    /// Unsets field `year`.
    pub fn clear_year(&mut self)
        ensures
            final(self)@ == (DateModel { year: None, ..old(self)@ }),
    {
        self.year = None;
    }

    /// Whether field `year` is set.
    pub fn has_year(&self) -> (r: bool)
        ensures
            r == self@.year is Some,
    {
        self.year.is_some()
    }

    /// Sets field `year` to `v`.
    pub fn set_year(&mut self, v: i32)
        ensures
            final(self)@ == (DateModel { year: Some(v), ..old(self)@ }),
    {
        self.year = Some(v);
    }

    /// Field `year`, or `0` when unset.
    pub fn get_year(&self) -> (r: i32)
        ensures
            r == (match self@.year { Some(x) => x, None => 0i32 }),
    {
        match self.year {
            Some(x) => x,
            None => 0i32,
        }
    }

    /// Unsets field `month`.
    pub fn clear_month(&mut self)
        ensures
            final(self)@ == (DateModel { month: None, ..old(self)@ }),
    {
        self.month = None;
    }

    /// Whether field `month` is set.
    pub fn has_month(&self) -> (r: bool)
        ensures
            r == self@.month is Some,
    {
        self.month.is_some()
    }

    /// Sets field `month` to `v`.
    pub fn set_month(&mut self, v: i32)
        ensures
            final(self)@ == (DateModel { month: Some(v), ..old(self)@ }),
    {
        self.month = Some(v);
    }

    /// Field `month`, or `0` when unset.
    pub fn get_month(&self) -> (r: i32)
        ensures
            r == (match self@.month { Some(x) => x, None => 0i32 }),
    {
        match self.month {
            Some(x) => x,
            None => 0i32,
        }
    }

    /// Unsets field `day`.
    pub fn clear_day(&mut self)
        ensures
            final(self)@ == (DateModel { day: None, ..old(self)@ }),
    {
        self.day = None;
    }

    /// Whether field `day` is set.
    pub fn has_day(&self) -> (r: bool)
        ensures
            r == self@.day is Some,
    {
        self.day.is_some()
    }

    /// Sets field `day` to `v`.
    pub fn set_day(&mut self, v: i32)
        ensures
            final(self)@ == (DateModel { day: Some(v), ..old(self)@ }),
    {
        self.day = Some(v);
    }

    /// Field `day`, or `0` when unset.
    pub fn get_day(&self) -> (r: i32)
        ensures
            r == (match self@.day { Some(x) => x, None => 0i32 }),
    {
        match self.day {
            Some(x) => x,
            None => 0i32,
        }
    }

    /// Merges one field whose tag (number `f`, wire type `wt`) has been read
    /// from the bytes `s` that follow the tag; returns the number of bytes the
    /// value took.
    fn merge_field(&mut self, f: u32, wt: u32, s: &[u8], lim: u64) -> (r: Option<usize>)
        ensures
            match old(self)@.merge_field(f, wt, s@, lim as nat) {
                Some((m, k)) => r == Some(k as usize) && final(self)@ == m,
                None => r is None && final(self)@ == old(self)@.merge_field_failed(f, wt, s@, lim as nat),
            },
    {

        if f == 1 {
            if wt != WIRE_VARINT {
                return None;
            }
            match pb_read_sint32(s) {
                Some((v, k)) => {
                    self.year = Some(v);
                    Some(k)
                },
                None => None,
            }
        } else if f == 2 {
            if wt != WIRE_VARINT {
                return None;
            }
            match pb_read_sint32(s) {
                Some((v, k)) => {
                    self.month = Some(v);
                    Some(k)
                },
                None => None,
            }
        } else if f == 3 {
            if wt != WIRE_VARINT {
                return None;
            }
            match pb_read_sint32(s) {
                Some((v, k)) => {
                    self.day = Some(v);
                    Some(k)
                },
                None => None,
            }
        } else {
            match read_unknown(f, wt, s) {
                Some((Some(u), k)) => {
                    insert_unknown(field_mut(&mut self.unknown_fields), u);
                    Some(k)
                },
                Some((None, k)) => Some(k),
                None => None,
            }
        }
    }

    /// Merges all the fields that `s` holds, in order; `false` when the bytes
    /// are not a valid encoding (the message then holds what was merged so far).
    #[verifier::spinoff_prover]
    #[verifier::rlimit(50)]
    fn merge_from_slice(&mut self, s: &[u8], lim: u64) -> (ok: bool)
        ensures
            match old(self)@.merge(s@, lim as nat) {
                Some(m) => ok && final(self)@ == m,
                None => !ok && final(self)@ == old(self)@.merge_partial(s@, lim as nat),
            },
    {
        proof {
            reveal_with_fuel(DateModel::merge, 1);
            reveal_with_fuel(DateModel::merge_partial, 1);
        }
        let mut pos: usize = 0;
        assert(s@.skip(0) =~= s@);
        while pos < s.len()
            invariant
                pos <= s.len(),
                old(self)@.merge(s@, lim as nat) == self@.merge(s@.skip(pos as int), lim as nat),
                old(self)@.merge_partial(s@, lim as nat) == self@.merge_partial(s@.skip(pos as int), lim as nat),
            decreases s.len() - pos,
        {
            let rest = &s[pos..s.len()];
            assert(rest@ == s@.skip(pos as int));
            proof {
                reveal_with_fuel(DateModel::merge, 1);
                reveal_with_fuel(DateModel::merge_partial, 1);
                lemma_tag_parse_len(rest@);
            }
            match pb_read_tag_unpack(rest) {
                None => {
                    return false;
                },
                Some((f, wt, n)) => {
                    if n == 0 || n > rest.len() {
                        return false;
                    }
                    let rest2 = &rest[n..rest.len()];
                    assert(rest2@ == rest@.skip(n as int));
                    proof {
                        self@.lemma_merge_field_len(f, wt, rest2@, lim as nat);
                    }
                    match self.merge_field(f, wt, rest2, lim) {
                        None => {
                            return false;
                        },
                        Some(k) => {
                            if k > rest2.len() {
                                return false;
                            }
                            assert(rest@.skip((n + k) as int) =~= s@.skip((pos + n + k) as int));
                            pos = pos + n + k;
                        },
                    }
                },
            }
        }
        assert(s@.skip(pos as int) =~= Seq::<u8>::empty());
        proof {
            reveal_with_fuel(DateModel::merge, 1);
        }
        true
    }

    /// The message that `s` encodes, if it is a valid encoding.
    fn parse_slice(s: &[u8], lim: u64) -> (r: Option<Self>)
        ensures
            match DateModel::empty().merge(s@, lim as nat) {
                Some(m) => r matches Some(x) && x@ == m,
                None => r is None,
            },
    {
        let mut m = Date::new();
        if m.merge_from_slice(s, lim) {
            Some(m)
        } else {
            None
        }
    }

    /// Merges the fields that `bytes` encodes into this message, in order: a set
    /// field is replaced, a repeated field grows. On an invalid encoding the
    /// error comes back, the fields merged before the first field that could not
    /// be read stay merged, and that field is left as `merge_field_failed` says.
    pub fn merge_from_bytes(&mut self, bytes: &[u8]) -> (r: Result<(), DecodeError>)
        ensures
            match old(self)@.merge(bytes@, top_limit(bytes@.len())) {
                Some(m) => r is Ok && final(self)@ == m,
                None => r is Err && final(self)@ == old(self)@.merge_partial(bytes@, top_limit(bytes@.len())),
            },
    {
        let lim: u64 = u64::MAX - bytes.len() as u64;
        if self.merge_from_slice(bytes, lim) {
            Ok(())
        } else {
            Err(DecodeError)
        }
    }

    /// Parses a message from its encoding.
    pub fn parse_from_bytes(bytes: &[u8]) -> (r: Result<Self, DecodeError>)
        ensures
            match DateModel::empty().merge(bytes@, top_limit(bytes@.len())) {
                Some(m) => r matches Ok(x) && x@ == m,
                None => r is Err,
            },
    {
        let lim: u64 = u64::MAX - bytes.len() as u64;
        match Self::parse_slice(bytes, lim) {
            Some(m) => Ok(m),
            None => Err(DecodeError),
        }
    }

    /// Appends the encoding of field `year` to `out`.
    fn write_field_year(&self, out: &mut Vec<u8>)
        requires
            self@.wf(),
        ensures
            final(out)@ == old(out)@ + opt_varint_field_bytes(1, match self@.year { Some(x) => Some(zigzag_encode32(x) as u64), None => None }),
            final(out)@ + self@.encoded_from_month() == old(out)@ + self@.encoded_from_year(),
    {
        proof {
            reveal(DateModel::wf);
        }
        let ghost o = out@;
        let ghost m = self@;
        match self.year {
            Some(x) => {
                pb_write_tag(out, 1, WIRE_VARINT);
                pb_write_sint32_no_tag(out, x);
                proof {
                    lemma_concat_assoc(o, tag_bytes(1, WIRE_VARINT), varint_bytes(zigzag_encode32(x) as u64));
                }
            },
            None => {
                assert(o + Seq::<u8>::empty() =~= o);
            },
        }
        proof {
            lemma_concat_assoc(o, opt_varint_field_bytes(1, match m.year { Some(x) => Some(zigzag_encode32(x) as u64), None => None }), m.encoded_from_month());
        }
    }

    /// Appends the encoding of field `month` to `out`.
    fn write_field_month(&self, out: &mut Vec<u8>)
        requires
            self@.wf(),
        ensures
            final(out)@ == old(out)@ + opt_varint_field_bytes(2, match self@.month { Some(x) => Some(zigzag_encode32(x) as u64), None => None }),
            final(out)@ + self@.encoded_from_day() == old(out)@ + self@.encoded_from_month(),
    {
        proof {
            reveal(DateModel::wf);
        }
        let ghost o = out@;
        let ghost m = self@;
        match self.month {
            Some(x) => {
                pb_write_tag(out, 2, WIRE_VARINT);
                pb_write_sint32_no_tag(out, x);
                proof {
                    lemma_concat_assoc(o, tag_bytes(2, WIRE_VARINT), varint_bytes(zigzag_encode32(x) as u64));
                }
            },
            None => {
                assert(o + Seq::<u8>::empty() =~= o);
            },
        }
        proof {
            lemma_concat_assoc(o, opt_varint_field_bytes(2, match m.month { Some(x) => Some(zigzag_encode32(x) as u64), None => None }), m.encoded_from_day());
        }
    }

    /// Appends the encoding of field `day` to `out`.
    fn write_field_day(&self, out: &mut Vec<u8>)
        requires
            self@.wf(),
        ensures
            final(out)@ == old(out)@ + opt_varint_field_bytes(3, match self@.day { Some(x) => Some(zigzag_encode32(x) as u64), None => None }),
            final(out)@ + self@.encoded_from_unknown_fields() == old(out)@ + self@.encoded_from_day(),
    {
        proof {
            reveal(DateModel::wf);
        }
        let ghost o = out@;
        let ghost m = self@;
        match self.day {
            Some(x) => {
                pb_write_tag(out, 3, WIRE_VARINT);
                pb_write_sint32_no_tag(out, x);
                proof {
                    lemma_concat_assoc(o, tag_bytes(3, WIRE_VARINT), varint_bytes(zigzag_encode32(x) as u64));
                }
            },
            None => {
                assert(o + Seq::<u8>::empty() =~= o);
            },
        }
        proof {
            lemma_concat_assoc(o, opt_varint_field_bytes(3, match m.day { Some(x) => Some(zigzag_encode32(x) as u64), None => None }), m.encoded_from_unknown_fields());
        }
    }

    /// Appends the fields of unknown numbers to `out`.
    fn write_unknown_fields(&self, out: &mut Vec<u8>)
        requires
            self@.wf(),
        ensures
            final(out)@ == old(out)@ + unknown_list_bytes(self@.unknown_fields),
    {
        proof {
            reveal(DateModel::wf);
        }
        let ghost o = out@;
        let ghost m = self@;
        let mut j: usize = 0;
        assert(m.unknown_fields.subrange(0, m.unknown_fields.len() as int) =~= m.unknown_fields);
        assert(o + Seq::<u8>::empty() =~= o);
        while j < self.unknown_fields.len()
            invariant
                j <= self.unknown_fields.len(),
                self@ == m,
                m.wf(),
                o + unknown_list_bytes(m.unknown_fields) == out@ + unknown_list_bytes(m.unknown_fields.subrange(j as int, m.unknown_fields.len() as int)),
            decreases self.unknown_fields.len() - j,
        {
            proof {
                reveal(DateModel::wf);
                lemma_unknown_list_cons(m.unknown_fields.subrange(j as int, m.unknown_fields.len() as int));
                assert(m.unknown_fields[j as int] == self.unknown_fields@[j as int]@);
                assert(m.unknown_fields.subrange(j as int, m.unknown_fields.len() as int)[0] == m.unknown_fields[j as int]);
                assert(m.unknown_fields.subrange(j as int, m.unknown_fields.len() as int).subrange(1, m.unknown_fields.len() - j) =~= m.unknown_fields.subrange(j + 1, m.unknown_fields.len() as int));
            }
            let ghost before = out@;
            write_unknown(out, &self.unknown_fields[j]);
            proof {
                lemma_concat_assoc(before, unknown_field_bytes(m.unknown_fields[j as int]), unknown_list_bytes(m.unknown_fields.subrange(j + 1, m.unknown_fields.len() as int)));
            }
            j = j + 1;
        }
        assert(m.unknown_fields.subrange(j as int, m.unknown_fields.len() as int) =~= Seq::<UnknownFieldModel>::empty());
        assert(out@ =~= o + unknown_list_bytes(m.unknown_fields));
    }

    /// Appends the encoding of the message to `out`.
    fn write_to(&self, out: &mut Vec<u8>)
        requires
            self@.wf(),
        ensures
            final(out)@ == old(out)@ + self@.to_bytes(),
    {
        proof {
            reveal(DateModel::to_bytes);
        }
        let ghost o = out@;
        let ghost m = self@;
        assert(o + m.to_bytes() == out@ + m.encoded_from_year());
        self.write_field_year(out);
        self.write_field_month(out);
        self.write_field_day(out);
        self.write_unknown_fields(out);
    }

    /// The encoding of the message.
    pub fn write_to_bytes(&self) -> (r: Vec<u8>)
        requires
            self@.wf(),
        ensures
            r@ == self@.to_bytes(),
    {
        let mut out: Vec<u8> = Vec::new();
        self.write_to(&mut out);
        assert(out@ =~= self@.to_bytes());
        out
    }

    /// The length of the encoding of the message.
    pub fn compute_size(&self) -> (r: u32)
        requires
            self@.wf(),
            self@.to_bytes().len() <= u32::MAX,
        ensures
            r == self@.to_bytes().len(),
    {
        let v = self.write_to_bytes();
        v.len() as u32
    }
    /// A copy of the message.
    pub fn clone_message(&self) -> (r: Self)
        ensures
            r@ == self@,
    {
        let year = self.year;
        let month = self.month;
        let day = self.day;
        let unknown_fields = clone_unknown_fields(&self.unknown_fields);
        Date { year, month, day, unknown_fields }
    }

}

impl Clone for Date {
    fn clone(&self) -> (r: Self)
        ensures
            r@ == self@,
    {
        self.clone_message()
    }
}

impl Default for Date {
    fn default() -> (r: Self)
        ensures
            r@ == DateModel::empty(),
    {
        Date::new()
    }
}

/// The `Album` message.
#[allow(non_snake_case)]
#[derive(Debug, PartialEq)]
pub struct Album {
    gid: Option<Vec<u8>>,
    name: Option<String>,
    artist: Vec<Artist>,
    typ: Option<Album_Type>,
    label: Option<String>,
    date: Box<Date>,
    has_date: bool,
    popularity: Option<i32>,
    genre: Vec<String>,
    cover: Vec<Image>,
    external_id: Vec<ExternalId>,
    disc: Vec<Disc>,
    review: Vec<String>,
    copyright: Vec<Copyright>,
    restriction: Vec<Restriction>,
    related: Vec<Album>,
    sale_period: Vec<SalePeriod>,
    cover_group: Box<ImageGroup>,
    has_cover_group: bool,
    unknown_fields: Vec<UnknownField>,
}

/// The model of a `Album`: each field's value, `None` or empty when unset,
/// and the fields of unknown numbers, in the order they were read.
#[allow(non_snake_case)]
pub struct AlbumModel {
    pub gid: Option<Seq<u8>>,
    pub name: Option<Seq<char>>,
    pub artist: Seq<ArtistModel>,
    pub typ: Option<Album_Type>,
    pub label: Option<Seq<char>>,
    pub date: Option<DateModel>,
    pub popularity: Option<i32>,
    pub genre: Seq<Seq<char>>,
    pub cover: Seq<ImageModel>,
    pub external_id: Seq<ExternalIdModel>,
    pub disc: Seq<DiscModel>,
    pub review: Seq<Seq<char>>,
    pub copyright: Seq<CopyrightModel>,
    pub restriction: Seq<RestrictionModel>,
    pub related: Seq<AlbumModel>,
    pub sale_period: Seq<SalePeriodModel>,
    pub cover_group: Option<ImageGroupModel>,
    pub unknown_fields: Seq<UnknownFieldModel>,
}

impl View for Album {
    type V = AlbumModel;

    closed spec fn view(&self) -> AlbumModel {
        self.model()
    }
}

#[allow(non_snake_case)]
impl Album {
    /// The model of the message: the view, written out for the messages that contain one another.
    pub closed spec fn model(self) -> AlbumModel
        decreases self, 1int,
    {
        AlbumModel {
            gid: opt_view(self.gid),
            name: opt_view(self.name),
            artist: Artist::seq_model(self.artist@),
            typ: self.typ,
            label: opt_view(self.label),
            date: if self.has_date {
                Some(self.date@)
            } else {
                None
            },
            popularity: self.popularity,
            genre: string_models(self.genre@),
            cover: Image::seq_model(self.cover@),
            external_id: ExternalId::seq_model(self.external_id@),
            disc: Disc::seq_model(self.disc@),
            review: string_models(self.review@),
            copyright: Copyright::seq_model(self.copyright@),
            restriction: Restriction::seq_model(self.restriction@),
            related: Album::seq_model(self.related@),
            sale_period: SalePeriod::seq_model(self.sale_period@),
            cover_group: if self.has_cover_group {
                Some(self.cover_group@)
            } else {
                None
            },
            unknown_fields: unknown_models(self.unknown_fields@),
        }
    }
}

#[allow(non_snake_case)]
impl AlbumModel {
    /// The model of a message with no field set.
    pub open spec fn empty() -> Self {
        AlbumModel {
            gid: None,
            name: None,
            artist: Seq::empty(),
            typ: None,
            label: None,
            date: None,
            popularity: None,
            genre: Seq::empty(),
            cover: Seq::empty(),
            external_id: Seq::empty(),
            disc: Seq::empty(),
            review: Seq::empty(),
            copyright: Seq::empty(),
            restriction: Seq::empty(),
            related: Seq::empty(),
            sale_period: Seq::empty(),
            cover_group: None,
            unknown_fields: Seq::empty(),
        }
    }

    /// The encodings of a list of messages.
    pub open spec fn encodings(v: Seq<AlbumModel>) -> Seq<Seq<u8>> {
        v.map_values(|m: AlbumModel| m.to_bytes())
    }

    /// Every message of a list can be written, and its encoding fits a 32-bit length.
    pub open spec fn all_writable(v: Seq<AlbumModel>) -> bool {
        forall|i: int| 0 <= i < v.len() ==> #[trigger] v[i].wf() && fits_u32(v[i].to_bytes())
    }

    /// Every message of a list can be written, element by element.
    pub open spec fn writable_list(v: Seq<AlbumModel>) -> bool
        decreases v, 0int,
    {
        v.len() == 0 || (v[0].wf() && fits_u32(v[0].to_bytes()) && Self::writable_list(v.subrange(1, v.len() as int)))
    }

    /// Each message of a list that can be written element by element can be written.
    #[verifier::spinoff_prover]
    pub proof fn lemma_writable_list(v: Seq<AlbumModel>)
        requires
            Self::writable_list(v),
        ensures
            Self::all_writable(v),
        decreases v.len(),
    {
        reveal_with_fuel(AlbumModel::wf, 1);
        if v.len() > 0 {
            let tail = v.subrange(1, v.len() as int);
            Self::lemma_writable_list(tail);
            assert forall|i: int| 0 <= i < v.len() implies #[trigger] v[i].wf() && fits_u32(v[i].to_bytes()) by {
                if i > 0 {
                    assert(v[i] == tail[i - 1]);
                }
            }
        }
    }

    /// The encoding of the elements of a repeated field of number `f`, each as a length-delimited
    /// value after its tag.
    pub open spec fn list_bytes(f: u32, v: Seq<AlbumModel>) -> Seq<u8>
        decreases v, 0int,
    {
        if v.len() == 0 {
            Seq::empty()
        } else {
            tag_bytes(f, WIRE_LENGTH_DELIMITED) + bytes_value_bytes(v[0].to_bytes()) + Self::list_bytes(
                f,
                v.subrange(1, v.len() as int),
            )
        }
    }

    /// The encoding of a repeated field is the list of the encodings of its elements.
    #[verifier::spinoff_prover]
    pub proof fn lemma_list_bytes(f: u32, v: Seq<AlbumModel>)
        ensures
            Self::list_bytes(f, v) == length_delimited_list_bytes(f, Self::encodings(v)),
        decreases v.len(),
    {
        let e = Self::encodings(v);
        if v.len() > 0 {
            let tail = v.subrange(1, v.len() as int);
            Self::lemma_list_bytes(f, tail);
            assert(e.subrange(1, v.len() as int) =~= Self::encodings(tail));
            assert(e[0] == v[0].to_bytes());
            lemma_length_delimited_list_cons(f, e);
            lemma_concat_assoc(tag_bytes(f, WIRE_LENGTH_DELIMITED), bytes_value_bytes(e[0]), Self::list_bytes(f, tail));
        } else {
            assert(e =~= Seq::<Seq<u8>>::empty());
        }
    }

    /// The field numbers that this message knows.
    pub open spec fn is_known_field(f: u32) -> bool {
        f == 1 || f == 2 || f == 3 || f == 4 || f == 5 || f == 6 || f == 7 || f == 8 || f == 9 || f == 10 || f == 11 || f == 12 || f == 13 || f == 14 || f == 15 || f == 16 || f == 17
    }

    /// Merging one field whose tag (number `f`, wire type `wt`) has been read;
    /// `s` holds the bytes after the tag. The result is the merged model and
    /// the number of bytes the value took; a set field is replaced, a repeated
    /// field grows, a field of unknown number is kept or, if a group, skipped.
    pub open spec fn merge_field(self, f: u32, wt: u32, s: Seq<u8>, lim: nat) -> Option<(Self, nat)>
        decreases s.len(),
    {
        if f == 1 {
            if wt != WIRE_LENGTH_DELIMITED {
                None
            } else {
                match bytes_parse(s) {
                    Some((c, k)) => Some((AlbumModel { gid: Some(c), ..self }, k)),
                    None => None,
                }
            }
        } else if f == 2 {
            if wt != WIRE_LENGTH_DELIMITED {
                None
            } else {
                match string_parse(s) {
                    Some((c, k)) => Some((AlbumModel { name: Some(c), ..self }, k)),
                    None => None,
                }
            }
        } else if f == 3 {
            if wt != WIRE_LENGTH_DELIMITED {
                None
            } else {
                match embedded_window(s, lim) {
                    Some((a, b, x)) => if 0 < a <= b <= s.len() {
                        match ArtistModel::empty().merge(s.subrange(a as int, b as int), x) {
                            Some(x) => Some((AlbumModel { artist: self.artist.push(x), ..self }, b)),
                            None => None,
                        }
                    } else {
                        None
                    },
                    None => None,
                }
            }
        } else if f == 4 {
            if wt != WIRE_VARINT {
                None
            } else {
                match varint_parse(s) {
                    Some((v, k)) => match Album_Type::spec_from_i32(varint_int32(v)) {
                        Some(e) => Some((AlbumModel { typ: Some(e), ..self }, k)),
                        None => None,
                    },
                    None => None,
                }
            }
        } else if f == 5 {
            if wt != WIRE_LENGTH_DELIMITED {
                None
            } else {
                match string_parse(s) {
                    Some((c, k)) => Some((AlbumModel { label: Some(c), ..self }, k)),
                    None => None,
                }
            }
        } else if f == 6 {
            if wt != WIRE_LENGTH_DELIMITED {
                None
            } else {
                match embedded_window(s, lim) {
                    Some((a, b, x)) => if 0 < a <= b <= s.len() {
                        match DateModel::empty().merge(s.subrange(a as int, b as int), x) {
                            Some(x) => Some((AlbumModel { date: Some(x), ..self }, b)),
                            None => None,
                        }
                    } else {
                        None
                    },
                    None => None,
                }
            }
        } else if f == 7 {
            if wt != WIRE_VARINT {
                None
            } else {
                match varint_parse(s) {
                    Some((v, k)) => Some((AlbumModel { popularity: Some(zigzag_decode32(v as u32)), ..self }, k)),
                    None => None,
                }
            }
        } else if f == 8 {
            if wt != WIRE_LENGTH_DELIMITED {
                None
            } else {
                match string_parse(s) {
                    Some((c, k)) => Some((AlbumModel { genre: self.genre.push(c), ..self }, k)),
                    None => None,
                }
            }
        } else if f == 9 {
            if wt != WIRE_LENGTH_DELIMITED {
                None
            } else {
                match embedded_window(s, lim) {
                    Some((a, b, x)) => if 0 < a <= b <= s.len() {
                        match ImageModel::empty().merge(s.subrange(a as int, b as int), x) {
                            Some(x) => Some((AlbumModel { cover: self.cover.push(x), ..self }, b)),
                            None => None,
                        }
                    } else {
                        None
                    },
                    None => None,
                }
            }
        } else if f == 10 {
            if wt != WIRE_LENGTH_DELIMITED {
                None
            } else {
                match embedded_window(s, lim) {
                    Some((a, b, x)) => if 0 < a <= b <= s.len() {
                        match ExternalIdModel::empty().merge(s.subrange(a as int, b as int), x) {
                            Some(x) => Some((AlbumModel { external_id: self.external_id.push(x), ..self }, b)),
                            None => None,
                        }
                    } else {
                        None
                    },
                    None => None,
                }
            }
        } else if f == 11 {
            if wt != WIRE_LENGTH_DELIMITED {
                None
            } else {
                match embedded_window(s, lim) {
                    Some((a, b, x)) => if 0 < a <= b <= s.len() {
                        match DiscModel::empty().merge(s.subrange(a as int, b as int), x) {
                            Some(x) => Some((AlbumModel { disc: self.disc.push(x), ..self }, b)),
                            None => None,
                        }
                    } else {
                        None
                    },
                    None => None,
                }
            }
        } else if f == 12 {
            if wt != WIRE_LENGTH_DELIMITED {
                None
            } else {
                match string_parse(s) {
                    Some((c, k)) => Some((AlbumModel { review: self.review.push(c), ..self }, k)),
                    None => None,
                }
            }
        } else if f == 13 {
            if wt != WIRE_LENGTH_DELIMITED {
                None
            } else {
                match embedded_window(s, lim) {
                    Some((a, b, x)) => if 0 < a <= b <= s.len() {
                        match CopyrightModel::empty().merge(s.subrange(a as int, b as int), x) {
                            Some(x) => Some((AlbumModel { copyright: self.copyright.push(x), ..self }, b)),
                            None => None,
                        }
                    } else {
                        None
                    },
                    None => None,
                }
            }
        } else if f == 14 {
            if wt != WIRE_LENGTH_DELIMITED {
                None
            } else {
                match embedded_window(s, lim) {
                    Some((a, b, x)) => if 0 < a <= b <= s.len() {
                        match RestrictionModel::empty().merge(s.subrange(a as int, b as int), x) {
                            Some(x) => Some((AlbumModel { restriction: self.restriction.push(x), ..self }, b)),
                            None => None,
                        }
                    } else {
                        None
                    },
                    None => None,
                }
            }
        } else if f == 15 {
            if wt != WIRE_LENGTH_DELIMITED {
                None
            } else {
                match embedded_window(s, lim) {
                    Some((a, b, x)) => if 0 < a <= b <= s.len() {
                        match AlbumModel::empty().merge(s.subrange(a as int, b as int), x) {
                            Some(x) => Some((AlbumModel { related: self.related.push(x), ..self }, b)),
                            None => None,
                        }
                    } else {
                        None
                    },
                    None => None,
                }
            }
        } else if f == 16 {
            if wt != WIRE_LENGTH_DELIMITED {
                None
            } else {
                match embedded_window(s, lim) {
                    Some((a, b, x)) => if 0 < a <= b <= s.len() {
                        match SalePeriodModel::empty().merge(s.subrange(a as int, b as int), x) {
                            Some(x) => Some((AlbumModel { sale_period: self.sale_period.push(x), ..self }, b)),
                            None => None,
                        }
                    } else {
                        None
                    },
                    None => None,
                }
            }
        } else if f == 17 {
            if wt != WIRE_LENGTH_DELIMITED {
                None
            } else {
                match embedded_window(s, lim) {
                    Some((a, b, x)) => if 0 < a <= b <= s.len() {
                        match ImageGroupModel::empty().merge(s.subrange(a as int, b as int), x) {
                            Some(x) => Some((AlbumModel { cover_group: Some(x), ..self }, b)),
                            None => None,
                        }
                    } else {
                        None
                    },
                    None => None,
                }
            }
        } else {
            match unknown_parse(f, wt, s) {
                Some((Some(u), k)) => Some((AlbumModel { unknown_fields: grouped_insert(self.unknown_fields, u), ..self }, k)),
                Some((None, k)) => Some((self, k)),
                None => None,
            }
        }
    }

    /// What is left of the model when merging one field (number `f`, wire type
    /// `wt`, value at the front of `s`) fails: a string, bytes or message field
    /// of the right wire type is first set to its empty value (a repeated one
    /// gets an empty element) and an embedded message keeps the fields merged
    /// into it before the failure; packed values read before the failure stay.
    pub open spec fn merge_field_failed(self, f: u32, wt: u32, s: Seq<u8>, lim: nat) -> Self
        decreases s.len(),
    {
        if f == 1 {
            if wt != WIRE_LENGTH_DELIMITED {
                self
            } else {
                AlbumModel { gid: Some(Seq::<u8>::empty()), ..self }
            }
        } else if f == 2 {
            if wt != WIRE_LENGTH_DELIMITED {
                self
            } else {
                AlbumModel { name: Some(Seq::<char>::empty()), ..self }
            }
        } else if f == 3 {
            if wt != WIRE_LENGTH_DELIMITED {
                self
            } else {
                match embedded_window(s, lim) {
                    Some((a, b, x)) => if 0 < a <= b <= s.len() {
                        AlbumModel { artist: self.artist.push(ArtistModel::empty().merge_partial(s.subrange(a as int, b as int), x)), ..self }
                    } else {
                        AlbumModel { artist: self.artist.push(ArtistModel::empty()), ..self }
                    },
                    None => AlbumModel { artist: self.artist.push(ArtistModel::empty()), ..self },
                }
            }
        } else if f == 5 {
            if wt != WIRE_LENGTH_DELIMITED {
                self
            } else {
                AlbumModel { label: Some(Seq::<char>::empty()), ..self }
            }
        } else if f == 6 {
            if wt != WIRE_LENGTH_DELIMITED {
                self
            } else {
                match embedded_window(s, lim) {
                    Some((a, b, x)) => if 0 < a <= b <= s.len() {
                        AlbumModel { date: Some(DateModel::empty().merge_partial(s.subrange(a as int, b as int), x)), ..self }
                    } else {
                        AlbumModel { date: Some(DateModel::empty()), ..self }
                    },
                    None => AlbumModel { date: Some(DateModel::empty()), ..self },
                }
            }
        } else if f == 8 {
            if wt != WIRE_LENGTH_DELIMITED {
                self
            } else {
                AlbumModel { genre: self.genre.push(Seq::<char>::empty()), ..self }
            }
        } else if f == 9 {
            if wt != WIRE_LENGTH_DELIMITED {
                self
            } else {
                match embedded_window(s, lim) {
                    Some((a, b, x)) => if 0 < a <= b <= s.len() {
                        AlbumModel { cover: self.cover.push(ImageModel::empty().merge_partial(s.subrange(a as int, b as int), x)), ..self }
                    } else {
                        AlbumModel { cover: self.cover.push(ImageModel::empty()), ..self }
                    },
                    None => AlbumModel { cover: self.cover.push(ImageModel::empty()), ..self },
                }
            }
        } else if f == 10 {
            if wt != WIRE_LENGTH_DELIMITED {
                self
            } else {
                match embedded_window(s, lim) {
                    Some((a, b, x)) => if 0 < a <= b <= s.len() {
                        AlbumModel { external_id: self.external_id.push(ExternalIdModel::empty().merge_partial(s.subrange(a as int, b as int), x)), ..self }
                    } else {
                        AlbumModel { external_id: self.external_id.push(ExternalIdModel::empty()), ..self }
                    },
                    None => AlbumModel { external_id: self.external_id.push(ExternalIdModel::empty()), ..self },
                }
            }
        } else if f == 11 {
            if wt != WIRE_LENGTH_DELIMITED {
                self
            } else {
                match embedded_window(s, lim) {
                    Some((a, b, x)) => if 0 < a <= b <= s.len() {
                        AlbumModel { disc: self.disc.push(DiscModel::empty().merge_partial(s.subrange(a as int, b as int), x)), ..self }
                    } else {
                        AlbumModel { disc: self.disc.push(DiscModel::empty()), ..self }
                    },
                    None => AlbumModel { disc: self.disc.push(DiscModel::empty()), ..self },
                }
            }
        } else if f == 12 {
            if wt != WIRE_LENGTH_DELIMITED {
                self
            } else {
                AlbumModel { review: self.review.push(Seq::<char>::empty()), ..self }
            }
        } else if f == 13 {
            if wt != WIRE_LENGTH_DELIMITED {
                self
            } else {
                match embedded_window(s, lim) {
                    Some((a, b, x)) => if 0 < a <= b <= s.len() {
                        AlbumModel { copyright: self.copyright.push(CopyrightModel::empty().merge_partial(s.subrange(a as int, b as int), x)), ..self }
                    } else {
                        AlbumModel { copyright: self.copyright.push(CopyrightModel::empty()), ..self }
                    },
                    None => AlbumModel { copyright: self.copyright.push(CopyrightModel::empty()), ..self },
                }
            }
        } else if f == 14 {
            if wt != WIRE_LENGTH_DELIMITED {
                self
            } else {
                match embedded_window(s, lim) {
                    Some((a, b, x)) => if 0 < a <= b <= s.len() {
                        AlbumModel { restriction: self.restriction.push(RestrictionModel::empty().merge_partial(s.subrange(a as int, b as int), x)), ..self }
                    } else {
                        AlbumModel { restriction: self.restriction.push(RestrictionModel::empty()), ..self }
                    },
                    None => AlbumModel { restriction: self.restriction.push(RestrictionModel::empty()), ..self },
                }
            }
        } else if f == 15 {
            if wt != WIRE_LENGTH_DELIMITED {
                self
            } else {
                match embedded_window(s, lim) {
                    Some((a, b, x)) => if 0 < a <= b <= s.len() {
                        AlbumModel { related: self.related.push(AlbumModel::empty().merge_partial(s.subrange(a as int, b as int), x)), ..self }
                    } else {
                        AlbumModel { related: self.related.push(AlbumModel::empty()), ..self }
                    },
                    None => AlbumModel { related: self.related.push(AlbumModel::empty()), ..self },
                }
            }
        } else if f == 16 {
            if wt != WIRE_LENGTH_DELIMITED {
                self
            } else {
                match embedded_window(s, lim) {
                    Some((a, b, x)) => if 0 < a <= b <= s.len() {
                        AlbumModel { sale_period: self.sale_period.push(SalePeriodModel::empty().merge_partial(s.subrange(a as int, b as int), x)), ..self }
                    } else {
                        AlbumModel { sale_period: self.sale_period.push(SalePeriodModel::empty()), ..self }
                    },
                    None => AlbumModel { sale_period: self.sale_period.push(SalePeriodModel::empty()), ..self },
                }
            }
        } else if f == 17 {
            if wt != WIRE_LENGTH_DELIMITED {
                self
            } else {
                match embedded_window(s, lim) {
                    Some((a, b, x)) => if 0 < a <= b <= s.len() {
                        AlbumModel { cover_group: Some(ImageGroupModel::empty().merge_partial(s.subrange(a as int, b as int), x)), ..self }
                    } else {
                        AlbumModel { cover_group: Some(ImageGroupModel::empty()), ..self }
                    },
                    None => AlbumModel { cover_group: Some(ImageGroupModel::empty()), ..self },
                }
            }
        } else {
            self
        }
    }

    /// The value of a merged field takes no more than the bytes after its tag.
    #[verifier::spinoff_prover]
    pub proof fn lemma_merge_field_len(self, f: u32, wt: u32, s: Seq<u8>, lim: nat)
        ensures
            self.merge_field(f, wt, s, lim) matches Some((_m, k)) ==> k <= s.len(),
    {
        lemma_varint_parse_len(s);
        crate::wire::lemma_unknown_parse_len(f, wt, s);
    }

    /// Merging all the fields that `s` holds, in order, where the length of an
    /// embedded message may reach `lim` bytes past the end of `s` (such a message
    /// is read up to the end of `s`).
    #[verifier::opaque]
    pub open spec fn merge(self, s: Seq<u8>, lim: nat) -> Option<Self>
        decreases s.len(),
    {
        if s.len() == 0 {
            Some(self)
        } else {
            match tag_parse(s) {
                Some((f, wt, n)) => if 0 < n <= s.len() {
                    match self.merge_field(f, wt, s.skip(n as int), lim) {
                        Some((m, k)) => if n + k <= s.len() {
                            m.merge(s.skip((n + k) as int), lim)
                        } else {
                            None
                        },
                        None => None,
                    }
                } else {
                    None
                },
                None => None,
            }
        }
    }

    /// What merging `s` leaves: the fields merged in order up to the first one
    /// whose tag or value cannot be read, then what `merge_field_failed` leaves of
    /// that one; all of `s` where it is a valid encoding.
    #[verifier::opaque]
    pub open spec fn merge_partial(self, s: Seq<u8>, lim: nat) -> Self
        decreases s.len(),
    {
        if s.len() == 0 {
            self
        } else {
            match tag_parse(s) {
                Some((f, wt, n)) => if 0 < n <= s.len() {
                    match self.merge_field(f, wt, s.skip(n as int), lim) {
                        Some((m, k)) => if n + k <= s.len() {
                            m.merge_partial(s.skip((n + k) as int), lim)
                        } else {
                            m
                        },
                        None => self.merge_field_failed(f, wt, s.skip(n as int), lim),
                    }
                } else {
                    self
                },
                None => self,
            }
        }
    }

    /// The encoding of field `gid` and of every field written after it.
    pub open spec fn encoded_from_gid(self) -> Seq<u8>
        decreases self, 18int,
    {
        opt_length_delimited_field_bytes(1, self.gid) + self.encoded_from_name()
    }

    /// The encoding of field `name` and of every field written after it.
    pub open spec fn encoded_from_name(self) -> Seq<u8>
        decreases self, 17int,
    {
        opt_length_delimited_field_bytes(2, match self.name { Some(c) => Some(encode_utf8(c)), None => None }) + self.encoded_from_artist()
    }

    /// The encoding of field `artist` and of every field written after it.
    pub open spec fn encoded_from_artist(self) -> Seq<u8>
        decreases self, 16int,
    {
        ArtistModel::list_bytes(3, self.artist) + self.encoded_from_typ()
    }

    /// The encoding of field `typ` and of every field written after it.
    pub open spec fn encoded_from_typ(self) -> Seq<u8>
        decreases self, 15int,
    {
        opt_varint_field_bytes(4, match self.typ { Some(x) => Some(int32_varint(x.spec_value())), None => None }) + self.encoded_from_label()
    }

    /// The encoding of field `label` and of every field written after it.
    pub open spec fn encoded_from_label(self) -> Seq<u8>
        decreases self, 14int,
    {
        opt_length_delimited_field_bytes(5, match self.label { Some(c) => Some(encode_utf8(c)), None => None }) + self.encoded_from_date()
    }

    /// The encoding of field `date` and of every field written after it.
    pub open spec fn encoded_from_date(self) -> Seq<u8>
        decreases self, 13int,
    {
        opt_length_delimited_field_bytes(6, match self.date { Some(m) => Some(m.to_bytes()), None => None }) + self.encoded_from_popularity()
    }

    /// The encoding of field `popularity` and of every field written after it.
    pub open spec fn encoded_from_popularity(self) -> Seq<u8>
        decreases self, 12int,
    {
        opt_varint_field_bytes(7, match self.popularity { Some(x) => Some(zigzag_encode32(x) as u64), None => None }) + self.encoded_from_genre()
    }

    /// The encoding of field `genre` and of every field written after it.
    pub open spec fn encoded_from_genre(self) -> Seq<u8>
        decreases self, 11int,
    {
        length_delimited_list_bytes(8, utf8_encodings(self.genre)) + self.encoded_from_cover()
    }

    /// The encoding of field `cover` and of every field written after it.
    pub open spec fn encoded_from_cover(self) -> Seq<u8>
        decreases self, 10int,
    {
        length_delimited_list_bytes(9, ImageModel::encodings(self.cover)) + self.encoded_from_external_id()
    }

    /// The encoding of field `external_id` and of every field written after it.
    pub open spec fn encoded_from_external_id(self) -> Seq<u8>
        decreases self, 9int,
    {
        length_delimited_list_bytes(10, ExternalIdModel::encodings(self.external_id)) + self.encoded_from_disc()
    }

    /// The encoding of field `disc` and of every field written after it.
    pub open spec fn encoded_from_disc(self) -> Seq<u8>
        decreases self, 8int,
    {
        DiscModel::list_bytes(11, self.disc) + self.encoded_from_review()
    }

    /// The encoding of field `review` and of every field written after it.
    pub open spec fn encoded_from_review(self) -> Seq<u8>
        decreases self, 7int,
    {
        length_delimited_list_bytes(12, utf8_encodings(self.review)) + self.encoded_from_copyright()
    }

    /// The encoding of field `copyright` and of every field written after it.
    pub open spec fn encoded_from_copyright(self) -> Seq<u8>
        decreases self, 6int,
    {
        length_delimited_list_bytes(13, CopyrightModel::encodings(self.copyright)) + self.encoded_from_restriction()
    }

    /// The encoding of field `restriction` and of every field written after it.
    pub open spec fn encoded_from_restriction(self) -> Seq<u8>
        decreases self, 5int,
    {
        length_delimited_list_bytes(14, RestrictionModel::encodings(self.restriction)) + self.encoded_from_related()
    }

    /// The encoding of field `related` and of every field written after it.
    pub open spec fn encoded_from_related(self) -> Seq<u8>
        decreases self, 4int,
    {
        AlbumModel::list_bytes(15, self.related) + self.encoded_from_sale_period()
    }

    /// The encoding of field `sale_period` and of every field written after it.
    pub open spec fn encoded_from_sale_period(self) -> Seq<u8>
        decreases self, 3int,
    {
        length_delimited_list_bytes(16, SalePeriodModel::encodings(self.sale_period)) + self.encoded_from_cover_group()
    }

    /// The encoding of field `cover_group` and of every field written after it.
    pub open spec fn encoded_from_cover_group(self) -> Seq<u8>
        decreases self, 2int,
    {
        opt_length_delimited_field_bytes(17, match self.cover_group { Some(m) => Some(m.to_bytes()), None => None }) + self.encoded_from_unknown_fields()
    }

    /// The encoding of the fields of unknown numbers, written last.
    pub open spec fn encoded_from_unknown_fields(self) -> Seq<u8> {
        unknown_list_bytes(self.unknown_fields)
    }

    /// The encoding of the message: its set fields in order of declaration,
    /// each element of a repeated field in order, then the unknown fields.
    #[verifier::opaque]
    pub open spec fn to_bytes(self) -> Seq<u8>
        decreases self, 19int,
    {
        self.encoded_from_gid()
    }

    /// A model that can be written and read back: every length fits the
    /// 32-bit length prefix, nested messages can be written, and the unknown
    /// fields have valid numbers that this message does not know.
    #[verifier::opaque]
    pub open spec fn wf(self) -> bool
        decreases self, 1int,
    {
        &&& (self.gid matches Some(b) ==> fits_u32(b))
        &&& (self.name matches Some(c) ==> fits_u32(encode_utf8(c)))
        &&& ArtistModel::writable_list(self.artist)
        &&& (self.label matches Some(c) ==> fits_u32(encode_utf8(c)))
        &&& (self.date matches Some(m) ==> m.wf() && fits_u32(m.to_bytes()))
        &&& crate::wire::all_fit_u32(utf8_encodings(self.genre))
        &&& ImageModel::all_writable(self.cover)
        &&& ExternalIdModel::all_writable(self.external_id)
        &&& DiscModel::writable_list(self.disc)
        &&& crate::wire::all_fit_u32(utf8_encodings(self.review))
        &&& CopyrightModel::all_writable(self.copyright)
        &&& RestrictionModel::all_writable(self.restriction)
        &&& AlbumModel::writable_list(self.related)
        &&& SalePeriodModel::all_writable(self.sale_period)
        &&& (self.cover_group matches Some(m) ==> m.wf() && fits_u32(m.to_bytes()))
        &&& (forall|i: int| 0 <= i < self.unknown_fields.len() ==> unknown_field_wf(#[trigger] self.unknown_fields[i]) && !Self::is_known_field(self.unknown_fields[i].number))
        &&& unknown_grouped(self.unknown_fields)
    }

    /// The message with no field set can be written and read back.
    #[verifier::spinoff_prover]
    pub proof fn lemma_empty_wf()
        ensures
            Self::empty().wf(),
    {
        reveal_with_fuel(AlbumModel::wf, 1);
        lemma_grouped_empty();
    }

    /// Merging a field's tag and value, whatever follows them.
    #[verifier::spinoff_prover]
    pub proof fn lemma_merge_step(acc: Self, f: u32, wt: u32, t: Seq<u8>, b: Seq<u8>, rest: Seq<u8>, acc2: Self, lim: nat)
        requires
            tag_parse(t + (b + rest)) == Some((f, wt, t.len())),
            t.len() > 0,
            acc.merge_field(f, wt, b + rest, lim) == Some((acc2, b.len())),
        ensures
            acc.merge(t + (b + rest), lim) == acc2.merge(rest, lim),
    {
        reveal_with_fuel(AlbumModel::merge, 1);
        lemma_skip_chunk(t, b, rest);
    }

    /// Merging the encoding of field `gid` sets it, whatever follows.
    #[verifier::spinoff_prover]
    pub proof fn lemma_merge_gid(acc: Self, v: Option<Seq<u8>>, rest: Seq<u8>, lim: nat)
        requires
            (v matches Some(b) ==> fits_u32(b)),
        ensures
            acc.merge(opt_length_delimited_field_bytes(1, v) + rest, lim) == (AlbumModel { gid: if v is Some { v } else { acc.gid }, ..acc }).merge(rest, lim),
    {
        match v {
            None => {
                assert(opt_length_delimited_field_bytes(1, v) + rest =~= rest);
                assert((AlbumModel { gid: acc.gid, ..acc }) == acc);
            },
            Some(x) => {
                let t = tag_bytes(1, WIRE_LENGTH_DELIMITED);
                let b = bytes_value_bytes(x);
                assert(opt_length_delimited_field_bytes(1, v) + rest =~= t + (b + rest));
                lemma_tag_roundtrip(1, WIRE_LENGTH_DELIMITED, b + rest);
                lemma_bytes_roundtrip(x, rest);
                Self::lemma_merge_step(acc, 1, WIRE_LENGTH_DELIMITED, t, b, rest, AlbumModel { gid: v, ..acc }, lim);
            },
        }
    }

    /// Merging the encoding of field `name` sets it, whatever follows.
    #[verifier::spinoff_prover]
    pub proof fn lemma_merge_name(acc: Self, v: Option<Seq<char>>, rest: Seq<u8>, lim: nat)
        requires
            (v matches Some(c) ==> fits_u32(encode_utf8(c))),
        ensures
            acc.merge(opt_length_delimited_field_bytes(2, match v { Some(c) => Some(encode_utf8(c)), None => None }) + rest, lim) == (AlbumModel { name: if v is Some { v } else { acc.name }, ..acc }).merge(rest, lim),
    {
        match v {
            None => {
                assert(opt_length_delimited_field_bytes(2, match v { Some(c) => Some(encode_utf8(c)), None => None }) + rest =~= rest);
                assert((AlbumModel { name: acc.name, ..acc }) == acc);
            },
            Some(x) => {
                let t = tag_bytes(2, WIRE_LENGTH_DELIMITED);
                let b = bytes_value_bytes(encode_utf8(x));
                assert(opt_length_delimited_field_bytes(2, match v { Some(c) => Some(encode_utf8(c)), None => None }) + rest =~= t + (b + rest));
                lemma_tag_roundtrip(2, WIRE_LENGTH_DELIMITED, b + rest);
                lemma_string_roundtrip(x, rest);
                Self::lemma_merge_step(acc, 2, WIRE_LENGTH_DELIMITED, t, b, rest, AlbumModel { name: v, ..acc }, lim);
            },
        }
    }

    /// Merging the encoding of the elements of field `artist` appends them, whatever follows.
    #[verifier::spinoff_prover]
    #[verifier::rlimit(100)]
    pub proof fn lemma_merge_artist(acc: Self, v: Seq<ArtistModel>, rest: Seq<u8>, lim: nat)
        requires
            ArtistModel::writable_list(v),
        ensures
            acc.merge(ArtistModel::list_bytes(3, v) + rest, lim) == (AlbumModel { artist: acc.artist + v, ..acc }).merge(rest, lim),
        decreases v, 0int,
    {
        ArtistModel::lemma_list_bytes(3, v);
        ArtistModel::lemma_writable_list(v);
        reveal_with_fuel(ArtistModel::merge, 1);
        let w = ArtistModel::encodings(v);
        if v.len() == 0 {
            assert(length_delimited_list_bytes(3, w) + rest =~= rest);
            assert(acc.artist + v =~= acc.artist);
            assert((AlbumModel { artist: acc.artist + v, ..acc }) == acc);
        } else {
            lemma_length_delimited_list_cons(3, w);
            assert(v[0].wf() && fits_u32(v[0].to_bytes()));
            let t = tag_bytes(3, WIRE_LENGTH_DELIMITED);
            let b = bytes_value_bytes(w[0]);
            let tail = length_delimited_list_bytes(3, w.subrange(1, w.len() as int));
            assert(length_delimited_list_bytes(3, w) + rest =~= t + (b + (tail + rest)));
            lemma_tag_roundtrip(3, WIRE_LENGTH_DELIMITED, b + (tail + rest));
            lemma_message_window(v[0].to_bytes(), tail + rest);
            lemma_embedded_window(v[0].to_bytes(), tail + rest, lim);
            v[0].lemma_roundtrip(0);
            lemma_varint_parse_len(b + (tail + rest));
            let acc1 = AlbumModel { artist: acc.artist.push(v[0]), ..acc };
            Self::lemma_merge_step(acc, 3, WIRE_LENGTH_DELIMITED, t, b, tail + rest, acc1, lim);
            assert(w.subrange(1, w.len() as int) =~= ArtistModel::encodings(v.subrange(1, v.len() as int)));
            assert forall|j: int| 0 <= j < v.len() - 1 implies #[trigger] v.subrange(1, v.len() as int)[j].wf() && fits_u32(v.subrange(1, v.len() as int)[j].to_bytes()) by {
                assert(v.subrange(1, v.len() as int)[j] == v[j + 1]);
            }
            Self::lemma_merge_artist(acc1, v.subrange(1, v.len() as int), rest, lim);
            ArtistModel::lemma_list_bytes(3, v.subrange(1, v.len() as int));
            assert(acc1.artist + v.subrange(1, v.len() as int) =~= acc.artist + v);
        }
    }

    /// Merging the encoding of field `typ` sets it, whatever follows.
    #[verifier::spinoff_prover]
    pub proof fn lemma_merge_typ(acc: Self, v: Option<Album_Type>, rest: Seq<u8>, lim: nat)
        ensures
            acc.merge(opt_varint_field_bytes(4, match v { Some(x) => Some(int32_varint(x.spec_value())), None => None }) + rest, lim) == (AlbumModel { typ: if v is Some { v } else { acc.typ }, ..acc }).merge(rest, lim),
    {
        match v {
            None => {
                assert(opt_varint_field_bytes(4, match v { Some(x) => Some(int32_varint(x.spec_value())), None => None }) + rest =~= rest);
                assert((AlbumModel { typ: acc.typ, ..acc }) == acc);
            },
            Some(x) => {
                let t = tag_bytes(4, WIRE_VARINT);
                let b = varint_bytes(int32_varint(x.spec_value()));
                assert(opt_varint_field_bytes(4, match v { Some(x) => Some(int32_varint(x.spec_value())), None => None }) + rest =~= t + (b + rest));
                lemma_tag_roundtrip(4, WIRE_VARINT, b + rest);
                lemma_varint_roundtrip(int32_varint(x.spec_value()), rest);
                    lemma_varint_casts(x.spec_value(), 0, 0, false, 0);
                    x.lemma_value_roundtrip();
                Self::lemma_merge_step(acc, 4, WIRE_VARINT, t, b, rest, AlbumModel { typ: v, ..acc }, lim);
            },
        }
    }

    /// Merging the encoding of field `label` sets it, whatever follows.
    #[verifier::spinoff_prover]
    pub proof fn lemma_merge_label(acc: Self, v: Option<Seq<char>>, rest: Seq<u8>, lim: nat)
        requires
            (v matches Some(c) ==> fits_u32(encode_utf8(c))),
        ensures
            acc.merge(opt_length_delimited_field_bytes(5, match v { Some(c) => Some(encode_utf8(c)), None => None }) + rest, lim) == (AlbumModel { label: if v is Some { v } else { acc.label }, ..acc }).merge(rest, lim),
    {
        match v {
            None => {
                assert(opt_length_delimited_field_bytes(5, match v { Some(c) => Some(encode_utf8(c)), None => None }) + rest =~= rest);
                assert((AlbumModel { label: acc.label, ..acc }) == acc);
            },
            Some(x) => {
                let t = tag_bytes(5, WIRE_LENGTH_DELIMITED);
                let b = bytes_value_bytes(encode_utf8(x));
                assert(opt_length_delimited_field_bytes(5, match v { Some(c) => Some(encode_utf8(c)), None => None }) + rest =~= t + (b + rest));
                lemma_tag_roundtrip(5, WIRE_LENGTH_DELIMITED, b + rest);
                lemma_string_roundtrip(x, rest);
                Self::lemma_merge_step(acc, 5, WIRE_LENGTH_DELIMITED, t, b, rest, AlbumModel { label: v, ..acc }, lim);
            },
        }
    }

    /// Merging the encoding of field `date` sets it, whatever follows.
    #[verifier::spinoff_prover]
    pub proof fn lemma_merge_date(acc: Self, v: Option<DateModel>, rest: Seq<u8>, lim: nat)
        requires
            (v matches Some(m) ==> m.wf() && fits_u32(m.to_bytes())),
        ensures
            acc.merge(opt_length_delimited_field_bytes(6, match v { Some(m) => Some(m.to_bytes()), None => None }) + rest, lim) == (AlbumModel { date: if v is Some { v } else { acc.date }, ..acc }).merge(rest, lim),
    {
        match v {
            None => {
                assert(opt_length_delimited_field_bytes(6, match v { Some(m) => Some(m.to_bytes()), None => None }) + rest =~= rest);
                assert((AlbumModel { date: acc.date, ..acc }) == acc);
            },
            Some(x) => {
                let t = tag_bytes(6, WIRE_LENGTH_DELIMITED);
                let b = bytes_value_bytes(x.to_bytes());
                assert(opt_length_delimited_field_bytes(6, match v { Some(m) => Some(m.to_bytes()), None => None }) + rest =~= t + (b + rest));
                lemma_tag_roundtrip(6, WIRE_LENGTH_DELIMITED, b + rest);
                lemma_message_window(x.to_bytes(), rest);
                    lemma_embedded_window(x.to_bytes(), rest, lim);
                    x.lemma_roundtrip(0);
                    lemma_varint_parse_len(bytes_value_bytes(x.to_bytes()) + rest);
                Self::lemma_merge_step(acc, 6, WIRE_LENGTH_DELIMITED, t, b, rest, AlbumModel { date: v, ..acc }, lim);
            },
        }
    }

    /// Merging the encoding of field `popularity` sets it, whatever follows.
    #[verifier::spinoff_prover]
    pub proof fn lemma_merge_popularity(acc: Self, v: Option<i32>, rest: Seq<u8>, lim: nat)
        ensures
            acc.merge(opt_varint_field_bytes(7, match v { Some(x) => Some(zigzag_encode32(x) as u64), None => None }) + rest, lim) == (AlbumModel { popularity: if v is Some { v } else { acc.popularity }, ..acc }).merge(rest, lim),
    {
        match v {
            None => {
                assert(opt_varint_field_bytes(7, match v { Some(x) => Some(zigzag_encode32(x) as u64), None => None }) + rest =~= rest);
                assert((AlbumModel { popularity: acc.popularity, ..acc }) == acc);
            },
            Some(x) => {
                let t = tag_bytes(7, WIRE_VARINT);
                let b = varint_bytes(zigzag_encode32(x) as u64);
                assert(opt_varint_field_bytes(7, match v { Some(x) => Some(zigzag_encode32(x) as u64), None => None }) + rest =~= t + (b + rest));
                lemma_tag_roundtrip(7, WIRE_VARINT, b + rest);
                lemma_varint_roundtrip(zigzag_encode32(x) as u64, rest);
                    lemma_varint_casts(0, 0, 0, false, x);
                    crate::wire::lemma_zigzag_roundtrip(x);
                Self::lemma_merge_step(acc, 7, WIRE_VARINT, t, b, rest, AlbumModel { popularity: v, ..acc }, lim);
            },
        }
    }

    /// Merging the encoding of the elements of field `genre` appends them, whatever follows.
    #[verifier::spinoff_prover]
    #[verifier::rlimit(50)]
    pub proof fn lemma_merge_genre(acc: Self, v: Seq<Seq<char>>, rest: Seq<u8>, lim: nat)
        requires
            crate::wire::all_fit_u32(utf8_encodings(v)),
        ensures
            acc.merge(length_delimited_list_bytes(8, utf8_encodings(v)) + rest, lim) == (AlbumModel { genre: acc.genre + v, ..acc }).merge(rest, lim),
        decreases v.len(),
    {
        let w = utf8_encodings(v);
        if v.len() == 0 {
            assert(length_delimited_list_bytes(8, w) + rest =~= rest);
            assert(acc.genre + v =~= acc.genre);
            assert((AlbumModel { genre: acc.genre + v, ..acc }) == acc);
        } else {
            lemma_length_delimited_list_cons(8, w);
            assert(fits_u32(w[0]));
            let t = tag_bytes(8, WIRE_LENGTH_DELIMITED);
            let b = bytes_value_bytes(w[0]);
            let tail = length_delimited_list_bytes(8, w.subrange(1, w.len() as int));
            assert(length_delimited_list_bytes(8, w) + rest =~= t + (b + (tail + rest)));
            lemma_tag_roundtrip(8, WIRE_LENGTH_DELIMITED, b + (tail + rest));
            lemma_string_roundtrip(v[0], tail + rest);
            let acc1 = AlbumModel { genre: acc.genre.push(v[0]), ..acc };
            Self::lemma_merge_step(acc, 8, WIRE_LENGTH_DELIMITED, t, b, tail + rest, acc1, lim);
            assert(w.subrange(1, w.len() as int) =~= utf8_encodings(v.subrange(1, v.len() as int)));
            assert forall|j: int| 0 <= j < w.len() - 1 implies fits_u32(#[trigger] w.subrange(1, w.len() as int)[j]) by {
                assert(w.subrange(1, w.len() as int)[j] == w[j + 1]);
            }
            Self::lemma_merge_genre(acc1, v.subrange(1, v.len() as int), rest, lim);
            assert(acc1.genre + v.subrange(1, v.len() as int) =~= acc.genre + v);
        }
    }

    /// Merging the encoding of the elements of field `cover` appends them, whatever follows.
    #[verifier::spinoff_prover]
    #[verifier::rlimit(50)]
    pub proof fn lemma_merge_cover(acc: Self, v: Seq<ImageModel>, rest: Seq<u8>, lim: nat)
        requires
            ImageModel::all_writable(v),
        ensures
            acc.merge(length_delimited_list_bytes(9, ImageModel::encodings(v)) + rest, lim) == (AlbumModel { cover: acc.cover + v, ..acc }).merge(rest, lim),
        decreases v.len(),
    {
        let w = ImageModel::encodings(v);
        if v.len() == 0 {
            assert(length_delimited_list_bytes(9, w) + rest =~= rest);
            assert(acc.cover + v =~= acc.cover);
            assert((AlbumModel { cover: acc.cover + v, ..acc }) == acc);
        } else {
            lemma_length_delimited_list_cons(9, w);
            assert(v[0].wf() && fits_u32(v[0].to_bytes()));
            let t = tag_bytes(9, WIRE_LENGTH_DELIMITED);
            let b = bytes_value_bytes(w[0]);
            let tail = length_delimited_list_bytes(9, w.subrange(1, w.len() as int));
            assert(length_delimited_list_bytes(9, w) + rest =~= t + (b + (tail + rest)));
            lemma_tag_roundtrip(9, WIRE_LENGTH_DELIMITED, b + (tail + rest));
            lemma_message_window(v[0].to_bytes(), tail + rest);
            lemma_embedded_window(v[0].to_bytes(), tail + rest, lim);
            v[0].lemma_roundtrip(0);
            lemma_varint_parse_len(b + (tail + rest));
            let acc1 = AlbumModel { cover: acc.cover.push(v[0]), ..acc };
            Self::lemma_merge_step(acc, 9, WIRE_LENGTH_DELIMITED, t, b, tail + rest, acc1, lim);
            assert(w.subrange(1, w.len() as int) =~= ImageModel::encodings(v.subrange(1, v.len() as int)));
            assert forall|j: int| 0 <= j < v.len() - 1 implies #[trigger] v.subrange(1, v.len() as int)[j].wf() && fits_u32(v.subrange(1, v.len() as int)[j].to_bytes()) by {
                assert(v.subrange(1, v.len() as int)[j] == v[j + 1]);
            }
            Self::lemma_merge_cover(acc1, v.subrange(1, v.len() as int), rest, lim);
            assert(acc1.cover + v.subrange(1, v.len() as int) =~= acc.cover + v);
        }
    }

    /// Merging the encoding of the elements of field `external_id` appends them, whatever follows.
    #[verifier::spinoff_prover]
    #[verifier::rlimit(50)]
    pub proof fn lemma_merge_external_id(acc: Self, v: Seq<ExternalIdModel>, rest: Seq<u8>, lim: nat)
        requires
            ExternalIdModel::all_writable(v),
        ensures
            acc.merge(length_delimited_list_bytes(10, ExternalIdModel::encodings(v)) + rest, lim) == (AlbumModel { external_id: acc.external_id + v, ..acc }).merge(rest, lim),
        decreases v.len(),
    {
        let w = ExternalIdModel::encodings(v);
        if v.len() == 0 {
            assert(length_delimited_list_bytes(10, w) + rest =~= rest);
            assert(acc.external_id + v =~= acc.external_id);
            assert((AlbumModel { external_id: acc.external_id + v, ..acc }) == acc);
        } else {
            lemma_length_delimited_list_cons(10, w);
            assert(v[0].wf() && fits_u32(v[0].to_bytes()));
            let t = tag_bytes(10, WIRE_LENGTH_DELIMITED);
            let b = bytes_value_bytes(w[0]);
            let tail = length_delimited_list_bytes(10, w.subrange(1, w.len() as int));
            assert(length_delimited_list_bytes(10, w) + rest =~= t + (b + (tail + rest)));
            lemma_tag_roundtrip(10, WIRE_LENGTH_DELIMITED, b + (tail + rest));
            lemma_message_window(v[0].to_bytes(), tail + rest);
            lemma_embedded_window(v[0].to_bytes(), tail + rest, lim);
            v[0].lemma_roundtrip(0);
            lemma_varint_parse_len(b + (tail + rest));
            let acc1 = AlbumModel { external_id: acc.external_id.push(v[0]), ..acc };
            Self::lemma_merge_step(acc, 10, WIRE_LENGTH_DELIMITED, t, b, tail + rest, acc1, lim);
            assert(w.subrange(1, w.len() as int) =~= ExternalIdModel::encodings(v.subrange(1, v.len() as int)));
            assert forall|j: int| 0 <= j < v.len() - 1 implies #[trigger] v.subrange(1, v.len() as int)[j].wf() && fits_u32(v.subrange(1, v.len() as int)[j].to_bytes()) by {
                assert(v.subrange(1, v.len() as int)[j] == v[j + 1]);
            }
            Self::lemma_merge_external_id(acc1, v.subrange(1, v.len() as int), rest, lim);
            assert(acc1.external_id + v.subrange(1, v.len() as int) =~= acc.external_id + v);
        }
    }

    /// Merging the encoding of the elements of field `disc` appends them, whatever follows.
    #[verifier::spinoff_prover]
    #[verifier::rlimit(100)]
    pub proof fn lemma_merge_disc(acc: Self, v: Seq<DiscModel>, rest: Seq<u8>, lim: nat)
        requires
            DiscModel::writable_list(v),
        ensures
            acc.merge(DiscModel::list_bytes(11, v) + rest, lim) == (AlbumModel { disc: acc.disc + v, ..acc }).merge(rest, lim),
        decreases v, 0int,
    {
        DiscModel::lemma_list_bytes(11, v);
        DiscModel::lemma_writable_list(v);
        reveal_with_fuel(DiscModel::merge, 1);
        let w = DiscModel::encodings(v);
        if v.len() == 0 {
            assert(length_delimited_list_bytes(11, w) + rest =~= rest);
            assert(acc.disc + v =~= acc.disc);
            assert((AlbumModel { disc: acc.disc + v, ..acc }) == acc);
        } else {
            lemma_length_delimited_list_cons(11, w);
            assert(v[0].wf() && fits_u32(v[0].to_bytes()));
            let t = tag_bytes(11, WIRE_LENGTH_DELIMITED);
            let b = bytes_value_bytes(w[0]);
            let tail = length_delimited_list_bytes(11, w.subrange(1, w.len() as int));
            assert(length_delimited_list_bytes(11, w) + rest =~= t + (b + (tail + rest)));
            lemma_tag_roundtrip(11, WIRE_LENGTH_DELIMITED, b + (tail + rest));
            lemma_message_window(v[0].to_bytes(), tail + rest);
            lemma_embedded_window(v[0].to_bytes(), tail + rest, lim);
            v[0].lemma_roundtrip(0);
            lemma_varint_parse_len(b + (tail + rest));
            let acc1 = AlbumModel { disc: acc.disc.push(v[0]), ..acc };
            Self::lemma_merge_step(acc, 11, WIRE_LENGTH_DELIMITED, t, b, tail + rest, acc1, lim);
            assert(w.subrange(1, w.len() as int) =~= DiscModel::encodings(v.subrange(1, v.len() as int)));
            assert forall|j: int| 0 <= j < v.len() - 1 implies #[trigger] v.subrange(1, v.len() as int)[j].wf() && fits_u32(v.subrange(1, v.len() as int)[j].to_bytes()) by {
                assert(v.subrange(1, v.len() as int)[j] == v[j + 1]);
            }
            Self::lemma_merge_disc(acc1, v.subrange(1, v.len() as int), rest, lim);
            DiscModel::lemma_list_bytes(11, v.subrange(1, v.len() as int));
            assert(acc1.disc + v.subrange(1, v.len() as int) =~= acc.disc + v);
        }
    }

    /// Merging the encoding of the elements of field `review` appends them, whatever follows.
    #[verifier::spinoff_prover]
    #[verifier::rlimit(50)]
    pub proof fn lemma_merge_review(acc: Self, v: Seq<Seq<char>>, rest: Seq<u8>, lim: nat)
        requires
            crate::wire::all_fit_u32(utf8_encodings(v)),
        ensures
            acc.merge(length_delimited_list_bytes(12, utf8_encodings(v)) + rest, lim) == (AlbumModel { review: acc.review + v, ..acc }).merge(rest, lim),
        decreases v.len(),
    {
        let w = utf8_encodings(v);
        if v.len() == 0 {
            assert(length_delimited_list_bytes(12, w) + rest =~= rest);
            assert(acc.review + v =~= acc.review);
            assert((AlbumModel { review: acc.review + v, ..acc }) == acc);
        } else {
            lemma_length_delimited_list_cons(12, w);
            assert(fits_u32(w[0]));
            let t = tag_bytes(12, WIRE_LENGTH_DELIMITED);
            let b = bytes_value_bytes(w[0]);
            let tail = length_delimited_list_bytes(12, w.subrange(1, w.len() as int));
            assert(length_delimited_list_bytes(12, w) + rest =~= t + (b + (tail + rest)));
            lemma_tag_roundtrip(12, WIRE_LENGTH_DELIMITED, b + (tail + rest));
            lemma_string_roundtrip(v[0], tail + rest);
            let acc1 = AlbumModel { review: acc.review.push(v[0]), ..acc };
            Self::lemma_merge_step(acc, 12, WIRE_LENGTH_DELIMITED, t, b, tail + rest, acc1, lim);
            assert(w.subrange(1, w.len() as int) =~= utf8_encodings(v.subrange(1, v.len() as int)));
            assert forall|j: int| 0 <= j < w.len() - 1 implies fits_u32(#[trigger] w.subrange(1, w.len() as int)[j]) by {
                assert(w.subrange(1, w.len() as int)[j] == w[j + 1]);
            }
            Self::lemma_merge_review(acc1, v.subrange(1, v.len() as int), rest, lim);
            assert(acc1.review + v.subrange(1, v.len() as int) =~= acc.review + v);
        }
    }

    /// Merging the encoding of the elements of field `copyright` appends them, whatever follows.
    #[verifier::spinoff_prover]
    #[verifier::rlimit(50)]
    pub proof fn lemma_merge_copyright(acc: Self, v: Seq<CopyrightModel>, rest: Seq<u8>, lim: nat)
        requires
            CopyrightModel::all_writable(v),
        ensures
            acc.merge(length_delimited_list_bytes(13, CopyrightModel::encodings(v)) + rest, lim) == (AlbumModel { copyright: acc.copyright + v, ..acc }).merge(rest, lim),
        decreases v.len(),
    {
        let w = CopyrightModel::encodings(v);
        if v.len() == 0 {
            assert(length_delimited_list_bytes(13, w) + rest =~= rest);
            assert(acc.copyright + v =~= acc.copyright);
            assert((AlbumModel { copyright: acc.copyright + v, ..acc }) == acc);
        } else {
            lemma_length_delimited_list_cons(13, w);
            assert(v[0].wf() && fits_u32(v[0].to_bytes()));
            let t = tag_bytes(13, WIRE_LENGTH_DELIMITED);
            let b = bytes_value_bytes(w[0]);
            let tail = length_delimited_list_bytes(13, w.subrange(1, w.len() as int));
            assert(length_delimited_list_bytes(13, w) + rest =~= t + (b + (tail + rest)));
            lemma_tag_roundtrip(13, WIRE_LENGTH_DELIMITED, b + (tail + rest));
            lemma_message_window(v[0].to_bytes(), tail + rest);
            lemma_embedded_window(v[0].to_bytes(), tail + rest, lim);
            v[0].lemma_roundtrip(0);
            lemma_varint_parse_len(b + (tail + rest));
            let acc1 = AlbumModel { copyright: acc.copyright.push(v[0]), ..acc };
            Self::lemma_merge_step(acc, 13, WIRE_LENGTH_DELIMITED, t, b, tail + rest, acc1, lim);
            assert(w.subrange(1, w.len() as int) =~= CopyrightModel::encodings(v.subrange(1, v.len() as int)));
            assert forall|j: int| 0 <= j < v.len() - 1 implies #[trigger] v.subrange(1, v.len() as int)[j].wf() && fits_u32(v.subrange(1, v.len() as int)[j].to_bytes()) by {
                assert(v.subrange(1, v.len() as int)[j] == v[j + 1]);
            }
            Self::lemma_merge_copyright(acc1, v.subrange(1, v.len() as int), rest, lim);
            assert(acc1.copyright + v.subrange(1, v.len() as int) =~= acc.copyright + v);
        }
    }

    /// Merging the encoding of the elements of field `restriction` appends them, whatever follows.
    #[verifier::spinoff_prover]
    #[verifier::rlimit(50)]
    pub proof fn lemma_merge_restriction(acc: Self, v: Seq<RestrictionModel>, rest: Seq<u8>, lim: nat)
        requires
            RestrictionModel::all_writable(v),
        ensures
            acc.merge(length_delimited_list_bytes(14, RestrictionModel::encodings(v)) + rest, lim) == (AlbumModel { restriction: acc.restriction + v, ..acc }).merge(rest, lim),
        decreases v.len(),
    {
        let w = RestrictionModel::encodings(v);
        if v.len() == 0 {
            assert(length_delimited_list_bytes(14, w) + rest =~= rest);
            assert(acc.restriction + v =~= acc.restriction);
            assert((AlbumModel { restriction: acc.restriction + v, ..acc }) == acc);
        } else {
            lemma_length_delimited_list_cons(14, w);
            assert(v[0].wf() && fits_u32(v[0].to_bytes()));
            let t = tag_bytes(14, WIRE_LENGTH_DELIMITED);
            let b = bytes_value_bytes(w[0]);
            let tail = length_delimited_list_bytes(14, w.subrange(1, w.len() as int));
            assert(length_delimited_list_bytes(14, w) + rest =~= t + (b + (tail + rest)));
            lemma_tag_roundtrip(14, WIRE_LENGTH_DELIMITED, b + (tail + rest));
            lemma_message_window(v[0].to_bytes(), tail + rest);
            lemma_embedded_window(v[0].to_bytes(), tail + rest, lim);
            v[0].lemma_roundtrip(0);
            lemma_varint_parse_len(b + (tail + rest));
            let acc1 = AlbumModel { restriction: acc.restriction.push(v[0]), ..acc };
            Self::lemma_merge_step(acc, 14, WIRE_LENGTH_DELIMITED, t, b, tail + rest, acc1, lim);
            assert(w.subrange(1, w.len() as int) =~= RestrictionModel::encodings(v.subrange(1, v.len() as int)));
            assert forall|j: int| 0 <= j < v.len() - 1 implies #[trigger] v.subrange(1, v.len() as int)[j].wf() && fits_u32(v.subrange(1, v.len() as int)[j].to_bytes()) by {
                assert(v.subrange(1, v.len() as int)[j] == v[j + 1]);
            }
            Self::lemma_merge_restriction(acc1, v.subrange(1, v.len() as int), rest, lim);
            assert(acc1.restriction + v.subrange(1, v.len() as int) =~= acc.restriction + v);
        }
    }

    /// Merging the encoding of the elements of field `related` appends them, whatever follows.
    #[verifier::spinoff_prover]
    #[verifier::rlimit(100)]
    pub proof fn lemma_merge_related(acc: Self, v: Seq<AlbumModel>, rest: Seq<u8>, lim: nat)
        requires
            AlbumModel::writable_list(v),
        ensures
            acc.merge(AlbumModel::list_bytes(15, v) + rest, lim) == (AlbumModel { related: acc.related + v, ..acc }).merge(rest, lim),
        decreases v, 0int,
    {
        AlbumModel::lemma_list_bytes(15, v);
        AlbumModel::lemma_writable_list(v);
        reveal_with_fuel(AlbumModel::merge, 1);
        let w = AlbumModel::encodings(v);
        if v.len() == 0 {
            assert(length_delimited_list_bytes(15, w) + rest =~= rest);
            assert(acc.related + v =~= acc.related);
            assert((AlbumModel { related: acc.related + v, ..acc }) == acc);
        } else {
            lemma_length_delimited_list_cons(15, w);
            assert(v[0].wf() && fits_u32(v[0].to_bytes()));
            let t = tag_bytes(15, WIRE_LENGTH_DELIMITED);
            let b = bytes_value_bytes(w[0]);
            let tail = length_delimited_list_bytes(15, w.subrange(1, w.len() as int));
            assert(length_delimited_list_bytes(15, w) + rest =~= t + (b + (tail + rest)));
            lemma_tag_roundtrip(15, WIRE_LENGTH_DELIMITED, b + (tail + rest));
            lemma_message_window(v[0].to_bytes(), tail + rest);
            lemma_embedded_window(v[0].to_bytes(), tail + rest, lim);
            v[0].lemma_roundtrip(0);
            lemma_varint_parse_len(b + (tail + rest));
            let acc1 = AlbumModel { related: acc.related.push(v[0]), ..acc };
            Self::lemma_merge_step(acc, 15, WIRE_LENGTH_DELIMITED, t, b, tail + rest, acc1, lim);
            assert(w.subrange(1, w.len() as int) =~= AlbumModel::encodings(v.subrange(1, v.len() as int)));
            assert forall|j: int| 0 <= j < v.len() - 1 implies #[trigger] v.subrange(1, v.len() as int)[j].wf() && fits_u32(v.subrange(1, v.len() as int)[j].to_bytes()) by {
                assert(v.subrange(1, v.len() as int)[j] == v[j + 1]);
            }
            Self::lemma_merge_related(acc1, v.subrange(1, v.len() as int), rest, lim);
            AlbumModel::lemma_list_bytes(15, v.subrange(1, v.len() as int));
            assert(acc1.related + v.subrange(1, v.len() as int) =~= acc.related + v);
        }
    }

    /// Merging the encoding of the elements of field `sale_period` appends them, whatever follows.
    #[verifier::spinoff_prover]
    #[verifier::rlimit(50)]
    pub proof fn lemma_merge_sale_period(acc: Self, v: Seq<SalePeriodModel>, rest: Seq<u8>, lim: nat)
        requires
            SalePeriodModel::all_writable(v),
        ensures
            acc.merge(length_delimited_list_bytes(16, SalePeriodModel::encodings(v)) + rest, lim) == (AlbumModel { sale_period: acc.sale_period + v, ..acc }).merge(rest, lim),
        decreases v.len(),
    {
        let w = SalePeriodModel::encodings(v);
        if v.len() == 0 {
            assert(length_delimited_list_bytes(16, w) + rest =~= rest);
            assert(acc.sale_period + v =~= acc.sale_period);
            assert((AlbumModel { sale_period: acc.sale_period + v, ..acc }) == acc);
        } else {
            lemma_length_delimited_list_cons(16, w);
            assert(v[0].wf() && fits_u32(v[0].to_bytes()));
            let t = tag_bytes(16, WIRE_LENGTH_DELIMITED);
            let b = bytes_value_bytes(w[0]);
            let tail = length_delimited_list_bytes(16, w.subrange(1, w.len() as int));
            assert(length_delimited_list_bytes(16, w) + rest =~= t + (b + (tail + rest)));
            lemma_tag_roundtrip(16, WIRE_LENGTH_DELIMITED, b + (tail + rest));
            lemma_message_window(v[0].to_bytes(), tail + rest);
            lemma_embedded_window(v[0].to_bytes(), tail + rest, lim);
            v[0].lemma_roundtrip(0);
            lemma_varint_parse_len(b + (tail + rest));
            let acc1 = AlbumModel { sale_period: acc.sale_period.push(v[0]), ..acc };
            Self::lemma_merge_step(acc, 16, WIRE_LENGTH_DELIMITED, t, b, tail + rest, acc1, lim);
            assert(w.subrange(1, w.len() as int) =~= SalePeriodModel::encodings(v.subrange(1, v.len() as int)));
            assert forall|j: int| 0 <= j < v.len() - 1 implies #[trigger] v.subrange(1, v.len() as int)[j].wf() && fits_u32(v.subrange(1, v.len() as int)[j].to_bytes()) by {
                assert(v.subrange(1, v.len() as int)[j] == v[j + 1]);
            }
            Self::lemma_merge_sale_period(acc1, v.subrange(1, v.len() as int), rest, lim);
            assert(acc1.sale_period + v.subrange(1, v.len() as int) =~= acc.sale_period + v);
        }
    }

    /// Merging the encoding of field `cover_group` sets it, whatever follows.
    #[verifier::spinoff_prover]
    pub proof fn lemma_merge_cover_group(acc: Self, v: Option<ImageGroupModel>, rest: Seq<u8>, lim: nat)
        requires
            (v matches Some(m) ==> m.wf() && fits_u32(m.to_bytes())),
        ensures
            acc.merge(opt_length_delimited_field_bytes(17, match v { Some(m) => Some(m.to_bytes()), None => None }) + rest, lim) == (AlbumModel { cover_group: if v is Some { v } else { acc.cover_group }, ..acc }).merge(rest, lim),
    {
        match v {
            None => {
                assert(opt_length_delimited_field_bytes(17, match v { Some(m) => Some(m.to_bytes()), None => None }) + rest =~= rest);
                assert((AlbumModel { cover_group: acc.cover_group, ..acc }) == acc);
            },
            Some(x) => {
                let t = tag_bytes(17, WIRE_LENGTH_DELIMITED);
                let b = bytes_value_bytes(x.to_bytes());
                assert(opt_length_delimited_field_bytes(17, match v { Some(m) => Some(m.to_bytes()), None => None }) + rest =~= t + (b + rest));
                lemma_tag_roundtrip(17, WIRE_LENGTH_DELIMITED, b + rest);
                lemma_message_window(x.to_bytes(), rest);
                    lemma_embedded_window(x.to_bytes(), rest, lim);
                    x.lemma_roundtrip(0);
                    lemma_varint_parse_len(bytes_value_bytes(x.to_bytes()) + rest);
                Self::lemma_merge_step(acc, 17, WIRE_LENGTH_DELIMITED, t, b, rest, AlbumModel { cover_group: v, ..acc }, lim);
            },
        }
    }

    /// Merging the encoding of fields of unknown numbers keeps them, whatever follows.
    #[verifier::spinoff_prover]
    #[verifier::rlimit(50)]
    pub proof fn lemma_merge_unknown_fields(acc: Self, v: Seq<UnknownFieldModel>, rest: Seq<u8>, lim: nat)
        requires
            forall|i: int| 0 <= i < v.len() ==> unknown_field_wf(#[trigger] v[i]) && !Self::is_known_field(v[i].number),
            unknown_grouped(acc.unknown_fields + v),
        ensures
            acc.merge(unknown_list_bytes(v) + rest, lim) == (AlbumModel { unknown_fields: acc.unknown_fields + v, ..acc }).merge(rest, lim),
        decreases v.len(),
    {
        if v.len() == 0 {
            assert(unknown_list_bytes(v) + rest =~= rest);
            assert(acc.unknown_fields + v =~= acc.unknown_fields);
            assert((AlbumModel { unknown_fields: acc.unknown_fields + v, ..acc }) == acc);
        } else {
            lemma_unknown_list_cons(v);
            let u = v[0];
            let wt = crate::wire::unknown_wire_type(u.value);
            let t = tag_bytes(u.number, wt);
            let b = crate::wire::unknown_value_bytes(u.value);
            let tail = unknown_list_bytes(v.subrange(1, v.len() as int));
            assert(unknown_list_bytes(v) + rest =~= t + (b + (tail + rest)));
            assert(unknown_field_bytes(u) + (tail + rest) =~= t + (b + (tail + rest)));
            lemma_unknown_roundtrip(u, tail + rest);
            assert((t + (b + (tail + rest))).skip(t.len() as int) =~= b + (tail + rest));
            crate::wire::lemma_tag_roundtrip(u.number, wt, b + (tail + rest));
            let acc1 = AlbumModel { unknown_fields: acc.unknown_fields.push(u), ..acc };
            assert(acc.unknown_fields.push(u) =~= (acc.unknown_fields + v).take(acc.unknown_fields.len() + 1int));
            lemma_grouped_take(acc.unknown_fields + v, acc.unknown_fields.len() + 1int);
            lemma_grouped_insert_last(acc.unknown_fields, u);
            Self::lemma_merge_step(acc, u.number, wt, t, b, tail + rest, acc1, lim);
            assert(acc1.unknown_fields + v.subrange(1, v.len() as int) =~= acc.unknown_fields + v);
            Self::lemma_merge_unknown_fields(acc1, v.subrange(1, v.len() as int), rest, lim);
        }
    }

    /// Reading back the encoding of a model that can be written gives the model,
    /// whatever the limit past its end.
    #[verifier::spinoff_prover]
    #[verifier::rlimit(100)]
    pub proof fn lemma_roundtrip(self, lim: nat)
        requires
            self.wf(),
        ensures
            AlbumModel::empty().merge(self.to_bytes(), lim) == Some(self),
        decreases self, 1int,
    {
        reveal_with_fuel(AlbumModel::to_bytes, 1);
        reveal_with_fuel(AlbumModel::wf, 1);
        reveal_with_fuel(AlbumModel::merge, 1);
        let a0 = AlbumModel::empty();
        assert((self.gid matches Some(b) ==> fits_u32(b)));
        Self::lemma_merge_gid(a0, self.gid, self.encoded_from_name(), lim);
        let a1 = AlbumModel { gid: if self.gid is Some { self.gid } else { a0.gid }, ..a0 };
        assert((self.name matches Some(c) ==> fits_u32(encode_utf8(c))));
        Self::lemma_merge_name(a1, self.name, self.encoded_from_artist(), lim);
        let a2 = AlbumModel { name: if self.name is Some { self.name } else { a1.name }, ..a1 };
        assert(ArtistModel::writable_list(self.artist));
        Self::lemma_merge_artist(a2, self.artist, self.encoded_from_typ(), lim);
        let a3 = AlbumModel { artist: a2.artist + self.artist, ..a2 };
        Self::lemma_merge_typ(a3, self.typ, self.encoded_from_label(), lim);
        let a4 = AlbumModel { typ: if self.typ is Some { self.typ } else { a3.typ }, ..a3 };
        assert((self.label matches Some(c) ==> fits_u32(encode_utf8(c))));
        Self::lemma_merge_label(a4, self.label, self.encoded_from_date(), lim);
        let a5 = AlbumModel { label: if self.label is Some { self.label } else { a4.label }, ..a4 };
        assert((self.date matches Some(m) ==> m.wf() && fits_u32(m.to_bytes())));
        Self::lemma_merge_date(a5, self.date, self.encoded_from_popularity(), lim);
        let a6 = AlbumModel { date: if self.date is Some { self.date } else { a5.date }, ..a5 };
        Self::lemma_merge_popularity(a6, self.popularity, self.encoded_from_genre(), lim);
        let a7 = AlbumModel { popularity: if self.popularity is Some { self.popularity } else { a6.popularity }, ..a6 };
        assert(crate::wire::all_fit_u32(utf8_encodings(self.genre)));
        Self::lemma_merge_genre(a7, self.genre, self.encoded_from_cover(), lim);
        let a8 = AlbumModel { genre: a7.genre + self.genre, ..a7 };
        assert(ImageModel::all_writable(self.cover));
        Self::lemma_merge_cover(a8, self.cover, self.encoded_from_external_id(), lim);
        let a9 = AlbumModel { cover: a8.cover + self.cover, ..a8 };
        assert(ExternalIdModel::all_writable(self.external_id));
        Self::lemma_merge_external_id(a9, self.external_id, self.encoded_from_disc(), lim);
        let a10 = AlbumModel { external_id: a9.external_id + self.external_id, ..a9 };
        assert(DiscModel::writable_list(self.disc));
        Self::lemma_merge_disc(a10, self.disc, self.encoded_from_review(), lim);
        let a11 = AlbumModel { disc: a10.disc + self.disc, ..a10 };
        assert(crate::wire::all_fit_u32(utf8_encodings(self.review)));
        Self::lemma_merge_review(a11, self.review, self.encoded_from_copyright(), lim);
        let a12 = AlbumModel { review: a11.review + self.review, ..a11 };
        assert(CopyrightModel::all_writable(self.copyright));
        Self::lemma_merge_copyright(a12, self.copyright, self.encoded_from_restriction(), lim);
        let a13 = AlbumModel { copyright: a12.copyright + self.copyright, ..a12 };
        assert(RestrictionModel::all_writable(self.restriction));
        Self::lemma_merge_restriction(a13, self.restriction, self.encoded_from_related(), lim);
        let a14 = AlbumModel { restriction: a13.restriction + self.restriction, ..a13 };
        assert(AlbumModel::writable_list(self.related));
        Self::lemma_merge_related(a14, self.related, self.encoded_from_sale_period(), lim);
        let a15 = AlbumModel { related: a14.related + self.related, ..a14 };
        assert(SalePeriodModel::all_writable(self.sale_period));
        Self::lemma_merge_sale_period(a15, self.sale_period, self.encoded_from_cover_group(), lim);
        let a16 = AlbumModel { sale_period: a15.sale_period + self.sale_period, ..a15 };
        assert((self.cover_group matches Some(m) ==> m.wf() && fits_u32(m.to_bytes())));
        Self::lemma_merge_cover_group(a16, self.cover_group, self.encoded_from_unknown_fields(), lim);
        let a17 = AlbumModel { cover_group: if self.cover_group is Some { self.cover_group } else { a16.cover_group }, ..a16 };
        assert(a17.unknown_fields + self.unknown_fields =~= self.unknown_fields);
        Self::lemma_merge_unknown_fields(a17, self.unknown_fields, Seq::empty(), lim);
        assert(unknown_list_bytes(self.unknown_fields) + Seq::<u8>::empty() =~= unknown_list_bytes(self.unknown_fields));
        let last = AlbumModel { unknown_fields: a17.unknown_fields + self.unknown_fields, ..a17 };
        assert(last.artist =~= self.artist);
        assert(last.genre =~= self.genre);
        assert(last.cover =~= self.cover);
        assert(last.external_id =~= self.external_id);
        assert(last.disc =~= self.disc);
        assert(last.review =~= self.review);
        assert(last.copyright =~= self.copyright);
        assert(last.restriction =~= self.restriction);
        assert(last.related =~= self.related);
        assert(last.sale_period =~= self.sale_period);
        assert(last.unknown_fields =~= self.unknown_fields);
        assert(last == self);
    }
    /// A message whose only set field is `gid` is written as field number 1 of the
    /// protocol's definition alone: the tag of that number with the wire type of the field,
    /// then the value.
    #[verifier::spinoff_prover]
    pub proof fn lemma_encoding_of_gid(v: Option<Seq<u8>>)
        ensures
            (AlbumModel { gid: v, ..AlbumModel::empty() }).to_bytes() == opt_length_delimited_field_bytes(1, v),
    {
        reveal_with_fuel(AlbumModel::to_bytes, 20);
        let m = AlbumModel { gid: v, ..AlbumModel::empty() };
        assert(m.to_bytes() =~= opt_length_delimited_field_bytes(1, v));
    }

    /// A message whose only set field is `name` is written as field number 2 of the
    /// protocol's definition alone: the tag of that number with the wire type of the field,
    /// then the value.
    #[verifier::spinoff_prover]
    pub proof fn lemma_encoding_of_name(v: Option<Seq<char>>)
        ensures
            (AlbumModel { name: v, ..AlbumModel::empty() }).to_bytes() == opt_length_delimited_field_bytes(2, match v { Some(c) => Some(encode_utf8(c)), None => None }),
    {
        reveal_with_fuel(AlbumModel::to_bytes, 20);
        let m = AlbumModel { name: v, ..AlbumModel::empty() };
        assert(m.to_bytes() =~= opt_length_delimited_field_bytes(2, match v { Some(c) => Some(encode_utf8(c)), None => None }));
    }

    /// A message whose only set field is `artist` is written as field number 3 of the
    /// protocol's definition alone: the tag of that number with the wire type of the field,
    /// then the value.
    #[verifier::spinoff_prover]
    pub proof fn lemma_encoding_of_artist(v: Seq<ArtistModel>)
        ensures
            (AlbumModel { artist: v, ..AlbumModel::empty() }).to_bytes() == ArtistModel::list_bytes(3, v),
    {
        reveal_with_fuel(AlbumModel::to_bytes, 20);
        let m = AlbumModel { artist: v, ..AlbumModel::empty() };
        assert(m.to_bytes() =~= ArtistModel::list_bytes(3, v));
    }

    /// A message whose only set field is `typ` is written as field number 4 of the
    /// protocol's definition alone: the tag of that number with the wire type of the field,
    /// then the value.
    #[verifier::spinoff_prover]
    pub proof fn lemma_encoding_of_typ(v: Option<Album_Type>)
        ensures
            (AlbumModel { typ: v, ..AlbumModel::empty() }).to_bytes() == opt_varint_field_bytes(4, match v { Some(x) => Some(int32_varint(x.spec_value())), None => None }),
    {
        reveal_with_fuel(AlbumModel::to_bytes, 20);
        let m = AlbumModel { typ: v, ..AlbumModel::empty() };
        assert(m.to_bytes() =~= opt_varint_field_bytes(4, match v { Some(x) => Some(int32_varint(x.spec_value())), None => None }));
    }

    /// A message whose only set field is `label` is written as field number 5 of the
    /// protocol's definition alone: the tag of that number with the wire type of the field,
    /// then the value.
    #[verifier::spinoff_prover]
    pub proof fn lemma_encoding_of_label(v: Option<Seq<char>>)
        ensures
            (AlbumModel { label: v, ..AlbumModel::empty() }).to_bytes() == opt_length_delimited_field_bytes(5, match v { Some(c) => Some(encode_utf8(c)), None => None }),
    {
        reveal_with_fuel(AlbumModel::to_bytes, 20);
        let m = AlbumModel { label: v, ..AlbumModel::empty() };
        assert(m.to_bytes() =~= opt_length_delimited_field_bytes(5, match v { Some(c) => Some(encode_utf8(c)), None => None }));
    }

    /// A message whose only set field is `date` is written as field number 6 of the
    /// protocol's definition alone: the tag of that number with the wire type of the field,
    /// then the value.
    #[verifier::spinoff_prover]
    pub proof fn lemma_encoding_of_date(v: Option<DateModel>)
        ensures
            (AlbumModel { date: v, ..AlbumModel::empty() }).to_bytes() == opt_length_delimited_field_bytes(6, match v { Some(m) => Some(m.to_bytes()), None => None }),
    {
        reveal_with_fuel(AlbumModel::to_bytes, 20);
        let m = AlbumModel { date: v, ..AlbumModel::empty() };
        assert(m.to_bytes() =~= opt_length_delimited_field_bytes(6, match v { Some(m) => Some(m.to_bytes()), None => None }));
    }

    /// A message whose only set field is `popularity` is written as field number 7 of the
    /// protocol's definition alone: the tag of that number with the wire type of the field,
    /// then the value.
    #[verifier::spinoff_prover]
    pub proof fn lemma_encoding_of_popularity(v: Option<i32>)
        ensures
            (AlbumModel { popularity: v, ..AlbumModel::empty() }).to_bytes() == opt_varint_field_bytes(7, match v { Some(x) => Some(zigzag_encode32(x) as u64), None => None }),
    {
        reveal_with_fuel(AlbumModel::to_bytes, 20);
        let m = AlbumModel { popularity: v, ..AlbumModel::empty() };
        assert(m.to_bytes() =~= opt_varint_field_bytes(7, match v { Some(x) => Some(zigzag_encode32(x) as u64), None => None }));
    }

    /// A message whose only set field is `genre` is written as field number 8 of the
    /// protocol's definition alone: the tag of that number with the wire type of the field,
    /// then the value.
    #[verifier::spinoff_prover]
    pub proof fn lemma_encoding_of_genre(v: Seq<Seq<char>>)
        ensures
            (AlbumModel { genre: v, ..AlbumModel::empty() }).to_bytes() == length_delimited_list_bytes(8, utf8_encodings(v)),
    {
        reveal_with_fuel(AlbumModel::to_bytes, 20);
        let m = AlbumModel { genre: v, ..AlbumModel::empty() };
        assert(m.to_bytes() =~= length_delimited_list_bytes(8, utf8_encodings(v)));
    }

    /// A message whose only set field is `cover` is written as field number 9 of the
    /// protocol's definition alone: the tag of that number with the wire type of the field,
    /// then the value.
    #[verifier::spinoff_prover]
    pub proof fn lemma_encoding_of_cover(v: Seq<ImageModel>)
        ensures
            (AlbumModel { cover: v, ..AlbumModel::empty() }).to_bytes() == length_delimited_list_bytes(9, ImageModel::encodings(v)),
    {
        reveal_with_fuel(AlbumModel::to_bytes, 20);
        let m = AlbumModel { cover: v, ..AlbumModel::empty() };
        assert(m.to_bytes() =~= length_delimited_list_bytes(9, ImageModel::encodings(v)));
    }

    /// A message whose only set field is `external_id` is written as field number 10 of the
    /// protocol's definition alone: the tag of that number with the wire type of the field,
    /// then the value.
    #[verifier::spinoff_prover]
    pub proof fn lemma_encoding_of_external_id(v: Seq<ExternalIdModel>)
        ensures
            (AlbumModel { external_id: v, ..AlbumModel::empty() }).to_bytes() == length_delimited_list_bytes(10, ExternalIdModel::encodings(v)),
    {
        reveal_with_fuel(AlbumModel::to_bytes, 20);
        let m = AlbumModel { external_id: v, ..AlbumModel::empty() };
        assert(m.to_bytes() =~= length_delimited_list_bytes(10, ExternalIdModel::encodings(v)));
    }

    /// A message whose only set field is `disc` is written as field number 11 of the
    /// protocol's definition alone: the tag of that number with the wire type of the field,
    /// then the value.
    #[verifier::spinoff_prover]
    pub proof fn lemma_encoding_of_disc(v: Seq<DiscModel>)
        ensures
            (AlbumModel { disc: v, ..AlbumModel::empty() }).to_bytes() == DiscModel::list_bytes(11, v),
    {
        reveal_with_fuel(AlbumModel::to_bytes, 20);
        let m = AlbumModel { disc: v, ..AlbumModel::empty() };
        assert(m.to_bytes() =~= DiscModel::list_bytes(11, v));
    }

    /// A message whose only set field is `review` is written as field number 12 of the
    /// protocol's definition alone: the tag of that number with the wire type of the field,
    /// then the value.
    #[verifier::spinoff_prover]
    pub proof fn lemma_encoding_of_review(v: Seq<Seq<char>>)
        ensures
            (AlbumModel { review: v, ..AlbumModel::empty() }).to_bytes() == length_delimited_list_bytes(12, utf8_encodings(v)),
    {
        reveal_with_fuel(AlbumModel::to_bytes, 20);
        let m = AlbumModel { review: v, ..AlbumModel::empty() };
        assert(m.to_bytes() =~= length_delimited_list_bytes(12, utf8_encodings(v)));
    }

    /// A message whose only set field is `copyright` is written as field number 13 of the
    /// protocol's definition alone: the tag of that number with the wire type of the field,
    /// then the value.
    #[verifier::spinoff_prover]
    pub proof fn lemma_encoding_of_copyright(v: Seq<CopyrightModel>)
        ensures
            (AlbumModel { copyright: v, ..AlbumModel::empty() }).to_bytes() == length_delimited_list_bytes(13, CopyrightModel::encodings(v)),
    {
        reveal_with_fuel(AlbumModel::to_bytes, 20);
        let m = AlbumModel { copyright: v, ..AlbumModel::empty() };
        assert(m.to_bytes() =~= length_delimited_list_bytes(13, CopyrightModel::encodings(v)));
    }

    /// A message whose only set field is `restriction` is written as field number 14 of the
    /// protocol's definition alone: the tag of that number with the wire type of the field,
    /// then the value.
    #[verifier::spinoff_prover]
    pub proof fn lemma_encoding_of_restriction(v: Seq<RestrictionModel>)
        ensures
            (AlbumModel { restriction: v, ..AlbumModel::empty() }).to_bytes() == length_delimited_list_bytes(14, RestrictionModel::encodings(v)),
    {
        reveal_with_fuel(AlbumModel::to_bytes, 20);
        let m = AlbumModel { restriction: v, ..AlbumModel::empty() };
        assert(m.to_bytes() =~= length_delimited_list_bytes(14, RestrictionModel::encodings(v)));
    }

    /// A message whose only set field is `related` is written as field number 15 of the
    /// protocol's definition alone: the tag of that number with the wire type of the field,
    /// then the value.
    #[verifier::spinoff_prover]
    pub proof fn lemma_encoding_of_related(v: Seq<AlbumModel>)
        ensures
            (AlbumModel { related: v, ..AlbumModel::empty() }).to_bytes() == AlbumModel::list_bytes(15, v),
    {
        reveal_with_fuel(AlbumModel::to_bytes, 20);
        let m = AlbumModel { related: v, ..AlbumModel::empty() };
        assert(m.to_bytes() =~= AlbumModel::list_bytes(15, v));
    }

    /// A message whose only set field is `sale_period` is written as field number 16 of the
    /// protocol's definition alone: the tag of that number with the wire type of the field,
    /// then the value.
    #[verifier::spinoff_prover]
    pub proof fn lemma_encoding_of_sale_period(v: Seq<SalePeriodModel>)
        ensures
            (AlbumModel { sale_period: v, ..AlbumModel::empty() }).to_bytes() == length_delimited_list_bytes(16, SalePeriodModel::encodings(v)),
    {
        reveal_with_fuel(AlbumModel::to_bytes, 20);
        let m = AlbumModel { sale_period: v, ..AlbumModel::empty() };
        assert(m.to_bytes() =~= length_delimited_list_bytes(16, SalePeriodModel::encodings(v)));
    }

    /// A message whose only set field is `cover_group` is written as field number 17 of the
    /// protocol's definition alone: the tag of that number with the wire type of the field,
    /// then the value.
    #[verifier::spinoff_prover]
    pub proof fn lemma_encoding_of_cover_group(v: Option<ImageGroupModel>)
        ensures
            (AlbumModel { cover_group: v, ..AlbumModel::empty() }).to_bytes() == opt_length_delimited_field_bytes(17, match v { Some(m) => Some(m.to_bytes()), None => None }),
    {
        reveal_with_fuel(AlbumModel::to_bytes, 20);
        let m = AlbumModel { cover_group: v, ..AlbumModel::empty() };
        assert(m.to_bytes() =~= opt_length_delimited_field_bytes(17, match v { Some(m) => Some(m.to_bytes()), None => None }));
    }

}

#[allow(non_snake_case)]
impl Album {
    #[verifier::type_invariant]
    spec fn unset_fields_are_empty(self) -> bool {
        (!self.has_date ==> self.date@ == DateModel::empty())
        && (!self.has_cover_group ==> self.cover_group@ == ImageGroupModel::empty())
    }

    /// The models of a list of messages.
    pub open spec fn seq_model(v: Seq<Album>) -> Seq<AlbumModel>
        decreases v, 0int,
    {
        if v.len() == 0 {
            Seq::empty()
        } else {
            Self::seq_model(v.subrange(0, v.len() - 1)).push(v[v.len() - 1].model())
        }
    }

    /// The list of models has an element for each message, its model.
    #[verifier::spinoff_prover]
    pub proof fn lemma_seq_model(v: Seq<Album>)
        ensures
            Self::seq_model(v).len() == v.len(),
            forall|i: int| 0 <= i < v.len() ==> #[trigger] Self::seq_model(v)[i] == v[i]@,
        decreases v.len(),
    {
        if v.len() > 0 {
            Self::lemma_seq_model(v.subrange(0, v.len() - 1));
        }
    }

    /// Appending a message appends its model.
    #[verifier::spinoff_prover]
    pub proof fn lemma_seq_model_push(v: Seq<Album>, x: Album)
        ensures
            Self::seq_model(v.push(x)) == Self::seq_model(v).push(x@),
    {
        assert(v.push(x).subrange(0, v.len() as int) =~= v);
    }

    /// A message with no field set.
    #[verifier::spinoff_prover]
    pub fn new() -> (r: Self)
        ensures
            r@ == AlbumModel::empty(),
            r@.wf(),
    {
        let r = Album {
            gid: None,
            name: None,
            artist: Vec::new(),
            typ: None,
            label: None,
            date: Box::new(Date::new()),
            has_date: false,
            popularity: None,
            genre: Vec::new(),
            cover: Vec::new(),
            external_id: Vec::new(),
            disc: Vec::new(),
            review: Vec::new(),
            copyright: Vec::new(),
            restriction: Vec::new(),
            related: Vec::new(),
            sale_period: Vec::new(),
            cover_group: Box::new(ImageGroup::new()),
            has_cover_group: false,
            unknown_fields: Vec::new(),
        };
        assert(Artist::seq_model(r.artist@) =~= Seq::<ArtistModel>::empty());
        assert(string_models(r.genre@) =~= Seq::<Seq<char>>::empty());
        assert(Image::seq_model(r.cover@) =~= Seq::<ImageModel>::empty());
        assert(ExternalId::seq_model(r.external_id@) =~= Seq::<ExternalIdModel>::empty());
        assert(Disc::seq_model(r.disc@) =~= Seq::<DiscModel>::empty());
        assert(string_models(r.review@) =~= Seq::<Seq<char>>::empty());
        assert(Copyright::seq_model(r.copyright@) =~= Seq::<CopyrightModel>::empty());
        assert(Restriction::seq_model(r.restriction@) =~= Seq::<RestrictionModel>::empty());
        assert(Album::seq_model(r.related@) =~= Seq::<AlbumModel>::empty());
        assert(SalePeriod::seq_model(r.sale_period@) =~= Seq::<SalePeriodModel>::empty());
        assert(unknown_models(r.unknown_fields@) =~= Seq::<UnknownFieldModel>::empty());
        proof {
            AlbumModel::lemma_empty_wf();
        }
        r
    }

    /// Unsets field `gid`.
    #[verifier::spinoff_prover]
    pub fn clear_gid(&mut self)
        ensures
            final(self)@ == (AlbumModel { gid: None, ..old(self)@ }),
    {
        proof {
            use_type_invariant(&*self);
        }
        self.gid = None;
    }

    /// Whether field `gid` is set.
    #[verifier::spinoff_prover]
    pub fn has_gid(&self) -> (r: bool)
        ensures
            r == self@.gid is Some,
    {
        self.gid.is_some()
    }

    /// Sets field `gid` to `v`.
    #[verifier::spinoff_prover]
    pub fn set_gid(&mut self, v: Vec<u8>)
        ensures
            final(self)@ == (AlbumModel { gid: Some(v@), ..old(self)@ }),
    {
        proof {
            use_type_invariant(&*self);
        }
        self.gid = Some(v);
    }

    /// Field `gid`, to change in place; an unset field is first set to its default.
    #[verifier::spinoff_prover]
    pub fn mut_gid(&mut self) -> (r: &mut Vec<u8>)
        ensures
            r@ == bytes_or_empty(old(self)@.gid),
            final(self)@ == (AlbumModel { gid: Some(final(r)@), ..old(self)@ }),

    {
        proof {
            use_type_invariant(&*self);
        }
        if self.gid.is_none() {
            self.gid = Some(Vec::new());
        }
        opt_as_mut(&mut self.gid).unwrap()
    }

    /// Takes field `gid` (its default when unset), leaving it unset.
    #[verifier::spinoff_prover]
    pub fn take_gid(&mut self) -> (r: Vec<u8>)
        ensures
            r@ == bytes_or_empty(old(self)@.gid),
            final(self)@ == (AlbumModel { gid: None, ..old(self)@ }),
    {
        proof {
            use_type_invariant(&*self);
        }
        let mut t = None;
        std::mem::swap(&mut t, &mut self.gid);
        match t {
            Some(v) => v,
            None => Vec::new(),
        }
    }

    /// Field `gid`, or no bytes when unset.
    #[verifier::spinoff_prover]
    pub fn get_gid(&self) -> (r: &[u8])
        ensures
            r@ == bytes_or_empty(self@.gid),
    {
        match &self.gid {
            Some(v) => v.as_slice(),
            None => &[],
        }
    }

    /// Unsets field `name`.
    #[verifier::spinoff_prover]
    pub fn clear_name(&mut self)
        ensures
            final(self)@ == (AlbumModel { name: None, ..old(self)@ }),
    {
        proof {
            use_type_invariant(&*self);
        }
        self.name = None;
    }

    /// Whether field `name` is set.
    #[verifier::spinoff_prover]
    pub fn has_name(&self) -> (r: bool)
        ensures
            r == self@.name is Some,
    {
        self.name.is_some()
    }

    /// Sets field `name` to `v`.
    #[verifier::spinoff_prover]
    pub fn set_name(&mut self, v: String)
        ensures
            final(self)@ == (AlbumModel { name: Some(v@), ..old(self)@ }),
    {
        proof {
            use_type_invariant(&*self);
        }
        self.name = Some(v);
    }

    /// Field `name`, to change in place; an unset field is first set to its default.
    #[verifier::spinoff_prover]
    pub fn mut_name(&mut self) -> (r: &mut String)
        ensures
            r@ == chars_or_empty(old(self)@.name),
            final(self)@ == (AlbumModel { name: Some(final(r)@), ..old(self)@ }),

    {
        proof {
            use_type_invariant(&*self);
        }
        if self.name.is_none() {
            self.name = Some(String::new());
        }
        opt_as_mut(&mut self.name).unwrap()
    }

    /// Takes field `name` (its default when unset), leaving it unset.
    #[verifier::spinoff_prover]
    pub fn take_name(&mut self) -> (r: String)
        ensures
            r@ == chars_or_empty(old(self)@.name),
            final(self)@ == (AlbumModel { name: None, ..old(self)@ }),
    {
        proof {
            use_type_invariant(&*self);
        }
        let mut t = None;
        std::mem::swap(&mut t, &mut self.name);
        match t {
            Some(v) => v,
            None => String::new(),
        }
    }

    /// Field `name`, or the empty string when unset.
    #[verifier::spinoff_prover]
    pub fn get_name(&self) -> (r: &str)
        ensures
            r@ == chars_or_empty(self@.name),
    {
        match &self.name {
            Some(v) => v.as_str(),
            None => {
                proof {
                    reveal_strlit("");
                }
                ""
            },
        }
    }

    /// Empties field `artist`.
    #[verifier::spinoff_prover]
    pub fn clear_artist(&mut self)
        ensures
            final(self)@ == (AlbumModel { artist: Seq::empty(), ..old(self)@ }),
    {
        proof {
            use_type_invariant(&*self);
        }
        self.artist = Vec::new();
        assert(Artist::seq_model(self.artist@) =~= Seq::<ArtistModel>::empty());
    }

    /// Sets field `artist` to the elements of `v`.
    #[verifier::spinoff_prover]
    pub fn set_artist(&mut self, v: Vec<Artist>)
        ensures
            final(self)@ == (AlbumModel { artist: Artist::seq_model(v@), ..old(self)@ }),
    {
        proof {
            use_type_invariant(&*self);
        }
        self.artist = v;
    }

    /// The elements of field `artist`, to change in place.
    #[verifier::spinoff_prover]
    pub fn mut_artist(&mut self) -> (r: &mut Vec<Artist>)
        ensures
            Artist::seq_model(r@) == old(self)@.artist,
            final(self)@ == (AlbumModel { artist: Artist::seq_model(final(r)@), ..old(self)@ }),
    {
        proof {
            use_type_invariant(&*self);
        }
        field_mut(&mut self.artist)
    }

    /// Takes the elements of field `artist`, leaving it empty.
    #[verifier::spinoff_prover]
    pub fn take_artist(&mut self) -> (r: Vec<Artist>)
        ensures
            Artist::seq_model(r@) == old(self)@.artist,
            final(self)@ == (AlbumModel { artist: Seq::empty(), ..old(self)@ }),
    {
        proof {
            use_type_invariant(&*self);
        }
        let mut r = Vec::new();
        std::mem::swap(&mut r, &mut self.artist);
        assert(Artist::seq_model(self.artist@) =~= Seq::<ArtistModel>::empty());
        r
    }

    /// The elements of field `artist`.
    #[verifier::spinoff_prover]
    pub fn get_artist(&self) -> (r: &[Artist])
        ensures
            Artist::seq_model(r@) == self@.artist,
    {
        self.artist.as_slice()
    }

    /// Unsets field `typ`.
    #[verifier::spinoff_prover]
    pub fn clear_typ(&mut self)
        ensures
            final(self)@ == (AlbumModel { typ: None, ..old(self)@ }),
    {
        proof {
            use_type_invariant(&*self);
        }
        self.typ = None;
    }

    /// Whether field `typ` is set.
    #[verifier::spinoff_prover]
    pub fn has_typ(&self) -> (r: bool)
        ensures
            r == self@.typ is Some,
    {
        self.typ.is_some()
    }

    /// Sets field `typ` to `v`.
    #[verifier::spinoff_prover]
    pub fn set_typ(&mut self, v: Album_Type)
        ensures
            final(self)@ == (AlbumModel { typ: Some(v), ..old(self)@ }),
    {
        proof {
            use_type_invariant(&*self);
        }
        self.typ = Some(v);
    }

    /// Field `typ`, or `Album_Type::ALBUM` when unset.
    #[verifier::spinoff_prover]
    pub fn get_typ(&self) -> (r: Album_Type)
        ensures
            r == (match self@.typ { Some(x) => x, None => Album_Type::ALBUM }),
    {
        match self.typ {
            Some(x) => x,
            None => Album_Type::ALBUM,
        }
    }

    /// Unsets field `label`.
    #[verifier::spinoff_prover]
    pub fn clear_label(&mut self)
        ensures
            final(self)@ == (AlbumModel { label: None, ..old(self)@ }),
    {
        proof {
            use_type_invariant(&*self);
        }
        self.label = None;
    }

    /// Whether field `label` is set.
    #[verifier::spinoff_prover]
    pub fn has_label(&self) -> (r: bool)
        ensures
            r == self@.label is Some,
    {
        self.label.is_some()
    }

    /// Sets field `label` to `v`.
    #[verifier::spinoff_prover]
    pub fn set_label(&mut self, v: String)
        ensures
            final(self)@ == (AlbumModel { label: Some(v@), ..old(self)@ }),
    {
        proof {
            use_type_invariant(&*self);
        }
        self.label = Some(v);
    }

    /// Field `label`, to change in place; an unset field is first set to its default.
    #[verifier::spinoff_prover]
    pub fn mut_label(&mut self) -> (r: &mut String)
        ensures
            r@ == chars_or_empty(old(self)@.label),
            final(self)@ == (AlbumModel { label: Some(final(r)@), ..old(self)@ }),

    {
        proof {
            use_type_invariant(&*self);
        }
        if self.label.is_none() {
            self.label = Some(String::new());
        }
        opt_as_mut(&mut self.label).unwrap()
    }

    /// Takes field `label` (its default when unset), leaving it unset.
    #[verifier::spinoff_prover]
    pub fn take_label(&mut self) -> (r: String)
        ensures
            r@ == chars_or_empty(old(self)@.label),
            final(self)@ == (AlbumModel { label: None, ..old(self)@ }),
    {
        proof {
            use_type_invariant(&*self);
        }
        let mut t = None;
        std::mem::swap(&mut t, &mut self.label);
        match t {
            Some(v) => v,
            None => String::new(),
        }
    }

    /// Field `label`, or the empty string when unset.
    #[verifier::spinoff_prover]
    pub fn get_label(&self) -> (r: &str)
        ensures
            r@ == chars_or_empty(self@.label),
    {
        match &self.label {
            Some(v) => v.as_str(),
            None => {
                proof {
                    reveal_strlit("");
                }
                ""
            },
        }
    }

    /// Unsets field `date`.
    #[verifier::spinoff_prover]
    pub fn clear_date(&mut self)
        ensures
            final(self)@ == (AlbumModel { date: None, ..old(self)@ }),
    {
        proof {
            use_type_invariant(&*self);
        }
        self.date = Box::new(Date::new());
        self.has_date = false;
    }

    /// Whether field `date` is set.
    #[verifier::spinoff_prover]
    pub fn has_date(&self) -> (r: bool)
        ensures
            r == self@.date is Some,
    {
        self.has_date
    }

    /// Sets field `date` to `v`.
    #[verifier::spinoff_prover]
    pub fn set_date(&mut self, v: Date)
        ensures
            final(self)@ == (AlbumModel { date: Some(v@), ..old(self)@ }),
    {
        proof {
            use_type_invariant(&*self);
        }
        self.has_date = true;
        self.date = Box::new(v);
    }

    /// Field `date`, to change in place; an unset field is first set to its default.
    #[verifier::spinoff_prover]
    pub fn mut_date(&mut self) -> (r: &mut Date)
        ensures
            r@ == (match old(self)@.date { Some(x) => x, None => DateModel::empty() }),
            final(self)@ == (AlbumModel { date: Some(final(r)@), ..old(self)@ }),

        no_unwind
    {
        proof {
            use_type_invariant(&*self);
        }
        self.has_date = true;
        box_mut(&mut self.date)
    }

    /// Takes field `date` (its default when unset), leaving it unset.
    #[verifier::spinoff_prover]
    pub fn take_date(&mut self) -> (r: Date)
        ensures
            r@ == (match old(self)@.date { Some(x) => x, None => DateModel::empty() }),
            final(self)@ == (AlbumModel { date: None, ..old(self)@ }),
    {
        proof {
            use_type_invariant(&*self);
        }
        let mut b = Box::new(Date::new());
        std::mem::swap(&mut b, &mut self.date);
        self.has_date = false;
        *b
    }

    /// Field `date`, or a message with no field set when unset.
    #[verifier::spinoff_prover]
    pub fn get_date(&self) -> (r: &Date)
        ensures
            r@ == (match self@.date { Some(x) => x, None => DateModel::empty() }),
    {
        proof {
            use_type_invariant(self);
        }
        &self.date
    }

    /// Unsets field `popularity`.
    #[verifier::spinoff_prover]
    pub fn clear_popularity(&mut self)
        ensures
            final(self)@ == (AlbumModel { popularity: None, ..old(self)@ }),
    {
        proof {
            use_type_invariant(&*self);
        }
        self.popularity = None;
    }

    /// Whether field `popularity` is set.
    #[verifier::spinoff_prover]
    pub fn has_popularity(&self) -> (r: bool)
        ensures
            r == self@.popularity is Some,
    {
        self.popularity.is_some()
    }

    /// Sets field `popularity` to `v`.
    #[verifier::spinoff_prover]
    pub fn set_popularity(&mut self, v: i32)
        ensures
            final(self)@ == (AlbumModel { popularity: Some(v), ..old(self)@ }),
    {
        proof {
            use_type_invariant(&*self);
        }
        self.popularity = Some(v);
    }

    /// Field `popularity`, or `0` when unset.
    #[verifier::spinoff_prover]
    pub fn get_popularity(&self) -> (r: i32)
        ensures
            r == (match self@.popularity { Some(x) => x, None => 0i32 }),
    {
        match self.popularity {
            Some(x) => x,
            None => 0i32,
        }
    }

    /// Empties field `genre`.
    #[verifier::spinoff_prover]
    pub fn clear_genre(&mut self)
        ensures
            final(self)@ == (AlbumModel { genre: Seq::empty(), ..old(self)@ }),
    {
        proof {
            use_type_invariant(&*self);
        }
        self.genre = Vec::new();
        assert(string_models(self.genre@) =~= Seq::<Seq<char>>::empty());
    }

    /// Sets field `genre` to the elements of `v`.
    #[verifier::spinoff_prover]
    pub fn set_genre(&mut self, v: Vec<String>)
        ensures
            final(self)@ == (AlbumModel { genre: string_models(v@), ..old(self)@ }),
    {
        proof {
            use_type_invariant(&*self);
        }
        self.genre = v;
    }

    /// The elements of field `genre`, to change in place.
    #[verifier::spinoff_prover]
    pub fn mut_genre(&mut self) -> (r: &mut Vec<String>)
        ensures
            string_models(r@) == old(self)@.genre,
            final(self)@ == (AlbumModel { genre: string_models(final(r)@), ..old(self)@ }),
    {
        proof {
            use_type_invariant(&*self);
        }
        field_mut(&mut self.genre)
    }

    /// Takes the elements of field `genre`, leaving it empty.
    #[verifier::spinoff_prover]
    pub fn take_genre(&mut self) -> (r: Vec<String>)
        ensures
            string_models(r@) == old(self)@.genre,
            final(self)@ == (AlbumModel { genre: Seq::empty(), ..old(self)@ }),
    {
        proof {
            use_type_invariant(&*self);
        }
        let mut r = Vec::new();
        std::mem::swap(&mut r, &mut self.genre);
        assert(string_models(self.genre@) =~= Seq::<Seq<char>>::empty());
        r
    }

    /// The elements of field `genre`.
    #[verifier::spinoff_prover]
    pub fn get_genre(&self) -> (r: &[String])
        ensures
            string_models(r@) == self@.genre,
    {
        self.genre.as_slice()
    }

    /// Empties field `cover`.
    #[verifier::spinoff_prover]
    pub fn clear_cover(&mut self)
        ensures
            final(self)@ == (AlbumModel { cover: Seq::empty(), ..old(self)@ }),
    {
        proof {
            use_type_invariant(&*self);
        }
        self.cover = Vec::new();
        assert(Image::seq_model(self.cover@) =~= Seq::<ImageModel>::empty());
    }

    /// Sets field `cover` to the elements of `v`.
    #[verifier::spinoff_prover]
    pub fn set_cover(&mut self, v: Vec<Image>)
        ensures
            final(self)@ == (AlbumModel { cover: Image::seq_model(v@), ..old(self)@ }),
    {
        proof {
            use_type_invariant(&*self);
        }
        self.cover = v;
    }

    /// The elements of field `cover`, to change in place.
    #[verifier::spinoff_prover]
    pub fn mut_cover(&mut self) -> (r: &mut Vec<Image>)
        ensures
            Image::seq_model(r@) == old(self)@.cover,
            final(self)@ == (AlbumModel { cover: Image::seq_model(final(r)@), ..old(self)@ }),
    {
        proof {
            use_type_invariant(&*self);
        }
        field_mut(&mut self.cover)
    }

    /// Takes the elements of field `cover`, leaving it empty.
    #[verifier::spinoff_prover]
    pub fn take_cover(&mut self) -> (r: Vec<Image>)
        ensures
            Image::seq_model(r@) == old(self)@.cover,
            final(self)@ == (AlbumModel { cover: Seq::empty(), ..old(self)@ }),
    {
        proof {
            use_type_invariant(&*self);
        }
        let mut r = Vec::new();
        std::mem::swap(&mut r, &mut self.cover);
        assert(Image::seq_model(self.cover@) =~= Seq::<ImageModel>::empty());
        r
    }

    /// The elements of field `cover`.
    #[verifier::spinoff_prover]
    pub fn get_cover(&self) -> (r: &[Image])
        ensures
            Image::seq_model(r@) == self@.cover,
    {
        self.cover.as_slice()
    }

    /// Empties field `external_id`.
    #[verifier::spinoff_prover]
    pub fn clear_external_id(&mut self)
        ensures
            final(self)@ == (AlbumModel { external_id: Seq::empty(), ..old(self)@ }),
    {
        proof {
            use_type_invariant(&*self);
        }
        self.external_id = Vec::new();
        assert(ExternalId::seq_model(self.external_id@) =~= Seq::<ExternalIdModel>::empty());
    }

    /// Sets field `external_id` to the elements of `v`.
    #[verifier::spinoff_prover]
    pub fn set_external_id(&mut self, v: Vec<ExternalId>)
        ensures
            final(self)@ == (AlbumModel { external_id: ExternalId::seq_model(v@), ..old(self)@ }),
    {
        proof {
            use_type_invariant(&*self);
        }
        self.external_id = v;
    }

    /// The elements of field `external_id`, to change in place.
    #[verifier::spinoff_prover]
    pub fn mut_external_id(&mut self) -> (r: &mut Vec<ExternalId>)
        ensures
            ExternalId::seq_model(r@) == old(self)@.external_id,
            final(self)@ == (AlbumModel { external_id: ExternalId::seq_model(final(r)@), ..old(self)@ }),
    {
        proof {
            use_type_invariant(&*self);
        }
        field_mut(&mut self.external_id)
    }

    /// Takes the elements of field `external_id`, leaving it empty.
    #[verifier::spinoff_prover]
    pub fn take_external_id(&mut self) -> (r: Vec<ExternalId>)
        ensures
            ExternalId::seq_model(r@) == old(self)@.external_id,
            final(self)@ == (AlbumModel { external_id: Seq::empty(), ..old(self)@ }),
    {
        proof {
            use_type_invariant(&*self);
        }
        let mut r = Vec::new();
        std::mem::swap(&mut r, &mut self.external_id);
        assert(ExternalId::seq_model(self.external_id@) =~= Seq::<ExternalIdModel>::empty());
        r
    }

    /// The elements of field `external_id`.
    #[verifier::spinoff_prover]
    pub fn get_external_id(&self) -> (r: &[ExternalId])
        ensures
            ExternalId::seq_model(r@) == self@.external_id,
    {
        self.external_id.as_slice()
    }

    /// Empties field `disc`.
    #[verifier::spinoff_prover]
    pub fn clear_disc(&mut self)
        ensures
            final(self)@ == (AlbumModel { disc: Seq::empty(), ..old(self)@ }),
    {
        proof {
            use_type_invariant(&*self);
        }
        self.disc = Vec::new();
        assert(Disc::seq_model(self.disc@) =~= Seq::<DiscModel>::empty());
    }

    /// Sets field `disc` to the elements of `v`.
    #[verifier::spinoff_prover]
    pub fn set_disc(&mut self, v: Vec<Disc>)
        ensures
            final(self)@ == (AlbumModel { disc: Disc::seq_model(v@), ..old(self)@ }),
    {
        proof {
            use_type_invariant(&*self);
        }
        self.disc = v;
    }

    /// The elements of field `disc`, to change in place.
    #[verifier::spinoff_prover]
    pub fn mut_disc(&mut self) -> (r: &mut Vec<Disc>)
        ensures
            Disc::seq_model(r@) == old(self)@.disc,
            final(self)@ == (AlbumModel { disc: Disc::seq_model(final(r)@), ..old(self)@ }),
    {
        proof {
            use_type_invariant(&*self);
        }
        field_mut(&mut self.disc)
    }

    /// Takes the elements of field `disc`, leaving it empty.
    #[verifier::spinoff_prover]
    pub fn take_disc(&mut self) -> (r: Vec<Disc>)
        ensures
            Disc::seq_model(r@) == old(self)@.disc,
            final(self)@ == (AlbumModel { disc: Seq::empty(), ..old(self)@ }),
    {
        proof {
            use_type_invariant(&*self);
        }
        let mut r = Vec::new();
        std::mem::swap(&mut r, &mut self.disc);
        assert(Disc::seq_model(self.disc@) =~= Seq::<DiscModel>::empty());
        r
    }

    /// The elements of field `disc`.
    #[verifier::spinoff_prover]
    pub fn get_disc(&self) -> (r: &[Disc])
        ensures
            Disc::seq_model(r@) == self@.disc,
    {
        self.disc.as_slice()
    }

    /// Empties field `review`.
    #[verifier::spinoff_prover]
    pub fn clear_review(&mut self)
        ensures
            final(self)@ == (AlbumModel { review: Seq::empty(), ..old(self)@ }),
    {
        proof {
            use_type_invariant(&*self);
        }
        self.review = Vec::new();
        assert(string_models(self.review@) =~= Seq::<Seq<char>>::empty());
    }

    /// Sets field `review` to the elements of `v`.
    #[verifier::spinoff_prover]
    pub fn set_review(&mut self, v: Vec<String>)
        ensures
            final(self)@ == (AlbumModel { review: string_models(v@), ..old(self)@ }),
    {
        proof {
            use_type_invariant(&*self);
        }
        self.review = v;
    }

    /// The elements of field `review`, to change in place.
    #[verifier::spinoff_prover]
    pub fn mut_review(&mut self) -> (r: &mut Vec<String>)
        ensures
            string_models(r@) == old(self)@.review,
            final(self)@ == (AlbumModel { review: string_models(final(r)@), ..old(self)@ }),
    {
        proof {
            use_type_invariant(&*self);
        }
        field_mut(&mut self.review)
    }

    /// Takes the elements of field `review`, leaving it empty.
    #[verifier::spinoff_prover]
    pub fn take_review(&mut self) -> (r: Vec<String>)
        ensures
            string_models(r@) == old(self)@.review,
            final(self)@ == (AlbumModel { review: Seq::empty(), ..old(self)@ }),
    {
        proof {
            use_type_invariant(&*self);
        }
        let mut r = Vec::new();
        std::mem::swap(&mut r, &mut self.review);
        assert(string_models(self.review@) =~= Seq::<Seq<char>>::empty());
        r
    }

    /// The elements of field `review`.
    #[verifier::spinoff_prover]
    pub fn get_review(&self) -> (r: &[String])
        ensures
            string_models(r@) == self@.review,
    {
        self.review.as_slice()
    }

    /// Empties field `copyright`.
    #[verifier::spinoff_prover]
    pub fn clear_copyright(&mut self)
        ensures
            final(self)@ == (AlbumModel { copyright: Seq::empty(), ..old(self)@ }),
    {
        proof {
            use_type_invariant(&*self);
        }
        self.copyright = Vec::new();
        assert(Copyright::seq_model(self.copyright@) =~= Seq::<CopyrightModel>::empty());
    }

    /// Sets field `copyright` to the elements of `v`.
    #[verifier::spinoff_prover]
    pub fn set_copyright(&mut self, v: Vec<Copyright>)
        ensures
            final(self)@ == (AlbumModel { copyright: Copyright::seq_model(v@), ..old(self)@ }),
    {
        proof {
            use_type_invariant(&*self);
        }
        self.copyright = v;
    }

    /// The elements of field `copyright`, to change in place.
    #[verifier::spinoff_prover]
    pub fn mut_copyright(&mut self) -> (r: &mut Vec<Copyright>)
        ensures
            Copyright::seq_model(r@) == old(self)@.copyright,
            final(self)@ == (AlbumModel { copyright: Copyright::seq_model(final(r)@), ..old(self)@ }),
    {
        proof {
            use_type_invariant(&*self);
        }
        field_mut(&mut self.copyright)
    }

    /// Takes the elements of field `copyright`, leaving it empty.
    #[verifier::spinoff_prover]
    pub fn take_copyright(&mut self) -> (r: Vec<Copyright>)
        ensures
            Copyright::seq_model(r@) == old(self)@.copyright,
            final(self)@ == (AlbumModel { copyright: Seq::empty(), ..old(self)@ }),
    {
        proof {
            use_type_invariant(&*self);
        }
        let mut r = Vec::new();
        std::mem::swap(&mut r, &mut self.copyright);
        assert(Copyright::seq_model(self.copyright@) =~= Seq::<CopyrightModel>::empty());
        r
    }

    /// The elements of field `copyright`.
    #[verifier::spinoff_prover]
    pub fn get_copyright(&self) -> (r: &[Copyright])
        ensures
            Copyright::seq_model(r@) == self@.copyright,
    {
        self.copyright.as_slice()
    }

    /// Empties field `restriction`.
    #[verifier::spinoff_prover]
    pub fn clear_restriction(&mut self)
        ensures
            final(self)@ == (AlbumModel { restriction: Seq::empty(), ..old(self)@ }),
    {
        proof {
            use_type_invariant(&*self);
        }
        self.restriction = Vec::new();
        assert(Restriction::seq_model(self.restriction@) =~= Seq::<RestrictionModel>::empty());
    }

    /// Sets field `restriction` to the elements of `v`.
    #[verifier::spinoff_prover]
    pub fn set_restriction(&mut self, v: Vec<Restriction>)
        ensures
            final(self)@ == (AlbumModel { restriction: Restriction::seq_model(v@), ..old(self)@ }),
    {
        proof {
            use_type_invariant(&*self);
        }
        self.restriction = v;
    }

    /// The elements of field `restriction`, to change in place.
    #[verifier::spinoff_prover]
    pub fn mut_restriction(&mut self) -> (r: &mut Vec<Restriction>)
        ensures
            Restriction::seq_model(r@) == old(self)@.restriction,
            final(self)@ == (AlbumModel { restriction: Restriction::seq_model(final(r)@), ..old(self)@ }),
    {
        proof {
            use_type_invariant(&*self);
        }
        field_mut(&mut self.restriction)
    }

    /// Takes the elements of field `restriction`, leaving it empty.
    #[verifier::spinoff_prover]
    pub fn take_restriction(&mut self) -> (r: Vec<Restriction>)
        ensures
            Restriction::seq_model(r@) == old(self)@.restriction,
            final(self)@ == (AlbumModel { restriction: Seq::empty(), ..old(self)@ }),
    {
        proof {
            use_type_invariant(&*self);
        }
        let mut r = Vec::new();
        std::mem::swap(&mut r, &mut self.restriction);
        assert(Restriction::seq_model(self.restriction@) =~= Seq::<RestrictionModel>::empty());
        r
    }

    /// The elements of field `restriction`.
    #[verifier::spinoff_prover]
    pub fn get_restriction(&self) -> (r: &[Restriction])
        ensures
            Restriction::seq_model(r@) == self@.restriction,
    {
        self.restriction.as_slice()
    }

    /// Empties field `related`.
    #[verifier::spinoff_prover]
    pub fn clear_related(&mut self)
        ensures
            final(self)@ == (AlbumModel { related: Seq::empty(), ..old(self)@ }),
    {
        proof {
            use_type_invariant(&*self);
        }
        self.related = Vec::new();
        assert(Album::seq_model(self.related@) =~= Seq::<AlbumModel>::empty());
    }

    /// Sets field `related` to the elements of `v`.
    #[verifier::spinoff_prover]
    pub fn set_related(&mut self, v: Vec<Album>)
        ensures
            final(self)@ == (AlbumModel { related: Album::seq_model(v@), ..old(self)@ }),
    {
        proof {
            use_type_invariant(&*self);
        }
        self.related = v;
    }

    /// The elements of field `related`, to change in place.
    #[verifier::spinoff_prover]
    pub fn mut_related(&mut self) -> (r: &mut Vec<Album>)
        ensures
            Album::seq_model(r@) == old(self)@.related,
            final(self)@ == (AlbumModel { related: Album::seq_model(final(r)@), ..old(self)@ }),
    {
        proof {
            use_type_invariant(&*self);
        }
        field_mut(&mut self.related)
    }

    /// Takes the elements of field `related`, leaving it empty.
    #[verifier::spinoff_prover]
    pub fn take_related(&mut self) -> (r: Vec<Album>)
        ensures
            Album::seq_model(r@) == old(self)@.related,
            final(self)@ == (AlbumModel { related: Seq::empty(), ..old(self)@ }),
    {
        proof {
            use_type_invariant(&*self);
        }
        let mut r = Vec::new();
        std::mem::swap(&mut r, &mut self.related);
        assert(Album::seq_model(self.related@) =~= Seq::<AlbumModel>::empty());
        r
    }

    /// The elements of field `related`.
    #[verifier::spinoff_prover]
    pub fn get_related(&self) -> (r: &[Album])
        ensures
            Album::seq_model(r@) == self@.related,
    {
        self.related.as_slice()
    }

    /// Empties field `sale_period`.
    #[verifier::spinoff_prover]
    pub fn clear_sale_period(&mut self)
        ensures
            final(self)@ == (AlbumModel { sale_period: Seq::empty(), ..old(self)@ }),
    {
        proof {
            use_type_invariant(&*self);
        }
        self.sale_period = Vec::new();
        assert(SalePeriod::seq_model(self.sale_period@) =~= Seq::<SalePeriodModel>::empty());
    }

    /// Sets field `sale_period` to the elements of `v`.
    #[verifier::spinoff_prover]
    pub fn set_sale_period(&mut self, v: Vec<SalePeriod>)
        ensures
            final(self)@ == (AlbumModel { sale_period: SalePeriod::seq_model(v@), ..old(self)@ }),
    {
        proof {
            use_type_invariant(&*self);
        }
        self.sale_period = v;
    }

    /// The elements of field `sale_period`, to change in place.
    #[verifier::spinoff_prover]
    pub fn mut_sale_period(&mut self) -> (r: &mut Vec<SalePeriod>)
        ensures
            SalePeriod::seq_model(r@) == old(self)@.sale_period,
            final(self)@ == (AlbumModel { sale_period: SalePeriod::seq_model(final(r)@), ..old(self)@ }),
    {
        proof {
            use_type_invariant(&*self);
        }
        field_mut(&mut self.sale_period)
    }

    /// Takes the elements of field `sale_period`, leaving it empty.
    #[verifier::spinoff_prover]
    pub fn take_sale_period(&mut self) -> (r: Vec<SalePeriod>)
        ensures
            SalePeriod::seq_model(r@) == old(self)@.sale_period,
            final(self)@ == (AlbumModel { sale_period: Seq::empty(), ..old(self)@ }),
    {
        proof {
            use_type_invariant(&*self);
        }
        let mut r = Vec::new();
        std::mem::swap(&mut r, &mut self.sale_period);
        assert(SalePeriod::seq_model(self.sale_period@) =~= Seq::<SalePeriodModel>::empty());
        r
    }

    /// The elements of field `sale_period`.
    #[verifier::spinoff_prover]
    pub fn get_sale_period(&self) -> (r: &[SalePeriod])
        ensures
            SalePeriod::seq_model(r@) == self@.sale_period,
    {
        self.sale_period.as_slice()
    }

    /// Unsets field `cover_group`.
    #[verifier::spinoff_prover]
    pub fn clear_cover_group(&mut self)
        ensures
            final(self)@ == (AlbumModel { cover_group: None, ..old(self)@ }),
    {
        proof {
            use_type_invariant(&*self);
        }
        self.cover_group = Box::new(ImageGroup::new());
        self.has_cover_group = false;
    }

    /// Whether field `cover_group` is set.
    #[verifier::spinoff_prover]
    pub fn has_cover_group(&self) -> (r: bool)
        ensures
            r == self@.cover_group is Some,
    {
        self.has_cover_group
    }

    /// Sets field `cover_group` to `v`.
    #[verifier::spinoff_prover]
    pub fn set_cover_group(&mut self, v: ImageGroup)
        ensures
            final(self)@ == (AlbumModel { cover_group: Some(v@), ..old(self)@ }),
    {
        proof {
            use_type_invariant(&*self);
        }
        self.has_cover_group = true;
        self.cover_group = Box::new(v);
    }

    /// Field `cover_group`, to change in place; an unset field is first set to its default.
    #[verifier::spinoff_prover]
    pub fn mut_cover_group(&mut self) -> (r: &mut ImageGroup)
        ensures
            r@ == (match old(self)@.cover_group { Some(x) => x, None => ImageGroupModel::empty() }),
            final(self)@ == (AlbumModel { cover_group: Some(final(r)@), ..old(self)@ }),

        no_unwind
    {
        proof {
            use_type_invariant(&*self);
        }
        self.has_cover_group = true;
        box_mut(&mut self.cover_group)
    }

    /// Takes field `cover_group` (its default when unset), leaving it unset.
    #[verifier::spinoff_prover]
    pub fn take_cover_group(&mut self) -> (r: ImageGroup)
        ensures
            r@ == (match old(self)@.cover_group { Some(x) => x, None => ImageGroupModel::empty() }),
            final(self)@ == (AlbumModel { cover_group: None, ..old(self)@ }),
    {
        proof {
            use_type_invariant(&*self);
        }
        let mut b = Box::new(ImageGroup::new());
        std::mem::swap(&mut b, &mut self.cover_group);
        self.has_cover_group = false;
        *b
    }

    /// Field `cover_group`, or a message with no field set when unset.
    #[verifier::spinoff_prover]
    pub fn get_cover_group(&self) -> (r: &ImageGroup)
        ensures
            r@ == (match self@.cover_group { Some(x) => x, None => ImageGroupModel::empty() }),
    {
        proof {
            use_type_invariant(self);
        }
        &self.cover_group
    }

    /// Merges one field whose tag (number `f`, wire type `wt`) has been read
    /// from the bytes `s` that follow the tag; returns the number of bytes the
    /// value took.
    #[verifier::spinoff_prover]
    fn merge_field(&mut self, f: u32, wt: u32, s: &[u8], lim: u64) -> (r: Option<usize>)
        ensures
            match old(self)@.merge_field(f, wt, s@, lim as nat) {
                Some((m, k)) => r == Some(k as usize) && final(self)@ == m,
                None => r is None && final(self)@ == old(self)@.merge_field_failed(f, wt, s@, lim as nat),
            },
        decreases s@.len(), 1int,
    {
        proof {
            use_type_invariant(&*self);
        }
        proof {
            reveal_with_fuel(AlbumModel::merge, 1);
            reveal_with_fuel(ArtistModel::merge, 1);
            reveal_with_fuel(DiscModel::merge, 1);
        }
        if f == 1 {
            if wt != WIRE_LENGTH_DELIMITED {
                return None;
            }
            match read_bytes(s) {
                Some((v, k)) => {
                    self.gid = Some(v);
                    Some(k)
                },
                None => {
                    self.gid = Some(Vec::new());
                    None
                },
            }
        } else if f == 2 {
            if wt != WIRE_LENGTH_DELIMITED {
                return None;
            }
            match read_string(s) {
                Some((v, k)) => {
                    self.name = Some(v);
                    Some(k)
                },
                None => {
                    self.name = Some(String::new());
                    None
                },
            }
        } else if f == 3 {
            if wt != WIRE_LENGTH_DELIMITED {
                return None;
            }
            match read_embedded_window(s, lim) {
                Some((a, b, past)) => {
                    if a == 0 || a > b || b > s.len() {
                        let x = Artist::new();
                        let ghost old_v = self.artist@;
                        field_mut(&mut self.artist).push(x);
                        proof {
                            assert(self.artist@ =~= old_v.push(self.artist@.last()));
                            Artist::lemma_seq_model_push(old_v, self.artist@.last());
                        }
                        return None;
                    }
                    let sub = &s[a..b];
                    let mut x = Artist::new();
                    let ok = x.merge_from_slice(sub, past);
                    let ghost old_v = self.artist@;
                    field_mut(&mut self.artist).push(x);
                    proof {
                        assert(self.artist@ =~= old_v.push(self.artist@.last()));
                        Artist::lemma_seq_model_push(old_v, self.artist@.last());
                    }
                    if ok {
                        Some(b)
                    } else {
                        None
                    }
                },
                None => {
                    let x = Artist::new();
                    let ghost old_v = self.artist@;
                    field_mut(&mut self.artist).push(x);
                    proof {
                        assert(self.artist@ =~= old_v.push(self.artist@.last()));
                        Artist::lemma_seq_model_push(old_v, self.artist@.last());
                    }
                    None
                },
            }
        } else if f == 4 {
            if wt != WIRE_VARINT {
                return None;
            }
            proof {
                lemma_varint_parse_len(s@);
            }
            match pb_read_raw_varint64(s) {
                Some((v, k)) => match Album_Type::from_i32((v as u32) as i32) {
                    Some(e) => {
                        self.typ = Some(e);
                        Some(k)
                    },
                    None => None,
                },
                None => None,
            }
        } else if f == 5 {
            if wt != WIRE_LENGTH_DELIMITED {
                return None;
            }
            match read_string(s) {
                Some((v, k)) => {
                    self.label = Some(v);
                    Some(k)
                },
                None => {
                    self.label = Some(String::new());
                    None
                },
            }
        } else if f == 6 {
            if wt != WIRE_LENGTH_DELIMITED {
                return None;
            }
            match read_embedded_window(s, lim) {
                Some((a, b, past)) => {
                    if a == 0 || a > b || b > s.len() {
                        let x = Date::new();
                        self.has_date = true;
                        self.date = Box::new(x);
                        return None;
                    }
                    let sub = &s[a..b];
                    let mut x = Date::new();
                    let ok = x.merge_from_slice(sub, past);
                    self.has_date = true;
                    self.date = Box::new(x);
                    if ok {
                        Some(b)
                    } else {
                        None
                    }
                },
                None => {
                    let x = Date::new();
                    self.has_date = true;
                    self.date = Box::new(x);
                    None
                },
            }
        } else if f == 7 {
            if wt != WIRE_VARINT {
                return None;
            }
            match pb_read_sint32(s) {
                Some((v, k)) => {
                    self.popularity = Some(v);
                    Some(k)
                },
                None => None,
            }
        } else if f == 8 {
            if wt != WIRE_LENGTH_DELIMITED {
                return None;
            }
            match read_string(s) {
                Some((v, k)) => {
                    let ghost old_v = self.genre@;
                    field_mut(&mut self.genre).push(v);
                    assert(string_models(self.genre@) =~= string_models(old_v).push(self.genre@.last()@));
                    Some(k)
                },
                None => {
                    let ghost old_v = self.genre@;
                    field_mut(&mut self.genre).push(String::new());
                    assert(string_models(self.genre@) =~= string_models(old_v).push(Seq::<char>::empty()));
                    None
                },
            }
        } else if f == 9 {
            if wt != WIRE_LENGTH_DELIMITED {
                return None;
            }
            match read_embedded_window(s, lim) {
                Some((a, b, past)) => {
                    if a == 0 || a > b || b > s.len() {
                        let x = Image::new();
                        let ghost old_v = self.cover@;
                        field_mut(&mut self.cover).push(x);
                        assert(Image::seq_model(self.cover@) =~= Image::seq_model(old_v).push(self.cover@.last()@));
                        return None;
                    }
                    let sub = &s[a..b];
                    let mut x = Image::new();
                    let ok = x.merge_from_slice(sub, past);
                    let ghost old_v = self.cover@;
                    field_mut(&mut self.cover).push(x);
                    assert(Image::seq_model(self.cover@) =~= Image::seq_model(old_v).push(self.cover@.last()@));
                    if ok {
                        Some(b)
                    } else {
                        None
                    }
                },
                None => {
                    let x = Image::new();
                    let ghost old_v = self.cover@;
                    field_mut(&mut self.cover).push(x);
                    assert(Image::seq_model(self.cover@) =~= Image::seq_model(old_v).push(self.cover@.last()@));
                    None
                },
            }
        } else if f == 10 {
            if wt != WIRE_LENGTH_DELIMITED {
                return None;
            }
            match read_embedded_window(s, lim) {
                Some((a, b, past)) => {
                    if a == 0 || a > b || b > s.len() {
                        let x = ExternalId::new();
                        let ghost old_v = self.external_id@;
                        field_mut(&mut self.external_id).push(x);
                        assert(ExternalId::seq_model(self.external_id@) =~= ExternalId::seq_model(old_v).push(self.external_id@.last()@));
                        return None;
                    }
                    let sub = &s[a..b];
                    let mut x = ExternalId::new();
                    let ok = x.merge_from_slice(sub, past);
                    let ghost old_v = self.external_id@;
                    field_mut(&mut self.external_id).push(x);
                    assert(ExternalId::seq_model(self.external_id@) =~= ExternalId::seq_model(old_v).push(self.external_id@.last()@));
                    if ok {
                        Some(b)
                    } else {
                        None
                    }
                },
                None => {
                    let x = ExternalId::new();
                    let ghost old_v = self.external_id@;
                    field_mut(&mut self.external_id).push(x);
                    assert(ExternalId::seq_model(self.external_id@) =~= ExternalId::seq_model(old_v).push(self.external_id@.last()@));
                    None
                },
            }
        } else if f == 11 {
            if wt != WIRE_LENGTH_DELIMITED {
                return None;
            }
            match read_embedded_window(s, lim) {
                Some((a, b, past)) => {
                    if a == 0 || a > b || b > s.len() {
                        let x = Disc::new();
                        let ghost old_v = self.disc@;
                        field_mut(&mut self.disc).push(x);
                        proof {
                            assert(self.disc@ =~= old_v.push(self.disc@.last()));
                            Disc::lemma_seq_model_push(old_v, self.disc@.last());
                        }
                        return None;
                    }
                    let sub = &s[a..b];
                    let mut x = Disc::new();
                    let ok = x.merge_from_slice(sub, past);
                    let ghost old_v = self.disc@;
                    field_mut(&mut self.disc).push(x);
                    proof {
                        assert(self.disc@ =~= old_v.push(self.disc@.last()));
                        Disc::lemma_seq_model_push(old_v, self.disc@.last());
                    }
                    if ok {
                        Some(b)
                    } else {
                        None
                    }
                },
                None => {
                    let x = Disc::new();
                    let ghost old_v = self.disc@;
                    field_mut(&mut self.disc).push(x);
                    proof {
                        assert(self.disc@ =~= old_v.push(self.disc@.last()));
                        Disc::lemma_seq_model_push(old_v, self.disc@.last());
                    }
                    None
                },
            }
        } else if f == 12 {
            if wt != WIRE_LENGTH_DELIMITED {
                return None;
            }
            match read_string(s) {
                Some((v, k)) => {
                    let ghost old_v = self.review@;
                    field_mut(&mut self.review).push(v);
                    assert(string_models(self.review@) =~= string_models(old_v).push(self.review@.last()@));
                    Some(k)
                },
                None => {
                    let ghost old_v = self.review@;
                    field_mut(&mut self.review).push(String::new());
                    assert(string_models(self.review@) =~= string_models(old_v).push(Seq::<char>::empty()));
                    None
                },
            }
        } else if f == 13 {
            if wt != WIRE_LENGTH_DELIMITED {
                return None;
            }
            match read_embedded_window(s, lim) {
                Some((a, b, past)) => {
                    if a == 0 || a > b || b > s.len() {
                        let x = Copyright::new();
                        let ghost old_v = self.copyright@;
                        field_mut(&mut self.copyright).push(x);
                        assert(Copyright::seq_model(self.copyright@) =~= Copyright::seq_model(old_v).push(self.copyright@.last()@));
                        return None;
                    }
                    let sub = &s[a..b];
                    let mut x = Copyright::new();
                    let ok = x.merge_from_slice(sub, past);
                    let ghost old_v = self.copyright@;
                    field_mut(&mut self.copyright).push(x);
                    assert(Copyright::seq_model(self.copyright@) =~= Copyright::seq_model(old_v).push(self.copyright@.last()@));
                    if ok {
                        Some(b)
                    } else {
                        None
                    }
                },
                None => {
                    let x = Copyright::new();
                    let ghost old_v = self.copyright@;
                    field_mut(&mut self.copyright).push(x);
                    assert(Copyright::seq_model(self.copyright@) =~= Copyright::seq_model(old_v).push(self.copyright@.last()@));
                    None
                },
            }
        } else if f == 14 {
            if wt != WIRE_LENGTH_DELIMITED {
                return None;
            }
            match read_embedded_window(s, lim) {
                Some((a, b, past)) => {
                    if a == 0 || a > b || b > s.len() {
                        let x = Restriction::new();
                        let ghost old_v = self.restriction@;
                        field_mut(&mut self.restriction).push(x);
                        assert(Restriction::seq_model(self.restriction@) =~= Restriction::seq_model(old_v).push(self.restriction@.last()@));
                        return None;
                    }
                    let sub = &s[a..b];
                    let mut x = Restriction::new();
                    let ok = x.merge_from_slice(sub, past);
                    let ghost old_v = self.restriction@;
                    field_mut(&mut self.restriction).push(x);
                    assert(Restriction::seq_model(self.restriction@) =~= Restriction::seq_model(old_v).push(self.restriction@.last()@));
                    if ok {
                        Some(b)
                    } else {
                        None
                    }
                },
                None => {
                    let x = Restriction::new();
                    let ghost old_v = self.restriction@;
                    field_mut(&mut self.restriction).push(x);
                    assert(Restriction::seq_model(self.restriction@) =~= Restriction::seq_model(old_v).push(self.restriction@.last()@));
                    None
                },
            }
        } else if f == 15 {
            if wt != WIRE_LENGTH_DELIMITED {
                return None;
            }
            match read_embedded_window(s, lim) {
                Some((a, b, past)) => {
                    if a == 0 || a > b || b > s.len() {
                        let x = Album::new();
                        let ghost old_v = self.related@;
                        field_mut(&mut self.related).push(x);
                        proof {
                            assert(self.related@ =~= old_v.push(self.related@.last()));
                            Album::lemma_seq_model_push(old_v, self.related@.last());
                        }
                        return None;
                    }
                    let sub = &s[a..b];
                    let mut x = Album::new();
                    let ok = x.merge_from_slice(sub, past);
                    let ghost old_v = self.related@;
                    field_mut(&mut self.related).push(x);
                    proof {
                        assert(self.related@ =~= old_v.push(self.related@.last()));
                        Album::lemma_seq_model_push(old_v, self.related@.last());
                    }
                    if ok {
                        Some(b)
                    } else {
                        None
                    }
                },
                None => {
                    let x = Album::new();
                    let ghost old_v = self.related@;
                    field_mut(&mut self.related).push(x);
                    proof {
                        assert(self.related@ =~= old_v.push(self.related@.last()));
                        Album::lemma_seq_model_push(old_v, self.related@.last());
                    }
                    None
                },
            }
        } else if f == 16 {
            if wt != WIRE_LENGTH_DELIMITED {
                return None;
            }
            match read_embedded_window(s, lim) {
                Some((a, b, past)) => {
                    if a == 0 || a > b || b > s.len() {
                        let x = SalePeriod::new();
                        let ghost old_v = self.sale_period@;
                        field_mut(&mut self.sale_period).push(x);
                        assert(SalePeriod::seq_model(self.sale_period@) =~= SalePeriod::seq_model(old_v).push(self.sale_period@.last()@));
                        return None;
                    }
                    let sub = &s[a..b];
                    let mut x = SalePeriod::new();
                    let ok = x.merge_from_slice(sub, past);
                    let ghost old_v = self.sale_period@;
                    field_mut(&mut self.sale_period).push(x);
                    assert(SalePeriod::seq_model(self.sale_period@) =~= SalePeriod::seq_model(old_v).push(self.sale_period@.last()@));
                    if ok {
                        Some(b)
                    } else {
                        None
                    }
                },
                None => {
                    let x = SalePeriod::new();
                    let ghost old_v = self.sale_period@;
                    field_mut(&mut self.sale_period).push(x);
                    assert(SalePeriod::seq_model(self.sale_period@) =~= SalePeriod::seq_model(old_v).push(self.sale_period@.last()@));
                    None
                },
            }
        } else if f == 17 {
            if wt != WIRE_LENGTH_DELIMITED {
                return None;
            }
            match read_embedded_window(s, lim) {
                Some((a, b, past)) => {
                    if a == 0 || a > b || b > s.len() {
                        let x = ImageGroup::new();
                        self.has_cover_group = true;
                        self.cover_group = Box::new(x);
                        return None;
                    }
                    let sub = &s[a..b];
                    let mut x = ImageGroup::new();
                    let ok = x.merge_from_slice(sub, past);
                    self.has_cover_group = true;
                    self.cover_group = Box::new(x);
                    if ok {
                        Some(b)
                    } else {
                        None
                    }
                },
                None => {
                    let x = ImageGroup::new();
                    self.has_cover_group = true;
                    self.cover_group = Box::new(x);
                    None
                },
            }
        } else {
            match read_unknown(f, wt, s) {
                Some((Some(u), k)) => {
                    insert_unknown(field_mut(&mut self.unknown_fields), u);
                    Some(k)
                },
                Some((None, k)) => Some(k),
                None => None,
            }
        }
    }

    /// Merges all the fields that `s` holds, in order; `false` when the bytes
    /// are not a valid encoding (the message then holds what was merged so far).
    #[verifier::spinoff_prover]
    #[verifier::rlimit(100)]
    fn merge_from_slice(&mut self, s: &[u8], lim: u64) -> (ok: bool)
        ensures
            match old(self)@.merge(s@, lim as nat) {
                Some(m) => ok && final(self)@ == m,
                None => !ok && final(self)@ == old(self)@.merge_partial(s@, lim as nat),
            },
        decreases s@.len(), 2int,
    {
        proof {
            reveal_with_fuel(AlbumModel::merge, 1);
            reveal_with_fuel(AlbumModel::merge_partial, 1);
        }
        let mut pos: usize = 0;
        assert(s@.skip(0) =~= s@);
        while pos < s.len()
            invariant
                pos <= s.len(),
                old(self)@.merge(s@, lim as nat) == self@.merge(s@.skip(pos as int), lim as nat),
                old(self)@.merge_partial(s@, lim as nat) == self@.merge_partial(s@.skip(pos as int), lim as nat),
            decreases s.len() - pos,
        {
            let rest = &s[pos..s.len()];
            assert(rest@ == s@.skip(pos as int));
            proof {
                reveal_with_fuel(AlbumModel::merge, 1);
                reveal_with_fuel(AlbumModel::merge_partial, 1);
                lemma_tag_parse_len(rest@);
            }
            match pb_read_tag_unpack(rest) {
                None => {
                    return false;
                },
                Some((f, wt, n)) => {
                    if n == 0 || n > rest.len() {
                        return false;
                    }
                    let rest2 = &rest[n..rest.len()];
                    assert(rest2@ == rest@.skip(n as int));
                    proof {
                        self@.lemma_merge_field_len(f, wt, rest2@, lim as nat);
                    }
                    match self.merge_field(f, wt, rest2, lim) {
                        None => {
                            return false;
                        },
                        Some(k) => {
                            if k > rest2.len() {
                                return false;
                            }
                            assert(rest@.skip((n + k) as int) =~= s@.skip((pos + n + k) as int));
                            pos = pos + n + k;
                        },
                    }
                },
            }
        }
        assert(s@.skip(pos as int) =~= Seq::<u8>::empty());
        proof {
            reveal_with_fuel(AlbumModel::merge, 1);
        }
        true
    }

    /// The message that `s` encodes, if it is a valid encoding.
    #[verifier::spinoff_prover]
    fn parse_slice(s: &[u8], lim: u64) -> (r: Option<Self>)
        ensures
            match AlbumModel::empty().merge(s@, lim as nat) {
                Some(m) => r matches Some(x) && x@ == m,
                None => r is None,
            },
        decreases s@.len(), 3int,
    {
        let mut m = Album::new();
        if m.merge_from_slice(s, lim) {
            Some(m)
        } else {
            None
        }
    }

    /// Merges the fields that `bytes` encodes into this message, in order: a set
    /// field is replaced, a repeated field grows. On an invalid encoding the
    /// error comes back, the fields merged before the first field that could not
    /// be read stay merged, and that field is left as `merge_field_failed` says.
    #[verifier::spinoff_prover]
    pub fn merge_from_bytes(&mut self, bytes: &[u8]) -> (r: Result<(), DecodeError>)
        ensures
            match old(self)@.merge(bytes@, top_limit(bytes@.len())) {
                Some(m) => r is Ok && final(self)@ == m,
                None => r is Err && final(self)@ == old(self)@.merge_partial(bytes@, top_limit(bytes@.len())),
            },
    {
        let lim: u64 = u64::MAX - bytes.len() as u64;
        if self.merge_from_slice(bytes, lim) {
            Ok(())
        } else {
            Err(DecodeError)
        }
    }

    /// Parses a message from its encoding.
    #[verifier::spinoff_prover]
    pub fn parse_from_bytes(bytes: &[u8]) -> (r: Result<Self, DecodeError>)
        ensures
            match AlbumModel::empty().merge(bytes@, top_limit(bytes@.len())) {
                Some(m) => r matches Ok(x) && x@ == m,
                None => r is Err,
            },
    {
        let lim: u64 = u64::MAX - bytes.len() as u64;
        match Self::parse_slice(bytes, lim) {
            Some(m) => Ok(m),
            None => Err(DecodeError),
        }
    }

    /// Appends the encoding of field `gid` to `out`.
    #[verifier::spinoff_prover]
    fn write_field_gid(&self, out: &mut Vec<u8>)
        requires
            self@.wf(),
        ensures
            final(out)@ == old(out)@ + opt_length_delimited_field_bytes(1, self@.gid),
            final(out)@ + self@.encoded_from_name() == old(out)@ + self@.encoded_from_gid(),
    {
        proof {
            use_type_invariant(self);
        }
        proof {
            reveal_with_fuel(AlbumModel::wf, 1);
        }
        let ghost o = out@;
        let ghost m = self@;
        match &self.gid {
            Some(v) => {
                pb_write_tag(out, 1, WIRE_LENGTH_DELIMITED);
                write_bytes_value(out, v.as_slice());
                proof {
                    lemma_concat_assoc(o, tag_bytes(1, WIRE_LENGTH_DELIMITED), bytes_value_bytes(v@));
                }
            },
            None => {
                assert(o + Seq::<u8>::empty() =~= o);
            },
        }
        proof {
            lemma_concat_assoc(o, opt_length_delimited_field_bytes(1, m.gid), m.encoded_from_name());
        }
    }

    /// Appends the encoding of field `name` to `out`.
    #[verifier::spinoff_prover]
    fn write_field_name(&self, out: &mut Vec<u8>)
        requires
            self@.wf(),
        ensures
            final(out)@ == old(out)@ + opt_length_delimited_field_bytes(2, match self@.name { Some(c) => Some(encode_utf8(c)), None => None }),
            final(out)@ + self@.encoded_from_artist() == old(out)@ + self@.encoded_from_name(),
    {
        proof {
            use_type_invariant(self);
        }
        proof {
            reveal_with_fuel(AlbumModel::wf, 1);
        }
        let ghost o = out@;
        let ghost m = self@;
        match &self.name {
            Some(v) => {
                pb_write_tag(out, 2, WIRE_LENGTH_DELIMITED);
                write_string_value(out, v.as_str());
                proof {
                    lemma_concat_assoc(o, tag_bytes(2, WIRE_LENGTH_DELIMITED), bytes_value_bytes(encode_utf8(v@)));
                }
            },
            None => {
                assert(o + Seq::<u8>::empty() =~= o);
            },
        }
        proof {
            lemma_concat_assoc(o, opt_length_delimited_field_bytes(2, match m.name { Some(c) => Some(encode_utf8(c)), None => None }), m.encoded_from_artist());
        }
    }

    /// Appends the encoding of field `artist` to `out`.
    #[verifier::spinoff_prover]
    fn write_field_artist(&self, out: &mut Vec<u8>)
        requires
            self@.wf(),
        ensures
            final(out)@ == old(out)@ + ArtistModel::list_bytes(3, self@.artist),
            final(out)@ + self@.encoded_from_typ() == old(out)@ + self@.encoded_from_artist(),
        decreases self, 1int,
    {
        proof {
            use_type_invariant(self);
        }
        proof {
            reveal_with_fuel(AlbumModel::wf, 1);
        }
        let ghost o = out@;
        let ghost m = self@;
        proof {
            Artist::lemma_seq_model(self.artist@);
        }
        let ghost w = ArtistModel::encodings(m.artist);
        assert(w.subrange(0, w.len() as int) =~= w);
        assert(o + Seq::<u8>::empty() =~= o);
        let mut i: usize = 0;
        while i < self.artist.len()
            invariant
                i <= self.artist.len(),
                self@ == m,
                m.wf(),
                w.len() == self.artist@.len(),
                w == ArtistModel::encodings(m.artist),
                o + length_delimited_list_bytes(3, w) == out@ + length_delimited_list_bytes(3, w.subrange(i as int, w.len() as int)),
            decreases self.artist.len() - i,
        {
            proof {
                reveal_with_fuel(AlbumModel::wf, 1);
                Artist::lemma_seq_model(self.artist@);
                ArtistModel::lemma_writable_list(m.artist);
                lemma_length_delimited_list_cons(3, w.subrange(i as int, w.len() as int));
                assert(m.artist[i as int] == self.artist@[i as int]@);
                assert(m.artist[i as int].wf());
                assert(w.subrange(i as int, w.len() as int)[0] == w[i as int]);
                assert(w.subrange(i as int, w.len() as int).subrange(1, w.len() - i) =~= w.subrange(i + 1, w.len() as int));
            }
            let ghost before = out@;
            let mut tmp: Vec<u8> = Vec::new();
            self.artist[i].write_to(&mut tmp);
            assert(tmp@ =~= w[i as int]);
            pb_write_tag(out, 3, WIRE_LENGTH_DELIMITED);
            write_bytes_value(out, tmp.as_slice());
            proof {
                lemma_write_list_step(before, tag_bytes(3, WIRE_LENGTH_DELIMITED), bytes_value_bytes(w[i as int]), length_delimited_list_bytes(3, w.subrange(i + 1, w.len() as int)), Seq::<u8>::empty());
                assert(length_delimited_list_bytes(3, w.subrange(i + 1, w.len() as int)) + Seq::<u8>::empty() =~= length_delimited_list_bytes(3, w.subrange(i + 1, w.len() as int)));
                assert(tag_bytes(3, WIRE_LENGTH_DELIMITED) + (bytes_value_bytes(w[i as int]) + length_delimited_list_bytes(3, w.subrange(i + 1, w.len() as int))) + Seq::<u8>::empty() =~= tag_bytes(3, WIRE_LENGTH_DELIMITED) + (bytes_value_bytes(w[i as int]) + length_delimited_list_bytes(3, w.subrange(i + 1, w.len() as int))));
            }
            i = i + 1;
        }
        assert(w.subrange(i as int, w.len() as int) =~= Seq::<Seq<u8>>::empty());
        assert(out@ + Seq::<u8>::empty() =~= out@);
        proof {
            ArtistModel::lemma_list_bytes(3, m.artist);
            lemma_concat_assoc(o, ArtistModel::list_bytes(3, m.artist), m.encoded_from_typ());
        }
    }

    /// Appends the encoding of field `typ` to `out`.
    #[verifier::spinoff_prover]
    fn write_field_typ(&self, out: &mut Vec<u8>)
        requires
            self@.wf(),
        ensures
            final(out)@ == old(out)@ + opt_varint_field_bytes(4, match self@.typ { Some(x) => Some(int32_varint(x.spec_value())), None => None }),
            final(out)@ + self@.encoded_from_label() == old(out)@ + self@.encoded_from_typ(),
    {
        proof {
            use_type_invariant(self);
        }
        proof {
            reveal_with_fuel(AlbumModel::wf, 1);
        }
        let ghost o = out@;
        let ghost m = self@;
        match self.typ {
            Some(x) => {
                pb_write_tag(out, 4, WIRE_VARINT);
                pb_write_raw_varint64(out, x.value() as u64);
                proof {
                    lemma_concat_assoc(o, tag_bytes(4, WIRE_VARINT), varint_bytes(int32_varint(x.spec_value())));
                }
            },
            None => {
                assert(o + Seq::<u8>::empty() =~= o);
            },
        }
        proof {
            lemma_concat_assoc(o, opt_varint_field_bytes(4, match m.typ { Some(x) => Some(int32_varint(x.spec_value())), None => None }), m.encoded_from_label());
        }
    }

    /// Appends the encoding of field `label` to `out`.
    #[verifier::spinoff_prover]
    fn write_field_label(&self, out: &mut Vec<u8>)
        requires
            self@.wf(),
        ensures
            final(out)@ == old(out)@ + opt_length_delimited_field_bytes(5, match self@.label { Some(c) => Some(encode_utf8(c)), None => None }),
            final(out)@ + self@.encoded_from_date() == old(out)@ + self@.encoded_from_label(),
    {
        proof {
            use_type_invariant(self);
        }
        proof {
            reveal_with_fuel(AlbumModel::wf, 1);
        }
        let ghost o = out@;
        let ghost m = self@;
        match &self.label {
            Some(v) => {
                pb_write_tag(out, 5, WIRE_LENGTH_DELIMITED);
                write_string_value(out, v.as_str());
                proof {
                    lemma_concat_assoc(o, tag_bytes(5, WIRE_LENGTH_DELIMITED), bytes_value_bytes(encode_utf8(v@)));
                }
            },
            None => {
                assert(o + Seq::<u8>::empty() =~= o);
            },
        }
        proof {
            lemma_concat_assoc(o, opt_length_delimited_field_bytes(5, match m.label { Some(c) => Some(encode_utf8(c)), None => None }), m.encoded_from_date());
        }
    }

    /// Appends the encoding of field `date` to `out`.
    #[verifier::spinoff_prover]
    fn write_field_date(&self, out: &mut Vec<u8>)
        requires
            self@.wf(),
        ensures
            final(out)@ == old(out)@ + opt_length_delimited_field_bytes(6, match self@.date { Some(m) => Some(m.to_bytes()), None => None }),
            final(out)@ + self@.encoded_from_popularity() == old(out)@ + self@.encoded_from_date(),
    {
        proof {
            use_type_invariant(self);
        }
        proof {
            reveal_with_fuel(AlbumModel::wf, 1);
        }
        let ghost o = out@;
        let ghost m = self@;
        if self.has_date {
            let mut tmp: Vec<u8> = Vec::new();
            self.date.write_to(&mut tmp);
            assert(tmp@ =~= m.date.unwrap().to_bytes());
            pb_write_tag(out, 6, WIRE_LENGTH_DELIMITED);
            write_bytes_value(out, tmp.as_slice());
            proof {
                lemma_concat_assoc(o, tag_bytes(6, WIRE_LENGTH_DELIMITED), bytes_value_bytes(tmp@));
            }
        } else {
            assert(o + Seq::<u8>::empty() =~= o);
        }
        proof {
            lemma_concat_assoc(o, opt_length_delimited_field_bytes(6, match m.date { Some(m) => Some(m.to_bytes()), None => None }), m.encoded_from_popularity());
        }
    }

    /// Appends the encoding of field `popularity` to `out`.
    #[verifier::spinoff_prover]
    fn write_field_popularity(&self, out: &mut Vec<u8>)
        requires
            self@.wf(),
        ensures
            final(out)@ == old(out)@ + opt_varint_field_bytes(7, match self@.popularity { Some(x) => Some(zigzag_encode32(x) as u64), None => None }),
            final(out)@ + self@.encoded_from_genre() == old(out)@ + self@.encoded_from_popularity(),
    {
        proof {
            use_type_invariant(self);
        }
        proof {
            reveal_with_fuel(AlbumModel::wf, 1);
        }
        let ghost o = out@;
        let ghost m = self@;
        match self.popularity {
            Some(x) => {
                pb_write_tag(out, 7, WIRE_VARINT);
                pb_write_sint32_no_tag(out, x);
                proof {
                    lemma_concat_assoc(o, tag_bytes(7, WIRE_VARINT), varint_bytes(zigzag_encode32(x) as u64));
                }
            },
            None => {
                assert(o + Seq::<u8>::empty() =~= o);
            },
        }
        proof {
            lemma_concat_assoc(o, opt_varint_field_bytes(7, match m.popularity { Some(x) => Some(zigzag_encode32(x) as u64), None => None }), m.encoded_from_genre());
        }
    }

    /// Appends the encoding of field `genre` to `out`.
    #[verifier::spinoff_prover]
    fn write_field_genre(&self, out: &mut Vec<u8>)
        requires
            self@.wf(),
        ensures
            final(out)@ == old(out)@ + length_delimited_list_bytes(8, utf8_encodings(self@.genre)),
            final(out)@ + self@.encoded_from_cover() == old(out)@ + self@.encoded_from_genre(),
    {
        proof {
            use_type_invariant(self);
        }
        proof {
            reveal_with_fuel(AlbumModel::wf, 1);
        }
        let ghost o = out@;
        let ghost m = self@;
        let ghost w = utf8_encodings(m.genre);
        assert(w.subrange(0, w.len() as int) =~= w);
        assert(o + Seq::<u8>::empty() =~= o);
        let mut i: usize = 0;
        while i < self.genre.len()
            invariant
                i <= self.genre.len(),
                self@ == m,
                m.wf(),
                w.len() == self.genre@.len(),
                w == utf8_encodings(m.genre),
                o + length_delimited_list_bytes(8, w) == out@ + length_delimited_list_bytes(8, w.subrange(i as int, w.len() as int)),
            decreases self.genre.len() - i,
        {
            proof {
                reveal_with_fuel(AlbumModel::wf, 1);
                lemma_length_delimited_list_cons(8, w.subrange(i as int, w.len() as int));
                assert(m.genre[i as int] == self.genre@[i as int]@);
                assert(fits_u32(w[i as int]));
                assert(w.subrange(i as int, w.len() as int)[0] == w[i as int]);
                assert(w.subrange(i as int, w.len() as int).subrange(1, w.len() - i) =~= w.subrange(i + 1, w.len() as int));
            }
            let ghost before = out@;
            pb_write_tag(out, 8, WIRE_LENGTH_DELIMITED);
            write_string_value(out, self.genre[i].as_str());
            proof {
                lemma_write_list_step(before, tag_bytes(8, WIRE_LENGTH_DELIMITED), bytes_value_bytes(w[i as int]), length_delimited_list_bytes(8, w.subrange(i + 1, w.len() as int)), Seq::<u8>::empty());
                assert(length_delimited_list_bytes(8, w.subrange(i + 1, w.len() as int)) + Seq::<u8>::empty() =~= length_delimited_list_bytes(8, w.subrange(i + 1, w.len() as int)));
                assert(tag_bytes(8, WIRE_LENGTH_DELIMITED) + (bytes_value_bytes(w[i as int]) + length_delimited_list_bytes(8, w.subrange(i + 1, w.len() as int))) + Seq::<u8>::empty() =~= tag_bytes(8, WIRE_LENGTH_DELIMITED) + (bytes_value_bytes(w[i as int]) + length_delimited_list_bytes(8, w.subrange(i + 1, w.len() as int))));
            }
            i = i + 1;
        }
        assert(w.subrange(i as int, w.len() as int) =~= Seq::<Seq<u8>>::empty());
        assert(out@ + Seq::<u8>::empty() =~= out@);
        proof {
            lemma_concat_assoc(o, length_delimited_list_bytes(8, utf8_encodings(m.genre)), m.encoded_from_cover());
        }
    }

    /// Appends the encoding of field `cover` to `out`.
    #[verifier::spinoff_prover]
    fn write_field_cover(&self, out: &mut Vec<u8>)
        requires
            self@.wf(),
        ensures
            final(out)@ == old(out)@ + length_delimited_list_bytes(9, ImageModel::encodings(self@.cover)),
            final(out)@ + self@.encoded_from_external_id() == old(out)@ + self@.encoded_from_cover(),
    {
        proof {
            use_type_invariant(self);
        }
        proof {
            reveal_with_fuel(AlbumModel::wf, 1);
        }
        let ghost o = out@;
        let ghost m = self@;
        let ghost w = ImageModel::encodings(m.cover);
        assert(w.subrange(0, w.len() as int) =~= w);
        assert(o + Seq::<u8>::empty() =~= o);
        let mut i: usize = 0;
        while i < self.cover.len()
            invariant
                i <= self.cover.len(),
                self@ == m,
                m.wf(),
                w.len() == self.cover@.len(),
                w == ImageModel::encodings(m.cover),
                o + length_delimited_list_bytes(9, w) == out@ + length_delimited_list_bytes(9, w.subrange(i as int, w.len() as int)),
            decreases self.cover.len() - i,
        {
            proof {
                reveal_with_fuel(AlbumModel::wf, 1);
                lemma_length_delimited_list_cons(9, w.subrange(i as int, w.len() as int));
                assert(m.cover[i as int] == self.cover@[i as int]@);
                assert(m.cover[i as int].wf());
                assert(w.subrange(i as int, w.len() as int)[0] == w[i as int]);
                assert(w.subrange(i as int, w.len() as int).subrange(1, w.len() - i) =~= w.subrange(i + 1, w.len() as int));
            }
            let ghost before = out@;
            let mut tmp: Vec<u8> = Vec::new();
            self.cover[i].write_to(&mut tmp);
            assert(tmp@ =~= w[i as int]);
            pb_write_tag(out, 9, WIRE_LENGTH_DELIMITED);
            write_bytes_value(out, tmp.as_slice());
            proof {
                lemma_write_list_step(before, tag_bytes(9, WIRE_LENGTH_DELIMITED), bytes_value_bytes(w[i as int]), length_delimited_list_bytes(9, w.subrange(i + 1, w.len() as int)), Seq::<u8>::empty());
                assert(length_delimited_list_bytes(9, w.subrange(i + 1, w.len() as int)) + Seq::<u8>::empty() =~= length_delimited_list_bytes(9, w.subrange(i + 1, w.len() as int)));
                assert(tag_bytes(9, WIRE_LENGTH_DELIMITED) + (bytes_value_bytes(w[i as int]) + length_delimited_list_bytes(9, w.subrange(i + 1, w.len() as int))) + Seq::<u8>::empty() =~= tag_bytes(9, WIRE_LENGTH_DELIMITED) + (bytes_value_bytes(w[i as int]) + length_delimited_list_bytes(9, w.subrange(i + 1, w.len() as int))));
            }
            i = i + 1;
        }
        assert(w.subrange(i as int, w.len() as int) =~= Seq::<Seq<u8>>::empty());
        assert(out@ + Seq::<u8>::empty() =~= out@);
        proof {
            lemma_concat_assoc(o, length_delimited_list_bytes(9, ImageModel::encodings(m.cover)), m.encoded_from_external_id());
        }
    }

    /// Appends the encoding of field `external_id` to `out`.
    #[verifier::spinoff_prover]
    fn write_field_external_id(&self, out: &mut Vec<u8>)
        requires
            self@.wf(),
        ensures
            final(out)@ == old(out)@ + length_delimited_list_bytes(10, ExternalIdModel::encodings(self@.external_id)),
            final(out)@ + self@.encoded_from_disc() == old(out)@ + self@.encoded_from_external_id(),
    {
        proof {
            use_type_invariant(self);
        }
        proof {
            reveal_with_fuel(AlbumModel::wf, 1);
        }
        let ghost o = out@;
        let ghost m = self@;
        let ghost w = ExternalIdModel::encodings(m.external_id);
        assert(w.subrange(0, w.len() as int) =~= w);
        assert(o + Seq::<u8>::empty() =~= o);
        let mut i: usize = 0;
        while i < self.external_id.len()
            invariant
                i <= self.external_id.len(),
                self@ == m,
                m.wf(),
                w.len() == self.external_id@.len(),
                w == ExternalIdModel::encodings(m.external_id),
                o + length_delimited_list_bytes(10, w) == out@ + length_delimited_list_bytes(10, w.subrange(i as int, w.len() as int)),
            decreases self.external_id.len() - i,
        {
            proof {
                reveal_with_fuel(AlbumModel::wf, 1);
                lemma_length_delimited_list_cons(10, w.subrange(i as int, w.len() as int));
                assert(m.external_id[i as int] == self.external_id@[i as int]@);
                assert(m.external_id[i as int].wf());
                assert(w.subrange(i as int, w.len() as int)[0] == w[i as int]);
                assert(w.subrange(i as int, w.len() as int).subrange(1, w.len() - i) =~= w.subrange(i + 1, w.len() as int));
            }
            let ghost before = out@;
            let mut tmp: Vec<u8> = Vec::new();
            self.external_id[i].write_to(&mut tmp);
            assert(tmp@ =~= w[i as int]);
            pb_write_tag(out, 10, WIRE_LENGTH_DELIMITED);
            write_bytes_value(out, tmp.as_slice());
            proof {
                lemma_write_list_step(before, tag_bytes(10, WIRE_LENGTH_DELIMITED), bytes_value_bytes(w[i as int]), length_delimited_list_bytes(10, w.subrange(i + 1, w.len() as int)), Seq::<u8>::empty());
                assert(length_delimited_list_bytes(10, w.subrange(i + 1, w.len() as int)) + Seq::<u8>::empty() =~= length_delimited_list_bytes(10, w.subrange(i + 1, w.len() as int)));
                assert(tag_bytes(10, WIRE_LENGTH_DELIMITED) + (bytes_value_bytes(w[i as int]) + length_delimited_list_bytes(10, w.subrange(i + 1, w.len() as int))) + Seq::<u8>::empty() =~= tag_bytes(10, WIRE_LENGTH_DELIMITED) + (bytes_value_bytes(w[i as int]) + length_delimited_list_bytes(10, w.subrange(i + 1, w.len() as int))));
            }
            i = i + 1;
        }
        assert(w.subrange(i as int, w.len() as int) =~= Seq::<Seq<u8>>::empty());
        assert(out@ + Seq::<u8>::empty() =~= out@);
        proof {
            lemma_concat_assoc(o, length_delimited_list_bytes(10, ExternalIdModel::encodings(m.external_id)), m.encoded_from_disc());
        }
    }

    /// Appends the encoding of field `disc` to `out`.
    #[verifier::spinoff_prover]
    fn write_field_disc(&self, out: &mut Vec<u8>)
        requires
            self@.wf(),
        ensures
            final(out)@ == old(out)@ + DiscModel::list_bytes(11, self@.disc),
            final(out)@ + self@.encoded_from_review() == old(out)@ + self@.encoded_from_disc(),
        decreases self, 1int,
    {
        proof {
            use_type_invariant(self);
        }
        proof {
            reveal_with_fuel(AlbumModel::wf, 1);
        }
        let ghost o = out@;
        let ghost m = self@;
        proof {
            Disc::lemma_seq_model(self.disc@);
        }
        let ghost w = DiscModel::encodings(m.disc);
        assert(w.subrange(0, w.len() as int) =~= w);
        assert(o + Seq::<u8>::empty() =~= o);
        let mut i: usize = 0;
        while i < self.disc.len()
            invariant
                i <= self.disc.len(),
                self@ == m,
                m.wf(),
                w.len() == self.disc@.len(),
                w == DiscModel::encodings(m.disc),
                o + length_delimited_list_bytes(11, w) == out@ + length_delimited_list_bytes(11, w.subrange(i as int, w.len() as int)),
            decreases self.disc.len() - i,
        {
            proof {
                reveal_with_fuel(AlbumModel::wf, 1);
                Disc::lemma_seq_model(self.disc@);
                DiscModel::lemma_writable_list(m.disc);
                lemma_length_delimited_list_cons(11, w.subrange(i as int, w.len() as int));
                assert(m.disc[i as int] == self.disc@[i as int]@);
                assert(m.disc[i as int].wf());
                assert(w.subrange(i as int, w.len() as int)[0] == w[i as int]);
                assert(w.subrange(i as int, w.len() as int).subrange(1, w.len() - i) =~= w.subrange(i + 1, w.len() as int));
            }
            let ghost before = out@;
            let mut tmp: Vec<u8> = Vec::new();
            self.disc[i].write_to(&mut tmp);
            assert(tmp@ =~= w[i as int]);
            pb_write_tag(out, 11, WIRE_LENGTH_DELIMITED);
            write_bytes_value(out, tmp.as_slice());
            proof {
                lemma_write_list_step(before, tag_bytes(11, WIRE_LENGTH_DELIMITED), bytes_value_bytes(w[i as int]), length_delimited_list_bytes(11, w.subrange(i + 1, w.len() as int)), Seq::<u8>::empty());
                assert(length_delimited_list_bytes(11, w.subrange(i + 1, w.len() as int)) + Seq::<u8>::empty() =~= length_delimited_list_bytes(11, w.subrange(i + 1, w.len() as int)));
                assert(tag_bytes(11, WIRE_LENGTH_DELIMITED) + (bytes_value_bytes(w[i as int]) + length_delimited_list_bytes(11, w.subrange(i + 1, w.len() as int))) + Seq::<u8>::empty() =~= tag_bytes(11, WIRE_LENGTH_DELIMITED) + (bytes_value_bytes(w[i as int]) + length_delimited_list_bytes(11, w.subrange(i + 1, w.len() as int))));
            }
            i = i + 1;
        }
        assert(w.subrange(i as int, w.len() as int) =~= Seq::<Seq<u8>>::empty());
        assert(out@ + Seq::<u8>::empty() =~= out@);
        proof {
            DiscModel::lemma_list_bytes(11, m.disc);
            lemma_concat_assoc(o, DiscModel::list_bytes(11, m.disc), m.encoded_from_review());
        }
    }

    /// Appends the encoding of field `review` to `out`.
    #[verifier::spinoff_prover]
    fn write_field_review(&self, out: &mut Vec<u8>)
        requires
            self@.wf(),
        ensures
            final(out)@ == old(out)@ + length_delimited_list_bytes(12, utf8_encodings(self@.review)),
            final(out)@ + self@.encoded_from_copyright() == old(out)@ + self@.encoded_from_review(),
    {
        proof {
            use_type_invariant(self);
        }
        proof {
            reveal_with_fuel(AlbumModel::wf, 1);
        }
        let ghost o = out@;
        let ghost m = self@;
        let ghost w = utf8_encodings(m.review);
        assert(w.subrange(0, w.len() as int) =~= w);
        assert(o + Seq::<u8>::empty() =~= o);
        let mut i: usize = 0;
        while i < self.review.len()
            invariant
                i <= self.review.len(),
                self@ == m,
                m.wf(),
                w.len() == self.review@.len(),
                w == utf8_encodings(m.review),
                o + length_delimited_list_bytes(12, w) == out@ + length_delimited_list_bytes(12, w.subrange(i as int, w.len() as int)),
            decreases self.review.len() - i,
        {
            proof {
                reveal_with_fuel(AlbumModel::wf, 1);
                lemma_length_delimited_list_cons(12, w.subrange(i as int, w.len() as int));
                assert(m.review[i as int] == self.review@[i as int]@);
                assert(fits_u32(w[i as int]));
                assert(w.subrange(i as int, w.len() as int)[0] == w[i as int]);
                assert(w.subrange(i as int, w.len() as int).subrange(1, w.len() - i) =~= w.subrange(i + 1, w.len() as int));
            }
            let ghost before = out@;
            pb_write_tag(out, 12, WIRE_LENGTH_DELIMITED);
            write_string_value(out, self.review[i].as_str());
            proof {
                lemma_write_list_step(before, tag_bytes(12, WIRE_LENGTH_DELIMITED), bytes_value_bytes(w[i as int]), length_delimited_list_bytes(12, w.subrange(i + 1, w.len() as int)), Seq::<u8>::empty());
                assert(length_delimited_list_bytes(12, w.subrange(i + 1, w.len() as int)) + Seq::<u8>::empty() =~= length_delimited_list_bytes(12, w.subrange(i + 1, w.len() as int)));
                assert(tag_bytes(12, WIRE_LENGTH_DELIMITED) + (bytes_value_bytes(w[i as int]) + length_delimited_list_bytes(12, w.subrange(i + 1, w.len() as int))) + Seq::<u8>::empty() =~= tag_bytes(12, WIRE_LENGTH_DELIMITED) + (bytes_value_bytes(w[i as int]) + length_delimited_list_bytes(12, w.subrange(i + 1, w.len() as int))));
            }
            i = i + 1;
        }
        assert(w.subrange(i as int, w.len() as int) =~= Seq::<Seq<u8>>::empty());
        assert(out@ + Seq::<u8>::empty() =~= out@);
        proof {
            lemma_concat_assoc(o, length_delimited_list_bytes(12, utf8_encodings(m.review)), m.encoded_from_copyright());
        }
    }

    /// Appends the encoding of field `copyright` to `out`.
    #[verifier::spinoff_prover]
    fn write_field_copyright(&self, out: &mut Vec<u8>)
        requires
            self@.wf(),
        ensures
            final(out)@ == old(out)@ + length_delimited_list_bytes(13, CopyrightModel::encodings(self@.copyright)),
            final(out)@ + self@.encoded_from_restriction() == old(out)@ + self@.encoded_from_copyright(),
    {
        proof {
            use_type_invariant(self);
        }
        proof {
            reveal_with_fuel(AlbumModel::wf, 1);
        }
        let ghost o = out@;
        let ghost m = self@;
        let ghost w = CopyrightModel::encodings(m.copyright);
        assert(w.subrange(0, w.len() as int) =~= w);
        assert(o + Seq::<u8>::empty() =~= o);
        let mut i: usize = 0;
        while i < self.copyright.len()
            invariant
                i <= self.copyright.len(),
                self@ == m,
                m.wf(),
                w.len() == self.copyright@.len(),
                w == CopyrightModel::encodings(m.copyright),
                o + length_delimited_list_bytes(13, w) == out@ + length_delimited_list_bytes(13, w.subrange(i as int, w.len() as int)),
            decreases self.copyright.len() - i,
        {
            proof {
                reveal_with_fuel(AlbumModel::wf, 1);
                lemma_length_delimited_list_cons(13, w.subrange(i as int, w.len() as int));
                assert(m.copyright[i as int] == self.copyright@[i as int]@);
                assert(m.copyright[i as int].wf());
                assert(w.subrange(i as int, w.len() as int)[0] == w[i as int]);
                assert(w.subrange(i as int, w.len() as int).subrange(1, w.len() - i) =~= w.subrange(i + 1, w.len() as int));
            }
            let ghost before = out@;
            let mut tmp: Vec<u8> = Vec::new();
            self.copyright[i].write_to(&mut tmp);
            assert(tmp@ =~= w[i as int]);
            pb_write_tag(out, 13, WIRE_LENGTH_DELIMITED);
            write_bytes_value(out, tmp.as_slice());
            proof {
                lemma_write_list_step(before, tag_bytes(13, WIRE_LENGTH_DELIMITED), bytes_value_bytes(w[i as int]), length_delimited_list_bytes(13, w.subrange(i + 1, w.len() as int)), Seq::<u8>::empty());
                assert(length_delimited_list_bytes(13, w.subrange(i + 1, w.len() as int)) + Seq::<u8>::empty() =~= length_delimited_list_bytes(13, w.subrange(i + 1, w.len() as int)));
                assert(tag_bytes(13, WIRE_LENGTH_DELIMITED) + (bytes_value_bytes(w[i as int]) + length_delimited_list_bytes(13, w.subrange(i + 1, w.len() as int))) + Seq::<u8>::empty() =~= tag_bytes(13, WIRE_LENGTH_DELIMITED) + (bytes_value_bytes(w[i as int]) + length_delimited_list_bytes(13, w.subrange(i + 1, w.len() as int))));
            }
            i = i + 1;
        }
        assert(w.subrange(i as int, w.len() as int) =~= Seq::<Seq<u8>>::empty());
        assert(out@ + Seq::<u8>::empty() =~= out@);
        proof {
            lemma_concat_assoc(o, length_delimited_list_bytes(13, CopyrightModel::encodings(m.copyright)), m.encoded_from_restriction());
        }
    }

    /// Appends the encoding of field `restriction` to `out`.
    #[verifier::spinoff_prover]
    fn write_field_restriction(&self, out: &mut Vec<u8>)
        requires
            self@.wf(),
        ensures
            final(out)@ == old(out)@ + length_delimited_list_bytes(14, RestrictionModel::encodings(self@.restriction)),
            final(out)@ + self@.encoded_from_related() == old(out)@ + self@.encoded_from_restriction(),
    {
        proof {
            use_type_invariant(self);
        }
        proof {
            reveal_with_fuel(AlbumModel::wf, 1);
        }
        let ghost o = out@;
        let ghost m = self@;
        let ghost w = RestrictionModel::encodings(m.restriction);
        assert(w.subrange(0, w.len() as int) =~= w);
        assert(o + Seq::<u8>::empty() =~= o);
        let mut i: usize = 0;
        while i < self.restriction.len()
            invariant
                i <= self.restriction.len(),
                self@ == m,
                m.wf(),
                w.len() == self.restriction@.len(),
                w == RestrictionModel::encodings(m.restriction),
                o + length_delimited_list_bytes(14, w) == out@ + length_delimited_list_bytes(14, w.subrange(i as int, w.len() as int)),
            decreases self.restriction.len() - i,
        {
            proof {
                reveal_with_fuel(AlbumModel::wf, 1);
                lemma_length_delimited_list_cons(14, w.subrange(i as int, w.len() as int));
                assert(m.restriction[i as int] == self.restriction@[i as int]@);
                assert(m.restriction[i as int].wf());
                assert(w.subrange(i as int, w.len() as int)[0] == w[i as int]);
                assert(w.subrange(i as int, w.len() as int).subrange(1, w.len() - i) =~= w.subrange(i + 1, w.len() as int));
            }
            let ghost before = out@;
            let mut tmp: Vec<u8> = Vec::new();
            self.restriction[i].write_to(&mut tmp);
            assert(tmp@ =~= w[i as int]);
            pb_write_tag(out, 14, WIRE_LENGTH_DELIMITED);
            write_bytes_value(out, tmp.as_slice());
            proof {
                lemma_write_list_step(before, tag_bytes(14, WIRE_LENGTH_DELIMITED), bytes_value_bytes(w[i as int]), length_delimited_list_bytes(14, w.subrange(i + 1, w.len() as int)), Seq::<u8>::empty());
                assert(length_delimited_list_bytes(14, w.subrange(i + 1, w.len() as int)) + Seq::<u8>::empty() =~= length_delimited_list_bytes(14, w.subrange(i + 1, w.len() as int)));
                assert(tag_bytes(14, WIRE_LENGTH_DELIMITED) + (bytes_value_bytes(w[i as int]) + length_delimited_list_bytes(14, w.subrange(i + 1, w.len() as int))) + Seq::<u8>::empty() =~= tag_bytes(14, WIRE_LENGTH_DELIMITED) + (bytes_value_bytes(w[i as int]) + length_delimited_list_bytes(14, w.subrange(i + 1, w.len() as int))));
            }
            i = i + 1;
        }
        assert(w.subrange(i as int, w.len() as int) =~= Seq::<Seq<u8>>::empty());
        assert(out@ + Seq::<u8>::empty() =~= out@);
        proof {
            lemma_concat_assoc(o, length_delimited_list_bytes(14, RestrictionModel::encodings(m.restriction)), m.encoded_from_related());
        }
    }

    /// Appends the encoding of field `related` to `out`.
    #[verifier::spinoff_prover]
    fn write_field_related(&self, out: &mut Vec<u8>)
        requires
            self@.wf(),
        ensures
            final(out)@ == old(out)@ + AlbumModel::list_bytes(15, self@.related),
            final(out)@ + self@.encoded_from_sale_period() == old(out)@ + self@.encoded_from_related(),
        decreases self, 1int,
    {
        proof {
            use_type_invariant(self);
        }
        proof {
            reveal_with_fuel(AlbumModel::wf, 1);
        }
        let ghost o = out@;
        let ghost m = self@;
        proof {
            Album::lemma_seq_model(self.related@);
        }
        let ghost w = AlbumModel::encodings(m.related);
        assert(w.subrange(0, w.len() as int) =~= w);
        assert(o + Seq::<u8>::empty() =~= o);
        let mut i: usize = 0;
        while i < self.related.len()
            invariant
                i <= self.related.len(),
                self@ == m,
                m.wf(),
                w.len() == self.related@.len(),
                w == AlbumModel::encodings(m.related),
                o + length_delimited_list_bytes(15, w) == out@ + length_delimited_list_bytes(15, w.subrange(i as int, w.len() as int)),
            decreases self.related.len() - i,
        {
            proof {
                reveal_with_fuel(AlbumModel::wf, 1);
                Album::lemma_seq_model(self.related@);
                AlbumModel::lemma_writable_list(m.related);
                lemma_length_delimited_list_cons(15, w.subrange(i as int, w.len() as int));
                assert(m.related[i as int] == self.related@[i as int]@);
                assert(m.related[i as int].wf());
                assert(w.subrange(i as int, w.len() as int)[0] == w[i as int]);
                assert(w.subrange(i as int, w.len() as int).subrange(1, w.len() - i) =~= w.subrange(i + 1, w.len() as int));
            }
            let ghost before = out@;
            let mut tmp: Vec<u8> = Vec::new();
            self.related[i].write_to(&mut tmp);
            assert(tmp@ =~= w[i as int]);
            pb_write_tag(out, 15, WIRE_LENGTH_DELIMITED);
            write_bytes_value(out, tmp.as_slice());
            proof {
                lemma_write_list_step(before, tag_bytes(15, WIRE_LENGTH_DELIMITED), bytes_value_bytes(w[i as int]), length_delimited_list_bytes(15, w.subrange(i + 1, w.len() as int)), Seq::<u8>::empty());
                assert(length_delimited_list_bytes(15, w.subrange(i + 1, w.len() as int)) + Seq::<u8>::empty() =~= length_delimited_list_bytes(15, w.subrange(i + 1, w.len() as int)));
                assert(tag_bytes(15, WIRE_LENGTH_DELIMITED) + (bytes_value_bytes(w[i as int]) + length_delimited_list_bytes(15, w.subrange(i + 1, w.len() as int))) + Seq::<u8>::empty() =~= tag_bytes(15, WIRE_LENGTH_DELIMITED) + (bytes_value_bytes(w[i as int]) + length_delimited_list_bytes(15, w.subrange(i + 1, w.len() as int))));
            }
            i = i + 1;
        }
        assert(w.subrange(i as int, w.len() as int) =~= Seq::<Seq<u8>>::empty());
        assert(out@ + Seq::<u8>::empty() =~= out@);
        proof {
            AlbumModel::lemma_list_bytes(15, m.related);
            lemma_concat_assoc(o, AlbumModel::list_bytes(15, m.related), m.encoded_from_sale_period());
        }
    }

    /// Appends the encoding of field `sale_period` to `out`.
    #[verifier::spinoff_prover]
    fn write_field_sale_period(&self, out: &mut Vec<u8>)
        requires
            self@.wf(),
        ensures
            final(out)@ == old(out)@ + length_delimited_list_bytes(16, SalePeriodModel::encodings(self@.sale_period)),
            final(out)@ + self@.encoded_from_cover_group() == old(out)@ + self@.encoded_from_sale_period(),
    {
        proof {
            use_type_invariant(self);
        }
        proof {
            reveal_with_fuel(AlbumModel::wf, 1);
        }
        let ghost o = out@;
        let ghost m = self@;
        let ghost w = SalePeriodModel::encodings(m.sale_period);
        assert(w.subrange(0, w.len() as int) =~= w);
        assert(o + Seq::<u8>::empty() =~= o);
        let mut i: usize = 0;
        while i < self.sale_period.len()
            invariant
                i <= self.sale_period.len(),
                self@ == m,
                m.wf(),
                w.len() == self.sale_period@.len(),
                w == SalePeriodModel::encodings(m.sale_period),
                o + length_delimited_list_bytes(16, w) == out@ + length_delimited_list_bytes(16, w.subrange(i as int, w.len() as int)),
            decreases self.sale_period.len() - i,
        {
            proof {
                reveal_with_fuel(AlbumModel::wf, 1);
                lemma_length_delimited_list_cons(16, w.subrange(i as int, w.len() as int));
                assert(m.sale_period[i as int] == self.sale_period@[i as int]@);
                assert(m.sale_period[i as int].wf());
                assert(w.subrange(i as int, w.len() as int)[0] == w[i as int]);
                assert(w.subrange(i as int, w.len() as int).subrange(1, w.len() - i) =~= w.subrange(i + 1, w.len() as int));
            }
            let ghost before = out@;
            let mut tmp: Vec<u8> = Vec::new();
            self.sale_period[i].write_to(&mut tmp);
            assert(tmp@ =~= w[i as int]);
            pb_write_tag(out, 16, WIRE_LENGTH_DELIMITED);
            write_bytes_value(out, tmp.as_slice());
            proof {
                lemma_write_list_step(before, tag_bytes(16, WIRE_LENGTH_DELIMITED), bytes_value_bytes(w[i as int]), length_delimited_list_bytes(16, w.subrange(i + 1, w.len() as int)), Seq::<u8>::empty());
                assert(length_delimited_list_bytes(16, w.subrange(i + 1, w.len() as int)) + Seq::<u8>::empty() =~= length_delimited_list_bytes(16, w.subrange(i + 1, w.len() as int)));
                assert(tag_bytes(16, WIRE_LENGTH_DELIMITED) + (bytes_value_bytes(w[i as int]) + length_delimited_list_bytes(16, w.subrange(i + 1, w.len() as int))) + Seq::<u8>::empty() =~= tag_bytes(16, WIRE_LENGTH_DELIMITED) + (bytes_value_bytes(w[i as int]) + length_delimited_list_bytes(16, w.subrange(i + 1, w.len() as int))));
            }
            i = i + 1;
        }
        assert(w.subrange(i as int, w.len() as int) =~= Seq::<Seq<u8>>::empty());
        assert(out@ + Seq::<u8>::empty() =~= out@);
        proof {
            lemma_concat_assoc(o, length_delimited_list_bytes(16, SalePeriodModel::encodings(m.sale_period)), m.encoded_from_cover_group());
        }
    }

    /// Appends the encoding of field `cover_group` to `out`.
    #[verifier::spinoff_prover]
    fn write_field_cover_group(&self, out: &mut Vec<u8>)
        requires
            self@.wf(),
        ensures
            final(out)@ == old(out)@ + opt_length_delimited_field_bytes(17, match self@.cover_group { Some(m) => Some(m.to_bytes()), None => None }),
            final(out)@ + self@.encoded_from_unknown_fields() == old(out)@ + self@.encoded_from_cover_group(),
    {
        proof {
            use_type_invariant(self);
        }
        proof {
            reveal_with_fuel(AlbumModel::wf, 1);
        }
        let ghost o = out@;
        let ghost m = self@;
        if self.has_cover_group {
            let mut tmp: Vec<u8> = Vec::new();
            self.cover_group.write_to(&mut tmp);
            assert(tmp@ =~= m.cover_group.unwrap().to_bytes());
            pb_write_tag(out, 17, WIRE_LENGTH_DELIMITED);
            write_bytes_value(out, tmp.as_slice());
            proof {
                lemma_concat_assoc(o, tag_bytes(17, WIRE_LENGTH_DELIMITED), bytes_value_bytes(tmp@));
            }
        } else {
            assert(o + Seq::<u8>::empty() =~= o);
        }
        proof {
            lemma_concat_assoc(o, opt_length_delimited_field_bytes(17, match m.cover_group { Some(m) => Some(m.to_bytes()), None => None }), m.encoded_from_unknown_fields());
        }
    }

    /// Appends the fields of unknown numbers to `out`.
    #[verifier::spinoff_prover]
    fn write_unknown_fields(&self, out: &mut Vec<u8>)
        requires
            self@.wf(),
        ensures
            final(out)@ == old(out)@ + unknown_list_bytes(self@.unknown_fields),
    {
        proof {
            reveal_with_fuel(AlbumModel::wf, 1);
        }
        let ghost o = out@;
        let ghost m = self@;
        let mut j: usize = 0;
        assert(m.unknown_fields.subrange(0, m.unknown_fields.len() as int) =~= m.unknown_fields);
        assert(o + Seq::<u8>::empty() =~= o);
        while j < self.unknown_fields.len()
            invariant
                j <= self.unknown_fields.len(),
                self@ == m,
                m.wf(),
                o + unknown_list_bytes(m.unknown_fields) == out@ + unknown_list_bytes(m.unknown_fields.subrange(j as int, m.unknown_fields.len() as int)),
            decreases self.unknown_fields.len() - j,
        {
            proof {
                reveal_with_fuel(AlbumModel::wf, 1);
                lemma_unknown_list_cons(m.unknown_fields.subrange(j as int, m.unknown_fields.len() as int));
                assert(m.unknown_fields[j as int] == self.unknown_fields@[j as int]@);
                assert(m.unknown_fields.subrange(j as int, m.unknown_fields.len() as int)[0] == m.unknown_fields[j as int]);
                assert(m.unknown_fields.subrange(j as int, m.unknown_fields.len() as int).subrange(1, m.unknown_fields.len() - j) =~= m.unknown_fields.subrange(j + 1, m.unknown_fields.len() as int));
            }
            let ghost before = out@;
            write_unknown(out, &self.unknown_fields[j]);
            proof {
                lemma_concat_assoc(before, unknown_field_bytes(m.unknown_fields[j as int]), unknown_list_bytes(m.unknown_fields.subrange(j + 1, m.unknown_fields.len() as int)));
            }
            j = j + 1;
        }
        assert(m.unknown_fields.subrange(j as int, m.unknown_fields.len() as int) =~= Seq::<UnknownFieldModel>::empty());
        assert(out@ =~= o + unknown_list_bytes(m.unknown_fields));
    }

    /// Appends the encoding of the message to `out`.
    #[verifier::spinoff_prover]
    fn write_to(&self, out: &mut Vec<u8>)
        requires
            self@.wf(),
        ensures
            final(out)@ == old(out)@ + self@.to_bytes(),
        decreases self, 2int,
    {
        proof {
            reveal_with_fuel(AlbumModel::to_bytes, 1);
        }
        let ghost o = out@;
        let ghost m = self@;
        assert(o + m.to_bytes() == out@ + m.encoded_from_gid());
        self.write_field_gid(out);
        self.write_field_name(out);
        self.write_field_artist(out);
        self.write_field_typ(out);
        self.write_field_label(out);
        self.write_field_date(out);
        self.write_field_popularity(out);
        self.write_field_genre(out);
        self.write_field_cover(out);
        self.write_field_external_id(out);
        self.write_field_disc(out);
        self.write_field_review(out);
        self.write_field_copyright(out);
        self.write_field_restriction(out);
        self.write_field_related(out);
        self.write_field_sale_period(out);
        self.write_field_cover_group(out);
        self.write_unknown_fields(out);
    }

    /// The encoding of the message.
    #[verifier::spinoff_prover]
    pub fn write_to_bytes(&self) -> (r: Vec<u8>)
        requires
            self@.wf(),
        ensures
            r@ == self@.to_bytes(),
    {
        let mut out: Vec<u8> = Vec::new();
        self.write_to(&mut out);
        assert(out@ =~= self@.to_bytes());
        out
    }

    /// The length of the encoding of the message.
    #[verifier::spinoff_prover]
    pub fn compute_size(&self) -> (r: u32)
        requires
            self@.wf(),
            self@.to_bytes().len() <= u32::MAX,
        ensures
            r == self@.to_bytes().len(),
    {
        let v = self.write_to_bytes();
        v.len() as u32
    }
    /// A copy of the message.
    #[verifier::spinoff_prover]
    pub fn clone_message(&self) -> (r: Self)
        ensures
            r@ == self@,
        decreases self,
    {
        proof {
            use_type_invariant(self);
        }
        let gid = clone_opt_bytes(&self.gid);
        let name = clone_opt_string(&self.name);
        let mut artist: Vec<Artist> = Vec::new();
        let mut i: usize = 0;
        while i < self.artist.len()
            invariant
                i <= self.artist@.len(),
                artist@.len() == i,
                forall|j: int| 0 <= j < i ==> #[trigger] artist@[j]@ == self.artist@[j]@,
            decreases self.artist@.len() - i,
        {
            artist.push(self.artist[i].clone_message());
            i = i + 1;
        }
        proof {
            Artist::lemma_seq_model(artist@);
            Artist::lemma_seq_model(self.artist@);
        }
        assert(Artist::seq_model(artist@) =~= Artist::seq_model(self.artist@));
        let typ = self.typ;
        let label = clone_opt_string(&self.label);
        let date = Box::new(self.date.clone_message());
        let has_date = self.has_date;
        let popularity = self.popularity;
        let genre = clone_strings(&self.genre);
        let mut cover: Vec<Image> = Vec::new();
        let mut i: usize = 0;
        while i < self.cover.len()
            invariant
                i <= self.cover@.len(),
                cover@.len() == i,
                forall|j: int| 0 <= j < i ==> #[trigger] cover@[j]@ == self.cover@[j]@,
            decreases self.cover@.len() - i,
        {
            cover.push(self.cover[i].clone_message());
            i = i + 1;
        }
        assert(Image::seq_model(cover@) =~= Image::seq_model(self.cover@));
        let mut external_id: Vec<ExternalId> = Vec::new();
        let mut i: usize = 0;
        while i < self.external_id.len()
            invariant
                i <= self.external_id@.len(),
                external_id@.len() == i,
                forall|j: int| 0 <= j < i ==> #[trigger] external_id@[j]@ == self.external_id@[j]@,
            decreases self.external_id@.len() - i,
        {
            external_id.push(self.external_id[i].clone_message());
            i = i + 1;
        }
        assert(ExternalId::seq_model(external_id@) =~= ExternalId::seq_model(self.external_id@));
        let mut disc: Vec<Disc> = Vec::new();
        let mut i: usize = 0;
        while i < self.disc.len()
            invariant
                i <= self.disc@.len(),
                disc@.len() == i,
                forall|j: int| 0 <= j < i ==> #[trigger] disc@[j]@ == self.disc@[j]@,
            decreases self.disc@.len() - i,
        {
            disc.push(self.disc[i].clone_message());
            i = i + 1;
        }
        proof {
            Disc::lemma_seq_model(disc@);
            Disc::lemma_seq_model(self.disc@);
        }
        assert(Disc::seq_model(disc@) =~= Disc::seq_model(self.disc@));
        let review = clone_strings(&self.review);
        let mut copyright: Vec<Copyright> = Vec::new();
        let mut i: usize = 0;
        while i < self.copyright.len()
            invariant
                i <= self.copyright@.len(),
                copyright@.len() == i,
                forall|j: int| 0 <= j < i ==> #[trigger] copyright@[j]@ == self.copyright@[j]@,
            decreases self.copyright@.len() - i,
        {
            copyright.push(self.copyright[i].clone_message());
            i = i + 1;
        }
        assert(Copyright::seq_model(copyright@) =~= Copyright::seq_model(self.copyright@));
        let mut restriction: Vec<Restriction> = Vec::new();
        let mut i: usize = 0;
        while i < self.restriction.len()
            invariant
                i <= self.restriction@.len(),
                restriction@.len() == i,
                forall|j: int| 0 <= j < i ==> #[trigger] restriction@[j]@ == self.restriction@[j]@,
            decreases self.restriction@.len() - i,
        {
            restriction.push(self.restriction[i].clone_message());
            i = i + 1;
        }
        assert(Restriction::seq_model(restriction@) =~= Restriction::seq_model(self.restriction@));
        let mut related: Vec<Album> = Vec::new();
        let mut i: usize = 0;
        while i < self.related.len()
            invariant
                i <= self.related@.len(),
                related@.len() == i,
                forall|j: int| 0 <= j < i ==> #[trigger] related@[j]@ == self.related@[j]@,
            decreases self.related@.len() - i,
        {
            related.push(self.related[i].clone_message());
            i = i + 1;
        }
        proof {
            Album::lemma_seq_model(related@);
            Album::lemma_seq_model(self.related@);
        }
        assert(Album::seq_model(related@) =~= Album::seq_model(self.related@));
        let mut sale_period: Vec<SalePeriod> = Vec::new();
        let mut i: usize = 0;
        while i < self.sale_period.len()
            invariant
                i <= self.sale_period@.len(),
                sale_period@.len() == i,
                forall|j: int| 0 <= j < i ==> #[trigger] sale_period@[j]@ == self.sale_period@[j]@,
            decreases self.sale_period@.len() - i,
        {
            sale_period.push(self.sale_period[i].clone_message());
            i = i + 1;
        }
        assert(SalePeriod::seq_model(sale_period@) =~= SalePeriod::seq_model(self.sale_period@));
        let cover_group = Box::new(self.cover_group.clone_message());
        let has_cover_group = self.has_cover_group;
        let unknown_fields = clone_unknown_fields(&self.unknown_fields);
        Album { gid, name, artist, typ, label, has_date, date, popularity, genre, cover, external_id, disc, review, copyright, restriction, related, sale_period, has_cover_group, cover_group, unknown_fields }
    }

}

impl Clone for Album {
    #[verifier::spinoff_prover]
    fn clone(&self) -> (r: Self)
        ensures
            r@ == self@,
    {
        self.clone_message()
    }
}

impl Default for Album {
    #[verifier::spinoff_prover]
    fn default() -> (r: Self)
        ensures
            r@ == AlbumModel::empty(),
    {
        Album::new()
    }
}

/// The `Track` message.
#[allow(non_snake_case)]
#[derive(Debug, PartialEq)]
pub struct Track {
    gid: Option<Vec<u8>>,
    name: Option<String>,
    album: Box<Album>,
    has_album: bool,
    artist: Vec<Artist>,
    number: Option<i32>,
    disc_number: Option<i32>,
    duration: Option<i32>,
    popularity: Option<i32>,
    explicit: Option<bool>,
    external_id: Vec<ExternalId>,
    restriction: Vec<Restriction>,
    file: Vec<AudioFile>,
    alternative: Vec<Track>,
    sale_period: Vec<SalePeriod>,
    preview: Vec<AudioFile>,
    unknown_fields: Vec<UnknownField>,
}

/// The model of a `Track`: each field's value, `None` or empty when unset,
/// and the fields of unknown numbers, in the order they were read.
#[allow(non_snake_case)]
pub struct TrackModel {
    pub gid: Option<Seq<u8>>,
    pub name: Option<Seq<char>>,
    pub album: Option<AlbumModel>,
    pub artist: Seq<ArtistModel>,
    pub number: Option<i32>,
    pub disc_number: Option<i32>,
    pub duration: Option<i32>,
    pub popularity: Option<i32>,
    pub explicit: Option<bool>,
    pub external_id: Seq<ExternalIdModel>,
    pub restriction: Seq<RestrictionModel>,
    pub file: Seq<AudioFileModel>,
    pub alternative: Seq<TrackModel>,
    pub sale_period: Seq<SalePeriodModel>,
    pub preview: Seq<AudioFileModel>,
    pub unknown_fields: Seq<UnknownFieldModel>,
}

impl View for Track {
    type V = TrackModel;

    closed spec fn view(&self) -> TrackModel {
        self.model()
    }
}

#[allow(non_snake_case)]
impl Track {
    /// The model of the message: the view, written out for the messages that contain one another.
    pub closed spec fn model(self) -> TrackModel
        decreases self, 1int,
    {
        TrackModel {
            gid: opt_view(self.gid),
            name: opt_view(self.name),
            album: if self.has_album {
                Some(self.album.model())
            } else {
                None
            },
            artist: Artist::seq_model(self.artist@),
            number: self.number,
            disc_number: self.disc_number,
            duration: self.duration,
            popularity: self.popularity,
            explicit: self.explicit,
            external_id: ExternalId::seq_model(self.external_id@),
            restriction: Restriction::seq_model(self.restriction@),
            file: AudioFile::seq_model(self.file@),
            alternative: Track::seq_model(self.alternative@),
            sale_period: SalePeriod::seq_model(self.sale_period@),
            preview: AudioFile::seq_model(self.preview@),
            unknown_fields: unknown_models(self.unknown_fields@),
        }
    }
}

#[allow(non_snake_case)]
impl TrackModel {
    /// The model of a message with no field set.
    pub open spec fn empty() -> Self {
        TrackModel {
            gid: None,
            name: None,
            album: None,
            artist: Seq::empty(),
            number: None,
            disc_number: None,
            duration: None,
            popularity: None,
            explicit: None,
            external_id: Seq::empty(),
            restriction: Seq::empty(),
            file: Seq::empty(),
            alternative: Seq::empty(),
            sale_period: Seq::empty(),
            preview: Seq::empty(),
            unknown_fields: Seq::empty(),
        }
    }

    /// The encodings of a list of messages.
    pub open spec fn encodings(v: Seq<TrackModel>) -> Seq<Seq<u8>> {
        v.map_values(|m: TrackModel| m.to_bytes())
    }

    /// Every message of a list can be written, and its encoding fits a 32-bit length.
    pub open spec fn all_writable(v: Seq<TrackModel>) -> bool {
        forall|i: int| 0 <= i < v.len() ==> #[trigger] v[i].wf() && fits_u32(v[i].to_bytes())
    }

    /// Every message of a list can be written, element by element.
    pub open spec fn writable_list(v: Seq<TrackModel>) -> bool
        decreases v, 0int,
    {
        v.len() == 0 || (v[0].wf() && fits_u32(v[0].to_bytes()) && Self::writable_list(v.subrange(1, v.len() as int)))
    }

    /// Each message of a list that can be written element by element can be written.
    #[verifier::spinoff_prover]
    pub proof fn lemma_writable_list(v: Seq<TrackModel>)
        requires
            Self::writable_list(v),
        ensures
            Self::all_writable(v),
        decreases v.len(),
    {
        reveal_with_fuel(TrackModel::wf, 1);
        if v.len() > 0 {
            let tail = v.subrange(1, v.len() as int);
            Self::lemma_writable_list(tail);
            assert forall|i: int| 0 <= i < v.len() implies #[trigger] v[i].wf() && fits_u32(v[i].to_bytes()) by {
                if i > 0 {
                    assert(v[i] == tail[i - 1]);
                }
            }
        }
    }

    /// The encoding of the elements of a repeated field of number `f`, each as a length-delimited
    /// value after its tag.
    pub open spec fn list_bytes(f: u32, v: Seq<TrackModel>) -> Seq<u8>
        decreases v, 0int,
    {
        if v.len() == 0 {
            Seq::empty()
        } else {
            tag_bytes(f, WIRE_LENGTH_DELIMITED) + bytes_value_bytes(v[0].to_bytes()) + Self::list_bytes(
                f,
                v.subrange(1, v.len() as int),
            )
        }
    }

    /// The encoding of a repeated field is the list of the encodings of its elements.
    #[verifier::spinoff_prover]
    pub proof fn lemma_list_bytes(f: u32, v: Seq<TrackModel>)
        ensures
            Self::list_bytes(f, v) == length_delimited_list_bytes(f, Self::encodings(v)),
        decreases v.len(),
    {
        let e = Self::encodings(v);
        if v.len() > 0 {
            let tail = v.subrange(1, v.len() as int);
            Self::lemma_list_bytes(f, tail);
            assert(e.subrange(1, v.len() as int) =~= Self::encodings(tail));
            assert(e[0] == v[0].to_bytes());
            lemma_length_delimited_list_cons(f, e);
            lemma_concat_assoc(tag_bytes(f, WIRE_LENGTH_DELIMITED), bytes_value_bytes(e[0]), Self::list_bytes(f, tail));
        } else {
            assert(e =~= Seq::<Seq<u8>>::empty());
        }
    }

    /// The field numbers that this message knows.
    pub open spec fn is_known_field(f: u32) -> bool {
        f == 1 || f == 2 || f == 3 || f == 4 || f == 5 || f == 6 || f == 7 || f == 8 || f == 9 || f == 10 || f == 11 || f == 12 || f == 13 || f == 14 || f == 15
    }

    /// Merging one field whose tag (number `f`, wire type `wt`) has been read;
    /// `s` holds the bytes after the tag. The result is the merged model and
    /// the number of bytes the value took; a set field is replaced, a repeated
    /// field grows, a field of unknown number is kept or, if a group, skipped.
    pub open spec fn merge_field(self, f: u32, wt: u32, s: Seq<u8>, lim: nat) -> Option<(Self, nat)>
        decreases s.len(),
    {
        if f == 1 {
            if wt != WIRE_LENGTH_DELIMITED {
                None
            } else {
                match bytes_parse(s) {
                    Some((c, k)) => Some((TrackModel { gid: Some(c), ..self }, k)),
                    None => None,
                }
            }
        } else if f == 2 {
            if wt != WIRE_LENGTH_DELIMITED {
                None
            } else {
                match string_parse(s) {
                    Some((c, k)) => Some((TrackModel { name: Some(c), ..self }, k)),
                    None => None,
                }
            }
        } else if f == 3 {
            if wt != WIRE_LENGTH_DELIMITED {
                None
            } else {
                match embedded_window(s, lim) {
                    Some((a, b, x)) => if 0 < a <= b <= s.len() {
                        match AlbumModel::empty().merge(s.subrange(a as int, b as int), x) {
                            Some(x) => Some((TrackModel { album: Some(x), ..self }, b)),
                            None => None,
                        }
                    } else {
                        None
                    },
                    None => None,
                }
            }
        } else if f == 4 {
            if wt != WIRE_LENGTH_DELIMITED {
                None
            } else {
                match embedded_window(s, lim) {
                    Some((a, b, x)) => if 0 < a <= b <= s.len() {
                        match ArtistModel::empty().merge(s.subrange(a as int, b as int), x) {
                            Some(x) => Some((TrackModel { artist: self.artist.push(x), ..self }, b)),
                            None => None,
                        }
                    } else {
                        None
                    },
                    None => None,
                }
            }
        } else if f == 5 {
            if wt != WIRE_VARINT {
                None
            } else {
                match varint_parse(s) {
                    Some((v, k)) => Some((TrackModel { number: Some(zigzag_decode32(v as u32)), ..self }, k)),
                    None => None,
                }
            }
        } else if f == 6 {
            if wt != WIRE_VARINT {
                None
            } else {
                match varint_parse(s) {
                    Some((v, k)) => Some((TrackModel { disc_number: Some(zigzag_decode32(v as u32)), ..self }, k)),
                    None => None,
                }
            }
        } else if f == 7 {
            if wt != WIRE_VARINT {
                None
            } else {
                match varint_parse(s) {
                    Some((v, k)) => Some((TrackModel { duration: Some(zigzag_decode32(v as u32)), ..self }, k)),
                    None => None,
                }
            }
        } else if f == 8 {
            if wt != WIRE_VARINT {
                None
            } else {
                match varint_parse(s) {
                    Some((v, k)) => Some((TrackModel { popularity: Some(zigzag_decode32(v as u32)), ..self }, k)),
                    None => None,
                }
            }
        } else if f == 9 {
            if wt != WIRE_VARINT {
                None
            } else {
                match varint_parse(s) {
                    Some((v, k)) => Some((TrackModel { explicit: Some(varint_bool(v)), ..self }, k)),
                    None => None,
                }
            }
        } else if f == 10 {
            if wt != WIRE_LENGTH_DELIMITED {
                None
            } else {
                match embedded_window(s, lim) {
                    Some((a, b, x)) => if 0 < a <= b <= s.len() {
                        match ExternalIdModel::empty().merge(s.subrange(a as int, b as int), x) {
                            Some(x) => Some((TrackModel { external_id: self.external_id.push(x), ..self }, b)),
                            None => None,
                        }
                    } else {
                        None
                    },
                    None => None,
                }
            }
        } else if f == 11 {
            if wt != WIRE_LENGTH_DELIMITED {
                None
            } else {
                match embedded_window(s, lim) {
                    Some((a, b, x)) => if 0 < a <= b <= s.len() {
                        match RestrictionModel::empty().merge(s.subrange(a as int, b as int), x) {
                            Some(x) => Some((TrackModel { restriction: self.restriction.push(x), ..self }, b)),
                            None => None,
                        }
                    } else {
                        None
                    },
                    None => None,
                }
            }
        } else if f == 12 {
            if wt != WIRE_LENGTH_DELIMITED {
                None
            } else {
                match embedded_window(s, lim) {
                    Some((a, b, x)) => if 0 < a <= b <= s.len() {
                        match AudioFileModel::empty().merge(s.subrange(a as int, b as int), x) {
                            Some(x) => Some((TrackModel { file: self.file.push(x), ..self }, b)),
                            None => None,
                        }
                    } else {
                        None
                    },
                    None => None,
                }
            }
        } else if f == 13 {
            if wt != WIRE_LENGTH_DELIMITED {
                None
            } else {
                match embedded_window(s, lim) {
                    Some((a, b, x)) => if 0 < a <= b <= s.len() {
                        match TrackModel::empty().merge(s.subrange(a as int, b as int), x) {
                            Some(x) => Some((TrackModel { alternative: self.alternative.push(x), ..self }, b)),
                            None => None,
                        }
                    } else {
                        None
                    },
                    None => None,
                }
            }
        } else if f == 14 {
            if wt != WIRE_LENGTH_DELIMITED {
                None
            } else {
                match embedded_window(s, lim) {
                    Some((a, b, x)) => if 0 < a <= b <= s.len() {
                        match SalePeriodModel::empty().merge(s.subrange(a as int, b as int), x) {
                            Some(x) => Some((TrackModel { sale_period: self.sale_period.push(x), ..self }, b)),
                            None => None,
                        }
                    } else {
                        None
                    },
                    None => None,
                }
            }
        } else if f == 15 {
            if wt != WIRE_LENGTH_DELIMITED {
                None
            } else {
                match embedded_window(s, lim) {
                    Some((a, b, x)) => if 0 < a <= b <= s.len() {
                        match AudioFileModel::empty().merge(s.subrange(a as int, b as int), x) {
                            Some(x) => Some((TrackModel { preview: self.preview.push(x), ..self }, b)),
                            None => None,
                        }
                    } else {
                        None
                    },
                    None => None,
                }
            }
        } else {
            match unknown_parse(f, wt, s) {
                Some((Some(u), k)) => Some((TrackModel { unknown_fields: grouped_insert(self.unknown_fields, u), ..self }, k)),
                Some((None, k)) => Some((self, k)),
                None => None,
            }
        }
    }

    /// What is left of the model when merging one field (number `f`, wire type
    /// `wt`, value at the front of `s`) fails: a string, bytes or message field
    /// of the right wire type is first set to its empty value (a repeated one
    /// gets an empty element) and an embedded message keeps the fields merged
    /// into it before the failure; packed values read before the failure stay.
    pub open spec fn merge_field_failed(self, f: u32, wt: u32, s: Seq<u8>, lim: nat) -> Self
        decreases s.len(),
    {
        if f == 1 {
            if wt != WIRE_LENGTH_DELIMITED {
                self
            } else {
                TrackModel { gid: Some(Seq::<u8>::empty()), ..self }
            }
        } else if f == 2 {
            if wt != WIRE_LENGTH_DELIMITED {
                self
            } else {
                TrackModel { name: Some(Seq::<char>::empty()), ..self }
            }
        } else if f == 3 {
            if wt != WIRE_LENGTH_DELIMITED {
                self
            } else {
                match embedded_window(s, lim) {
                    Some((a, b, x)) => if 0 < a <= b <= s.len() {
                        TrackModel { album: Some(AlbumModel::empty().merge_partial(s.subrange(a as int, b as int), x)), ..self }
                    } else {
                        TrackModel { album: Some(AlbumModel::empty()), ..self }
                    },
                    None => TrackModel { album: Some(AlbumModel::empty()), ..self },
                }
            }
        } else if f == 4 {
            if wt != WIRE_LENGTH_DELIMITED {
                self
            } else {
                match embedded_window(s, lim) {
                    Some((a, b, x)) => if 0 < a <= b <= s.len() {
                        TrackModel { artist: self.artist.push(ArtistModel::empty().merge_partial(s.subrange(a as int, b as int), x)), ..self }
                    } else {
                        TrackModel { artist: self.artist.push(ArtistModel::empty()), ..self }
                    },
                    None => TrackModel { artist: self.artist.push(ArtistModel::empty()), ..self },
                }
            }
        } else if f == 10 {
            if wt != WIRE_LENGTH_DELIMITED {
                self
            } else {
                match embedded_window(s, lim) {
                    Some((a, b, x)) => if 0 < a <= b <= s.len() {
                        TrackModel { external_id: self.external_id.push(ExternalIdModel::empty().merge_partial(s.subrange(a as int, b as int), x)), ..self }
                    } else {
                        TrackModel { external_id: self.external_id.push(ExternalIdModel::empty()), ..self }
                    },
                    None => TrackModel { external_id: self.external_id.push(ExternalIdModel::empty()), ..self },
                }
            }
        } else if f == 11 {
            if wt != WIRE_LENGTH_DELIMITED {
                self
            } else {
                match embedded_window(s, lim) {
                    Some((a, b, x)) => if 0 < a <= b <= s.len() {
                        TrackModel { restriction: self.restriction.push(RestrictionModel::empty().merge_partial(s.subrange(a as int, b as int), x)), ..self }
                    } else {
                        TrackModel { restriction: self.restriction.push(RestrictionModel::empty()), ..self }
                    },
                    None => TrackModel { restriction: self.restriction.push(RestrictionModel::empty()), ..self },
                }
            }
        } else if f == 12 {
            if wt != WIRE_LENGTH_DELIMITED {
                self
            } else {
                match embedded_window(s, lim) {
                    Some((a, b, x)) => if 0 < a <= b <= s.len() {
                        TrackModel { file: self.file.push(AudioFileModel::empty().merge_partial(s.subrange(a as int, b as int), x)), ..self }
                    } else {
                        TrackModel { file: self.file.push(AudioFileModel::empty()), ..self }
                    },
                    None => TrackModel { file: self.file.push(AudioFileModel::empty()), ..self },
                }
            }
        } else if f == 13 {
            if wt != WIRE_LENGTH_DELIMITED {
                self
            } else {
                match embedded_window(s, lim) {
                    Some((a, b, x)) => if 0 < a <= b <= s.len() {
                        TrackModel { alternative: self.alternative.push(TrackModel::empty().merge_partial(s.subrange(a as int, b as int), x)), ..self }
                    } else {
                        TrackModel { alternative: self.alternative.push(TrackModel::empty()), ..self }
                    },
                    None => TrackModel { alternative: self.alternative.push(TrackModel::empty()), ..self },
                }
            }
        } else if f == 14 {
            if wt != WIRE_LENGTH_DELIMITED {
                self
            } else {
                match embedded_window(s, lim) {
                    Some((a, b, x)) => if 0 < a <= b <= s.len() {
                        TrackModel { sale_period: self.sale_period.push(SalePeriodModel::empty().merge_partial(s.subrange(a as int, b as int), x)), ..self }
                    } else {
                        TrackModel { sale_period: self.sale_period.push(SalePeriodModel::empty()), ..self }
                    },
                    None => TrackModel { sale_period: self.sale_period.push(SalePeriodModel::empty()), ..self },
                }
            }
        } else if f == 15 {
            if wt != WIRE_LENGTH_DELIMITED {
                self
            } else {
                match embedded_window(s, lim) {
                    Some((a, b, x)) => if 0 < a <= b <= s.len() {
                        TrackModel { preview: self.preview.push(AudioFileModel::empty().merge_partial(s.subrange(a as int, b as int), x)), ..self }
                    } else {
                        TrackModel { preview: self.preview.push(AudioFileModel::empty()), ..self }
                    },
                    None => TrackModel { preview: self.preview.push(AudioFileModel::empty()), ..self },
                }
            }
        } else {
            self
        }
    }

    /// The value of a merged field takes no more than the bytes after its tag.
    #[verifier::spinoff_prover]
    pub proof fn lemma_merge_field_len(self, f: u32, wt: u32, s: Seq<u8>, lim: nat)
        ensures
            self.merge_field(f, wt, s, lim) matches Some((_m, k)) ==> k <= s.len(),
    {
        lemma_varint_parse_len(s);
        crate::wire::lemma_unknown_parse_len(f, wt, s);
    }

    /// Merging all the fields that `s` holds, in order, where the length of an
    /// embedded message may reach `lim` bytes past the end of `s` (such a message
    /// is read up to the end of `s`).
    #[verifier::opaque]
    pub open spec fn merge(self, s: Seq<u8>, lim: nat) -> Option<Self>
        decreases s.len(),
    {
        if s.len() == 0 {
            Some(self)
        } else {
            match tag_parse(s) {
                Some((f, wt, n)) => if 0 < n <= s.len() {
                    match self.merge_field(f, wt, s.skip(n as int), lim) {
                        Some((m, k)) => if n + k <= s.len() {
                            m.merge(s.skip((n + k) as int), lim)
                        } else {
                            None
                        },
                        None => None,
                    }
                } else {
                    None
                },
                None => None,
            }
        }
    }

    /// What merging `s` leaves: the fields merged in order up to the first one
    /// whose tag or value cannot be read, then what `merge_field_failed` leaves of
    /// that one; all of `s` where it is a valid encoding.
    #[verifier::opaque]
    pub open spec fn merge_partial(self, s: Seq<u8>, lim: nat) -> Self
        decreases s.len(),
    {
        if s.len() == 0 {
            self
        } else {
            match tag_parse(s) {
                Some((f, wt, n)) => if 0 < n <= s.len() {
                    match self.merge_field(f, wt, s.skip(n as int), lim) {
                        Some((m, k)) => if n + k <= s.len() {
                            m.merge_partial(s.skip((n + k) as int), lim)
                        } else {
                            m
                        },
                        None => self.merge_field_failed(f, wt, s.skip(n as int), lim),
                    }
                } else {
                    self
                },
                None => self,
            }
        }
    }

    /// The encoding of field `gid` and of every field written after it.
    pub open spec fn encoded_from_gid(self) -> Seq<u8>
        decreases self, 16int,
    {
        opt_length_delimited_field_bytes(1, self.gid) + self.encoded_from_name()
    }

    /// The encoding of field `name` and of every field written after it.
    pub open spec fn encoded_from_name(self) -> Seq<u8>
        decreases self, 15int,
    {
        opt_length_delimited_field_bytes(2, match self.name { Some(c) => Some(encode_utf8(c)), None => None }) + self.encoded_from_album()
    }

    /// The encoding of field `album` and of every field written after it.
    pub open spec fn encoded_from_album(self) -> Seq<u8>
        decreases self, 14int,
    {
        opt_length_delimited_field_bytes(3, match self.album { Some(m) => Some(m.to_bytes()), None => None }) + self.encoded_from_artist()
    }

    /// The encoding of field `artist` and of every field written after it.
    pub open spec fn encoded_from_artist(self) -> Seq<u8>
        decreases self, 13int,
    {
        ArtistModel::list_bytes(4, self.artist) + self.encoded_from_number()
    }

    /// The encoding of field `number` and of every field written after it.
    pub open spec fn encoded_from_number(self) -> Seq<u8>
        decreases self, 12int,
    {
        opt_varint_field_bytes(5, match self.number { Some(x) => Some(zigzag_encode32(x) as u64), None => None }) + self.encoded_from_disc_number()
    }

    /// The encoding of field `disc_number` and of every field written after it.
    pub open spec fn encoded_from_disc_number(self) -> Seq<u8>
        decreases self, 11int,
    {
        opt_varint_field_bytes(6, match self.disc_number { Some(x) => Some(zigzag_encode32(x) as u64), None => None }) + self.encoded_from_duration()
    }

    /// The encoding of field `duration` and of every field written after it.
    pub open spec fn encoded_from_duration(self) -> Seq<u8>
        decreases self, 10int,
    {
        opt_varint_field_bytes(7, match self.duration { Some(x) => Some(zigzag_encode32(x) as u64), None => None }) + self.encoded_from_popularity()
    }

    /// The encoding of field `popularity` and of every field written after it.
    pub open spec fn encoded_from_popularity(self) -> Seq<u8>
        decreases self, 9int,
    {
        opt_varint_field_bytes(8, match self.popularity { Some(x) => Some(zigzag_encode32(x) as u64), None => None }) + self.encoded_from_explicit()
    }

    /// The encoding of field `explicit` and of every field written after it.
    pub open spec fn encoded_from_explicit(self) -> Seq<u8>
        decreases self, 8int,
    {
        opt_varint_field_bytes(9, match self.explicit { Some(x) => Some(bool_varint(x)), None => None }) + self.encoded_from_external_id()
    }

    /// The encoding of field `external_id` and of every field written after it.
    pub open spec fn encoded_from_external_id(self) -> Seq<u8>
        decreases self, 7int,
    {
        length_delimited_list_bytes(10, ExternalIdModel::encodings(self.external_id)) + self.encoded_from_restriction()
    }

    /// The encoding of field `restriction` and of every field written after it.
    pub open spec fn encoded_from_restriction(self) -> Seq<u8>
        decreases self, 6int,
    {
        length_delimited_list_bytes(11, RestrictionModel::encodings(self.restriction)) + self.encoded_from_file()
    }

    /// The encoding of field `file` and of every field written after it.
    pub open spec fn encoded_from_file(self) -> Seq<u8>
        decreases self, 5int,
    {
        length_delimited_list_bytes(12, AudioFileModel::encodings(self.file)) + self.encoded_from_alternative()
    }

    /// The encoding of field `alternative` and of every field written after it.
    pub open spec fn encoded_from_alternative(self) -> Seq<u8>
        decreases self, 4int,
    {
        TrackModel::list_bytes(13, self.alternative) + self.encoded_from_sale_period()
    }

    /// The encoding of field `sale_period` and of every field written after it.
    pub open spec fn encoded_from_sale_period(self) -> Seq<u8>
        decreases self, 3int,
    {
        length_delimited_list_bytes(14, SalePeriodModel::encodings(self.sale_period)) + self.encoded_from_preview()
    }

    /// The encoding of field `preview` and of every field written after it.
    pub open spec fn encoded_from_preview(self) -> Seq<u8>
        decreases self, 2int,
    {
        length_delimited_list_bytes(15, AudioFileModel::encodings(self.preview)) + self.encoded_from_unknown_fields()
    }

    /// The encoding of the fields of unknown numbers, written last.
    pub open spec fn encoded_from_unknown_fields(self) -> Seq<u8> {
        unknown_list_bytes(self.unknown_fields)
    }

    /// The encoding of the message: its set fields in order of declaration,
    /// each element of a repeated field in order, then the unknown fields.
    #[verifier::opaque]
    pub open spec fn to_bytes(self) -> Seq<u8>
        decreases self, 17int,
    {
        self.encoded_from_gid()
    }

    /// A model that can be written and read back: every length fits the
    /// 32-bit length prefix, nested messages can be written, and the unknown
    /// fields have valid numbers that this message does not know.
    #[verifier::opaque]
    pub open spec fn wf(self) -> bool
        decreases self, 1int,
    {
        &&& (self.gid matches Some(b) ==> fits_u32(b))
        &&& (self.name matches Some(c) ==> fits_u32(encode_utf8(c)))
        &&& (self.album matches Some(m) ==> m.wf() && fits_u32(m.to_bytes()))
        &&& ArtistModel::writable_list(self.artist)
        &&& ExternalIdModel::all_writable(self.external_id)
        &&& RestrictionModel::all_writable(self.restriction)
        &&& AudioFileModel::all_writable(self.file)
        &&& TrackModel::writable_list(self.alternative)
        &&& SalePeriodModel::all_writable(self.sale_period)
        &&& AudioFileModel::all_writable(self.preview)
        &&& (forall|i: int| 0 <= i < self.unknown_fields.len() ==> unknown_field_wf(#[trigger] self.unknown_fields[i]) && !Self::is_known_field(self.unknown_fields[i].number))
        &&& unknown_grouped(self.unknown_fields)
    }

    /// The message with no field set can be written and read back.
    #[verifier::spinoff_prover]
    pub proof fn lemma_empty_wf()
        ensures
            Self::empty().wf(),
    {
        reveal_with_fuel(TrackModel::wf, 1);
        lemma_grouped_empty();
    }

    /// Merging a field's tag and value, whatever follows them.
    #[verifier::spinoff_prover]
    pub proof fn lemma_merge_step(acc: Self, f: u32, wt: u32, t: Seq<u8>, b: Seq<u8>, rest: Seq<u8>, acc2: Self, lim: nat)
        requires
            tag_parse(t + (b + rest)) == Some((f, wt, t.len())),
            t.len() > 0,
            acc.merge_field(f, wt, b + rest, lim) == Some((acc2, b.len())),
        ensures
            acc.merge(t + (b + rest), lim) == acc2.merge(rest, lim),
    {
        reveal_with_fuel(TrackModel::merge, 1);
        lemma_skip_chunk(t, b, rest);
    }

    /// Merging the encoding of field `gid` sets it, whatever follows.
    #[verifier::spinoff_prover]
    pub proof fn lemma_merge_gid(acc: Self, v: Option<Seq<u8>>, rest: Seq<u8>, lim: nat)
        requires
            (v matches Some(b) ==> fits_u32(b)),
        ensures
            acc.merge(opt_length_delimited_field_bytes(1, v) + rest, lim) == (TrackModel { gid: if v is Some { v } else { acc.gid }, ..acc }).merge(rest, lim),
    {
        match v {
            None => {
                assert(opt_length_delimited_field_bytes(1, v) + rest =~= rest);
                assert((TrackModel { gid: acc.gid, ..acc }) == acc);
            },
            Some(x) => {
                let t = tag_bytes(1, WIRE_LENGTH_DELIMITED);
                let b = bytes_value_bytes(x);
                assert(opt_length_delimited_field_bytes(1, v) + rest =~= t + (b + rest));
                lemma_tag_roundtrip(1, WIRE_LENGTH_DELIMITED, b + rest);
                lemma_bytes_roundtrip(x, rest);
                Self::lemma_merge_step(acc, 1, WIRE_LENGTH_DELIMITED, t, b, rest, TrackModel { gid: v, ..acc }, lim);
            },
        }
    }

    /// Merging the encoding of field `name` sets it, whatever follows.
    #[verifier::spinoff_prover]
    pub proof fn lemma_merge_name(acc: Self, v: Option<Seq<char>>, rest: Seq<u8>, lim: nat)
        requires
            (v matches Some(c) ==> fits_u32(encode_utf8(c))),
        ensures
            acc.merge(opt_length_delimited_field_bytes(2, match v { Some(c) => Some(encode_utf8(c)), None => None }) + rest, lim) == (TrackModel { name: if v is Some { v } else { acc.name }, ..acc }).merge(rest, lim),
    {
        match v {
            None => {
                assert(opt_length_delimited_field_bytes(2, match v { Some(c) => Some(encode_utf8(c)), None => None }) + rest =~= rest);
                assert((TrackModel { name: acc.name, ..acc }) == acc);
            },
            Some(x) => {
                let t = tag_bytes(2, WIRE_LENGTH_DELIMITED);
                let b = bytes_value_bytes(encode_utf8(x));
                assert(opt_length_delimited_field_bytes(2, match v { Some(c) => Some(encode_utf8(c)), None => None }) + rest =~= t + (b + rest));
                lemma_tag_roundtrip(2, WIRE_LENGTH_DELIMITED, b + rest);
                lemma_string_roundtrip(x, rest);
                Self::lemma_merge_step(acc, 2, WIRE_LENGTH_DELIMITED, t, b, rest, TrackModel { name: v, ..acc }, lim);
            },
        }
    }

    /// Merging the encoding of field `album` sets it, whatever follows.
    #[verifier::spinoff_prover]
    pub proof fn lemma_merge_album(acc: Self, v: Option<AlbumModel>, rest: Seq<u8>, lim: nat)
        requires
            (v matches Some(m) ==> m.wf() && fits_u32(m.to_bytes())),
        ensures
            acc.merge(opt_length_delimited_field_bytes(3, match v { Some(m) => Some(m.to_bytes()), None => None }) + rest, lim) == (TrackModel { album: if v is Some { v } else { acc.album }, ..acc }).merge(rest, lim),
        decreases v, 0int,
    {
        reveal_with_fuel(AlbumModel::merge, 1);
        reveal_with_fuel(AlbumModel::wf, 1);
        reveal_with_fuel(AlbumModel::to_bytes, 1);
        match v {
            None => {
                assert(opt_length_delimited_field_bytes(3, match v { Some(m) => Some(m.to_bytes()), None => None }) + rest =~= rest);
                assert((TrackModel { album: acc.album, ..acc }) == acc);
            },
            Some(x) => {
                let t = tag_bytes(3, WIRE_LENGTH_DELIMITED);
                let b = bytes_value_bytes(x.to_bytes());
                assert(opt_length_delimited_field_bytes(3, match v { Some(m) => Some(m.to_bytes()), None => None }) + rest =~= t + (b + rest));
                lemma_tag_roundtrip(3, WIRE_LENGTH_DELIMITED, b + rest);
                lemma_message_window(x.to_bytes(), rest);
                    lemma_embedded_window(x.to_bytes(), rest, lim);
                    x.lemma_roundtrip(0);
                    lemma_varint_parse_len(bytes_value_bytes(x.to_bytes()) + rest);
                Self::lemma_merge_step(acc, 3, WIRE_LENGTH_DELIMITED, t, b, rest, TrackModel { album: v, ..acc }, lim);
            },
        }
    }

    /// Merging the encoding of the elements of field `artist` appends them, whatever follows.
    #[verifier::spinoff_prover]
    #[verifier::rlimit(100)]
    pub proof fn lemma_merge_artist(acc: Self, v: Seq<ArtistModel>, rest: Seq<u8>, lim: nat)
        requires
            ArtistModel::writable_list(v),
        ensures
            acc.merge(ArtistModel::list_bytes(4, v) + rest, lim) == (TrackModel { artist: acc.artist + v, ..acc }).merge(rest, lim),
        decreases v, 0int,
    {
        ArtistModel::lemma_list_bytes(4, v);
        ArtistModel::lemma_writable_list(v);
        reveal_with_fuel(ArtistModel::merge, 1);
        let w = ArtistModel::encodings(v);
        if v.len() == 0 {
            assert(length_delimited_list_bytes(4, w) + rest =~= rest);
            assert(acc.artist + v =~= acc.artist);
            assert((TrackModel { artist: acc.artist + v, ..acc }) == acc);
        } else {
            lemma_length_delimited_list_cons(4, w);
            assert(v[0].wf() && fits_u32(v[0].to_bytes()));
            let t = tag_bytes(4, WIRE_LENGTH_DELIMITED);
            let b = bytes_value_bytes(w[0]);
            let tail = length_delimited_list_bytes(4, w.subrange(1, w.len() as int));
            assert(length_delimited_list_bytes(4, w) + rest =~= t + (b + (tail + rest)));
            lemma_tag_roundtrip(4, WIRE_LENGTH_DELIMITED, b + (tail + rest));
            lemma_message_window(v[0].to_bytes(), tail + rest);
            lemma_embedded_window(v[0].to_bytes(), tail + rest, lim);
            v[0].lemma_roundtrip(0);
            lemma_varint_parse_len(b + (tail + rest));
            let acc1 = TrackModel { artist: acc.artist.push(v[0]), ..acc };
            Self::lemma_merge_step(acc, 4, WIRE_LENGTH_DELIMITED, t, b, tail + rest, acc1, lim);
            assert(w.subrange(1, w.len() as int) =~= ArtistModel::encodings(v.subrange(1, v.len() as int)));
            assert forall|j: int| 0 <= j < v.len() - 1 implies #[trigger] v.subrange(1, v.len() as int)[j].wf() && fits_u32(v.subrange(1, v.len() as int)[j].to_bytes()) by {
                assert(v.subrange(1, v.len() as int)[j] == v[j + 1]);
            }
            Self::lemma_merge_artist(acc1, v.subrange(1, v.len() as int), rest, lim);
            ArtistModel::lemma_list_bytes(4, v.subrange(1, v.len() as int));
            assert(acc1.artist + v.subrange(1, v.len() as int) =~= acc.artist + v);
        }
    }

    /// Merging the encoding of field `number` sets it, whatever follows.
    #[verifier::spinoff_prover]
    pub proof fn lemma_merge_number(acc: Self, v: Option<i32>, rest: Seq<u8>, lim: nat)
        ensures
            acc.merge(opt_varint_field_bytes(5, match v { Some(x) => Some(zigzag_encode32(x) as u64), None => None }) + rest, lim) == (TrackModel { number: if v is Some { v } else { acc.number }, ..acc }).merge(rest, lim),
    {
        match v {
            None => {
                assert(opt_varint_field_bytes(5, match v { Some(x) => Some(zigzag_encode32(x) as u64), None => None }) + rest =~= rest);
                assert((TrackModel { number: acc.number, ..acc }) == acc);
            },
            Some(x) => {
                let t = tag_bytes(5, WIRE_VARINT);
                let b = varint_bytes(zigzag_encode32(x) as u64);
                assert(opt_varint_field_bytes(5, match v { Some(x) => Some(zigzag_encode32(x) as u64), None => None }) + rest =~= t + (b + rest));
                lemma_tag_roundtrip(5, WIRE_VARINT, b + rest);
                lemma_varint_roundtrip(zigzag_encode32(x) as u64, rest);
                    lemma_varint_casts(0, 0, 0, false, x);
                    crate::wire::lemma_zigzag_roundtrip(x);
                Self::lemma_merge_step(acc, 5, WIRE_VARINT, t, b, rest, TrackModel { number: v, ..acc }, lim);
            },
        }
    }

    /// Merging the encoding of field `disc_number` sets it, whatever follows.
    #[verifier::spinoff_prover]
    pub proof fn lemma_merge_disc_number(acc: Self, v: Option<i32>, rest: Seq<u8>, lim: nat)
        ensures
            acc.merge(opt_varint_field_bytes(6, match v { Some(x) => Some(zigzag_encode32(x) as u64), None => None }) + rest, lim) == (TrackModel { disc_number: if v is Some { v } else { acc.disc_number }, ..acc }).merge(rest, lim),
    {
        match v {
            None => {
                assert(opt_varint_field_bytes(6, match v { Some(x) => Some(zigzag_encode32(x) as u64), None => None }) + rest =~= rest);
                assert((TrackModel { disc_number: acc.disc_number, ..acc }) == acc);
            },
            Some(x) => {
                let t = tag_bytes(6, WIRE_VARINT);
                let b = varint_bytes(zigzag_encode32(x) as u64);
                assert(opt_varint_field_bytes(6, match v { Some(x) => Some(zigzag_encode32(x) as u64), None => None }) + rest =~= t + (b + rest));
                lemma_tag_roundtrip(6, WIRE_VARINT, b + rest);
                lemma_varint_roundtrip(zigzag_encode32(x) as u64, rest);
                    lemma_varint_casts(0, 0, 0, false, x);
                    crate::wire::lemma_zigzag_roundtrip(x);
                Self::lemma_merge_step(acc, 6, WIRE_VARINT, t, b, rest, TrackModel { disc_number: v, ..acc }, lim);
            },
        }
    }

    /// Merging the encoding of field `duration` sets it, whatever follows.
    #[verifier::spinoff_prover]
    pub proof fn lemma_merge_duration(acc: Self, v: Option<i32>, rest: Seq<u8>, lim: nat)
        ensures
            acc.merge(opt_varint_field_bytes(7, match v { Some(x) => Some(zigzag_encode32(x) as u64), None => None }) + rest, lim) == (TrackModel { duration: if v is Some { v } else { acc.duration }, ..acc }).merge(rest, lim),
    {
        match v {
            None => {
                assert(opt_varint_field_bytes(7, match v { Some(x) => Some(zigzag_encode32(x) as u64), None => None }) + rest =~= rest);
                assert((TrackModel { duration: acc.duration, ..acc }) == acc);
            },
            Some(x) => {
                let t = tag_bytes(7, WIRE_VARINT);
                let b = varint_bytes(zigzag_encode32(x) as u64);
                assert(opt_varint_field_bytes(7, match v { Some(x) => Some(zigzag_encode32(x) as u64), None => None }) + rest =~= t + (b + rest));
                lemma_tag_roundtrip(7, WIRE_VARINT, b + rest);
                lemma_varint_roundtrip(zigzag_encode32(x) as u64, rest);
                    lemma_varint_casts(0, 0, 0, false, x);
                    crate::wire::lemma_zigzag_roundtrip(x);
                Self::lemma_merge_step(acc, 7, WIRE_VARINT, t, b, rest, TrackModel { duration: v, ..acc }, lim);
            },
        }
    }

    /// Merging the encoding of field `popularity` sets it, whatever follows.
    #[verifier::spinoff_prover]
    pub proof fn lemma_merge_popularity(acc: Self, v: Option<i32>, rest: Seq<u8>, lim: nat)
        ensures
            acc.merge(opt_varint_field_bytes(8, match v { Some(x) => Some(zigzag_encode32(x) as u64), None => None }) + rest, lim) == (TrackModel { popularity: if v is Some { v } else { acc.popularity }, ..acc }).merge(rest, lim),
    {
        match v {
            None => {
                assert(opt_varint_field_bytes(8, match v { Some(x) => Some(zigzag_encode32(x) as u64), None => None }) + rest =~= rest);
                assert((TrackModel { popularity: acc.popularity, ..acc }) == acc);
            },
            Some(x) => {
                let t = tag_bytes(8, WIRE_VARINT);
                let b = varint_bytes(zigzag_encode32(x) as u64);
                assert(opt_varint_field_bytes(8, match v { Some(x) => Some(zigzag_encode32(x) as u64), None => None }) + rest =~= t + (b + rest));
                lemma_tag_roundtrip(8, WIRE_VARINT, b + rest);
                lemma_varint_roundtrip(zigzag_encode32(x) as u64, rest);
                    lemma_varint_casts(0, 0, 0, false, x);
                    crate::wire::lemma_zigzag_roundtrip(x);
                Self::lemma_merge_step(acc, 8, WIRE_VARINT, t, b, rest, TrackModel { popularity: v, ..acc }, lim);
            },
        }
    }

    /// Merging the encoding of field `explicit` sets it, whatever follows.
    #[verifier::spinoff_prover]
    pub proof fn lemma_merge_explicit(acc: Self, v: Option<bool>, rest: Seq<u8>, lim: nat)
        ensures
            acc.merge(opt_varint_field_bytes(9, match v { Some(x) => Some(bool_varint(x)), None => None }) + rest, lim) == (TrackModel { explicit: if v is Some { v } else { acc.explicit }, ..acc }).merge(rest, lim),
    {
        match v {
            None => {
                assert(opt_varint_field_bytes(9, match v { Some(x) => Some(bool_varint(x)), None => None }) + rest =~= rest);
                assert((TrackModel { explicit: acc.explicit, ..acc }) == acc);
            },
            Some(x) => {
                let t = tag_bytes(9, WIRE_VARINT);
                let b = varint_bytes(bool_varint(x));
                assert(opt_varint_field_bytes(9, match v { Some(x) => Some(bool_varint(x)), None => None }) + rest =~= t + (b + rest));
                lemma_tag_roundtrip(9, WIRE_VARINT, b + rest);
                lemma_varint_roundtrip(bool_varint(x), rest);
                    lemma_varint_casts(0, 0, 0, x, 0);
                Self::lemma_merge_step(acc, 9, WIRE_VARINT, t, b, rest, TrackModel { explicit: v, ..acc }, lim);
            },
        }
    }

    /// Merging the encoding of the elements of field `external_id` appends them, whatever follows.
    #[verifier::spinoff_prover]
    #[verifier::rlimit(50)]
    pub proof fn lemma_merge_external_id(acc: Self, v: Seq<ExternalIdModel>, rest: Seq<u8>, lim: nat)
        requires
            ExternalIdModel::all_writable(v),
        ensures
            acc.merge(length_delimited_list_bytes(10, ExternalIdModel::encodings(v)) + rest, lim) == (TrackModel { external_id: acc.external_id + v, ..acc }).merge(rest, lim),
        decreases v.len(),
    {
        let w = ExternalIdModel::encodings(v);
        if v.len() == 0 {
            assert(length_delimited_list_bytes(10, w) + rest =~= rest);
            assert(acc.external_id + v =~= acc.external_id);
            assert((TrackModel { external_id: acc.external_id + v, ..acc }) == acc);
        } else {
            lemma_length_delimited_list_cons(10, w);
            assert(v[0].wf() && fits_u32(v[0].to_bytes()));
            let t = tag_bytes(10, WIRE_LENGTH_DELIMITED);
            let b = bytes_value_bytes(w[0]);
            let tail = length_delimited_list_bytes(10, w.subrange(1, w.len() as int));
            assert(length_delimited_list_bytes(10, w) + rest =~= t + (b + (tail + rest)));
            lemma_tag_roundtrip(10, WIRE_LENGTH_DELIMITED, b + (tail + rest));
            lemma_message_window(v[0].to_bytes(), tail + rest);
            lemma_embedded_window(v[0].to_bytes(), tail + rest, lim);
            v[0].lemma_roundtrip(0);
            lemma_varint_parse_len(b + (tail + rest));
            let acc1 = TrackModel { external_id: acc.external_id.push(v[0]), ..acc };
            Self::lemma_merge_step(acc, 10, WIRE_LENGTH_DELIMITED, t, b, tail + rest, acc1, lim);
            assert(w.subrange(1, w.len() as int) =~= ExternalIdModel::encodings(v.subrange(1, v.len() as int)));
            assert forall|j: int| 0 <= j < v.len() - 1 implies #[trigger] v.subrange(1, v.len() as int)[j].wf() && fits_u32(v.subrange(1, v.len() as int)[j].to_bytes()) by {
                assert(v.subrange(1, v.len() as int)[j] == v[j + 1]);
            }
            Self::lemma_merge_external_id(acc1, v.subrange(1, v.len() as int), rest, lim);
            assert(acc1.external_id + v.subrange(1, v.len() as int) =~= acc.external_id + v);
        }
    }

    /// Merging the encoding of the elements of field `restriction` appends them, whatever follows.
    #[verifier::spinoff_prover]
    #[verifier::rlimit(50)]
    pub proof fn lemma_merge_restriction(acc: Self, v: Seq<RestrictionModel>, rest: Seq<u8>, lim: nat)
        requires
            RestrictionModel::all_writable(v),
        ensures
            acc.merge(length_delimited_list_bytes(11, RestrictionModel::encodings(v)) + rest, lim) == (TrackModel { restriction: acc.restriction + v, ..acc }).merge(rest, lim),
        decreases v.len(),
    {
        let w = RestrictionModel::encodings(v);
        if v.len() == 0 {
            assert(length_delimited_list_bytes(11, w) + rest =~= rest);
            assert(acc.restriction + v =~= acc.restriction);
            assert((TrackModel { restriction: acc.restriction + v, ..acc }) == acc);
        } else {
            lemma_length_delimited_list_cons(11, w);
            assert(v[0].wf() && fits_u32(v[0].to_bytes()));
            let t = tag_bytes(11, WIRE_LENGTH_DELIMITED);
            let b = bytes_value_bytes(w[0]);
            let tail = length_delimited_list_bytes(11, w.subrange(1, w.len() as int));
            assert(length_delimited_list_bytes(11, w) + rest =~= t + (b + (tail + rest)));
            lemma_tag_roundtrip(11, WIRE_LENGTH_DELIMITED, b + (tail + rest));
            lemma_message_window(v[0].to_bytes(), tail + rest);
            lemma_embedded_window(v[0].to_bytes(), tail + rest, lim);
            v[0].lemma_roundtrip(0);
            lemma_varint_parse_len(b + (tail + rest));
            let acc1 = TrackModel { restriction: acc.restriction.push(v[0]), ..acc };
            Self::lemma_merge_step(acc, 11, WIRE_LENGTH_DELIMITED, t, b, tail + rest, acc1, lim);
            assert(w.subrange(1, w.len() as int) =~= RestrictionModel::encodings(v.subrange(1, v.len() as int)));
            assert forall|j: int| 0 <= j < v.len() - 1 implies #[trigger] v.subrange(1, v.len() as int)[j].wf() && fits_u32(v.subrange(1, v.len() as int)[j].to_bytes()) by {
                assert(v.subrange(1, v.len() as int)[j] == v[j + 1]);
            }
            Self::lemma_merge_restriction(acc1, v.subrange(1, v.len() as int), rest, lim);
            assert(acc1.restriction + v.subrange(1, v.len() as int) =~= acc.restriction + v);
        }
    }

    /// Merging the encoding of the elements of field `file` appends them, whatever follows.
    #[verifier::spinoff_prover]
    #[verifier::rlimit(50)]
    pub proof fn lemma_merge_file(acc: Self, v: Seq<AudioFileModel>, rest: Seq<u8>, lim: nat)
        requires
            AudioFileModel::all_writable(v),
        ensures
            acc.merge(length_delimited_list_bytes(12, AudioFileModel::encodings(v)) + rest, lim) == (TrackModel { file: acc.file + v, ..acc }).merge(rest, lim),
        decreases v.len(),
    {
        let w = AudioFileModel::encodings(v);
        if v.len() == 0 {
            assert(length_delimited_list_bytes(12, w) + rest =~= rest);
            assert(acc.file + v =~= acc.file);
            assert((TrackModel { file: acc.file + v, ..acc }) == acc);
        } else {
            lemma_length_delimited_list_cons(12, w);
            assert(v[0].wf() && fits_u32(v[0].to_bytes()));
            let t = tag_bytes(12, WIRE_LENGTH_DELIMITED);
            let b = bytes_value_bytes(w[0]);
            let tail = length_delimited_list_bytes(12, w.subrange(1, w.len() as int));
            assert(length_delimited_list_bytes(12, w) + rest =~= t + (b + (tail + rest)));
            lemma_tag_roundtrip(12, WIRE_LENGTH_DELIMITED, b + (tail + rest));
            lemma_message_window(v[0].to_bytes(), tail + rest);
            lemma_embedded_window(v[0].to_bytes(), tail + rest, lim);
            v[0].lemma_roundtrip(0);
            lemma_varint_parse_len(b + (tail + rest));
            let acc1 = TrackModel { file: acc.file.push(v[0]), ..acc };
            Self::lemma_merge_step(acc, 12, WIRE_LENGTH_DELIMITED, t, b, tail + rest, acc1, lim);
            assert(w.subrange(1, w.len() as int) =~= AudioFileModel::encodings(v.subrange(1, v.len() as int)));
            assert forall|j: int| 0 <= j < v.len() - 1 implies #[trigger] v.subrange(1, v.len() as int)[j].wf() && fits_u32(v.subrange(1, v.len() as int)[j].to_bytes()) by {
                assert(v.subrange(1, v.len() as int)[j] == v[j + 1]);
            }
            Self::lemma_merge_file(acc1, v.subrange(1, v.len() as int), rest, lim);
            assert(acc1.file + v.subrange(1, v.len() as int) =~= acc.file + v);
        }
    }

    /// Merging the encoding of the elements of field `alternative` appends them, whatever follows.
    #[verifier::spinoff_prover]
    #[verifier::rlimit(100)]
    pub proof fn lemma_merge_alternative(acc: Self, v: Seq<TrackModel>, rest: Seq<u8>, lim: nat)
        requires
            TrackModel::writable_list(v),
        ensures
            acc.merge(TrackModel::list_bytes(13, v) + rest, lim) == (TrackModel { alternative: acc.alternative + v, ..acc }).merge(rest, lim),
        decreases v, 0int,
    {
        TrackModel::lemma_list_bytes(13, v);
        TrackModel::lemma_writable_list(v);
        reveal_with_fuel(TrackModel::merge, 1);
        let w = TrackModel::encodings(v);
        if v.len() == 0 {
            assert(length_delimited_list_bytes(13, w) + rest =~= rest);
            assert(acc.alternative + v =~= acc.alternative);
            assert((TrackModel { alternative: acc.alternative + v, ..acc }) == acc);
        } else {
            lemma_length_delimited_list_cons(13, w);
            assert(v[0].wf() && fits_u32(v[0].to_bytes()));
            let t = tag_bytes(13, WIRE_LENGTH_DELIMITED);
            let b = bytes_value_bytes(w[0]);
            let tail = length_delimited_list_bytes(13, w.subrange(1, w.len() as int));
            assert(length_delimited_list_bytes(13, w) + rest =~= t + (b + (tail + rest)));
            lemma_tag_roundtrip(13, WIRE_LENGTH_DELIMITED, b + (tail + rest));
            lemma_message_window(v[0].to_bytes(), tail + rest);
            lemma_embedded_window(v[0].to_bytes(), tail + rest, lim);
            v[0].lemma_roundtrip(0);
            lemma_varint_parse_len(b + (tail + rest));
            let acc1 = TrackModel { alternative: acc.alternative.push(v[0]), ..acc };
            Self::lemma_merge_step(acc, 13, WIRE_LENGTH_DELIMITED, t, b, tail + rest, acc1, lim);
            assert(w.subrange(1, w.len() as int) =~= TrackModel::encodings(v.subrange(1, v.len() as int)));
            assert forall|j: int| 0 <= j < v.len() - 1 implies #[trigger] v.subrange(1, v.len() as int)[j].wf() && fits_u32(v.subrange(1, v.len() as int)[j].to_bytes()) by {
                assert(v.subrange(1, v.len() as int)[j] == v[j + 1]);
            }
            Self::lemma_merge_alternative(acc1, v.subrange(1, v.len() as int), rest, lim);
            TrackModel::lemma_list_bytes(13, v.subrange(1, v.len() as int));
            assert(acc1.alternative + v.subrange(1, v.len() as int) =~= acc.alternative + v);
        }
    }

    /// Merging the encoding of the elements of field `sale_period` appends them, whatever follows.
    #[verifier::spinoff_prover]
    #[verifier::rlimit(50)]
    pub proof fn lemma_merge_sale_period(acc: Self, v: Seq<SalePeriodModel>, rest: Seq<u8>, lim: nat)
        requires
            SalePeriodModel::all_writable(v),
        ensures
            acc.merge(length_delimited_list_bytes(14, SalePeriodModel::encodings(v)) + rest, lim) == (TrackModel { sale_period: acc.sale_period + v, ..acc }).merge(rest, lim),
        decreases v.len(),
    {
        let w = SalePeriodModel::encodings(v);
        if v.len() == 0 {
            assert(length_delimited_list_bytes(14, w) + rest =~= rest);
            assert(acc.sale_period + v =~= acc.sale_period);
            assert((TrackModel { sale_period: acc.sale_period + v, ..acc }) == acc);
        } else {
            lemma_length_delimited_list_cons(14, w);
            assert(v[0].wf() && fits_u32(v[0].to_bytes()));
            let t = tag_bytes(14, WIRE_LENGTH_DELIMITED);
            let b = bytes_value_bytes(w[0]);
            let tail = length_delimited_list_bytes(14, w.subrange(1, w.len() as int));
            assert(length_delimited_list_bytes(14, w) + rest =~= t + (b + (tail + rest)));
            lemma_tag_roundtrip(14, WIRE_LENGTH_DELIMITED, b + (tail + rest));
            lemma_message_window(v[0].to_bytes(), tail + rest);
            lemma_embedded_window(v[0].to_bytes(), tail + rest, lim);
            v[0].lemma_roundtrip(0);
            lemma_varint_parse_len(b + (tail + rest));
            let acc1 = TrackModel { sale_period: acc.sale_period.push(v[0]), ..acc };
            Self::lemma_merge_step(acc, 14, WIRE_LENGTH_DELIMITED, t, b, tail + rest, acc1, lim);
            assert(w.subrange(1, w.len() as int) =~= SalePeriodModel::encodings(v.subrange(1, v.len() as int)));
            assert forall|j: int| 0 <= j < v.len() - 1 implies #[trigger] v.subrange(1, v.len() as int)[j].wf() && fits_u32(v.subrange(1, v.len() as int)[j].to_bytes()) by {
                assert(v.subrange(1, v.len() as int)[j] == v[j + 1]);
            }
            Self::lemma_merge_sale_period(acc1, v.subrange(1, v.len() as int), rest, lim);
            assert(acc1.sale_period + v.subrange(1, v.len() as int) =~= acc.sale_period + v);
        }
    }

    /// Merging the encoding of the elements of field `preview` appends them, whatever follows.
    #[verifier::spinoff_prover]
    #[verifier::rlimit(50)]
    pub proof fn lemma_merge_preview(acc: Self, v: Seq<AudioFileModel>, rest: Seq<u8>, lim: nat)
        requires
            AudioFileModel::all_writable(v),
        ensures
            acc.merge(length_delimited_list_bytes(15, AudioFileModel::encodings(v)) + rest, lim) == (TrackModel { preview: acc.preview + v, ..acc }).merge(rest, lim),
        decreases v.len(),
    {
        let w = AudioFileModel::encodings(v);
        if v.len() == 0 {
            assert(length_delimited_list_bytes(15, w) + rest =~= rest);
            assert(acc.preview + v =~= acc.preview);
            assert((TrackModel { preview: acc.preview + v, ..acc }) == acc);
        } else {
            lemma_length_delimited_list_cons(15, w);
            assert(v[0].wf() && fits_u32(v[0].to_bytes()));
            let t = tag_bytes(15, WIRE_LENGTH_DELIMITED);
            let b = bytes_value_bytes(w[0]);
            let tail = length_delimited_list_bytes(15, w.subrange(1, w.len() as int));
            assert(length_delimited_list_bytes(15, w) + rest =~= t + (b + (tail + rest)));
            lemma_tag_roundtrip(15, WIRE_LENGTH_DELIMITED, b + (tail + rest));
            lemma_message_window(v[0].to_bytes(), tail + rest);
            lemma_embedded_window(v[0].to_bytes(), tail + rest, lim);
            v[0].lemma_roundtrip(0);
            lemma_varint_parse_len(b + (tail + rest));
            let acc1 = TrackModel { preview: acc.preview.push(v[0]), ..acc };
            Self::lemma_merge_step(acc, 15, WIRE_LENGTH_DELIMITED, t, b, tail + rest, acc1, lim);
            assert(w.subrange(1, w.len() as int) =~= AudioFileModel::encodings(v.subrange(1, v.len() as int)));
            assert forall|j: int| 0 <= j < v.len() - 1 implies #[trigger] v.subrange(1, v.len() as int)[j].wf() && fits_u32(v.subrange(1, v.len() as int)[j].to_bytes()) by {
                assert(v.subrange(1, v.len() as int)[j] == v[j + 1]);
            }
            Self::lemma_merge_preview(acc1, v.subrange(1, v.len() as int), rest, lim);
            assert(acc1.preview + v.subrange(1, v.len() as int) =~= acc.preview + v);
        }
    }

    /// Merging the encoding of fields of unknown numbers keeps them, whatever follows.
    #[verifier::spinoff_prover]
    #[verifier::rlimit(50)]
    pub proof fn lemma_merge_unknown_fields(acc: Self, v: Seq<UnknownFieldModel>, rest: Seq<u8>, lim: nat)
        requires
            forall|i: int| 0 <= i < v.len() ==> unknown_field_wf(#[trigger] v[i]) && !Self::is_known_field(v[i].number),
            unknown_grouped(acc.unknown_fields + v),
        ensures
            acc.merge(unknown_list_bytes(v) + rest, lim) == (TrackModel { unknown_fields: acc.unknown_fields + v, ..acc }).merge(rest, lim),
        decreases v.len(),
    {
        if v.len() == 0 {
            assert(unknown_list_bytes(v) + rest =~= rest);
            assert(acc.unknown_fields + v =~= acc.unknown_fields);
            assert((TrackModel { unknown_fields: acc.unknown_fields + v, ..acc }) == acc);
        } else {
            lemma_unknown_list_cons(v);
            let u = v[0];
            let wt = crate::wire::unknown_wire_type(u.value);
            let t = tag_bytes(u.number, wt);
            let b = crate::wire::unknown_value_bytes(u.value);
            let tail = unknown_list_bytes(v.subrange(1, v.len() as int));
            assert(unknown_list_bytes(v) + rest =~= t + (b + (tail + rest)));
            assert(unknown_field_bytes(u) + (tail + rest) =~= t + (b + (tail + rest)));
            lemma_unknown_roundtrip(u, tail + rest);
            assert((t + (b + (tail + rest))).skip(t.len() as int) =~= b + (tail + rest));
            crate::wire::lemma_tag_roundtrip(u.number, wt, b + (tail + rest));
            let acc1 = TrackModel { unknown_fields: acc.unknown_fields.push(u), ..acc };
            assert(acc.unknown_fields.push(u) =~= (acc.unknown_fields + v).take(acc.unknown_fields.len() + 1int));
            lemma_grouped_take(acc.unknown_fields + v, acc.unknown_fields.len() + 1int);
            lemma_grouped_insert_last(acc.unknown_fields, u);
            Self::lemma_merge_step(acc, u.number, wt, t, b, tail + rest, acc1, lim);
            assert(acc1.unknown_fields + v.subrange(1, v.len() as int) =~= acc.unknown_fields + v);
            Self::lemma_merge_unknown_fields(acc1, v.subrange(1, v.len() as int), rest, lim);
        }
    }

    /// Reading back the encoding of a model that can be written gives the model,
    /// whatever the limit past its end.
    #[verifier::spinoff_prover]
    #[verifier::rlimit(100)]
    pub proof fn lemma_roundtrip(self, lim: nat)
        requires
            self.wf(),
        ensures
            TrackModel::empty().merge(self.to_bytes(), lim) == Some(self),
        decreases self, 1int,
    {
        reveal_with_fuel(TrackModel::to_bytes, 1);
        reveal_with_fuel(TrackModel::wf, 1);
        reveal_with_fuel(TrackModel::merge, 1);
        let a0 = TrackModel::empty();
        assert((self.gid matches Some(b) ==> fits_u32(b)));
        Self::lemma_merge_gid(a0, self.gid, self.encoded_from_name(), lim);
        let a1 = TrackModel { gid: if self.gid is Some { self.gid } else { a0.gid }, ..a0 };
        assert((self.name matches Some(c) ==> fits_u32(encode_utf8(c))));
        Self::lemma_merge_name(a1, self.name, self.encoded_from_album(), lim);
        let a2 = TrackModel { name: if self.name is Some { self.name } else { a1.name }, ..a1 };
        assert((self.album matches Some(m) ==> m.wf() && fits_u32(m.to_bytes())));
        Self::lemma_merge_album(a2, self.album, self.encoded_from_artist(), lim);
        let a3 = TrackModel { album: if self.album is Some { self.album } else { a2.album }, ..a2 };
        assert(ArtistModel::writable_list(self.artist));
        Self::lemma_merge_artist(a3, self.artist, self.encoded_from_number(), lim);
        let a4 = TrackModel { artist: a3.artist + self.artist, ..a3 };
        Self::lemma_merge_number(a4, self.number, self.encoded_from_disc_number(), lim);
        let a5 = TrackModel { number: if self.number is Some { self.number } else { a4.number }, ..a4 };
        Self::lemma_merge_disc_number(a5, self.disc_number, self.encoded_from_duration(), lim);
        let a6 = TrackModel { disc_number: if self.disc_number is Some { self.disc_number } else { a5.disc_number }, ..a5 };
        Self::lemma_merge_duration(a6, self.duration, self.encoded_from_popularity(), lim);
        let a7 = TrackModel { duration: if self.duration is Some { self.duration } else { a6.duration }, ..a6 };
        Self::lemma_merge_popularity(a7, self.popularity, self.encoded_from_explicit(), lim);
        let a8 = TrackModel { popularity: if self.popularity is Some { self.popularity } else { a7.popularity }, ..a7 };
        Self::lemma_merge_explicit(a8, self.explicit, self.encoded_from_external_id(), lim);
        let a9 = TrackModel { explicit: if self.explicit is Some { self.explicit } else { a8.explicit }, ..a8 };
        assert(ExternalIdModel::all_writable(self.external_id));
        Self::lemma_merge_external_id(a9, self.external_id, self.encoded_from_restriction(), lim);
        let a10 = TrackModel { external_id: a9.external_id + self.external_id, ..a9 };
        assert(RestrictionModel::all_writable(self.restriction));
        Self::lemma_merge_restriction(a10, self.restriction, self.encoded_from_file(), lim);
        let a11 = TrackModel { restriction: a10.restriction + self.restriction, ..a10 };
        assert(AudioFileModel::all_writable(self.file));
        Self::lemma_merge_file(a11, self.file, self.encoded_from_alternative(), lim);
        let a12 = TrackModel { file: a11.file + self.file, ..a11 };
        assert(TrackModel::writable_list(self.alternative));
        Self::lemma_merge_alternative(a12, self.alternative, self.encoded_from_sale_period(), lim);
        let a13 = TrackModel { alternative: a12.alternative + self.alternative, ..a12 };
        assert(SalePeriodModel::all_writable(self.sale_period));
        Self::lemma_merge_sale_period(a13, self.sale_period, self.encoded_from_preview(), lim);
        let a14 = TrackModel { sale_period: a13.sale_period + self.sale_period, ..a13 };
        assert(AudioFileModel::all_writable(self.preview));
        Self::lemma_merge_preview(a14, self.preview, self.encoded_from_unknown_fields(), lim);
        let a15 = TrackModel { preview: a14.preview + self.preview, ..a14 };
        assert(a15.unknown_fields + self.unknown_fields =~= self.unknown_fields);
        Self::lemma_merge_unknown_fields(a15, self.unknown_fields, Seq::empty(), lim);
        assert(unknown_list_bytes(self.unknown_fields) + Seq::<u8>::empty() =~= unknown_list_bytes(self.unknown_fields));
        let last = TrackModel { unknown_fields: a15.unknown_fields + self.unknown_fields, ..a15 };
        assert(last.artist =~= self.artist);
        assert(last.external_id =~= self.external_id);
        assert(last.restriction =~= self.restriction);
        assert(last.file =~= self.file);
        assert(last.alternative =~= self.alternative);
        assert(last.sale_period =~= self.sale_period);
        assert(last.preview =~= self.preview);
        assert(last.unknown_fields =~= self.unknown_fields);
        assert(last == self);
    }
    /// A message whose only set field is `gid` is written as field number 1 of the
    /// protocol's definition alone: the tag of that number with the wire type of the field,
    /// then the value.
    #[verifier::spinoff_prover]
    pub proof fn lemma_encoding_of_gid(v: Option<Seq<u8>>)
        ensures
            (TrackModel { gid: v, ..TrackModel::empty() }).to_bytes() == opt_length_delimited_field_bytes(1, v),
    {
        reveal_with_fuel(TrackModel::to_bytes, 18);
        let m = TrackModel { gid: v, ..TrackModel::empty() };
        assert(m.to_bytes() =~= opt_length_delimited_field_bytes(1, v));
    }

    /// A message whose only set field is `name` is written as field number 2 of the
    /// protocol's definition alone: the tag of that number with the wire type of the field,
    /// then the value.
    #[verifier::spinoff_prover]
    pub proof fn lemma_encoding_of_name(v: Option<Seq<char>>)
        ensures
            (TrackModel { name: v, ..TrackModel::empty() }).to_bytes() == opt_length_delimited_field_bytes(2, match v { Some(c) => Some(encode_utf8(c)), None => None }),
    {
        reveal_with_fuel(TrackModel::to_bytes, 18);
        let m = TrackModel { name: v, ..TrackModel::empty() };
        assert(m.to_bytes() =~= opt_length_delimited_field_bytes(2, match v { Some(c) => Some(encode_utf8(c)), None => None }));
    }

    /// A message whose only set field is `album` is written as field number 3 of the
    /// protocol's definition alone: the tag of that number with the wire type of the field,
    /// then the value.
    #[verifier::spinoff_prover]
    pub proof fn lemma_encoding_of_album(v: Option<AlbumModel>)
        ensures
            (TrackModel { album: v, ..TrackModel::empty() }).to_bytes() == opt_length_delimited_field_bytes(3, match v { Some(m) => Some(m.to_bytes()), None => None }),
    {
        reveal_with_fuel(TrackModel::to_bytes, 18);
        let m = TrackModel { album: v, ..TrackModel::empty() };
        assert(m.to_bytes() =~= opt_length_delimited_field_bytes(3, match v { Some(m) => Some(m.to_bytes()), None => None }));
    }

    /// A message whose only set field is `artist` is written as field number 4 of the
    /// protocol's definition alone: the tag of that number with the wire type of the field,
    /// then the value.
    #[verifier::spinoff_prover]
    pub proof fn lemma_encoding_of_artist(v: Seq<ArtistModel>)
        ensures
            (TrackModel { artist: v, ..TrackModel::empty() }).to_bytes() == ArtistModel::list_bytes(4, v),
    {
        reveal_with_fuel(TrackModel::to_bytes, 18);
        let m = TrackModel { artist: v, ..TrackModel::empty() };
        assert(m.to_bytes() =~= ArtistModel::list_bytes(4, v));
    }

    /// A message whose only set field is `number` is written as field number 5 of the
    /// protocol's definition alone: the tag of that number with the wire type of the field,
    /// then the value.
    #[verifier::spinoff_prover]
    pub proof fn lemma_encoding_of_number(v: Option<i32>)
        ensures
            (TrackModel { number: v, ..TrackModel::empty() }).to_bytes() == opt_varint_field_bytes(5, match v { Some(x) => Some(zigzag_encode32(x) as u64), None => None }),
    {
        reveal_with_fuel(TrackModel::to_bytes, 18);
        let m = TrackModel { number: v, ..TrackModel::empty() };
        assert(m.to_bytes() =~= opt_varint_field_bytes(5, match v { Some(x) => Some(zigzag_encode32(x) as u64), None => None }));
    }

    /// A message whose only set field is `disc_number` is written as field number 6 of the
    /// protocol's definition alone: the tag of that number with the wire type of the field,
    /// then the value.
    #[verifier::spinoff_prover]
    pub proof fn lemma_encoding_of_disc_number(v: Option<i32>)
        ensures
            (TrackModel { disc_number: v, ..TrackModel::empty() }).to_bytes() == opt_varint_field_bytes(6, match v { Some(x) => Some(zigzag_encode32(x) as u64), None => None }),
    {
        reveal_with_fuel(TrackModel::to_bytes, 18);
        let m = TrackModel { disc_number: v, ..TrackModel::empty() };
        assert(m.to_bytes() =~= opt_varint_field_bytes(6, match v { Some(x) => Some(zigzag_encode32(x) as u64), None => None }));
    }

    /// A message whose only set field is `duration` is written as field number 7 of the
    /// protocol's definition alone: the tag of that number with the wire type of the field,
    /// then the value.
    #[verifier::spinoff_prover]
    pub proof fn lemma_encoding_of_duration(v: Option<i32>)
        ensures
            (TrackModel { duration: v, ..TrackModel::empty() }).to_bytes() == opt_varint_field_bytes(7, match v { Some(x) => Some(zigzag_encode32(x) as u64), None => None }),
    {
        reveal_with_fuel(TrackModel::to_bytes, 18);
        let m = TrackModel { duration: v, ..TrackModel::empty() };
        assert(m.to_bytes() =~= opt_varint_field_bytes(7, match v { Some(x) => Some(zigzag_encode32(x) as u64), None => None }));
    }

    /// A message whose only set field is `popularity` is written as field number 8 of the
    /// protocol's definition alone: the tag of that number with the wire type of the field,
    /// then the value.
    #[verifier::spinoff_prover]
    pub proof fn lemma_encoding_of_popularity(v: Option<i32>)
        ensures
            (TrackModel { popularity: v, ..TrackModel::empty() }).to_bytes() == opt_varint_field_bytes(8, match v { Some(x) => Some(zigzag_encode32(x) as u64), None => None }),
    {
        reveal_with_fuel(TrackModel::to_bytes, 18);
        let m = TrackModel { popularity: v, ..TrackModel::empty() };
        assert(m.to_bytes() =~= opt_varint_field_bytes(8, match v { Some(x) => Some(zigzag_encode32(x) as u64), None => None }));
    }

    /// A message whose only set field is `explicit` is written as field number 9 of the
    /// protocol's definition alone: the tag of that number with the wire type of the field,
    /// then the value.
    #[verifier::spinoff_prover]
    pub proof fn lemma_encoding_of_explicit(v: Option<bool>)
        ensures
            (TrackModel { explicit: v, ..TrackModel::empty() }).to_bytes() == opt_varint_field_bytes(9, match v { Some(x) => Some(bool_varint(x)), None => None }),
    {
        reveal_with_fuel(TrackModel::to_bytes, 18);
        let m = TrackModel { explicit: v, ..TrackModel::empty() };
        assert(m.to_bytes() =~= opt_varint_field_bytes(9, match v { Some(x) => Some(bool_varint(x)), None => None }));
    }

    /// A message whose only set field is `external_id` is written as field number 10 of the
    /// protocol's definition alone: the tag of that number with the wire type of the field,
    /// then the value.
    #[verifier::spinoff_prover]
    pub proof fn lemma_encoding_of_external_id(v: Seq<ExternalIdModel>)
        ensures
            (TrackModel { external_id: v, ..TrackModel::empty() }).to_bytes() == length_delimited_list_bytes(10, ExternalIdModel::encodings(v)),
    {
        reveal_with_fuel(TrackModel::to_bytes, 18);
        let m = TrackModel { external_id: v, ..TrackModel::empty() };
        assert(m.to_bytes() =~= length_delimited_list_bytes(10, ExternalIdModel::encodings(v)));
    }

    /// A message whose only set field is `restriction` is written as field number 11 of the
    /// protocol's definition alone: the tag of that number with the wire type of the field,
    /// then the value.
    #[verifier::spinoff_prover]
    pub proof fn lemma_encoding_of_restriction(v: Seq<RestrictionModel>)
        ensures
            (TrackModel { restriction: v, ..TrackModel::empty() }).to_bytes() == length_delimited_list_bytes(11, RestrictionModel::encodings(v)),
    {
        reveal_with_fuel(TrackModel::to_bytes, 18);
        let m = TrackModel { restriction: v, ..TrackModel::empty() };
        assert(m.to_bytes() =~= length_delimited_list_bytes(11, RestrictionModel::encodings(v)));
    }

    /// A message whose only set field is `file` is written as field number 12 of the
    /// protocol's definition alone: the tag of that number with the wire type of the field,
    /// then the value.
    #[verifier::spinoff_prover]
    pub proof fn lemma_encoding_of_file(v: Seq<AudioFileModel>)
        ensures
            (TrackModel { file: v, ..TrackModel::empty() }).to_bytes() == length_delimited_list_bytes(12, AudioFileModel::encodings(v)),
    {
        reveal_with_fuel(TrackModel::to_bytes, 18);
        let m = TrackModel { file: v, ..TrackModel::empty() };
        assert(m.to_bytes() =~= length_delimited_list_bytes(12, AudioFileModel::encodings(v)));
    }

    /// A message whose only set field is `alternative` is written as field number 13 of the
    /// protocol's definition alone: the tag of that number with the wire type of the field,
    /// then the value.
    #[verifier::spinoff_prover]
    pub proof fn lemma_encoding_of_alternative(v: Seq<TrackModel>)
        ensures
            (TrackModel { alternative: v, ..TrackModel::empty() }).to_bytes() == TrackModel::list_bytes(13, v),
    {
        reveal_with_fuel(TrackModel::to_bytes, 18);
        let m = TrackModel { alternative: v, ..TrackModel::empty() };
        assert(m.to_bytes() =~= TrackModel::list_bytes(13, v));
    }

    /// A message whose only set field is `sale_period` is written as field number 14 of the
    /// protocol's definition alone: the tag of that number with the wire type of the field,
    /// then the value.
    #[verifier::spinoff_prover]
    pub proof fn lemma_encoding_of_sale_period(v: Seq<SalePeriodModel>)
        ensures
            (TrackModel { sale_period: v, ..TrackModel::empty() }).to_bytes() == length_delimited_list_bytes(14, SalePeriodModel::encodings(v)),
    {
        reveal_with_fuel(TrackModel::to_bytes, 18);
        let m = TrackModel { sale_period: v, ..TrackModel::empty() };
        assert(m.to_bytes() =~= length_delimited_list_bytes(14, SalePeriodModel::encodings(v)));
    }

    /// A message whose only set field is `preview` is written as field number 15 of the
    /// protocol's definition alone: the tag of that number with the wire type of the field,
    /// then the value.
    #[verifier::spinoff_prover]
    pub proof fn lemma_encoding_of_preview(v: Seq<AudioFileModel>)
        ensures
            (TrackModel { preview: v, ..TrackModel::empty() }).to_bytes() == length_delimited_list_bytes(15, AudioFileModel::encodings(v)),
    {
        reveal_with_fuel(TrackModel::to_bytes, 18);
        let m = TrackModel { preview: v, ..TrackModel::empty() };
        assert(m.to_bytes() =~= length_delimited_list_bytes(15, AudioFileModel::encodings(v)));
    }

}

#[allow(non_snake_case)]
impl Track {
    #[verifier::type_invariant]
    spec fn unset_fields_are_empty(self) -> bool {
        (!self.has_album ==> self.album@ == AlbumModel::empty())
    }

    /// The models of a list of messages.
    pub open spec fn seq_model(v: Seq<Track>) -> Seq<TrackModel>
        decreases v, 0int,
    {
        if v.len() == 0 {
            Seq::empty()
        } else {
            Self::seq_model(v.subrange(0, v.len() - 1)).push(v[v.len() - 1].model())
        }
    }

    /// The list of models has an element for each message, its model.
    #[verifier::spinoff_prover]
    pub proof fn lemma_seq_model(v: Seq<Track>)
        ensures
            Self::seq_model(v).len() == v.len(),
            forall|i: int| 0 <= i < v.len() ==> #[trigger] Self::seq_model(v)[i] == v[i]@,
        decreases v.len(),
    {
        if v.len() > 0 {
            Self::lemma_seq_model(v.subrange(0, v.len() - 1));
        }
    }

    /// Appending a message appends its model.
    #[verifier::spinoff_prover]
    pub proof fn lemma_seq_model_push(v: Seq<Track>, x: Track)
        ensures
            Self::seq_model(v.push(x)) == Self::seq_model(v).push(x@),
    {
        assert(v.push(x).subrange(0, v.len() as int) =~= v);
    }

    /// A message with no field set.
    #[verifier::spinoff_prover]
    pub fn new() -> (r: Self)
        ensures
            r@ == TrackModel::empty(),
            r@.wf(),
    {
        let r = Track {
            gid: None,
            name: None,
            album: Box::new(Album::new()),
            has_album: false,
            artist: Vec::new(),
            number: None,
            disc_number: None,
            duration: None,
            popularity: None,
            explicit: None,
            external_id: Vec::new(),
            restriction: Vec::new(),
            file: Vec::new(),
            alternative: Vec::new(),
            sale_period: Vec::new(),
            preview: Vec::new(),
            unknown_fields: Vec::new(),
        };
        assert(Artist::seq_model(r.artist@) =~= Seq::<ArtistModel>::empty());
        assert(ExternalId::seq_model(r.external_id@) =~= Seq::<ExternalIdModel>::empty());
        assert(Restriction::seq_model(r.restriction@) =~= Seq::<RestrictionModel>::empty());
        assert(AudioFile::seq_model(r.file@) =~= Seq::<AudioFileModel>::empty());
        assert(Track::seq_model(r.alternative@) =~= Seq::<TrackModel>::empty());
        assert(SalePeriod::seq_model(r.sale_period@) =~= Seq::<SalePeriodModel>::empty());
        assert(AudioFile::seq_model(r.preview@) =~= Seq::<AudioFileModel>::empty());
        assert(unknown_models(r.unknown_fields@) =~= Seq::<UnknownFieldModel>::empty());
        proof {
            TrackModel::lemma_empty_wf();
        }
        r
    }

    /// Unsets field `gid`.
    #[verifier::spinoff_prover]
    pub fn clear_gid(&mut self)
        ensures
            final(self)@ == (TrackModel { gid: None, ..old(self)@ }),
    {
        proof {
            use_type_invariant(&*self);
        }
        self.gid = None;
    }

    /// Whether field `gid` is set.
    #[verifier::spinoff_prover]
    pub fn has_gid(&self) -> (r: bool)
        ensures
            r == self@.gid is Some,
    {
        self.gid.is_some()
    }

    /// Sets field `gid` to `v`.
    #[verifier::spinoff_prover]
    pub fn set_gid(&mut self, v: Vec<u8>)
        ensures
            final(self)@ == (TrackModel { gid: Some(v@), ..old(self)@ }),
    {
        proof {
            use_type_invariant(&*self);
        }
        self.gid = Some(v);
    }

    /// Field `gid`, to change in place; an unset field is first set to its default.
    #[verifier::spinoff_prover]
    pub fn mut_gid(&mut self) -> (r: &mut Vec<u8>)
        ensures
            r@ == bytes_or_empty(old(self)@.gid),
            final(self)@ == (TrackModel { gid: Some(final(r)@), ..old(self)@ }),

    {
        proof {
            use_type_invariant(&*self);
        }
        if self.gid.is_none() {
            self.gid = Some(Vec::new());
        }
        opt_as_mut(&mut self.gid).unwrap()
    }

    /// Takes field `gid` (its default when unset), leaving it unset.
    #[verifier::spinoff_prover]
    pub fn take_gid(&mut self) -> (r: Vec<u8>)
        ensures
            r@ == bytes_or_empty(old(self)@.gid),
            final(self)@ == (TrackModel { gid: None, ..old(self)@ }),
    {
        proof {
            use_type_invariant(&*self);
        }
        let mut t = None;
        std::mem::swap(&mut t, &mut self.gid);
        match t {
            Some(v) => v,
            None => Vec::new(),
        }
    }

    /// Field `gid`, or no bytes when unset.
    #[verifier::spinoff_prover]
    pub fn get_gid(&self) -> (r: &[u8])
        ensures
            r@ == bytes_or_empty(self@.gid),
    {
        match &self.gid {
            Some(v) => v.as_slice(),
            None => &[],
        }
    }

    /// Unsets field `name`.
    #[verifier::spinoff_prover]
    pub fn clear_name(&mut self)
        ensures
            final(self)@ == (TrackModel { name: None, ..old(self)@ }),
    {
        proof {
            use_type_invariant(&*self);
        }
        self.name = None;
    }

    /// Whether field `name` is set.
    #[verifier::spinoff_prover]
    pub fn has_name(&self) -> (r: bool)
        ensures
            r == self@.name is Some,
    {
        self.name.is_some()
    }

    /// Sets field `name` to `v`.
    #[verifier::spinoff_prover]
    pub fn set_name(&mut self, v: String)
        ensures
            final(self)@ == (TrackModel { name: Some(v@), ..old(self)@ }),
    {
        proof {
            use_type_invariant(&*self);
        }
        self.name = Some(v);
    }

    /// Field `name`, to change in place; an unset field is first set to its default.
    #[verifier::spinoff_prover]
    pub fn mut_name(&mut self) -> (r: &mut String)
        ensures
            r@ == chars_or_empty(old(self)@.name),
            final(self)@ == (TrackModel { name: Some(final(r)@), ..old(self)@ }),

    {
        proof {
            use_type_invariant(&*self);
        }
        if self.name.is_none() {
            self.name = Some(String::new());
        }
        opt_as_mut(&mut self.name).unwrap()
    }

    /// Takes field `name` (its default when unset), leaving it unset.
    #[verifier::spinoff_prover]
    pub fn take_name(&mut self) -> (r: String)
        ensures
            r@ == chars_or_empty(old(self)@.name),
            final(self)@ == (TrackModel { name: None, ..old(self)@ }),
    {
        proof {
            use_type_invariant(&*self);
        }
        let mut t = None;
        std::mem::swap(&mut t, &mut self.name);
        match t {
            Some(v) => v,
            None => String::new(),
        }
    }

    /// Field `name`, or the empty string when unset.
    #[verifier::spinoff_prover]
    pub fn get_name(&self) -> (r: &str)
        ensures
            r@ == chars_or_empty(self@.name),
    {
        match &self.name {
            Some(v) => v.as_str(),
            None => {
                proof {
                    reveal_strlit("");
                }
                ""
            },
        }
    }

    /// Unsets field `album`.
    #[verifier::spinoff_prover]
    pub fn clear_album(&mut self)
        ensures
            final(self)@ == (TrackModel { album: None, ..old(self)@ }),
    {
        proof {
            use_type_invariant(&*self);
        }
        self.album = Box::new(Album::new());
        self.has_album = false;
    }

    /// Whether field `album` is set.
    #[verifier::spinoff_prover]
    pub fn has_album(&self) -> (r: bool)
        ensures
            r == self@.album is Some,
    {
        self.has_album
    }

    /// Sets field `album` to `v`.
    #[verifier::spinoff_prover]
    pub fn set_album(&mut self, v: Album)
        ensures
            final(self)@ == (TrackModel { album: Some(v@), ..old(self)@ }),
    {
        proof {
            use_type_invariant(&*self);
        }
        self.has_album = true;
        self.album = Box::new(v);
    }

    /// Field `album`, to change in place; an unset field is first set to its default.
    #[verifier::spinoff_prover]
    pub fn mut_album(&mut self) -> (r: &mut Album)
        ensures
            r@ == (match old(self)@.album { Some(x) => x, None => AlbumModel::empty() }),
            final(self)@ == (TrackModel { album: Some(final(r)@), ..old(self)@ }),

        no_unwind
    {
        proof {
            use_type_invariant(&*self);
        }
        self.has_album = true;
        box_mut(&mut self.album)
    }

    /// Takes field `album` (its default when unset), leaving it unset.
    #[verifier::spinoff_prover]
    pub fn take_album(&mut self) -> (r: Album)
        ensures
            r@ == (match old(self)@.album { Some(x) => x, None => AlbumModel::empty() }),
            final(self)@ == (TrackModel { album: None, ..old(self)@ }),
    {
        proof {
            use_type_invariant(&*self);
        }
        let mut b = Box::new(Album::new());
        std::mem::swap(&mut b, &mut self.album);
        self.has_album = false;
        *b
    }

    /// Field `album`, or a message with no field set when unset.
    #[verifier::spinoff_prover]
    pub fn get_album(&self) -> (r: &Album)
        ensures
            r@ == (match self@.album { Some(x) => x, None => AlbumModel::empty() }),
    {
        proof {
            use_type_invariant(self);
        }
        &self.album
    }

    /// Empties field `artist`.
    #[verifier::spinoff_prover]
    pub fn clear_artist(&mut self)
        ensures
            final(self)@ == (TrackModel { artist: Seq::empty(), ..old(self)@ }),
    {
        proof {
            use_type_invariant(&*self);
        }
        self.artist = Vec::new();
        assert(Artist::seq_model(self.artist@) =~= Seq::<ArtistModel>::empty());
    }

    /// Sets field `artist` to the elements of `v`.
    #[verifier::spinoff_prover]
    pub fn set_artist(&mut self, v: Vec<Artist>)
        ensures
            final(self)@ == (TrackModel { artist: Artist::seq_model(v@), ..old(self)@ }),
    {
        proof {
            use_type_invariant(&*self);
        }
        self.artist = v;
    }

    /// The elements of field `artist`, to change in place.
    #[verifier::spinoff_prover]
    pub fn mut_artist(&mut self) -> (r: &mut Vec<Artist>)
        ensures
            Artist::seq_model(r@) == old(self)@.artist,
            final(self)@ == (TrackModel { artist: Artist::seq_model(final(r)@), ..old(self)@ }),
    {
        proof {
            use_type_invariant(&*self);
        }
        field_mut(&mut self.artist)
    }

    /// Takes the elements of field `artist`, leaving it empty.
    #[verifier::spinoff_prover]
    pub fn take_artist(&mut self) -> (r: Vec<Artist>)
        ensures
            Artist::seq_model(r@) == old(self)@.artist,
            final(self)@ == (TrackModel { artist: Seq::empty(), ..old(self)@ }),
    {
        proof {
            use_type_invariant(&*self);
        }
        let mut r = Vec::new();
        std::mem::swap(&mut r, &mut self.artist);
        assert(Artist::seq_model(self.artist@) =~= Seq::<ArtistModel>::empty());
        r
    }

    /// The elements of field `artist`.
    #[verifier::spinoff_prover]
    pub fn get_artist(&self) -> (r: &[Artist])
        ensures
            Artist::seq_model(r@) == self@.artist,
    {
        self.artist.as_slice()
    }

    /// Unsets field `number`.
    #[verifier::spinoff_prover]
    pub fn clear_number(&mut self)
        ensures
            final(self)@ == (TrackModel { number: None, ..old(self)@ }),
    {
        proof {
            use_type_invariant(&*self);
        }
        self.number = None;
    }

    /// Whether field `number` is set.
    #[verifier::spinoff_prover]
    pub fn has_number(&self) -> (r: bool)
        ensures
            r == self@.number is Some,
    {
        self.number.is_some()
    }

    /// Sets field `number` to `v`.
    #[verifier::spinoff_prover]
    pub fn set_number(&mut self, v: i32)
        ensures
            final(self)@ == (TrackModel { number: Some(v), ..old(self)@ }),
    {
        proof {
            use_type_invariant(&*self);
        }
        self.number = Some(v);
    }

    /// Field `number`, or `0` when unset.
    #[verifier::spinoff_prover]
    pub fn get_number(&self) -> (r: i32)
        ensures
            r == (match self@.number { Some(x) => x, None => 0i32 }),
    {
        match self.number {
            Some(x) => x,
            None => 0i32,
        }
    }

    /// Unsets field `disc_number`.
    #[verifier::spinoff_prover]
    pub fn clear_disc_number(&mut self)
        ensures
            final(self)@ == (TrackModel { disc_number: None, ..old(self)@ }),
    {
        proof {
            use_type_invariant(&*self);
        }
        self.disc_number = None;
    }

    /// Whether field `disc_number` is set.
    #[verifier::spinoff_prover]
    pub fn has_disc_number(&self) -> (r: bool)
        ensures
            r == self@.disc_number is Some,
    {
        self.disc_number.is_some()
    }

    /// Sets field `disc_number` to `v`.
    #[verifier::spinoff_prover]
    pub fn set_disc_number(&mut self, v: i32)
        ensures
            final(self)@ == (TrackModel { disc_number: Some(v), ..old(self)@ }),
    {
        proof {
            use_type_invariant(&*self);
        }
        self.disc_number = Some(v);
    }

    /// Field `disc_number`, or `0` when unset.
    #[verifier::spinoff_prover]
    pub fn get_disc_number(&self) -> (r: i32)
        ensures
            r == (match self@.disc_number { Some(x) => x, None => 0i32 }),
    {
        match self.disc_number {
            Some(x) => x,
            None => 0i32,
        }
    }

    /// Unsets field `duration`.
    #[verifier::spinoff_prover]
    pub fn clear_duration(&mut self)
        ensures
            final(self)@ == (TrackModel { duration: None, ..old(self)@ }),
    {
        proof {
            use_type_invariant(&*self);
        }
        self.duration = None;
    }

    /// Whether field `duration` is set.
    #[verifier::spinoff_prover]
    pub fn has_duration(&self) -> (r: bool)
        ensures
            r == self@.duration is Some,
    {
        self.duration.is_some()
    }

    /// Sets field `duration` to `v`.
    #[verifier::spinoff_prover]
    pub fn set_duration(&mut self, v: i32)
        ensures
            final(self)@ == (TrackModel { duration: Some(v), ..old(self)@ }),
    {
        proof {
            use_type_invariant(&*self);
        }
        self.duration = Some(v);
    }

    /// Field `duration`, or `0` when unset.
    #[verifier::spinoff_prover]
    pub fn get_duration(&self) -> (r: i32)
        ensures
            r == (match self@.duration { Some(x) => x, None => 0i32 }),
    {
        match self.duration {
            Some(x) => x,
            None => 0i32,
        }
    }

    /// Unsets field `popularity`.
    #[verifier::spinoff_prover]
    pub fn clear_popularity(&mut self)
        ensures
            final(self)@ == (TrackModel { popularity: None, ..old(self)@ }),
    {
        proof {
            use_type_invariant(&*self);
        }
        self.popularity = None;
    }

    /// Whether field `popularity` is set.
    #[verifier::spinoff_prover]
    pub fn has_popularity(&self) -> (r: bool)
        ensures
            r == self@.popularity is Some,
    {
        self.popularity.is_some()
    }

    /// Sets field `popularity` to `v`.
    #[verifier::spinoff_prover]
    pub fn set_popularity(&mut self, v: i32)
        ensures
            final(self)@ == (TrackModel { popularity: Some(v), ..old(self)@ }),
    {
        proof {
            use_type_invariant(&*self);
        }
        self.popularity = Some(v);
    }

    /// Field `popularity`, or `0` when unset.
    #[verifier::spinoff_prover]
    pub fn get_popularity(&self) -> (r: i32)
        ensures
            r == (match self@.popularity { Some(x) => x, None => 0i32 }),
    {
        match self.popularity {
            Some(x) => x,
            None => 0i32,
        }
    }

    /// Unsets field `explicit`.
    #[verifier::spinoff_prover]
    pub fn clear_explicit(&mut self)
        ensures
            final(self)@ == (TrackModel { explicit: None, ..old(self)@ }),
    {
        proof {
            use_type_invariant(&*self);
        }
        self.explicit = None;
    }

    /// Whether field `explicit` is set.
    #[verifier::spinoff_prover]
    pub fn has_explicit(&self) -> (r: bool)
        ensures
            r == self@.explicit is Some,
    {
        self.explicit.is_some()
    }

    /// Sets field `explicit` to `v`.
    #[verifier::spinoff_prover]
    pub fn set_explicit(&mut self, v: bool)
        ensures
            final(self)@ == (TrackModel { explicit: Some(v), ..old(self)@ }),
    {
        proof {
            use_type_invariant(&*self);
        }
        self.explicit = Some(v);
    }

    /// Field `explicit`, or `false` when unset.
    #[verifier::spinoff_prover]
    pub fn get_explicit(&self) -> (r: bool)
        ensures
            r == (match self@.explicit { Some(x) => x, None => false }),
    {
        match self.explicit {
            Some(x) => x,
            None => false,
        }
    }

    /// Empties field `external_id`.
    #[verifier::spinoff_prover]
    pub fn clear_external_id(&mut self)
        ensures
            final(self)@ == (TrackModel { external_id: Seq::empty(), ..old(self)@ }),
    {
        proof {
            use_type_invariant(&*self);
        }
        self.external_id = Vec::new();
        assert(ExternalId::seq_model(self.external_id@) =~= Seq::<ExternalIdModel>::empty());
    }

    /// Sets field `external_id` to the elements of `v`.
    #[verifier::spinoff_prover]
    pub fn set_external_id(&mut self, v: Vec<ExternalId>)
        ensures
            final(self)@ == (TrackModel { external_id: ExternalId::seq_model(v@), ..old(self)@ }),
    {
        proof {
            use_type_invariant(&*self);
        }
        self.external_id = v;
    }

    /// The elements of field `external_id`, to change in place.
    #[verifier::spinoff_prover]
    pub fn mut_external_id(&mut self) -> (r: &mut Vec<ExternalId>)
        ensures
            ExternalId::seq_model(r@) == old(self)@.external_id,
            final(self)@ == (TrackModel { external_id: ExternalId::seq_model(final(r)@), ..old(self)@ }),
    {
        proof {
            use_type_invariant(&*self);
        }
        field_mut(&mut self.external_id)
    }

    /// Takes the elements of field `external_id`, leaving it empty.
    #[verifier::spinoff_prover]
    pub fn take_external_id(&mut self) -> (r: Vec<ExternalId>)
        ensures
            ExternalId::seq_model(r@) == old(self)@.external_id,
            final(self)@ == (TrackModel { external_id: Seq::empty(), ..old(self)@ }),
    {
        proof {
            use_type_invariant(&*self);
        }
        let mut r = Vec::new();
        std::mem::swap(&mut r, &mut self.external_id);
        assert(ExternalId::seq_model(self.external_id@) =~= Seq::<ExternalIdModel>::empty());
        r
    }

    /// The elements of field `external_id`.
    #[verifier::spinoff_prover]
    pub fn get_external_id(&self) -> (r: &[ExternalId])
        ensures
            ExternalId::seq_model(r@) == self@.external_id,
    {
        self.external_id.as_slice()
    }

    /// Empties field `restriction`.
    #[verifier::spinoff_prover]
    pub fn clear_restriction(&mut self)
        ensures
            final(self)@ == (TrackModel { restriction: Seq::empty(), ..old(self)@ }),
    {
        proof {
            use_type_invariant(&*self);
        }
        self.restriction = Vec::new();
        assert(Restriction::seq_model(self.restriction@) =~= Seq::<RestrictionModel>::empty());
    }

    /// Sets field `restriction` to the elements of `v`.
    #[verifier::spinoff_prover]
    pub fn set_restriction(&mut self, v: Vec<Restriction>)
        ensures
            final(self)@ == (TrackModel { restriction: Restriction::seq_model(v@), ..old(self)@ }),
    {
        proof {
            use_type_invariant(&*self);
        }
        self.restriction = v;
    }

    /// The elements of field `restriction`, to change in place.
    #[verifier::spinoff_prover]
    pub fn mut_restriction(&mut self) -> (r: &mut Vec<Restriction>)
        ensures
            Restriction::seq_model(r@) == old(self)@.restriction,
            final(self)@ == (TrackModel { restriction: Restriction::seq_model(final(r)@), ..old(self)@ }),
    {
        proof {
            use_type_invariant(&*self);
        }
        field_mut(&mut self.restriction)
    }

    /// Takes the elements of field `restriction`, leaving it empty.
    #[verifier::spinoff_prover]
    pub fn take_restriction(&mut self) -> (r: Vec<Restriction>)
        ensures
            Restriction::seq_model(r@) == old(self)@.restriction,
            final(self)@ == (TrackModel { restriction: Seq::empty(), ..old(self)@ }),
    {
        proof {
            use_type_invariant(&*self);
        }
        let mut r = Vec::new();
        std::mem::swap(&mut r, &mut self.restriction);
        assert(Restriction::seq_model(self.restriction@) =~= Seq::<RestrictionModel>::empty());
        r
    }

    /// The elements of field `restriction`.
    #[verifier::spinoff_prover]
    pub fn get_restriction(&self) -> (r: &[Restriction])
        ensures
            Restriction::seq_model(r@) == self@.restriction,
    {
        self.restriction.as_slice()
    }

    /// Empties field `file`.
    #[verifier::spinoff_prover]
    pub fn clear_file(&mut self)
        ensures
            final(self)@ == (TrackModel { file: Seq::empty(), ..old(self)@ }),
    {
        proof {
            use_type_invariant(&*self);
        }
        self.file = Vec::new();
        assert(AudioFile::seq_model(self.file@) =~= Seq::<AudioFileModel>::empty());
    }

    /// Sets field `file` to the elements of `v`.
    #[verifier::spinoff_prover]
    pub fn set_file(&mut self, v: Vec<AudioFile>)
        ensures
            final(self)@ == (TrackModel { file: AudioFile::seq_model(v@), ..old(self)@ }),
    {
        proof {
            use_type_invariant(&*self);
        }
        self.file = v;
    }

    /// The elements of field `file`, to change in place.
    #[verifier::spinoff_prover]
    pub fn mut_file(&mut self) -> (r: &mut Vec<AudioFile>)
        ensures
            AudioFile::seq_model(r@) == old(self)@.file,
            final(self)@ == (TrackModel { file: AudioFile::seq_model(final(r)@), ..old(self)@ }),
    {
        proof {
            use_type_invariant(&*self);
        }
        field_mut(&mut self.file)
    }

    /// Takes the elements of field `file`, leaving it empty.
    #[verifier::spinoff_prover]
    pub fn take_file(&mut self) -> (r: Vec<AudioFile>)
        ensures
            AudioFile::seq_model(r@) == old(self)@.file,
            final(self)@ == (TrackModel { file: Seq::empty(), ..old(self)@ }),
    {
        proof {
            use_type_invariant(&*self);
        }
        let mut r = Vec::new();
        std::mem::swap(&mut r, &mut self.file);
        assert(AudioFile::seq_model(self.file@) =~= Seq::<AudioFileModel>::empty());
        r
    }

    /// The elements of field `file`.
    #[verifier::spinoff_prover]
    pub fn get_file(&self) -> (r: &[AudioFile])
        ensures
            AudioFile::seq_model(r@) == self@.file,
    {
        self.file.as_slice()
    }

    /// Empties field `alternative`.
    #[verifier::spinoff_prover]
    pub fn clear_alternative(&mut self)
        ensures
            final(self)@ == (TrackModel { alternative: Seq::empty(), ..old(self)@ }),
    {
        proof {
            use_type_invariant(&*self);
        }
        self.alternative = Vec::new();
        assert(Track::seq_model(self.alternative@) =~= Seq::<TrackModel>::empty());
    }

    /// Sets field `alternative` to the elements of `v`.
    #[verifier::spinoff_prover]
    pub fn set_alternative(&mut self, v: Vec<Track>)
        ensures
            final(self)@ == (TrackModel { alternative: Track::seq_model(v@), ..old(self)@ }),
    {
        proof {
            use_type_invariant(&*self);
        }
        self.alternative = v;
    }

    /// The elements of field `alternative`, to change in place.
    #[verifier::spinoff_prover]
    pub fn mut_alternative(&mut self) -> (r: &mut Vec<Track>)
        ensures
            Track::seq_model(r@) == old(self)@.alternative,
            final(self)@ == (TrackModel { alternative: Track::seq_model(final(r)@), ..old(self)@ }),
    {
        proof {
            use_type_invariant(&*self);
        }
        field_mut(&mut self.alternative)
    }

    /// Takes the elements of field `alternative`, leaving it empty.
    #[verifier::spinoff_prover]
    pub fn take_alternative(&mut self) -> (r: Vec<Track>)
        ensures
            Track::seq_model(r@) == old(self)@.alternative,
            final(self)@ == (TrackModel { alternative: Seq::empty(), ..old(self)@ }),
    {
        proof {
            use_type_invariant(&*self);
        }
        let mut r = Vec::new();
        std::mem::swap(&mut r, &mut self.alternative);
        assert(Track::seq_model(self.alternative@) =~= Seq::<TrackModel>::empty());
        r
    }

    /// The elements of field `alternative`.
    #[verifier::spinoff_prover]
    pub fn get_alternative(&self) -> (r: &[Track])
        ensures
            Track::seq_model(r@) == self@.alternative,
    {
        self.alternative.as_slice()
    }

    /// Empties field `sale_period`.
    #[verifier::spinoff_prover]
    pub fn clear_sale_period(&mut self)
        ensures
            final(self)@ == (TrackModel { sale_period: Seq::empty(), ..old(self)@ }),
    {
        proof {
            use_type_invariant(&*self);
        }
        self.sale_period = Vec::new();
        assert(SalePeriod::seq_model(self.sale_period@) =~= Seq::<SalePeriodModel>::empty());
    }

    /// Sets field `sale_period` to the elements of `v`.
    #[verifier::spinoff_prover]
    pub fn set_sale_period(&mut self, v: Vec<SalePeriod>)
        ensures
            final(self)@ == (TrackModel { sale_period: SalePeriod::seq_model(v@), ..old(self)@ }),
    {
        proof {
            use_type_invariant(&*self);
        }
        self.sale_period = v;
    }

    /// The elements of field `sale_period`, to change in place.
    #[verifier::spinoff_prover]
    pub fn mut_sale_period(&mut self) -> (r: &mut Vec<SalePeriod>)
        ensures
            SalePeriod::seq_model(r@) == old(self)@.sale_period,
            final(self)@ == (TrackModel { sale_period: SalePeriod::seq_model(final(r)@), ..old(self)@ }),
    {
        proof {
            use_type_invariant(&*self);
        }
        field_mut(&mut self.sale_period)
    }

    /// Takes the elements of field `sale_period`, leaving it empty.
    #[verifier::spinoff_prover]
    pub fn take_sale_period(&mut self) -> (r: Vec<SalePeriod>)
        ensures
            SalePeriod::seq_model(r@) == old(self)@.sale_period,
            final(self)@ == (TrackModel { sale_period: Seq::empty(), ..old(self)@ }),
    {
        proof {
            use_type_invariant(&*self);
        }
        let mut r = Vec::new();
        std::mem::swap(&mut r, &mut self.sale_period);
        assert(SalePeriod::seq_model(self.sale_period@) =~= Seq::<SalePeriodModel>::empty());
        r
    }

    /// The elements of field `sale_period`.
    #[verifier::spinoff_prover]
    pub fn get_sale_period(&self) -> (r: &[SalePeriod])
        ensures
            SalePeriod::seq_model(r@) == self@.sale_period,
    {
        self.sale_period.as_slice()
    }

    /// Empties field `preview`.
    #[verifier::spinoff_prover]
    pub fn clear_preview(&mut self)
        ensures
            final(self)@ == (TrackModel { preview: Seq::empty(), ..old(self)@ }),
    {
        proof {
            use_type_invariant(&*self);
        }
        self.preview = Vec::new();
        assert(AudioFile::seq_model(self.preview@) =~= Seq::<AudioFileModel>::empty());
    }

    /// Sets field `preview` to the elements of `v`.
    #[verifier::spinoff_prover]
    pub fn set_preview(&mut self, v: Vec<AudioFile>)
        ensures
            final(self)@ == (TrackModel { preview: AudioFile::seq_model(v@), ..old(self)@ }),
    {
        proof {
            use_type_invariant(&*self);
        }
        self.preview = v;
    }

    /// The elements of field `preview`, to change in place.
    #[verifier::spinoff_prover]
    pub fn mut_preview(&mut self) -> (r: &mut Vec<AudioFile>)
        ensures
            AudioFile::seq_model(r@) == old(self)@.preview,
            final(self)@ == (TrackModel { preview: AudioFile::seq_model(final(r)@), ..old(self)@ }),
    {
        proof {
            use_type_invariant(&*self);
        }
        field_mut(&mut self.preview)
    }

    /// Takes the elements of field `preview`, leaving it empty.
    #[verifier::spinoff_prover]
    pub fn take_preview(&mut self) -> (r: Vec<AudioFile>)
        ensures
            AudioFile::seq_model(r@) == old(self)@.preview,
            final(self)@ == (TrackModel { preview: Seq::empty(), ..old(self)@ }),
    {
        proof {
            use_type_invariant(&*self);
        }
        let mut r = Vec::new();
        std::mem::swap(&mut r, &mut self.preview);
        assert(AudioFile::seq_model(self.preview@) =~= Seq::<AudioFileModel>::empty());
        r
    }

    /// The elements of field `preview`.
    #[verifier::spinoff_prover]
    pub fn get_preview(&self) -> (r: &[AudioFile])
        ensures
            AudioFile::seq_model(r@) == self@.preview,
    {
        self.preview.as_slice()
    }

    /// Merges one field whose tag (number `f`, wire type `wt`) has been read
    /// from the bytes `s` that follow the tag; returns the number of bytes the
    /// value took.
    #[verifier::spinoff_prover]
    fn merge_field(&mut self, f: u32, wt: u32, s: &[u8], lim: u64) -> (r: Option<usize>)
        ensures
            match old(self)@.merge_field(f, wt, s@, lim as nat) {
                Some((m, k)) => r == Some(k as usize) && final(self)@ == m,
                None => r is None && final(self)@ == old(self)@.merge_field_failed(f, wt, s@, lim as nat),
            },
        decreases s@.len(), 1int,
    {
        proof {
            use_type_invariant(&*self);
        }
        proof {
            reveal_with_fuel(AlbumModel::merge, 1);
            reveal_with_fuel(ArtistModel::merge, 1);
            reveal_with_fuel(TrackModel::merge, 1);
        }
        if f == 1 {
            if wt != WIRE_LENGTH_DELIMITED {
                return None;
            }
            match read_bytes(s) {
                Some((v, k)) => {
                    self.gid = Some(v);
                    Some(k)
                },
                None => {
                    self.gid = Some(Vec::new());
                    None
                },
            }
        } else if f == 2 {
            if wt != WIRE_LENGTH_DELIMITED {
                return None;
            }
            match read_string(s) {
                Some((v, k)) => {
                    self.name = Some(v);
                    Some(k)
                },
                None => {
                    self.name = Some(String::new());
                    None
                },
            }
        } else if f == 3 {
            if wt != WIRE_LENGTH_DELIMITED {
                return None;
            }
            match read_embedded_window(s, lim) {
                Some((a, b, past)) => {
                    if a == 0 || a > b || b > s.len() {
                        let x = Album::new();
                        self.has_album = true;
                        self.album = Box::new(x);
                        return None;
                    }
                    let sub = &s[a..b];
                    let mut x = Album::new();
                    let ok = x.merge_from_slice(sub, past);
                    self.has_album = true;
                    self.album = Box::new(x);
                    if ok {
                        Some(b)
                    } else {
                        None
                    }
                },
                None => {
                    let x = Album::new();
                    self.has_album = true;
                    self.album = Box::new(x);
                    None
                },
            }
        } else if f == 4 {
            if wt != WIRE_LENGTH_DELIMITED {
                return None;
            }
            match read_embedded_window(s, lim) {
                Some((a, b, past)) => {
                    if a == 0 || a > b || b > s.len() {
                        let x = Artist::new();
                        let ghost old_v = self.artist@;
                        field_mut(&mut self.artist).push(x);
                        proof {
                            assert(self.artist@ =~= old_v.push(self.artist@.last()));
                            Artist::lemma_seq_model_push(old_v, self.artist@.last());
                        }
                        return None;
                    }
                    let sub = &s[a..b];
                    let mut x = Artist::new();
                    let ok = x.merge_from_slice(sub, past);
                    let ghost old_v = self.artist@;
                    field_mut(&mut self.artist).push(x);
                    proof {
                        assert(self.artist@ =~= old_v.push(self.artist@.last()));
                        Artist::lemma_seq_model_push(old_v, self.artist@.last());
                    }
                    if ok {
                        Some(b)
                    } else {
                        None
                    }
                },
                None => {
                    let x = Artist::new();
                    let ghost old_v = self.artist@;
                    field_mut(&mut self.artist).push(x);
                    proof {
                        assert(self.artist@ =~= old_v.push(self.artist@.last()));
                        Artist::lemma_seq_model_push(old_v, self.artist@.last());
                    }
                    None
                },
            }
        } else if f == 5 {
            if wt != WIRE_VARINT {
                return None;
            }
            match pb_read_sint32(s) {
                Some((v, k)) => {
                    self.number = Some(v);
                    Some(k)
                },
                None => None,
            }
        } else if f == 6 {
            if wt != WIRE_VARINT {
                return None;
            }
            match pb_read_sint32(s) {
                Some((v, k)) => {
                    self.disc_number = Some(v);
                    Some(k)
                },
                None => None,
            }
        } else if f == 7 {
            if wt != WIRE_VARINT {
                return None;
            }
            match pb_read_sint32(s) {
                Some((v, k)) => {
                    self.duration = Some(v);
                    Some(k)
                },
                None => None,
            }
        } else if f == 8 {
            if wt != WIRE_VARINT {
                return None;
            }
            match pb_read_sint32(s) {
                Some((v, k)) => {
                    self.popularity = Some(v);
                    Some(k)
                },
                None => None,
            }
        } else if f == 9 {
            if wt != WIRE_VARINT {
                return None;
            }
            proof {
                lemma_varint_parse_len(s@);
            }
            match pb_read_raw_varint64(s) {
                Some((v, k)) => {
                    self.explicit = Some((v as u32) != 0);
                    Some(k)
                },
                None => None,
            }
        } else if f == 10 {
            if wt != WIRE_LENGTH_DELIMITED {
                return None;
            }
            match read_embedded_window(s, lim) {
                Some((a, b, past)) => {
                    if a == 0 || a > b || b > s.len() {
                        let x = ExternalId::new();
                        let ghost old_v = self.external_id@;
                        field_mut(&mut self.external_id).push(x);
                        assert(ExternalId::seq_model(self.external_id@) =~= ExternalId::seq_model(old_v).push(self.external_id@.last()@));
                        return None;
                    }
                    let sub = &s[a..b];
                    let mut x = ExternalId::new();
                    let ok = x.merge_from_slice(sub, past);
                    let ghost old_v = self.external_id@;
                    field_mut(&mut self.external_id).push(x);
                    assert(ExternalId::seq_model(self.external_id@) =~= ExternalId::seq_model(old_v).push(self.external_id@.last()@));
                    if ok {
                        Some(b)
                    } else {
                        None
                    }
                },
                None => {
                    let x = ExternalId::new();
                    let ghost old_v = self.external_id@;
                    field_mut(&mut self.external_id).push(x);
                    assert(ExternalId::seq_model(self.external_id@) =~= ExternalId::seq_model(old_v).push(self.external_id@.last()@));
                    None
                },
            }
        } else if f == 11 {
            if wt != WIRE_LENGTH_DELIMITED {
                return None;
            }
            match read_embedded_window(s, lim) {
                Some((a, b, past)) => {
                    if a == 0 || a > b || b > s.len() {
                        let x = Restriction::new();
                        let ghost old_v = self.restriction@;
                        field_mut(&mut self.restriction).push(x);
                        assert(Restriction::seq_model(self.restriction@) =~= Restriction::seq_model(old_v).push(self.restriction@.last()@));
                        return None;
                    }
                    let sub = &s[a..b];
                    let mut x = Restriction::new();
                    let ok = x.merge_from_slice(sub, past);
                    let ghost old_v = self.restriction@;
                    field_mut(&mut self.restriction).push(x);
                    assert(Restriction::seq_model(self.restriction@) =~= Restriction::seq_model(old_v).push(self.restriction@.last()@));
                    if ok {
                        Some(b)
                    } else {
                        None
                    }
                },
                None => {
                    let x = Restriction::new();
                    let ghost old_v = self.restriction@;
                    field_mut(&mut self.restriction).push(x);
                    assert(Restriction::seq_model(self.restriction@) =~= Restriction::seq_model(old_v).push(self.restriction@.last()@));
                    None
                },
            }
        } else if f == 12 {
            if wt != WIRE_LENGTH_DELIMITED {
                return None;
            }
            match read_embedded_window(s, lim) {
                Some((a, b, past)) => {
                    if a == 0 || a > b || b > s.len() {
                        let x = AudioFile::new();
                        let ghost old_v = self.file@;
                        field_mut(&mut self.file).push(x);
                        assert(AudioFile::seq_model(self.file@) =~= AudioFile::seq_model(old_v).push(self.file@.last()@));
                        return None;
                    }
                    let sub = &s[a..b];
                    let mut x = AudioFile::new();
                    let ok = x.merge_from_slice(sub, past);
                    let ghost old_v = self.file@;
                    field_mut(&mut self.file).push(x);
                    assert(AudioFile::seq_model(self.file@) =~= AudioFile::seq_model(old_v).push(self.file@.last()@));
                    if ok {
                        Some(b)
                    } else {
                        None
                    }
                },
                None => {
                    let x = AudioFile::new();
                    let ghost old_v = self.file@;
                    field_mut(&mut self.file).push(x);
                    assert(AudioFile::seq_model(self.file@) =~= AudioFile::seq_model(old_v).push(self.file@.last()@));
                    None
                },
            }
        } else if f == 13 {
            if wt != WIRE_LENGTH_DELIMITED {
                return None;
            }
            match read_embedded_window(s, lim) {
                Some((a, b, past)) => {
                    if a == 0 || a > b || b > s.len() {
                        let x = Track::new();
                        let ghost old_v = self.alternative@;
                        field_mut(&mut self.alternative).push(x);
                        proof {
                            assert(self.alternative@ =~= old_v.push(self.alternative@.last()));
                            Track::lemma_seq_model_push(old_v, self.alternative@.last());
                        }
                        return None;
                    }
                    let sub = &s[a..b];
                    let mut x = Track::new();
                    let ok = x.merge_from_slice(sub, past);
                    let ghost old_v = self.alternative@;
                    field_mut(&mut self.alternative).push(x);
                    proof {
                        assert(self.alternative@ =~= old_v.push(self.alternative@.last()));
                        Track::lemma_seq_model_push(old_v, self.alternative@.last());
                    }
                    if ok {
                        Some(b)
                    } else {
                        None
                    }
                },
                None => {
                    let x = Track::new();
                    let ghost old_v = self.alternative@;
                    field_mut(&mut self.alternative).push(x);
                    proof {
                        assert(self.alternative@ =~= old_v.push(self.alternative@.last()));
                        Track::lemma_seq_model_push(old_v, self.alternative@.last());
                    }
                    None
                },
            }
        } else if f == 14 {
            if wt != WIRE_LENGTH_DELIMITED {
                return None;
            }
            match read_embedded_window(s, lim) {
                Some((a, b, past)) => {
                    if a == 0 || a > b || b > s.len() {
                        let x = SalePeriod::new();
                        let ghost old_v = self.sale_period@;
                        field_mut(&mut self.sale_period).push(x);
                        assert(SalePeriod::seq_model(self.sale_period@) =~= SalePeriod::seq_model(old_v).push(self.sale_period@.last()@));
                        return None;
                    }
                    let sub = &s[a..b];
                    let mut x = SalePeriod::new();
                    let ok = x.merge_from_slice(sub, past);
                    let ghost old_v = self.sale_period@;
                    field_mut(&mut self.sale_period).push(x);
                    assert(SalePeriod::seq_model(self.sale_period@) =~= SalePeriod::seq_model(old_v).push(self.sale_period@.last()@));
                    if ok {
                        Some(b)
                    } else {
                        None
                    }
                },
                None => {
                    let x = SalePeriod::new();
                    let ghost old_v = self.sale_period@;
                    field_mut(&mut self.sale_period).push(x);
                    assert(SalePeriod::seq_model(self.sale_period@) =~= SalePeriod::seq_model(old_v).push(self.sale_period@.last()@));
                    None
                },
            }
        } else if f == 15 {
            if wt != WIRE_LENGTH_DELIMITED {
                return None;
            }
            match read_embedded_window(s, lim) {
                Some((a, b, past)) => {
                    if a == 0 || a > b || b > s.len() {
                        let x = AudioFile::new();
                        let ghost old_v = self.preview@;
                        field_mut(&mut self.preview).push(x);
                        assert(AudioFile::seq_model(self.preview@) =~= AudioFile::seq_model(old_v).push(self.preview@.last()@));
                        return None;
                    }
                    let sub = &s[a..b];
                    let mut x = AudioFile::new();
                    let ok = x.merge_from_slice(sub, past);
                    let ghost old_v = self.preview@;
                    field_mut(&mut self.preview).push(x);
                    assert(AudioFile::seq_model(self.preview@) =~= AudioFile::seq_model(old_v).push(self.preview@.last()@));
                    if ok {
                        Some(b)
                    } else {
                        None
                    }
                },
                None => {
                    let x = AudioFile::new();
                    let ghost old_v = self.preview@;
                    field_mut(&mut self.preview).push(x);
                    assert(AudioFile::seq_model(self.preview@) =~= AudioFile::seq_model(old_v).push(self.preview@.last()@));
                    None
                },
            }
        } else {
            match read_unknown(f, wt, s) {
                Some((Some(u), k)) => {
                    insert_unknown(field_mut(&mut self.unknown_fields), u);
                    Some(k)
                },
                Some((None, k)) => Some(k),
                None => None,
            }
        }
    }

    /// Merges all the fields that `s` holds, in order; `false` when the bytes
    /// are not a valid encoding (the message then holds what was merged so far).
    #[verifier::spinoff_prover]
    #[verifier::rlimit(100)]
    fn merge_from_slice(&mut self, s: &[u8], lim: u64) -> (ok: bool)
        ensures
            match old(self)@.merge(s@, lim as nat) {
                Some(m) => ok && final(self)@ == m,
                None => !ok && final(self)@ == old(self)@.merge_partial(s@, lim as nat),
            },
        decreases s@.len(), 2int,
    {
        proof {
            reveal_with_fuel(TrackModel::merge, 1);
            reveal_with_fuel(TrackModel::merge_partial, 1);
        }
        let mut pos: usize = 0;
        assert(s@.skip(0) =~= s@);
        while pos < s.len()
            invariant
                pos <= s.len(),
                old(self)@.merge(s@, lim as nat) == self@.merge(s@.skip(pos as int), lim as nat),
                old(self)@.merge_partial(s@, lim as nat) == self@.merge_partial(s@.skip(pos as int), lim as nat),
            decreases s.len() - pos,
        {
            let rest = &s[pos..s.len()];
            assert(rest@ == s@.skip(pos as int));
            proof {
                reveal_with_fuel(TrackModel::merge, 1);
                reveal_with_fuel(TrackModel::merge_partial, 1);
                lemma_tag_parse_len(rest@);
            }
            match pb_read_tag_unpack(rest) {
                None => {
                    return false;
                },
                Some((f, wt, n)) => {
                    if n == 0 || n > rest.len() {
                        return false;
                    }
                    let rest2 = &rest[n..rest.len()];
                    assert(rest2@ == rest@.skip(n as int));
                    proof {
                        self@.lemma_merge_field_len(f, wt, rest2@, lim as nat);
                    }
                    match self.merge_field(f, wt, rest2, lim) {
                        None => {
                            return false;
                        },
                        Some(k) => {
                            if k > rest2.len() {
                                return false;
                            }
                            assert(rest@.skip((n + k) as int) =~= s@.skip((pos + n + k) as int));
                            pos = pos + n + k;
                        },
                    }
                },
            }
        }
        assert(s@.skip(pos as int) =~= Seq::<u8>::empty());
        proof {
            reveal_with_fuel(TrackModel::merge, 1);
        }
        true
    }

    /// The message that `s` encodes, if it is a valid encoding.
    #[verifier::spinoff_prover]
    fn parse_slice(s: &[u8], lim: u64) -> (r: Option<Self>)
        ensures
            match TrackModel::empty().merge(s@, lim as nat) {
                Some(m) => r matches Some(x) && x@ == m,
                None => r is None,
            },
        decreases s@.len(), 3int,
    {
        let mut m = Track::new();
        if m.merge_from_slice(s, lim) {
            Some(m)
        } else {
            None
        }
    }

    /// Merges the fields that `bytes` encodes into this message, in order: a set
    /// field is replaced, a repeated field grows. On an invalid encoding the
    /// error comes back, the fields merged before the first field that could not
    /// be read stay merged, and that field is left as `merge_field_failed` says.
    #[verifier::spinoff_prover]
    pub fn merge_from_bytes(&mut self, bytes: &[u8]) -> (r: Result<(), DecodeError>)
        ensures
            match old(self)@.merge(bytes@, top_limit(bytes@.len())) {
                Some(m) => r is Ok && final(self)@ == m,
                None => r is Err && final(self)@ == old(self)@.merge_partial(bytes@, top_limit(bytes@.len())),
            },
    {
        let lim: u64 = u64::MAX - bytes.len() as u64;
        if self.merge_from_slice(bytes, lim) {
            Ok(())
        } else {
            Err(DecodeError)
        }
    }

    /// Parses a message from its encoding.
    #[verifier::spinoff_prover]
    pub fn parse_from_bytes(bytes: &[u8]) -> (r: Result<Self, DecodeError>)
        ensures
            match TrackModel::empty().merge(bytes@, top_limit(bytes@.len())) {
                Some(m) => r matches Ok(x) && x@ == m,
                None => r is Err,
            },
    {
        let lim: u64 = u64::MAX - bytes.len() as u64;
        match Self::parse_slice(bytes, lim) {
            Some(m) => Ok(m),
            None => Err(DecodeError),
        }
    }

    /// Appends the encoding of field `gid` to `out`.
    #[verifier::spinoff_prover]
    fn write_field_gid(&self, out: &mut Vec<u8>)
        requires
            self@.wf(),
        ensures
            final(out)@ == old(out)@ + opt_length_delimited_field_bytes(1, self@.gid),
            final(out)@ + self@.encoded_from_name() == old(out)@ + self@.encoded_from_gid(),
    {
        proof {
            use_type_invariant(self);
        }
        proof {
            reveal_with_fuel(TrackModel::wf, 1);
        }
        let ghost o = out@;
        let ghost m = self@;
        match &self.gid {
            Some(v) => {
                pb_write_tag(out, 1, WIRE_LENGTH_DELIMITED);
                write_bytes_value(out, v.as_slice());
                proof {
                    lemma_concat_assoc(o, tag_bytes(1, WIRE_LENGTH_DELIMITED), bytes_value_bytes(v@));
                }
            },
            None => {
                assert(o + Seq::<u8>::empty() =~= o);
            },
        }
        proof {
            lemma_concat_assoc(o, opt_length_delimited_field_bytes(1, m.gid), m.encoded_from_name());
        }
    }

    /// Appends the encoding of field `name` to `out`.
    #[verifier::spinoff_prover]
    fn write_field_name(&self, out: &mut Vec<u8>)
        requires
            self@.wf(),
        ensures
            final(out)@ == old(out)@ + opt_length_delimited_field_bytes(2, match self@.name { Some(c) => Some(encode_utf8(c)), None => None }),
            final(out)@ + self@.encoded_from_album() == old(out)@ + self@.encoded_from_name(),
    {
        proof {
            use_type_invariant(self);
        }
        proof {
            reveal_with_fuel(TrackModel::wf, 1);
        }
        let ghost o = out@;
        let ghost m = self@;
        match &self.name {
            Some(v) => {
                pb_write_tag(out, 2, WIRE_LENGTH_DELIMITED);
                write_string_value(out, v.as_str());
                proof {
                    lemma_concat_assoc(o, tag_bytes(2, WIRE_LENGTH_DELIMITED), bytes_value_bytes(encode_utf8(v@)));
                }
            },
            None => {
                assert(o + Seq::<u8>::empty() =~= o);
            },
        }
        proof {
            lemma_concat_assoc(o, opt_length_delimited_field_bytes(2, match m.name { Some(c) => Some(encode_utf8(c)), None => None }), m.encoded_from_album());
        }
    }

    /// Appends the encoding of field `album` to `out`.
    #[verifier::spinoff_prover]
    fn write_field_album(&self, out: &mut Vec<u8>)
        requires
            self@.wf(),
        ensures
            final(out)@ == old(out)@ + opt_length_delimited_field_bytes(3, match self@.album { Some(m) => Some(m.to_bytes()), None => None }),
            final(out)@ + self@.encoded_from_artist() == old(out)@ + self@.encoded_from_album(),
        decreases self, 1int,
    {
        proof {
            use_type_invariant(self);
        }
        proof {
            reveal_with_fuel(TrackModel::wf, 1);
        }
        let ghost o = out@;
        let ghost m = self@;
        if self.has_album {
            let mut tmp: Vec<u8> = Vec::new();
            self.album.write_to(&mut tmp);
            assert(tmp@ =~= m.album.unwrap().to_bytes());
            pb_write_tag(out, 3, WIRE_LENGTH_DELIMITED);
            write_bytes_value(out, tmp.as_slice());
            proof {
                lemma_concat_assoc(o, tag_bytes(3, WIRE_LENGTH_DELIMITED), bytes_value_bytes(tmp@));
            }
        } else {
            assert(o + Seq::<u8>::empty() =~= o);
        }
        proof {
            lemma_concat_assoc(o, opt_length_delimited_field_bytes(3, match m.album { Some(m) => Some(m.to_bytes()), None => None }), m.encoded_from_artist());
        }
    }

    /// Appends the encoding of field `artist` to `out`.
    #[verifier::spinoff_prover]
    fn write_field_artist(&self, out: &mut Vec<u8>)
        requires
            self@.wf(),
        ensures
            final(out)@ == old(out)@ + ArtistModel::list_bytes(4, self@.artist),
            final(out)@ + self@.encoded_from_number() == old(out)@ + self@.encoded_from_artist(),
        decreases self, 1int,
    {
        proof {
            use_type_invariant(self);
        }
        proof {
            reveal_with_fuel(TrackModel::wf, 1);
        }
        let ghost o = out@;
        let ghost m = self@;
        proof {
            Artist::lemma_seq_model(self.artist@);
        }
        let ghost w = ArtistModel::encodings(m.artist);
        assert(w.subrange(0, w.len() as int) =~= w);
        assert(o + Seq::<u8>::empty() =~= o);
        let mut i: usize = 0;
        while i < self.artist.len()
            invariant
                i <= self.artist.len(),
                self@ == m,
                m.wf(),
                w.len() == self.artist@.len(),
                w == ArtistModel::encodings(m.artist),
                o + length_delimited_list_bytes(4, w) == out@ + length_delimited_list_bytes(4, w.subrange(i as int, w.len() as int)),
            decreases self.artist.len() - i,
        {
            proof {
                reveal_with_fuel(TrackModel::wf, 1);
                Artist::lemma_seq_model(self.artist@);
                ArtistModel::lemma_writable_list(m.artist);
                lemma_length_delimited_list_cons(4, w.subrange(i as int, w.len() as int));
                assert(m.artist[i as int] == self.artist@[i as int]@);
                assert(m.artist[i as int].wf());
                assert(w.subrange(i as int, w.len() as int)[0] == w[i as int]);
                assert(w.subrange(i as int, w.len() as int).subrange(1, w.len() - i) =~= w.subrange(i + 1, w.len() as int));
            }
            let ghost before = out@;
            let mut tmp: Vec<u8> = Vec::new();
            self.artist[i].write_to(&mut tmp);
            assert(tmp@ =~= w[i as int]);
            pb_write_tag(out, 4, WIRE_LENGTH_DELIMITED);
            write_bytes_value(out, tmp.as_slice());
            proof {
                lemma_write_list_step(before, tag_bytes(4, WIRE_LENGTH_DELIMITED), bytes_value_bytes(w[i as int]), length_delimited_list_bytes(4, w.subrange(i + 1, w.len() as int)), Seq::<u8>::empty());
                assert(length_delimited_list_bytes(4, w.subrange(i + 1, w.len() as int)) + Seq::<u8>::empty() =~= length_delimited_list_bytes(4, w.subrange(i + 1, w.len() as int)));
                assert(tag_bytes(4, WIRE_LENGTH_DELIMITED) + (bytes_value_bytes(w[i as int]) + length_delimited_list_bytes(4, w.subrange(i + 1, w.len() as int))) + Seq::<u8>::empty() =~= tag_bytes(4, WIRE_LENGTH_DELIMITED) + (bytes_value_bytes(w[i as int]) + length_delimited_list_bytes(4, w.subrange(i + 1, w.len() as int))));
            }
            i = i + 1;
        }
        assert(w.subrange(i as int, w.len() as int) =~= Seq::<Seq<u8>>::empty());
        assert(out@ + Seq::<u8>::empty() =~= out@);
        proof {
            ArtistModel::lemma_list_bytes(4, m.artist);
            lemma_concat_assoc(o, ArtistModel::list_bytes(4, m.artist), m.encoded_from_number());
        }
    }

    /// Appends the encoding of field `number` to `out`.
    #[verifier::spinoff_prover]
    fn write_field_number(&self, out: &mut Vec<u8>)
        requires
            self@.wf(),
        ensures
            final(out)@ == old(out)@ + opt_varint_field_bytes(5, match self@.number { Some(x) => Some(zigzag_encode32(x) as u64), None => None }),
            final(out)@ + self@.encoded_from_disc_number() == old(out)@ + self@.encoded_from_number(),
    {
        proof {
            use_type_invariant(self);
        }
        proof {
            reveal_with_fuel(TrackModel::wf, 1);
        }
        let ghost o = out@;
        let ghost m = self@;
        match self.number {
            Some(x) => {
                pb_write_tag(out, 5, WIRE_VARINT);
                pb_write_sint32_no_tag(out, x);
                proof {
                    lemma_concat_assoc(o, tag_bytes(5, WIRE_VARINT), varint_bytes(zigzag_encode32(x) as u64));
                }
            },
            None => {
                assert(o + Seq::<u8>::empty() =~= o);
            },
        }
        proof {
            lemma_concat_assoc(o, opt_varint_field_bytes(5, match m.number { Some(x) => Some(zigzag_encode32(x) as u64), None => None }), m.encoded_from_disc_number());
        }
    }

    /// Appends the encoding of field `disc_number` to `out`.
    #[verifier::spinoff_prover]
    fn write_field_disc_number(&self, out: &mut Vec<u8>)
        requires
            self@.wf(),
        ensures
            final(out)@ == old(out)@ + opt_varint_field_bytes(6, match self@.disc_number { Some(x) => Some(zigzag_encode32(x) as u64), None => None }),
            final(out)@ + self@.encoded_from_duration() == old(out)@ + self@.encoded_from_disc_number(),
    {
        proof {
            use_type_invariant(self);
        }
        proof {
            reveal_with_fuel(TrackModel::wf, 1);
        }
        let ghost o = out@;
        let ghost m = self@;
        match self.disc_number {
            Some(x) => {
                pb_write_tag(out, 6, WIRE_VARINT);
                pb_write_sint32_no_tag(out, x);
                proof {
                    lemma_concat_assoc(o, tag_bytes(6, WIRE_VARINT), varint_bytes(zigzag_encode32(x) as u64));
                }
            },
            None => {
                assert(o + Seq::<u8>::empty() =~= o);
            },
        }
        proof {
            lemma_concat_assoc(o, opt_varint_field_bytes(6, match m.disc_number { Some(x) => Some(zigzag_encode32(x) as u64), None => None }), m.encoded_from_duration());
        }
    }

    /// Appends the encoding of field `duration` to `out`.
    #[verifier::spinoff_prover]
    fn write_field_duration(&self, out: &mut Vec<u8>)
        requires
            self@.wf(),
        ensures
            final(out)@ == old(out)@ + opt_varint_field_bytes(7, match self@.duration { Some(x) => Some(zigzag_encode32(x) as u64), None => None }),
            final(out)@ + self@.encoded_from_popularity() == old(out)@ + self@.encoded_from_duration(),
    {
        proof {
            use_type_invariant(self);
        }
        proof {
            reveal_with_fuel(TrackModel::wf, 1);
        }
        let ghost o = out@;
        let ghost m = self@;
        match self.duration {
            Some(x) => {
                pb_write_tag(out, 7, WIRE_VARINT);
                pb_write_sint32_no_tag(out, x);
                proof {
                    lemma_concat_assoc(o, tag_bytes(7, WIRE_VARINT), varint_bytes(zigzag_encode32(x) as u64));
                }
            },
            None => {
                assert(o + Seq::<u8>::empty() =~= o);
            },
        }
        proof {
            lemma_concat_assoc(o, opt_varint_field_bytes(7, match m.duration { Some(x) => Some(zigzag_encode32(x) as u64), None => None }), m.encoded_from_popularity());
        }
    }

    /// Appends the encoding of field `popularity` to `out`.
    #[verifier::spinoff_prover]
    fn write_field_popularity(&self, out: &mut Vec<u8>)
        requires
            self@.wf(),
        ensures
            final(out)@ == old(out)@ + opt_varint_field_bytes(8, match self@.popularity { Some(x) => Some(zigzag_encode32(x) as u64), None => None }),
            final(out)@ + self@.encoded_from_explicit() == old(out)@ + self@.encoded_from_popularity(),
    {
        proof {
            use_type_invariant(self);
        }
        proof {
            reveal_with_fuel(TrackModel::wf, 1);
        }
        let ghost o = out@;
        let ghost m = self@;
        match self.popularity {
            Some(x) => {
                pb_write_tag(out, 8, WIRE_VARINT);
                pb_write_sint32_no_tag(out, x);
                proof {
                    lemma_concat_assoc(o, tag_bytes(8, WIRE_VARINT), varint_bytes(zigzag_encode32(x) as u64));
                }
            },
            None => {
                assert(o + Seq::<u8>::empty() =~= o);
            },
        }
        proof {
            lemma_concat_assoc(o, opt_varint_field_bytes(8, match m.popularity { Some(x) => Some(zigzag_encode32(x) as u64), None => None }), m.encoded_from_explicit());
        }
    }

    /// Appends the encoding of field `explicit` to `out`.
    #[verifier::spinoff_prover]
    fn write_field_explicit(&self, out: &mut Vec<u8>)
        requires
            self@.wf(),
        ensures
            final(out)@ == old(out)@ + opt_varint_field_bytes(9, match self@.explicit { Some(x) => Some(bool_varint(x)), None => None }),
            final(out)@ + self@.encoded_from_external_id() == old(out)@ + self@.encoded_from_explicit(),
    {
        proof {
            use_type_invariant(self);
        }
        proof {
            reveal_with_fuel(TrackModel::wf, 1);
        }
        let ghost o = out@;
        let ghost m = self@;
        match self.explicit {
            Some(x) => {
                pb_write_tag(out, 9, WIRE_VARINT);
                pb_write_raw_varint64(out, if x {
                    1
                } else {
                    0
                });
                proof {
                    lemma_concat_assoc(o, tag_bytes(9, WIRE_VARINT), varint_bytes(bool_varint(x)));
                }
            },
            None => {
                assert(o + Seq::<u8>::empty() =~= o);
            },
        }
        proof {
            lemma_concat_assoc(o, opt_varint_field_bytes(9, match m.explicit { Some(x) => Some(bool_varint(x)), None => None }), m.encoded_from_external_id());
        }
    }

    /// Appends the encoding of field `external_id` to `out`.
    #[verifier::spinoff_prover]
    fn write_field_external_id(&self, out: &mut Vec<u8>)
        requires
            self@.wf(),
        ensures
            final(out)@ == old(out)@ + length_delimited_list_bytes(10, ExternalIdModel::encodings(self@.external_id)),
            final(out)@ + self@.encoded_from_restriction() == old(out)@ + self@.encoded_from_external_id(),
    {
        proof {
            use_type_invariant(self);
        }
        proof {
            reveal_with_fuel(TrackModel::wf, 1);
        }
        let ghost o = out@;
        let ghost m = self@;
        let ghost w = ExternalIdModel::encodings(m.external_id);
        assert(w.subrange(0, w.len() as int) =~= w);
        assert(o + Seq::<u8>::empty() =~= o);
        let mut i: usize = 0;
        while i < self.external_id.len()
            invariant
                i <= self.external_id.len(),
                self@ == m,
                m.wf(),
                w.len() == self.external_id@.len(),
                w == ExternalIdModel::encodings(m.external_id),
                o + length_delimited_list_bytes(10, w) == out@ + length_delimited_list_bytes(10, w.subrange(i as int, w.len() as int)),
            decreases self.external_id.len() - i,
        {
            proof {
                reveal_with_fuel(TrackModel::wf, 1);
                lemma_length_delimited_list_cons(10, w.subrange(i as int, w.len() as int));
                assert(m.external_id[i as int] == self.external_id@[i as int]@);
                assert(m.external_id[i as int].wf());
                assert(w.subrange(i as int, w.len() as int)[0] == w[i as int]);
                assert(w.subrange(i as int, w.len() as int).subrange(1, w.len() - i) =~= w.subrange(i + 1, w.len() as int));
            }
            let ghost before = out@;
            let mut tmp: Vec<u8> = Vec::new();
            self.external_id[i].write_to(&mut tmp);
            assert(tmp@ =~= w[i as int]);
            pb_write_tag(out, 10, WIRE_LENGTH_DELIMITED);
            write_bytes_value(out, tmp.as_slice());
            proof {
                lemma_write_list_step(before, tag_bytes(10, WIRE_LENGTH_DELIMITED), bytes_value_bytes(w[i as int]), length_delimited_list_bytes(10, w.subrange(i + 1, w.len() as int)), Seq::<u8>::empty());
                assert(length_delimited_list_bytes(10, w.subrange(i + 1, w.len() as int)) + Seq::<u8>::empty() =~= length_delimited_list_bytes(10, w.subrange(i + 1, w.len() as int)));
                assert(tag_bytes(10, WIRE_LENGTH_DELIMITED) + (bytes_value_bytes(w[i as int]) + length_delimited_list_bytes(10, w.subrange(i + 1, w.len() as int))) + Seq::<u8>::empty() =~= tag_bytes(10, WIRE_LENGTH_DELIMITED) + (bytes_value_bytes(w[i as int]) + length_delimited_list_bytes(10, w.subrange(i + 1, w.len() as int))));
            }
            i = i + 1;
        }
        assert(w.subrange(i as int, w.len() as int) =~= Seq::<Seq<u8>>::empty());
        assert(out@ + Seq::<u8>::empty() =~= out@);
        proof {
            lemma_concat_assoc(o, length_delimited_list_bytes(10, ExternalIdModel::encodings(m.external_id)), m.encoded_from_restriction());
        }
    }

    /// Appends the encoding of field `restriction` to `out`.
    #[verifier::spinoff_prover]
    fn write_field_restriction(&self, out: &mut Vec<u8>)
        requires
            self@.wf(),
        ensures
            final(out)@ == old(out)@ + length_delimited_list_bytes(11, RestrictionModel::encodings(self@.restriction)),
            final(out)@ + self@.encoded_from_file() == old(out)@ + self@.encoded_from_restriction(),
    {
        proof {
            use_type_invariant(self);
        }
        proof {
            reveal_with_fuel(TrackModel::wf, 1);
        }
        let ghost o = out@;
        let ghost m = self@;
        let ghost w = RestrictionModel::encodings(m.restriction);
        assert(w.subrange(0, w.len() as int) =~= w);
        assert(o + Seq::<u8>::empty() =~= o);
        let mut i: usize = 0;
        while i < self.restriction.len()
            invariant
                i <= self.restriction.len(),
                self@ == m,
                m.wf(),
                w.len() == self.restriction@.len(),
                w == RestrictionModel::encodings(m.restriction),
                o + length_delimited_list_bytes(11, w) == out@ + length_delimited_list_bytes(11, w.subrange(i as int, w.len() as int)),
            decreases self.restriction.len() - i,
        {
            proof {
                reveal_with_fuel(TrackModel::wf, 1);
                lemma_length_delimited_list_cons(11, w.subrange(i as int, w.len() as int));
                assert(m.restriction[i as int] == self.restriction@[i as int]@);
                assert(m.restriction[i as int].wf());
                assert(w.subrange(i as int, w.len() as int)[0] == w[i as int]);
                assert(w.subrange(i as int, w.len() as int).subrange(1, w.len() - i) =~= w.subrange(i + 1, w.len() as int));
            }
            let ghost before = out@;
            let mut tmp: Vec<u8> = Vec::new();
            self.restriction[i].write_to(&mut tmp);
            assert(tmp@ =~= w[i as int]);
            pb_write_tag(out, 11, WIRE_LENGTH_DELIMITED);
            write_bytes_value(out, tmp.as_slice());
            proof {
                lemma_write_list_step(before, tag_bytes(11, WIRE_LENGTH_DELIMITED), bytes_value_bytes(w[i as int]), length_delimited_list_bytes(11, w.subrange(i + 1, w.len() as int)), Seq::<u8>::empty());
                assert(length_delimited_list_bytes(11, w.subrange(i + 1, w.len() as int)) + Seq::<u8>::empty() =~= length_delimited_list_bytes(11, w.subrange(i + 1, w.len() as int)));
                assert(tag_bytes(11, WIRE_LENGTH_DELIMITED) + (bytes_value_bytes(w[i as int]) + length_delimited_list_bytes(11, w.subrange(i + 1, w.len() as int))) + Seq::<u8>::empty() =~= tag_bytes(11, WIRE_LENGTH_DELIMITED) + (bytes_value_bytes(w[i as int]) + length_delimited_list_bytes(11, w.subrange(i + 1, w.len() as int))));
            }
            i = i + 1;
        }
        assert(w.subrange(i as int, w.len() as int) =~= Seq::<Seq<u8>>::empty());
        assert(out@ + Seq::<u8>::empty() =~= out@);
        proof {
            lemma_concat_assoc(o, length_delimited_list_bytes(11, RestrictionModel::encodings(m.restriction)), m.encoded_from_file());
        }
    }

    /// Appends the encoding of field `file` to `out`.
    #[verifier::spinoff_prover]
    fn write_field_file(&self, out: &mut Vec<u8>)
        requires
            self@.wf(),
        ensures
            final(out)@ == old(out)@ + length_delimited_list_bytes(12, AudioFileModel::encodings(self@.file)),
            final(out)@ + self@.encoded_from_alternative() == old(out)@ + self@.encoded_from_file(),
    {
        proof {
            use_type_invariant(self);
        }
        proof {
            reveal_with_fuel(TrackModel::wf, 1);
        }
        let ghost o = out@;
        let ghost m = self@;
        let ghost w = AudioFileModel::encodings(m.file);
        assert(w.subrange(0, w.len() as int) =~= w);
        assert(o + Seq::<u8>::empty() =~= o);
        let mut i: usize = 0;
        while i < self.file.len()
            invariant
                i <= self.file.len(),
                self@ == m,
                m.wf(),
                w.len() == self.file@.len(),
                w == AudioFileModel::encodings(m.file),
                o + length_delimited_list_bytes(12, w) == out@ + length_delimited_list_bytes(12, w.subrange(i as int, w.len() as int)),
            decreases self.file.len() - i,
        {
            proof {
                reveal_with_fuel(TrackModel::wf, 1);
                lemma_length_delimited_list_cons(12, w.subrange(i as int, w.len() as int));
                assert(m.file[i as int] == self.file@[i as int]@);
                assert(m.file[i as int].wf());
                assert(w.subrange(i as int, w.len() as int)[0] == w[i as int]);
                assert(w.subrange(i as int, w.len() as int).subrange(1, w.len() - i) =~= w.subrange(i + 1, w.len() as int));
            }
            let ghost before = out@;
            let mut tmp: Vec<u8> = Vec::new();
            self.file[i].write_to(&mut tmp);
            assert(tmp@ =~= w[i as int]);
            pb_write_tag(out, 12, WIRE_LENGTH_DELIMITED);
            write_bytes_value(out, tmp.as_slice());
            proof {
                lemma_write_list_step(before, tag_bytes(12, WIRE_LENGTH_DELIMITED), bytes_value_bytes(w[i as int]), length_delimited_list_bytes(12, w.subrange(i + 1, w.len() as int)), Seq::<u8>::empty());
                assert(length_delimited_list_bytes(12, w.subrange(i + 1, w.len() as int)) + Seq::<u8>::empty() =~= length_delimited_list_bytes(12, w.subrange(i + 1, w.len() as int)));
                assert(tag_bytes(12, WIRE_LENGTH_DELIMITED) + (bytes_value_bytes(w[i as int]) + length_delimited_list_bytes(12, w.subrange(i + 1, w.len() as int))) + Seq::<u8>::empty() =~= tag_bytes(12, WIRE_LENGTH_DELIMITED) + (bytes_value_bytes(w[i as int]) + length_delimited_list_bytes(12, w.subrange(i + 1, w.len() as int))));
            }
            i = i + 1;
        }
        assert(w.subrange(i as int, w.len() as int) =~= Seq::<Seq<u8>>::empty());
        assert(out@ + Seq::<u8>::empty() =~= out@);
        proof {
            lemma_concat_assoc(o, length_delimited_list_bytes(12, AudioFileModel::encodings(m.file)), m.encoded_from_alternative());
        }
    }

    /// Appends the encoding of field `alternative` to `out`.
    #[verifier::spinoff_prover]
    fn write_field_alternative(&self, out: &mut Vec<u8>)
        requires
            self@.wf(),
        ensures
            final(out)@ == old(out)@ + TrackModel::list_bytes(13, self@.alternative),
            final(out)@ + self@.encoded_from_sale_period() == old(out)@ + self@.encoded_from_alternative(),
        decreases self, 1int,
    {
        proof {
            use_type_invariant(self);
        }
        proof {
            reveal_with_fuel(TrackModel::wf, 1);
        }
        let ghost o = out@;
        let ghost m = self@;
        proof {
            Track::lemma_seq_model(self.alternative@);
        }
        let ghost w = TrackModel::encodings(m.alternative);
        assert(w.subrange(0, w.len() as int) =~= w);
        assert(o + Seq::<u8>::empty() =~= o);
        let mut i: usize = 0;
        while i < self.alternative.len()
            invariant
                i <= self.alternative.len(),
                self@ == m,
                m.wf(),
                w.len() == self.alternative@.len(),
                w == TrackModel::encodings(m.alternative),
                o + length_delimited_list_bytes(13, w) == out@ + length_delimited_list_bytes(13, w.subrange(i as int, w.len() as int)),
            decreases self.alternative.len() - i,
        {
            proof {
                reveal_with_fuel(TrackModel::wf, 1);
                Track::lemma_seq_model(self.alternative@);
                TrackModel::lemma_writable_list(m.alternative);
                lemma_length_delimited_list_cons(13, w.subrange(i as int, w.len() as int));
                assert(m.alternative[i as int] == self.alternative@[i as int]@);
                assert(m.alternative[i as int].wf());
                assert(w.subrange(i as int, w.len() as int)[0] == w[i as int]);
                assert(w.subrange(i as int, w.len() as int).subrange(1, w.len() - i) =~= w.subrange(i + 1, w.len() as int));
            }
            let ghost before = out@;
            let mut tmp: Vec<u8> = Vec::new();
            self.alternative[i].write_to(&mut tmp);
            assert(tmp@ =~= w[i as int]);
            pb_write_tag(out, 13, WIRE_LENGTH_DELIMITED);
            write_bytes_value(out, tmp.as_slice());
            proof {
                lemma_write_list_step(before, tag_bytes(13, WIRE_LENGTH_DELIMITED), bytes_value_bytes(w[i as int]), length_delimited_list_bytes(13, w.subrange(i + 1, w.len() as int)), Seq::<u8>::empty());
                assert(length_delimited_list_bytes(13, w.subrange(i + 1, w.len() as int)) + Seq::<u8>::empty() =~= length_delimited_list_bytes(13, w.subrange(i + 1, w.len() as int)));
                assert(tag_bytes(13, WIRE_LENGTH_DELIMITED) + (bytes_value_bytes(w[i as int]) + length_delimited_list_bytes(13, w.subrange(i + 1, w.len() as int))) + Seq::<u8>::empty() =~= tag_bytes(13, WIRE_LENGTH_DELIMITED) + (bytes_value_bytes(w[i as int]) + length_delimited_list_bytes(13, w.subrange(i + 1, w.len() as int))));
            }
            i = i + 1;
        }
        assert(w.subrange(i as int, w.len() as int) =~= Seq::<Seq<u8>>::empty());
        assert(out@ + Seq::<u8>::empty() =~= out@);
        proof {
            TrackModel::lemma_list_bytes(13, m.alternative);
            lemma_concat_assoc(o, TrackModel::list_bytes(13, m.alternative), m.encoded_from_sale_period());
        }
    }

    /// Appends the encoding of field `sale_period` to `out`.
    #[verifier::spinoff_prover]
    fn write_field_sale_period(&self, out: &mut Vec<u8>)
        requires
            self@.wf(),
        ensures
            final(out)@ == old(out)@ + length_delimited_list_bytes(14, SalePeriodModel::encodings(self@.sale_period)),
            final(out)@ + self@.encoded_from_preview() == old(out)@ + self@.encoded_from_sale_period(),
    {
        proof {
            use_type_invariant(self);
        }
        proof {
            reveal_with_fuel(TrackModel::wf, 1);
        }
        let ghost o = out@;
        let ghost m = self@;
        let ghost w = SalePeriodModel::encodings(m.sale_period);
        assert(w.subrange(0, w.len() as int) =~= w);
        assert(o + Seq::<u8>::empty() =~= o);
        let mut i: usize = 0;
        while i < self.sale_period.len()
            invariant
                i <= self.sale_period.len(),
                self@ == m,
                m.wf(),
                w.len() == self.sale_period@.len(),
                w == SalePeriodModel::encodings(m.sale_period),
                o + length_delimited_list_bytes(14, w) == out@ + length_delimited_list_bytes(14, w.subrange(i as int, w.len() as int)),
            decreases self.sale_period.len() - i,
        {
            proof {
                reveal_with_fuel(TrackModel::wf, 1);
                lemma_length_delimited_list_cons(14, w.subrange(i as int, w.len() as int));
                assert(m.sale_period[i as int] == self.sale_period@[i as int]@);
                assert(m.sale_period[i as int].wf());
                assert(w.subrange(i as int, w.len() as int)[0] == w[i as int]);
                assert(w.subrange(i as int, w.len() as int).subrange(1, w.len() - i) =~= w.subrange(i + 1, w.len() as int));
            }
            let ghost before = out@;
            let mut tmp: Vec<u8> = Vec::new();
            self.sale_period[i].write_to(&mut tmp);
            assert(tmp@ =~= w[i as int]);
            pb_write_tag(out, 14, WIRE_LENGTH_DELIMITED);
            write_bytes_value(out, tmp.as_slice());
            proof {
                lemma_write_list_step(before, tag_bytes(14, WIRE_LENGTH_DELIMITED), bytes_value_bytes(w[i as int]), length_delimited_list_bytes(14, w.subrange(i + 1, w.len() as int)), Seq::<u8>::empty());
                assert(length_delimited_list_bytes(14, w.subrange(i + 1, w.len() as int)) + Seq::<u8>::empty() =~= length_delimited_list_bytes(14, w.subrange(i + 1, w.len() as int)));
                assert(tag_bytes(14, WIRE_LENGTH_DELIMITED) + (bytes_value_bytes(w[i as int]) + length_delimited_list_bytes(14, w.subrange(i + 1, w.len() as int))) + Seq::<u8>::empty() =~= tag_bytes(14, WIRE_LENGTH_DELIMITED) + (bytes_value_bytes(w[i as int]) + length_delimited_list_bytes(14, w.subrange(i + 1, w.len() as int))));
            }
            i = i + 1;
        }
        assert(w.subrange(i as int, w.len() as int) =~= Seq::<Seq<u8>>::empty());
        assert(out@ + Seq::<u8>::empty() =~= out@);
        proof {
            lemma_concat_assoc(o, length_delimited_list_bytes(14, SalePeriodModel::encodings(m.sale_period)), m.encoded_from_preview());
        }
    }

    /// Appends the encoding of field `preview` to `out`.
    #[verifier::spinoff_prover]
    fn write_field_preview(&self, out: &mut Vec<u8>)
        requires
            self@.wf(),
        ensures
            final(out)@ == old(out)@ + length_delimited_list_bytes(15, AudioFileModel::encodings(self@.preview)),
            final(out)@ + self@.encoded_from_unknown_fields() == old(out)@ + self@.encoded_from_preview(),
    {
        proof {
            use_type_invariant(self);
        }
        proof {
            reveal_with_fuel(TrackModel::wf, 1);
        }
        let ghost o = out@;
        let ghost m = self@;
        let ghost w = AudioFileModel::encodings(m.preview);
        assert(w.subrange(0, w.len() as int) =~= w);
        assert(o + Seq::<u8>::empty() =~= o);
        let mut i: usize = 0;
        while i < self.preview.len()
            invariant
                i <= self.preview.len(),
                self@ == m,
                m.wf(),
                w.len() == self.preview@.len(),
                w == AudioFileModel::encodings(m.preview),
                o + length_delimited_list_bytes(15, w) == out@ + length_delimited_list_bytes(15, w.subrange(i as int, w.len() as int)),
            decreases self.preview.len() - i,
        {
            proof {
                reveal_with_fuel(TrackModel::wf, 1);
                lemma_length_delimited_list_cons(15, w.subrange(i as int, w.len() as int));
                assert(m.preview[i as int] == self.preview@[i as int]@);
                assert(m.preview[i as int].wf());
                assert(w.subrange(i as int, w.len() as int)[0] == w[i as int]);
                assert(w.subrange(i as int, w.len() as int).subrange(1, w.len() - i) =~= w.subrange(i + 1, w.len() as int));
            }
            let ghost before = out@;
            let mut tmp: Vec<u8> = Vec::new();
            self.preview[i].write_to(&mut tmp);
            assert(tmp@ =~= w[i as int]);
            pb_write_tag(out, 15, WIRE_LENGTH_DELIMITED);
            write_bytes_value(out, tmp.as_slice());
            proof {
                lemma_write_list_step(before, tag_bytes(15, WIRE_LENGTH_DELIMITED), bytes_value_bytes(w[i as int]), length_delimited_list_bytes(15, w.subrange(i + 1, w.len() as int)), Seq::<u8>::empty());
                assert(length_delimited_list_bytes(15, w.subrange(i + 1, w.len() as int)) + Seq::<u8>::empty() =~= length_delimited_list_bytes(15, w.subrange(i + 1, w.len() as int)));
                assert(tag_bytes(15, WIRE_LENGTH_DELIMITED) + (bytes_value_bytes(w[i as int]) + length_delimited_list_bytes(15, w.subrange(i + 1, w.len() as int))) + Seq::<u8>::empty() =~= tag_bytes(15, WIRE_LENGTH_DELIMITED) + (bytes_value_bytes(w[i as int]) + length_delimited_list_bytes(15, w.subrange(i + 1, w.len() as int))));
            }
            i = i + 1;
        }
        assert(w.subrange(i as int, w.len() as int) =~= Seq::<Seq<u8>>::empty());
        assert(out@ + Seq::<u8>::empty() =~= out@);
        proof {
            lemma_concat_assoc(o, length_delimited_list_bytes(15, AudioFileModel::encodings(m.preview)), m.encoded_from_unknown_fields());
        }
    }

    /// Appends the fields of unknown numbers to `out`.
    #[verifier::spinoff_prover]
    fn write_unknown_fields(&self, out: &mut Vec<u8>)
        requires
            self@.wf(),
        ensures
            final(out)@ == old(out)@ + unknown_list_bytes(self@.unknown_fields),
    {
        proof {
            reveal_with_fuel(TrackModel::wf, 1);
        }
        let ghost o = out@;
        let ghost m = self@;
        let mut j: usize = 0;
        assert(m.unknown_fields.subrange(0, m.unknown_fields.len() as int) =~= m.unknown_fields);
        assert(o + Seq::<u8>::empty() =~= o);
        while j < self.unknown_fields.len()
            invariant
                j <= self.unknown_fields.len(),
                self@ == m,
                m.wf(),
                o + unknown_list_bytes(m.unknown_fields) == out@ + unknown_list_bytes(m.unknown_fields.subrange(j as int, m.unknown_fields.len() as int)),
            decreases self.unknown_fields.len() - j,
        {
            proof {
                reveal_with_fuel(TrackModel::wf, 1);
                lemma_unknown_list_cons(m.unknown_fields.subrange(j as int, m.unknown_fields.len() as int));
                assert(m.unknown_fields[j as int] == self.unknown_fields@[j as int]@);
                assert(m.unknown_fields.subrange(j as int, m.unknown_fields.len() as int)[0] == m.unknown_fields[j as int]);
                assert(m.unknown_fields.subrange(j as int, m.unknown_fields.len() as int).subrange(1, m.unknown_fields.len() - j) =~= m.unknown_fields.subrange(j + 1, m.unknown_fields.len() as int));
            }
            let ghost before = out@;
            write_unknown(out, &self.unknown_fields[j]);
            proof {
                lemma_concat_assoc(before, unknown_field_bytes(m.unknown_fields[j as int]), unknown_list_bytes(m.unknown_fields.subrange(j + 1, m.unknown_fields.len() as int)));
            }
            j = j + 1;
        }
        assert(m.unknown_fields.subrange(j as int, m.unknown_fields.len() as int) =~= Seq::<UnknownFieldModel>::empty());
        assert(out@ =~= o + unknown_list_bytes(m.unknown_fields));
    }

    /// Appends the encoding of the message to `out`.
    #[verifier::spinoff_prover]
    fn write_to(&self, out: &mut Vec<u8>)
        requires
            self@.wf(),
        ensures
            final(out)@ == old(out)@ + self@.to_bytes(),
        decreases self, 2int,
    {
        proof {
            reveal_with_fuel(TrackModel::to_bytes, 1);
        }
        let ghost o = out@;
        let ghost m = self@;
        assert(o + m.to_bytes() == out@ + m.encoded_from_gid());
        self.write_field_gid(out);
        self.write_field_name(out);
        self.write_field_album(out);
        self.write_field_artist(out);
        self.write_field_number(out);
        self.write_field_disc_number(out);
        self.write_field_duration(out);
        self.write_field_popularity(out);
        self.write_field_explicit(out);
        self.write_field_external_id(out);
        self.write_field_restriction(out);
        self.write_field_file(out);
        self.write_field_alternative(out);
        self.write_field_sale_period(out);
        self.write_field_preview(out);
        self.write_unknown_fields(out);
    }

    /// The encoding of the message.
    #[verifier::spinoff_prover]
    pub fn write_to_bytes(&self) -> (r: Vec<u8>)
        requires
            self@.wf(),
        ensures
            r@ == self@.to_bytes(),
    {
        let mut out: Vec<u8> = Vec::new();
        self.write_to(&mut out);
        assert(out@ =~= self@.to_bytes());
        out
    }

    /// The length of the encoding of the message.
    #[verifier::spinoff_prover]
    pub fn compute_size(&self) -> (r: u32)
        requires
            self@.wf(),
            self@.to_bytes().len() <= u32::MAX,
        ensures
            r == self@.to_bytes().len(),
    {
        let v = self.write_to_bytes();
        v.len() as u32
    }
    /// A copy of the message.
    #[verifier::spinoff_prover]
    pub fn clone_message(&self) -> (r: Self)
        ensures
            r@ == self@,
        decreases self,
    {
        proof {
            use_type_invariant(self);
        }
        let gid = clone_opt_bytes(&self.gid);
        let name = clone_opt_string(&self.name);
        let album = Box::new(self.album.clone_message());
        let has_album = self.has_album;
        let mut artist: Vec<Artist> = Vec::new();
        let mut i: usize = 0;
        while i < self.artist.len()
            invariant
                i <= self.artist@.len(),
                artist@.len() == i,
                forall|j: int| 0 <= j < i ==> #[trigger] artist@[j]@ == self.artist@[j]@,
            decreases self.artist@.len() - i,
        {
            artist.push(self.artist[i].clone_message());
            i = i + 1;
        }
        proof {
            Artist::lemma_seq_model(artist@);
            Artist::lemma_seq_model(self.artist@);
        }
        assert(Artist::seq_model(artist@) =~= Artist::seq_model(self.artist@));
        let number = self.number;
        let disc_number = self.disc_number;
        let duration = self.duration;
        let popularity = self.popularity;
        let explicit = self.explicit;
        let mut external_id: Vec<ExternalId> = Vec::new();
        let mut i: usize = 0;
        while i < self.external_id.len()
            invariant
                i <= self.external_id@.len(),
                external_id@.len() == i,
                forall|j: int| 0 <= j < i ==> #[trigger] external_id@[j]@ == self.external_id@[j]@,
            decreases self.external_id@.len() - i,
        {
            external_id.push(self.external_id[i].clone_message());
            i = i + 1;
        }
        assert(ExternalId::seq_model(external_id@) =~= ExternalId::seq_model(self.external_id@));
        let mut restriction: Vec<Restriction> = Vec::new();
        let mut i: usize = 0;
        while i < self.restriction.len()
            invariant
                i <= self.restriction@.len(),
                restriction@.len() == i,
                forall|j: int| 0 <= j < i ==> #[trigger] restriction@[j]@ == self.restriction@[j]@,
            decreases self.restriction@.len() - i,
        {
            restriction.push(self.restriction[i].clone_message());
            i = i + 1;
        }
        assert(Restriction::seq_model(restriction@) =~= Restriction::seq_model(self.restriction@));
        let mut file: Vec<AudioFile> = Vec::new();
        let mut i: usize = 0;
        while i < self.file.len()
            invariant
                i <= self.file@.len(),
                file@.len() == i,
                forall|j: int| 0 <= j < i ==> #[trigger] file@[j]@ == self.file@[j]@,
            decreases self.file@.len() - i,
        {
            file.push(self.file[i].clone_message());
            i = i + 1;
        }
        assert(AudioFile::seq_model(file@) =~= AudioFile::seq_model(self.file@));
        let mut alternative: Vec<Track> = Vec::new();
        let mut i: usize = 0;
        while i < self.alternative.len()
            invariant
                i <= self.alternative@.len(),
                alternative@.len() == i,
                forall|j: int| 0 <= j < i ==> #[trigger] alternative@[j]@ == self.alternative@[j]@,
            decreases self.alternative@.len() - i,
        {
            alternative.push(self.alternative[i].clone_message());
            i = i + 1;
        }
        proof {
            Track::lemma_seq_model(alternative@);
            Track::lemma_seq_model(self.alternative@);
        }
        assert(Track::seq_model(alternative@) =~= Track::seq_model(self.alternative@));
        let mut sale_period: Vec<SalePeriod> = Vec::new();
        let mut i: usize = 0;
        while i < self.sale_period.len()
            invariant
                i <= self.sale_period@.len(),
                sale_period@.len() == i,
                forall|j: int| 0 <= j < i ==> #[trigger] sale_period@[j]@ == self.sale_period@[j]@,
            decreases self.sale_period@.len() - i,
        {
            sale_period.push(self.sale_period[i].clone_message());
            i = i + 1;
        }
        assert(SalePeriod::seq_model(sale_period@) =~= SalePeriod::seq_model(self.sale_period@));
        let mut preview: Vec<AudioFile> = Vec::new();
        let mut i: usize = 0;
        while i < self.preview.len()
            invariant
                i <= self.preview@.len(),
                preview@.len() == i,
                forall|j: int| 0 <= j < i ==> #[trigger] preview@[j]@ == self.preview@[j]@,
            decreases self.preview@.len() - i,
        {
            preview.push(self.preview[i].clone_message());
            i = i + 1;
        }
        assert(AudioFile::seq_model(preview@) =~= AudioFile::seq_model(self.preview@));
        let unknown_fields = clone_unknown_fields(&self.unknown_fields);
        Track { gid, name, has_album, album, artist, number, disc_number, duration, popularity, explicit, external_id, restriction, file, alternative, sale_period, preview, unknown_fields }
    }

}

impl Clone for Track {
    #[verifier::spinoff_prover]
    fn clone(&self) -> (r: Self)
        ensures
            r@ == self@,
    {
        self.clone_message()
    }
}

impl Default for Track {
    #[verifier::spinoff_prover]
    fn default() -> (r: Self)
        ensures
            r@ == TrackModel::empty(),
    {
        Track::new()
    }
}

/// The `Image` message.
#[allow(non_snake_case)]
#[derive(Debug, PartialEq)]
pub struct Image {
    file_id: Option<Vec<u8>>,
    size: Option<Image_Size>,
    width: Option<i32>,
    height: Option<i32>,
    unknown_fields: Vec<UnknownField>,
}

/// The model of a `Image`: each field's value, `None` or empty when unset,
/// and the fields of unknown numbers, in the order they were read.
#[allow(non_snake_case)]
pub struct ImageModel {
    pub file_id: Option<Seq<u8>>,
    pub size: Option<Image_Size>,
    pub width: Option<i32>,
    pub height: Option<i32>,
    pub unknown_fields: Seq<UnknownFieldModel>,
}

impl View for Image {
    type V = ImageModel;

    closed spec fn view(&self) -> ImageModel {
        ImageModel {
            file_id: opt_view(self.file_id),
            size: self.size,
            width: self.width,
            height: self.height,
            unknown_fields: unknown_models(self.unknown_fields@),
        }
    }
}

#[allow(non_snake_case)]
impl ImageModel {
    /// The model of a message with no field set.
    pub open spec fn empty() -> Self {
        ImageModel {
            file_id: None,
            size: None,
            width: None,
            height: None,
            unknown_fields: Seq::empty(),
        }
    }

    /// The encodings of a list of messages.
    pub open spec fn encodings(v: Seq<ImageModel>) -> Seq<Seq<u8>> {
        v.map_values(|m: ImageModel| m.to_bytes())
    }

    /// Every message of a list can be written, and its encoding fits a 32-bit length.
    pub open spec fn all_writable(v: Seq<ImageModel>) -> bool {
        forall|i: int| 0 <= i < v.len() ==> #[trigger] v[i].wf() && fits_u32(v[i].to_bytes())
    }

    /// The field numbers that this message knows.
    pub open spec fn is_known_field(f: u32) -> bool {
        f == 1 || f == 2 || f == 3 || f == 4
    }

    /// Merging one field whose tag (number `f`, wire type `wt`) has been read;
    /// `s` holds the bytes after the tag. The result is the merged model and
    /// the number of bytes the value took; a set field is replaced, a repeated
    /// field grows, a field of unknown number is kept or, if a group, skipped.
    pub open spec fn merge_field(self, f: u32, wt: u32, s: Seq<u8>, lim: nat) -> Option<(Self, nat)> {
        if f == 1 {
            if wt != WIRE_LENGTH_DELIMITED {
                None
            } else {
                match bytes_parse(s) {
                    Some((c, k)) => Some((ImageModel { file_id: Some(c), ..self }, k)),
                    None => None,
                }
            }
        } else if f == 2 {
            if wt != WIRE_VARINT {
                None
            } else {
                match varint_parse(s) {
                    Some((v, k)) => match Image_Size::spec_from_i32(varint_int32(v)) {
                        Some(e) => Some((ImageModel { size: Some(e), ..self }, k)),
                        None => None,
                    },
                    None => None,
                }
            }
        } else if f == 3 {
            if wt != WIRE_VARINT {
                None
            } else {
                match varint_parse(s) {
                    Some((v, k)) => Some((ImageModel { width: Some(zigzag_decode32(v as u32)), ..self }, k)),
                    None => None,
                }
            }
        } else if f == 4 {
            if wt != WIRE_VARINT {
                None
            } else {
                match varint_parse(s) {
                    Some((v, k)) => Some((ImageModel { height: Some(zigzag_decode32(v as u32)), ..self }, k)),
                    None => None,
                }
            }
        } else {
            match unknown_parse(f, wt, s) {
                Some((Some(u), k)) => Some((ImageModel { unknown_fields: grouped_insert(self.unknown_fields, u), ..self }, k)),
                Some((None, k)) => Some((self, k)),
                None => None,
            }
        }
    }

    /// What is left of the model when merging one field (number `f`, wire type
    /// `wt`, value at the front of `s`) fails: a string, bytes or message field
    /// of the right wire type is first set to its empty value (a repeated one
    /// gets an empty element) and an embedded message keeps the fields merged
    /// into it before the failure; packed values read before the failure stay.
    pub open spec fn merge_field_failed(self, f: u32, wt: u32, s: Seq<u8>, lim: nat) -> Self {
        if f == 1 {
            if wt != WIRE_LENGTH_DELIMITED {
                self
            } else {
                ImageModel { file_id: Some(Seq::<u8>::empty()), ..self }
            }
        } else {
            self
        }
    }

    /// The value of a merged field takes no more than the bytes after its tag.
    pub proof fn lemma_merge_field_len(self, f: u32, wt: u32, s: Seq<u8>, lim: nat)
        ensures
            self.merge_field(f, wt, s, lim) matches Some((_m, k)) ==> k <= s.len(),
    {
        lemma_varint_parse_len(s);
        crate::wire::lemma_unknown_parse_len(f, wt, s);
    }

    /// Merging all the fields that `s` holds, in order, where the length of an
    /// embedded message may reach `lim` bytes past the end of `s` (such a message
    /// is read up to the end of `s`).
    #[verifier::opaque]
    pub open spec fn merge(self, s: Seq<u8>, lim: nat) -> Option<Self>
        decreases s.len(),
    {
        if s.len() == 0 {
            Some(self)
        } else {
            match tag_parse(s) {
                Some((f, wt, n)) => if 0 < n <= s.len() {
                    match self.merge_field(f, wt, s.skip(n as int), lim) {
                        Some((m, k)) => if n + k <= s.len() {
                            m.merge(s.skip((n + k) as int), lim)
                        } else {
                            None
                        },
                        None => None,
                    }
                } else {
                    None
                },
                None => None,
            }
        }
    }

    /// What merging `s` leaves: the fields merged in order up to the first one
    /// whose tag or value cannot be read, then what `merge_field_failed` leaves of
    /// that one; all of `s` where it is a valid encoding.
    #[verifier::opaque]
    pub open spec fn merge_partial(self, s: Seq<u8>, lim: nat) -> Self
        decreases s.len(),
    {
        if s.len() == 0 {
            self
        } else {
            match tag_parse(s) {
                Some((f, wt, n)) => if 0 < n <= s.len() {
                    match self.merge_field(f, wt, s.skip(n as int), lim) {
                        Some((m, k)) => if n + k <= s.len() {
                            m.merge_partial(s.skip((n + k) as int), lim)
                        } else {
                            m
                        },
                        None => self.merge_field_failed(f, wt, s.skip(n as int), lim),
                    }
                } else {
                    self
                },
                None => self,
            }
        }
    }

    /// The encoding of field `file_id` and of every field written after it.
    pub open spec fn encoded_from_file_id(self) -> Seq<u8> {
        opt_length_delimited_field_bytes(1, self.file_id) + self.encoded_from_size()
    }

    /// The encoding of field `size` and of every field written after it.
    pub open spec fn encoded_from_size(self) -> Seq<u8> {
        opt_varint_field_bytes(2, match self.size { Some(x) => Some(int32_varint(x.spec_value())), None => None }) + self.encoded_from_width()
    }

    /// The encoding of field `width` and of every field written after it.
    pub open spec fn encoded_from_width(self) -> Seq<u8> {
        opt_varint_field_bytes(3, match self.width { Some(x) => Some(zigzag_encode32(x) as u64), None => None }) + self.encoded_from_height()
    }

    /// The encoding of field `height` and of every field written after it.
    pub open spec fn encoded_from_height(self) -> Seq<u8> {
        opt_varint_field_bytes(4, match self.height { Some(x) => Some(zigzag_encode32(x) as u64), None => None }) + self.encoded_from_unknown_fields()
    }

    /// The encoding of the fields of unknown numbers, written last.
    pub open spec fn encoded_from_unknown_fields(self) -> Seq<u8> {
        unknown_list_bytes(self.unknown_fields)
    }

    /// The encoding of the message: its set fields in order of declaration,
    /// each element of a repeated field in order, then the unknown fields.
    #[verifier::opaque]
    pub open spec fn to_bytes(self) -> Seq<u8> {
        self.encoded_from_file_id()
    }

    /// A model that can be written and read back: every length fits the
    /// 32-bit length prefix, nested messages can be written, and the unknown
    /// fields have valid numbers that this message does not know.
    #[verifier::opaque]
    pub open spec fn wf(self) -> bool {
        &&& (self.file_id matches Some(b) ==> fits_u32(b))
        &&& (forall|i: int| 0 <= i < self.unknown_fields.len() ==> unknown_field_wf(#[trigger] self.unknown_fields[i]) && !Self::is_known_field(self.unknown_fields[i].number))
        &&& unknown_grouped(self.unknown_fields)
    }

    /// The message with no field set can be written and read back.
    pub proof fn lemma_empty_wf()
        ensures
            Self::empty().wf(),
    {
        reveal_with_fuel(ImageModel::wf, 1);
        lemma_grouped_empty();
    }

    /// Merging a field's tag and value, whatever follows them.
    pub proof fn lemma_merge_step(acc: Self, f: u32, wt: u32, t: Seq<u8>, b: Seq<u8>, rest: Seq<u8>, acc2: Self, lim: nat)
        requires
            tag_parse(t + (b + rest)) == Some((f, wt, t.len())),
            t.len() > 0,
            acc.merge_field(f, wt, b + rest, lim) == Some((acc2, b.len())),
        ensures
            acc.merge(t + (b + rest), lim) == acc2.merge(rest, lim),
    {
        reveal_with_fuel(ImageModel::merge, 1);
        lemma_skip_chunk(t, b, rest);
    }

    /// Merging the encoding of field `file_id` sets it, whatever follows.
    pub proof fn lemma_merge_file_id(acc: Self, v: Option<Seq<u8>>, rest: Seq<u8>, lim: nat)
        requires
            (v matches Some(b) ==> fits_u32(b)),
        ensures
            acc.merge(opt_length_delimited_field_bytes(1, v) + rest, lim) == (ImageModel { file_id: if v is Some { v } else { acc.file_id }, ..acc }).merge(rest, lim),
    {
        match v {
            None => {
                assert(opt_length_delimited_field_bytes(1, v) + rest =~= rest);
                assert((ImageModel { file_id: acc.file_id, ..acc }) == acc);
            },
            Some(x) => {
                let t = tag_bytes(1, WIRE_LENGTH_DELIMITED);
                let b = bytes_value_bytes(x);
                assert(opt_length_delimited_field_bytes(1, v) + rest =~= t + (b + rest));
                lemma_tag_roundtrip(1, WIRE_LENGTH_DELIMITED, b + rest);
                lemma_bytes_roundtrip(x, rest);
                Self::lemma_merge_step(acc, 1, WIRE_LENGTH_DELIMITED, t, b, rest, ImageModel { file_id: v, ..acc }, lim);
            },
        }
    }

    /// Merging the encoding of field `size` sets it, whatever follows.
    pub proof fn lemma_merge_size(acc: Self, v: Option<Image_Size>, rest: Seq<u8>, lim: nat)
        ensures
            acc.merge(opt_varint_field_bytes(2, match v { Some(x) => Some(int32_varint(x.spec_value())), None => None }) + rest, lim) == (ImageModel { size: if v is Some { v } else { acc.size }, ..acc }).merge(rest, lim),
    {
        match v {
            None => {
                assert(opt_varint_field_bytes(2, match v { Some(x) => Some(int32_varint(x.spec_value())), None => None }) + rest =~= rest);
                assert((ImageModel { size: acc.size, ..acc }) == acc);
            },
            Some(x) => {
                let t = tag_bytes(2, WIRE_VARINT);
                let b = varint_bytes(int32_varint(x.spec_value()));
                assert(opt_varint_field_bytes(2, match v { Some(x) => Some(int32_varint(x.spec_value())), None => None }) + rest =~= t + (b + rest));
                lemma_tag_roundtrip(2, WIRE_VARINT, b + rest);
                lemma_varint_roundtrip(int32_varint(x.spec_value()), rest);
                    lemma_varint_casts(x.spec_value(), 0, 0, false, 0);
                    x.lemma_value_roundtrip();
                Self::lemma_merge_step(acc, 2, WIRE_VARINT, t, b, rest, ImageModel { size: v, ..acc }, lim);
            },
        }
    }

    /// Merging the encoding of field `width` sets it, whatever follows.
    pub proof fn lemma_merge_width(acc: Self, v: Option<i32>, rest: Seq<u8>, lim: nat)
        ensures
            acc.merge(opt_varint_field_bytes(3, match v { Some(x) => Some(zigzag_encode32(x) as u64), None => None }) + rest, lim) == (ImageModel { width: if v is Some { v } else { acc.width }, ..acc }).merge(rest, lim),
    {
        match v {
            None => {
                assert(opt_varint_field_bytes(3, match v { Some(x) => Some(zigzag_encode32(x) as u64), None => None }) + rest =~= rest);
                assert((ImageModel { width: acc.width, ..acc }) == acc);
            },
            Some(x) => {
                let t = tag_bytes(3, WIRE_VARINT);
                let b = varint_bytes(zigzag_encode32(x) as u64);
                assert(opt_varint_field_bytes(3, match v { Some(x) => Some(zigzag_encode32(x) as u64), None => None }) + rest =~= t + (b + rest));
                lemma_tag_roundtrip(3, WIRE_VARINT, b + rest);
                lemma_varint_roundtrip(zigzag_encode32(x) as u64, rest);
                    lemma_varint_casts(0, 0, 0, false, x);
                    crate::wire::lemma_zigzag_roundtrip(x);
                Self::lemma_merge_step(acc, 3, WIRE_VARINT, t, b, rest, ImageModel { width: v, ..acc }, lim);
            },
        }
    }

    /// Merging the encoding of field `height` sets it, whatever follows.
    pub proof fn lemma_merge_height(acc: Self, v: Option<i32>, rest: Seq<u8>, lim: nat)
        ensures
            acc.merge(opt_varint_field_bytes(4, match v { Some(x) => Some(zigzag_encode32(x) as u64), None => None }) + rest, lim) == (ImageModel { height: if v is Some { v } else { acc.height }, ..acc }).merge(rest, lim),
    {
        match v {
            None => {
                assert(opt_varint_field_bytes(4, match v { Some(x) => Some(zigzag_encode32(x) as u64), None => None }) + rest =~= rest);
                assert((ImageModel { height: acc.height, ..acc }) == acc);
            },
            Some(x) => {
                let t = tag_bytes(4, WIRE_VARINT);
                let b = varint_bytes(zigzag_encode32(x) as u64);
                assert(opt_varint_field_bytes(4, match v { Some(x) => Some(zigzag_encode32(x) as u64), None => None }) + rest =~= t + (b + rest));
                lemma_tag_roundtrip(4, WIRE_VARINT, b + rest);
                lemma_varint_roundtrip(zigzag_encode32(x) as u64, rest);
                    lemma_varint_casts(0, 0, 0, false, x);
                    crate::wire::lemma_zigzag_roundtrip(x);
                Self::lemma_merge_step(acc, 4, WIRE_VARINT, t, b, rest, ImageModel { height: v, ..acc }, lim);
            },
        }
    }

    /// Merging the encoding of fields of unknown numbers keeps them, whatever follows.
    #[verifier::rlimit(50)]
    pub proof fn lemma_merge_unknown_fields(acc: Self, v: Seq<UnknownFieldModel>, rest: Seq<u8>, lim: nat)
        requires
            forall|i: int| 0 <= i < v.len() ==> unknown_field_wf(#[trigger] v[i]) && !Self::is_known_field(v[i].number),
            unknown_grouped(acc.unknown_fields + v),
        ensures
            acc.merge(unknown_list_bytes(v) + rest, lim) == (ImageModel { unknown_fields: acc.unknown_fields + v, ..acc }).merge(rest, lim),
        decreases v.len(),
    {
        if v.len() == 0 {
            assert(unknown_list_bytes(v) + rest =~= rest);
            assert(acc.unknown_fields + v =~= acc.unknown_fields);
            assert((ImageModel { unknown_fields: acc.unknown_fields + v, ..acc }) == acc);
        } else {
            lemma_unknown_list_cons(v);
            let u = v[0];
            let wt = crate::wire::unknown_wire_type(u.value);
            let t = tag_bytes(u.number, wt);
            let b = crate::wire::unknown_value_bytes(u.value);
            let tail = unknown_list_bytes(v.subrange(1, v.len() as int));
            assert(unknown_list_bytes(v) + rest =~= t + (b + (tail + rest)));
            assert(unknown_field_bytes(u) + (tail + rest) =~= t + (b + (tail + rest)));
            lemma_unknown_roundtrip(u, tail + rest);
            assert((t + (b + (tail + rest))).skip(t.len() as int) =~= b + (tail + rest));
            crate::wire::lemma_tag_roundtrip(u.number, wt, b + (tail + rest));
            let acc1 = ImageModel { unknown_fields: acc.unknown_fields.push(u), ..acc };
            assert(acc.unknown_fields.push(u) =~= (acc.unknown_fields + v).take(acc.unknown_fields.len() + 1int));
            lemma_grouped_take(acc.unknown_fields + v, acc.unknown_fields.len() + 1int);
            lemma_grouped_insert_last(acc.unknown_fields, u);
            Self::lemma_merge_step(acc, u.number, wt, t, b, tail + rest, acc1, lim);
            assert(acc1.unknown_fields + v.subrange(1, v.len() as int) =~= acc.unknown_fields + v);
            Self::lemma_merge_unknown_fields(acc1, v.subrange(1, v.len() as int), rest, lim);
        }
    }

    /// Reading back the encoding of a model that can be written gives the model,
    /// whatever the limit past its end.
    #[verifier::spinoff_prover]
    #[verifier::rlimit(100)]
    pub proof fn lemma_roundtrip(self, lim: nat)
        requires
            self.wf(),
        ensures
            ImageModel::empty().merge(self.to_bytes(), lim) == Some(self),
    {
        reveal(ImageModel::to_bytes);
        reveal(ImageModel::wf);
        reveal_with_fuel(ImageModel::merge, 1);
        let a0 = ImageModel::empty();
        assert((self.file_id matches Some(b) ==> fits_u32(b)));
        Self::lemma_merge_file_id(a0, self.file_id, self.encoded_from_size(), lim);
        let a1 = ImageModel { file_id: if self.file_id is Some { self.file_id } else { a0.file_id }, ..a0 };
        Self::lemma_merge_size(a1, self.size, self.encoded_from_width(), lim);
        let a2 = ImageModel { size: if self.size is Some { self.size } else { a1.size }, ..a1 };
        Self::lemma_merge_width(a2, self.width, self.encoded_from_height(), lim);
        let a3 = ImageModel { width: if self.width is Some { self.width } else { a2.width }, ..a2 };
        Self::lemma_merge_height(a3, self.height, self.encoded_from_unknown_fields(), lim);
        let a4 = ImageModel { height: if self.height is Some { self.height } else { a3.height }, ..a3 };
        assert(a4.unknown_fields + self.unknown_fields =~= self.unknown_fields);
        Self::lemma_merge_unknown_fields(a4, self.unknown_fields, Seq::empty(), lim);
        assert(unknown_list_bytes(self.unknown_fields) + Seq::<u8>::empty() =~= unknown_list_bytes(self.unknown_fields));
        let last = ImageModel { unknown_fields: a4.unknown_fields + self.unknown_fields, ..a4 };
        assert(last.unknown_fields =~= self.unknown_fields);
        assert(last == self);
    }
    /// A message whose only set field is `file_id` is written as field number 1 of the
    /// protocol's definition alone: the tag of that number with the wire type of the field,
    /// then the value.
    pub proof fn lemma_encoding_of_file_id(v: Option<Seq<u8>>)
        ensures
            (ImageModel { file_id: v, ..ImageModel::empty() }).to_bytes() == opt_length_delimited_field_bytes(1, v),
    {
        reveal(ImageModel::to_bytes);
        let m = ImageModel { file_id: v, ..ImageModel::empty() };
        assert(m.to_bytes() =~= opt_length_delimited_field_bytes(1, v));
    }

    /// A message whose only set field is `size` is written as field number 2 of the
    /// protocol's definition alone: the tag of that number with the wire type of the field,
    /// then the value.
    pub proof fn lemma_encoding_of_size(v: Option<Image_Size>)
        ensures
            (ImageModel { size: v, ..ImageModel::empty() }).to_bytes() == opt_varint_field_bytes(2, match v { Some(x) => Some(int32_varint(x.spec_value())), None => None }),
    {
        reveal(ImageModel::to_bytes);
        let m = ImageModel { size: v, ..ImageModel::empty() };
        assert(m.to_bytes() =~= opt_varint_field_bytes(2, match v { Some(x) => Some(int32_varint(x.spec_value())), None => None }));
    }

    /// A message whose only set field is `width` is written as field number 3 of the
    /// protocol's definition alone: the tag of that number with the wire type of the field,
    /// then the value.
    pub proof fn lemma_encoding_of_width(v: Option<i32>)
        ensures
            (ImageModel { width: v, ..ImageModel::empty() }).to_bytes() == opt_varint_field_bytes(3, match v { Some(x) => Some(zigzag_encode32(x) as u64), None => None }),
    {
        reveal(ImageModel::to_bytes);
        let m = ImageModel { width: v, ..ImageModel::empty() };
        assert(m.to_bytes() =~= opt_varint_field_bytes(3, match v { Some(x) => Some(zigzag_encode32(x) as u64), None => None }));
    }

    /// A message whose only set field is `height` is written as field number 4 of the
    /// protocol's definition alone: the tag of that number with the wire type of the field,
    /// then the value.
    pub proof fn lemma_encoding_of_height(v: Option<i32>)
        ensures
            (ImageModel { height: v, ..ImageModel::empty() }).to_bytes() == opt_varint_field_bytes(4, match v { Some(x) => Some(zigzag_encode32(x) as u64), None => None }),
    {
        reveal(ImageModel::to_bytes);
        let m = ImageModel { height: v, ..ImageModel::empty() };
        assert(m.to_bytes() =~= opt_varint_field_bytes(4, match v { Some(x) => Some(zigzag_encode32(x) as u64), None => None }));
    }

}

#[allow(non_snake_case)]
impl Image {
    /// The models of a list of messages.
    pub open spec fn seq_model(v: Seq<Image>) -> Seq<ImageModel> {
        v.map_values(|m: Image| m@)
    }

    /// A message with no field set.
    pub fn new() -> (r: Self)
        ensures
            r@ == ImageModel::empty(),
            r@.wf(),
    {
        let r = Image {
            file_id: None,
            size: None,
            width: None,
            height: None,
            unknown_fields: Vec::new(),
        };
        assert(unknown_models(r.unknown_fields@) =~= Seq::<UnknownFieldModel>::empty());
        proof {
            ImageModel::lemma_empty_wf();
        }
        r
    }

    /// Unsets field `file_id`.
    pub fn clear_file_id(&mut self)
        ensures
            final(self)@ == (ImageModel { file_id: None, ..old(self)@ }),
    {
        self.file_id = None;
    }

    /// Whether field `file_id` is set.
    pub fn has_file_id(&self) -> (r: bool)
        ensures
            r == self@.file_id is Some,
    {
        self.file_id.is_some()
    }

    /// Sets field `file_id` to `v`.
    pub fn set_file_id(&mut self, v: Vec<u8>)
        ensures
            final(self)@ == (ImageModel { file_id: Some(v@), ..old(self)@ }),
    {
        self.file_id = Some(v);
    }

    /// Field `file_id`, to change in place; an unset field is first set to its default.
    pub fn mut_file_id(&mut self) -> (r: &mut Vec<u8>)
        ensures
            r@ == bytes_or_empty(old(self)@.file_id),
            final(self)@ == (ImageModel { file_id: Some(final(r)@), ..old(self)@ }),

    {
        if self.file_id.is_none() {
            self.file_id = Some(Vec::new());
        }
        opt_as_mut(&mut self.file_id).unwrap()
    }

    /// Takes field `file_id` (its default when unset), leaving it unset.
    pub fn take_file_id(&mut self) -> (r: Vec<u8>)
        ensures
            r@ == bytes_or_empty(old(self)@.file_id),
            final(self)@ == (ImageModel { file_id: None, ..old(self)@ }),
    {
        let mut t = None;
        std::mem::swap(&mut t, &mut self.file_id);
        match t {
            Some(v) => v,
            None => Vec::new(),
        }
    }

    /// Field `file_id`, or no bytes when unset.
    pub fn get_file_id(&self) -> (r: &[u8])
        ensures
            r@ == bytes_or_empty(self@.file_id),
    {
        match &self.file_id {
            Some(v) => v.as_slice(),
            None => &[],
        }
    }

    /// Unsets field `size`.
    pub fn clear_size(&mut self)
        ensures
            final(self)@ == (ImageModel { size: None, ..old(self)@ }),
    {
        self.size = None;
    }

    /// Whether field `size` is set.
    pub fn has_size(&self) -> (r: bool)
        ensures
            r == self@.size is Some,
    {
        self.size.is_some()
    }

    /// Sets field `size` to `v`.
    pub fn set_size(&mut self, v: Image_Size)
        ensures
            final(self)@ == (ImageModel { size: Some(v), ..old(self)@ }),
    {
        self.size = Some(v);
    }

    /// Field `size`, or `Image_Size::DEFAULT` when unset.
    pub fn get_size(&self) -> (r: Image_Size)
        ensures
            r == (match self@.size { Some(x) => x, None => Image_Size::DEFAULT }),
    {
        match self.size {
            Some(x) => x,
            None => Image_Size::DEFAULT,
        }
    }

    /// Unsets field `width`.
    pub fn clear_width(&mut self)
        ensures
            final(self)@ == (ImageModel { width: None, ..old(self)@ }),
    {
        self.width = None;
    }

    /// Whether field `width` is set.
    pub fn has_width(&self) -> (r: bool)
        ensures
            r == self@.width is Some,
    {
        self.width.is_some()
    }

    /// Sets field `width` to `v`.
    pub fn set_width(&mut self, v: i32)
        ensures
            final(self)@ == (ImageModel { width: Some(v), ..old(self)@ }),
    {
        self.width = Some(v);
    }

    /// Field `width`, or `0` when unset.
    pub fn get_width(&self) -> (r: i32)
        ensures
            r == (match self@.width { Some(x) => x, None => 0i32 }),
    {
        match self.width {
            Some(x) => x,
            None => 0i32,
        }
    }

    /// Unsets field `height`.
    pub fn clear_height(&mut self)
        ensures
            final(self)@ == (ImageModel { height: None, ..old(self)@ }),
    {
        self.height = None;
    }

    /// Whether field `height` is set.
    pub fn has_height(&self) -> (r: bool)
        ensures
            r == self@.height is Some,
    {
        self.height.is_some()
    }

    /// Sets field `height` to `v`.
    pub fn set_height(&mut self, v: i32)
        ensures
            final(self)@ == (ImageModel { height: Some(v), ..old(self)@ }),
    {
        self.height = Some(v);
    }

    /// Field `height`, or `0` when unset.
    pub fn get_height(&self) -> (r: i32)
        ensures
            r == (match self@.height { Some(x) => x, None => 0i32 }),
    {
        match self.height {
            Some(x) => x,
            None => 0i32,
        }
    }

    /// Merges one field whose tag (number `f`, wire type `wt`) has been read
    /// from the bytes `s` that follow the tag; returns the number of bytes the
    /// value took.
    fn merge_field(&mut self, f: u32, wt: u32, s: &[u8], lim: u64) -> (r: Option<usize>)
        ensures
            match old(self)@.merge_field(f, wt, s@, lim as nat) {
                Some((m, k)) => r == Some(k as usize) && final(self)@ == m,
                None => r is None && final(self)@ == old(self)@.merge_field_failed(f, wt, s@, lim as nat),
            },
    {

        if f == 1 {
            if wt != WIRE_LENGTH_DELIMITED {
                return None;
            }
            match read_bytes(s) {
                Some((v, k)) => {
                    self.file_id = Some(v);
                    Some(k)
                },
                None => {
                    self.file_id = Some(Vec::new());
                    None
                },
            }
        } else if f == 2 {
            if wt != WIRE_VARINT {
                return None;
            }
            proof {
                lemma_varint_parse_len(s@);
            }
            match pb_read_raw_varint64(s) {
                Some((v, k)) => match Image_Size::from_i32((v as u32) as i32) {
                    Some(e) => {
                        self.size = Some(e);
                        Some(k)
                    },
                    None => None,
                },
                None => None,
            }
        } else if f == 3 {
            if wt != WIRE_VARINT {
                return None;
            }
            match pb_read_sint32(s) {
                Some((v, k)) => {
                    self.width = Some(v);
                    Some(k)
                },
                None => None,
            }
        } else if f == 4 {
            if wt != WIRE_VARINT {
                return None;
            }
            match pb_read_sint32(s) {
                Some((v, k)) => {
                    self.height = Some(v);
                    Some(k)
                },
                None => None,
            }
        } else {
            match read_unknown(f, wt, s) {
                Some((Some(u), k)) => {
                    insert_unknown(field_mut(&mut self.unknown_fields), u);
                    Some(k)
                },
                Some((None, k)) => Some(k),
                None => None,
            }
        }
    }

    /// Merges all the fields that `s` holds, in order; `false` when the bytes
    /// are not a valid encoding (the message then holds what was merged so far).
    #[verifier::spinoff_prover]
    #[verifier::rlimit(50)]
    fn merge_from_slice(&mut self, s: &[u8], lim: u64) -> (ok: bool)
        ensures
            match old(self)@.merge(s@, lim as nat) {
                Some(m) => ok && final(self)@ == m,
                None => !ok && final(self)@ == old(self)@.merge_partial(s@, lim as nat),
            },
    {
        proof {
            reveal_with_fuel(ImageModel::merge, 1);
            reveal_with_fuel(ImageModel::merge_partial, 1);
        }
        let mut pos: usize = 0;
        assert(s@.skip(0) =~= s@);
        while pos < s.len()
            invariant
                pos <= s.len(),
                old(self)@.merge(s@, lim as nat) == self@.merge(s@.skip(pos as int), lim as nat),
                old(self)@.merge_partial(s@, lim as nat) == self@.merge_partial(s@.skip(pos as int), lim as nat),
            decreases s.len() - pos,
        {
            let rest = &s[pos..s.len()];
            assert(rest@ == s@.skip(pos as int));
            proof {
                reveal_with_fuel(ImageModel::merge, 1);
                reveal_with_fuel(ImageModel::merge_partial, 1);
                lemma_tag_parse_len(rest@);
            }
            match pb_read_tag_unpack(rest) {
                None => {
                    return false;
                },
                Some((f, wt, n)) => {
                    if n == 0 || n > rest.len() {
                        return false;
                    }
                    let rest2 = &rest[n..rest.len()];
                    assert(rest2@ == rest@.skip(n as int));
                    proof {
                        self@.lemma_merge_field_len(f, wt, rest2@, lim as nat);
                    }
                    match self.merge_field(f, wt, rest2, lim) {
                        None => {
                            return false;
                        },
                        Some(k) => {
                            if k > rest2.len() {
                                return false;
                            }
                            assert(rest@.skip((n + k) as int) =~= s@.skip((pos + n + k) as int));
                            pos = pos + n + k;
                        },
                    }
                },
            }
        }
        assert(s@.skip(pos as int) =~= Seq::<u8>::empty());
        proof {
            reveal_with_fuel(ImageModel::merge, 1);
        }
        true
    }

    /// The message that `s` encodes, if it is a valid encoding.
    fn parse_slice(s: &[u8], lim: u64) -> (r: Option<Self>)
        ensures
            match ImageModel::empty().merge(s@, lim as nat) {
                Some(m) => r matches Some(x) && x@ == m,
                None => r is None,
            },
    {
        let mut m = Image::new();
        if m.merge_from_slice(s, lim) {
            Some(m)
        } else {
            None
        }
    }

    /// Merges the fields that `bytes` encodes into this message, in order: a set
    /// field is replaced, a repeated field grows. On an invalid encoding the
    /// error comes back, the fields merged before the first field that could not
    /// be read stay merged, and that field is left as `merge_field_failed` says.
    pub fn merge_from_bytes(&mut self, bytes: &[u8]) -> (r: Result<(), DecodeError>)
        ensures
            match old(self)@.merge(bytes@, top_limit(bytes@.len())) {
                Some(m) => r is Ok && final(self)@ == m,
                None => r is Err && final(self)@ == old(self)@.merge_partial(bytes@, top_limit(bytes@.len())),
            },
    {
        let lim: u64 = u64::MAX - bytes.len() as u64;
        if self.merge_from_slice(bytes, lim) {
            Ok(())
        } else {
            Err(DecodeError)
        }
    }

    /// Parses a message from its encoding.
    pub fn parse_from_bytes(bytes: &[u8]) -> (r: Result<Self, DecodeError>)
        ensures
            match ImageModel::empty().merge(bytes@, top_limit(bytes@.len())) {
                Some(m) => r matches Ok(x) && x@ == m,
                None => r is Err,
            },
    {
        let lim: u64 = u64::MAX - bytes.len() as u64;
        match Self::parse_slice(bytes, lim) {
            Some(m) => Ok(m),
            None => Err(DecodeError),
        }
    }

    /// Appends the encoding of field `file_id` to `out`.
    fn write_field_file_id(&self, out: &mut Vec<u8>)
        requires
            self@.wf(),
        ensures
            final(out)@ == old(out)@ + opt_length_delimited_field_bytes(1, self@.file_id),
            final(out)@ + self@.encoded_from_size() == old(out)@ + self@.encoded_from_file_id(),
    {
        proof {
            reveal(ImageModel::wf);
        }
        let ghost o = out@;
        let ghost m = self@;
        match &self.file_id {
            Some(v) => {
                pb_write_tag(out, 1, WIRE_LENGTH_DELIMITED);
                write_bytes_value(out, v.as_slice());
                proof {
                    lemma_concat_assoc(o, tag_bytes(1, WIRE_LENGTH_DELIMITED), bytes_value_bytes(v@));
                }
            },
            None => {
                assert(o + Seq::<u8>::empty() =~= o);
            },
        }
        proof {
            lemma_concat_assoc(o, opt_length_delimited_field_bytes(1, m.file_id), m.encoded_from_size());
        }
    }

    /// Appends the encoding of field `size` to `out`.
    fn write_field_size(&self, out: &mut Vec<u8>)
        requires
            self@.wf(),
        ensures
            final(out)@ == old(out)@ + opt_varint_field_bytes(2, match self@.size { Some(x) => Some(int32_varint(x.spec_value())), None => None }),
            final(out)@ + self@.encoded_from_width() == old(out)@ + self@.encoded_from_size(),
    {
        proof {
            reveal(ImageModel::wf);
        }
        let ghost o = out@;
        let ghost m = self@;
        match self.size {
            Some(x) => {
                pb_write_tag(out, 2, WIRE_VARINT);
                pb_write_raw_varint64(out, x.value() as u64);
                proof {
                    lemma_concat_assoc(o, tag_bytes(2, WIRE_VARINT), varint_bytes(int32_varint(x.spec_value())));
                }
            },
            None => {
                assert(o + Seq::<u8>::empty() =~= o);
            },
        }
        proof {
            lemma_concat_assoc(o, opt_varint_field_bytes(2, match m.size { Some(x) => Some(int32_varint(x.spec_value())), None => None }), m.encoded_from_width());
        }
    }

    /// Appends the encoding of field `width` to `out`.
    fn write_field_width(&self, out: &mut Vec<u8>)
        requires
            self@.wf(),
        ensures
            final(out)@ == old(out)@ + opt_varint_field_bytes(3, match self@.width { Some(x) => Some(zigzag_encode32(x) as u64), None => None }),
            final(out)@ + self@.encoded_from_height() == old(out)@ + self@.encoded_from_width(),
    {
        proof {
            reveal(ImageModel::wf);
        }
        let ghost o = out@;
        let ghost m = self@;
        match self.width {
            Some(x) => {
                pb_write_tag(out, 3, WIRE_VARINT);
                pb_write_sint32_no_tag(out, x);
                proof {
                    lemma_concat_assoc(o, tag_bytes(3, WIRE_VARINT), varint_bytes(zigzag_encode32(x) as u64));
                }
            },
            None => {
                assert(o + Seq::<u8>::empty() =~= o);
            },
        }
        proof {
            lemma_concat_assoc(o, opt_varint_field_bytes(3, match m.width { Some(x) => Some(zigzag_encode32(x) as u64), None => None }), m.encoded_from_height());
        }
    }

    /// Appends the encoding of field `height` to `out`.
    fn write_field_height(&self, out: &mut Vec<u8>)
        requires
            self@.wf(),
        ensures
            final(out)@ == old(out)@ + opt_varint_field_bytes(4, match self@.height { Some(x) => Some(zigzag_encode32(x) as u64), None => None }),
            final(out)@ + self@.encoded_from_unknown_fields() == old(out)@ + self@.encoded_from_height(),
    {
        proof {
            reveal(ImageModel::wf);
        }
        let ghost o = out@;
        let ghost m = self@;
        match self.height {
            Some(x) => {
                pb_write_tag(out, 4, WIRE_VARINT);
                pb_write_sint32_no_tag(out, x);
                proof {
                    lemma_concat_assoc(o, tag_bytes(4, WIRE_VARINT), varint_bytes(zigzag_encode32(x) as u64));
                }
            },
            None => {
                assert(o + Seq::<u8>::empty() =~= o);
            },
        }
        proof {
            lemma_concat_assoc(o, opt_varint_field_bytes(4, match m.height { Some(x) => Some(zigzag_encode32(x) as u64), None => None }), m.encoded_from_unknown_fields());
        }
    }

    /// Appends the fields of unknown numbers to `out`.
    fn write_unknown_fields(&self, out: &mut Vec<u8>)
        requires
            self@.wf(),
        ensures
            final(out)@ == old(out)@ + unknown_list_bytes(self@.unknown_fields),
    {
        proof {
            reveal(ImageModel::wf);
        }
        let ghost o = out@;
        let ghost m = self@;
        let mut j: usize = 0;
        assert(m.unknown_fields.subrange(0, m.unknown_fields.len() as int) =~= m.unknown_fields);
        assert(o + Seq::<u8>::empty() =~= o);
        while j < self.unknown_fields.len()
            invariant
                j <= self.unknown_fields.len(),
                self@ == m,
                m.wf(),
                o + unknown_list_bytes(m.unknown_fields) == out@ + unknown_list_bytes(m.unknown_fields.subrange(j as int, m.unknown_fields.len() as int)),
            decreases self.unknown_fields.len() - j,
        {
            proof {
                reveal(ImageModel::wf);
                lemma_unknown_list_cons(m.unknown_fields.subrange(j as int, m.unknown_fields.len() as int));
                assert(m.unknown_fields[j as int] == self.unknown_fields@[j as int]@);
                assert(m.unknown_fields.subrange(j as int, m.unknown_fields.len() as int)[0] == m.unknown_fields[j as int]);
                assert(m.unknown_fields.subrange(j as int, m.unknown_fields.len() as int).subrange(1, m.unknown_fields.len() - j) =~= m.unknown_fields.subrange(j + 1, m.unknown_fields.len() as int));
            }
            let ghost before = out@;
            write_unknown(out, &self.unknown_fields[j]);
            proof {
                lemma_concat_assoc(before, unknown_field_bytes(m.unknown_fields[j as int]), unknown_list_bytes(m.unknown_fields.subrange(j + 1, m.unknown_fields.len() as int)));
            }
            j = j + 1;
        }
        assert(m.unknown_fields.subrange(j as int, m.unknown_fields.len() as int) =~= Seq::<UnknownFieldModel>::empty());
        assert(out@ =~= o + unknown_list_bytes(m.unknown_fields));
    }

    /// Appends the encoding of the message to `out`.
    fn write_to(&self, out: &mut Vec<u8>)
        requires
            self@.wf(),
        ensures
            final(out)@ == old(out)@ + self@.to_bytes(),
    {
        proof {
            reveal(ImageModel::to_bytes);
        }
        let ghost o = out@;
        let ghost m = self@;
        assert(o + m.to_bytes() == out@ + m.encoded_from_file_id());
        self.write_field_file_id(out);
        self.write_field_size(out);
        self.write_field_width(out);
        self.write_field_height(out);
        self.write_unknown_fields(out);
    }

    /// The encoding of the message.
    pub fn write_to_bytes(&self) -> (r: Vec<u8>)
        requires
            self@.wf(),
        ensures
            r@ == self@.to_bytes(),
    {
        let mut out: Vec<u8> = Vec::new();
        self.write_to(&mut out);
        assert(out@ =~= self@.to_bytes());
        out
    }

    /// The length of the encoding of the message.
    pub fn compute_size(&self) -> (r: u32)
        requires
            self@.wf(),
            self@.to_bytes().len() <= u32::MAX,
        ensures
            r == self@.to_bytes().len(),
    {
        let v = self.write_to_bytes();
        v.len() as u32
    }
    /// A copy of the message.
    pub fn clone_message(&self) -> (r: Self)
        ensures
            r@ == self@,
    {
        let file_id = clone_opt_bytes(&self.file_id);
        let size = self.size;
        let width = self.width;
        let height = self.height;
        let unknown_fields = clone_unknown_fields(&self.unknown_fields);
        Image { file_id, size, width, height, unknown_fields }
    }

}

impl Clone for Image {
    fn clone(&self) -> (r: Self)
        ensures
            r@ == self@,
    {
        self.clone_message()
    }
}

impl Default for Image {
    fn default() -> (r: Self)
        ensures
            r@ == ImageModel::empty(),
    {
        Image::new()
    }
}

/// The `ImageGroup` message.
#[allow(non_snake_case)]
#[derive(Debug, PartialEq)]
pub struct ImageGroup {
    image: Vec<Image>,
    unknown_fields: Vec<UnknownField>,
}

/// The model of a `ImageGroup`: each field's value, `None` or empty when unset,
/// and the fields of unknown numbers, in the order they were read.
#[allow(non_snake_case)]
pub struct ImageGroupModel {
    pub image: Seq<ImageModel>,
    pub unknown_fields: Seq<UnknownFieldModel>,
}

impl View for ImageGroup {
    type V = ImageGroupModel;

    closed spec fn view(&self) -> ImageGroupModel {
        ImageGroupModel {
            image: Image::seq_model(self.image@),
            unknown_fields: unknown_models(self.unknown_fields@),
        }
    }
}

#[allow(non_snake_case)]
impl ImageGroupModel {
    /// The model of a message with no field set.
    pub open spec fn empty() -> Self {
        ImageGroupModel {
            image: Seq::empty(),
            unknown_fields: Seq::empty(),
        }
    }

    /// The encodings of a list of messages.
    pub open spec fn encodings(v: Seq<ImageGroupModel>) -> Seq<Seq<u8>> {
        v.map_values(|m: ImageGroupModel| m.to_bytes())
    }

    /// Every message of a list can be written, and its encoding fits a 32-bit length.
    pub open spec fn all_writable(v: Seq<ImageGroupModel>) -> bool {
        forall|i: int| 0 <= i < v.len() ==> #[trigger] v[i].wf() && fits_u32(v[i].to_bytes())
    }

    /// The field numbers that this message knows.
    pub open spec fn is_known_field(f: u32) -> bool {
        f == 1
    }

    /// Merging one field whose tag (number `f`, wire type `wt`) has been read;
    /// `s` holds the bytes after the tag. The result is the merged model and
    /// the number of bytes the value took; a set field is replaced, a repeated
    /// field grows, a field of unknown number is kept or, if a group, skipped.
    pub open spec fn merge_field(self, f: u32, wt: u32, s: Seq<u8>, lim: nat) -> Option<(Self, nat)> {
        if f == 1 {
            if wt != WIRE_LENGTH_DELIMITED {
                None
            } else {
                match embedded_window(s, lim) {
                    Some((a, b, x)) => if 0 < a <= b <= s.len() {
                        match ImageModel::empty().merge(s.subrange(a as int, b as int), x) {
                            Some(x) => Some((ImageGroupModel { image: self.image.push(x), ..self }, b)),
                            None => None,
                        }
                    } else {
                        None
                    },
                    None => None,
                }
            }
        } else {
            match unknown_parse(f, wt, s) {
                Some((Some(u), k)) => Some((ImageGroupModel { unknown_fields: grouped_insert(self.unknown_fields, u), ..self }, k)),
                Some((None, k)) => Some((self, k)),
                None => None,
            }
        }
    }

    /// What is left of the model when merging one field (number `f`, wire type
    /// `wt`, value at the front of `s`) fails: a string, bytes or message field
    /// of the right wire type is first set to its empty value (a repeated one
    /// gets an empty element) and an embedded message keeps the fields merged
    /// into it before the failure; packed values read before the failure stay.
    pub open spec fn merge_field_failed(self, f: u32, wt: u32, s: Seq<u8>, lim: nat) -> Self {
        if f == 1 {
            if wt != WIRE_LENGTH_DELIMITED {
                self
            } else {
                match embedded_window(s, lim) {
                    Some((a, b, x)) => if 0 < a <= b <= s.len() {
                        ImageGroupModel { image: self.image.push(ImageModel::empty().merge_partial(s.subrange(a as int, b as int), x)), ..self }
                    } else {
                        ImageGroupModel { image: self.image.push(ImageModel::empty()), ..self }
                    },
                    None => ImageGroupModel { image: self.image.push(ImageModel::empty()), ..self },
                }
            }
        } else {
            self
        }
    }

    /// The value of a merged field takes no more than the bytes after its tag.
    pub proof fn lemma_merge_field_len(self, f: u32, wt: u32, s: Seq<u8>, lim: nat)
        ensures
            self.merge_field(f, wt, s, lim) matches Some((_m, k)) ==> k <= s.len(),
    {
        lemma_varint_parse_len(s);
        crate::wire::lemma_unknown_parse_len(f, wt, s);
    }

    /// Merging all the fields that `s` holds, in order, where the length of an
    /// embedded message may reach `lim` bytes past the end of `s` (such a message
    /// is read up to the end of `s`).
    #[verifier::opaque]
    pub open spec fn merge(self, s: Seq<u8>, lim: nat) -> Option<Self>
        decreases s.len(),
    {
        if s.len() == 0 {
            Some(self)
        } else {
            match tag_parse(s) {
                Some((f, wt, n)) => if 0 < n <= s.len() {
                    match self.merge_field(f, wt, s.skip(n as int), lim) {
                        Some((m, k)) => if n + k <= s.len() {
                            m.merge(s.skip((n + k) as int), lim)
                        } else {
                            None
                        },
                        None => None,
                    }
                } else {
                    None
                },
                None => None,
            }
        }
    }

    /// What merging `s` leaves: the fields merged in order up to the first one
    /// whose tag or value cannot be read, then what `merge_field_failed` leaves of
    /// that one; all of `s` where it is a valid encoding.
    #[verifier::opaque]
    pub open spec fn merge_partial(self, s: Seq<u8>, lim: nat) -> Self
        decreases s.len(),
    {
        if s.len() == 0 {
            self
        } else {
            match tag_parse(s) {
                Some((f, wt, n)) => if 0 < n <= s.len() {
                    match self.merge_field(f, wt, s.skip(n as int), lim) {
                        Some((m, k)) => if n + k <= s.len() {
                            m.merge_partial(s.skip((n + k) as int), lim)
                        } else {
                            m
                        },
                        None => self.merge_field_failed(f, wt, s.skip(n as int), lim),
                    }
                } else {
                    self
                },
                None => self,
            }
        }
    }

    /// The encoding of field `image` and of every field written after it.
    pub open spec fn encoded_from_image(self) -> Seq<u8> {
        length_delimited_list_bytes(1, ImageModel::encodings(self.image)) + self.encoded_from_unknown_fields()
    }

    /// The encoding of the fields of unknown numbers, written last.
    pub open spec fn encoded_from_unknown_fields(self) -> Seq<u8> {
        unknown_list_bytes(self.unknown_fields)
    }

    /// The encoding of the message: its set fields in order of declaration,
    /// each element of a repeated field in order, then the unknown fields.
    #[verifier::opaque]
    pub open spec fn to_bytes(self) -> Seq<u8> {
        self.encoded_from_image()
    }

    /// A model that can be written and read back: every length fits the
    /// 32-bit length prefix, nested messages can be written, and the unknown
    /// fields have valid numbers that this message does not know.
    #[verifier::opaque]
    pub open spec fn wf(self) -> bool {
        &&& ImageModel::all_writable(self.image)
        &&& (forall|i: int| 0 <= i < self.unknown_fields.len() ==> unknown_field_wf(#[trigger] self.unknown_fields[i]) && !Self::is_known_field(self.unknown_fields[i].number))
        &&& unknown_grouped(self.unknown_fields)
    }

    /// The message with no field set can be written and read back.
    pub proof fn lemma_empty_wf()
        ensures
            Self::empty().wf(),
    {
        reveal_with_fuel(ImageGroupModel::wf, 1);
        lemma_grouped_empty();
    }

    /// Merging a field's tag and value, whatever follows them.
    pub proof fn lemma_merge_step(acc: Self, f: u32, wt: u32, t: Seq<u8>, b: Seq<u8>, rest: Seq<u8>, acc2: Self, lim: nat)
        requires
            tag_parse(t + (b + rest)) == Some((f, wt, t.len())),
            t.len() > 0,
            acc.merge_field(f, wt, b + rest, lim) == Some((acc2, b.len())),
        ensures
            acc.merge(t + (b + rest), lim) == acc2.merge(rest, lim),
    {
        reveal_with_fuel(ImageGroupModel::merge, 1);
        lemma_skip_chunk(t, b, rest);
    }

    /// Merging the encoding of the elements of field `image` appends them, whatever follows.
    #[verifier::rlimit(50)]
    pub proof fn lemma_merge_image(acc: Self, v: Seq<ImageModel>, rest: Seq<u8>, lim: nat)
        requires
            ImageModel::all_writable(v),
        ensures
            acc.merge(length_delimited_list_bytes(1, ImageModel::encodings(v)) + rest, lim) == (ImageGroupModel { image: acc.image + v, ..acc }).merge(rest, lim),
        decreases v.len(),
    {
        let w = ImageModel::encodings(v);
        if v.len() == 0 {
            assert(length_delimited_list_bytes(1, w) + rest =~= rest);
            assert(acc.image + v =~= acc.image);
            assert((ImageGroupModel { image: acc.image + v, ..acc }) == acc);
        } else {
            lemma_length_delimited_list_cons(1, w);
            assert(v[0].wf() && fits_u32(v[0].to_bytes()));
            let t = tag_bytes(1, WIRE_LENGTH_DELIMITED);
            let b = bytes_value_bytes(w[0]);
            let tail = length_delimited_list_bytes(1, w.subrange(1, w.len() as int));
            assert(length_delimited_list_bytes(1, w) + rest =~= t + (b + (tail + rest)));
            lemma_tag_roundtrip(1, WIRE_LENGTH_DELIMITED, b + (tail + rest));
            lemma_message_window(v[0].to_bytes(), tail + rest);
            lemma_embedded_window(v[0].to_bytes(), tail + rest, lim);
            v[0].lemma_roundtrip(0);
            lemma_varint_parse_len(b + (tail + rest));
            let acc1 = ImageGroupModel { image: acc.image.push(v[0]), ..acc };
            Self::lemma_merge_step(acc, 1, WIRE_LENGTH_DELIMITED, t, b, tail + rest, acc1, lim);
            assert(w.subrange(1, w.len() as int) =~= ImageModel::encodings(v.subrange(1, v.len() as int)));
            assert forall|j: int| 0 <= j < v.len() - 1 implies #[trigger] v.subrange(1, v.len() as int)[j].wf() && fits_u32(v.subrange(1, v.len() as int)[j].to_bytes()) by {
                assert(v.subrange(1, v.len() as int)[j] == v[j + 1]);
            }
            Self::lemma_merge_image(acc1, v.subrange(1, v.len() as int), rest, lim);
            assert(acc1.image + v.subrange(1, v.len() as int) =~= acc.image + v);
        }
    }

    /// Merging the encoding of fields of unknown numbers keeps them, whatever follows.
    #[verifier::rlimit(50)]
    pub proof fn lemma_merge_unknown_fields(acc: Self, v: Seq<UnknownFieldModel>, rest: Seq<u8>, lim: nat)
        requires
            forall|i: int| 0 <= i < v.len() ==> unknown_field_wf(#[trigger] v[i]) && !Self::is_known_field(v[i].number),
            unknown_grouped(acc.unknown_fields + v),
        ensures
            acc.merge(unknown_list_bytes(v) + rest, lim) == (ImageGroupModel { unknown_fields: acc.unknown_fields + v, ..acc }).merge(rest, lim),
        decreases v.len(),
    {
        if v.len() == 0 {
            assert(unknown_list_bytes(v) + rest =~= rest);
            assert(acc.unknown_fields + v =~= acc.unknown_fields);
            assert((ImageGroupModel { unknown_fields: acc.unknown_fields + v, ..acc }) == acc);
        } else {
            lemma_unknown_list_cons(v);
            let u = v[0];
            let wt = crate::wire::unknown_wire_type(u.value);
            let t = tag_bytes(u.number, wt);
            let b = crate::wire::unknown_value_bytes(u.value);
            let tail = unknown_list_bytes(v.subrange(1, v.len() as int));
            assert(unknown_list_bytes(v) + rest =~= t + (b + (tail + rest)));
            assert(unknown_field_bytes(u) + (tail + rest) =~= t + (b + (tail + rest)));
            lemma_unknown_roundtrip(u, tail + rest);
            assert((t + (b + (tail + rest))).skip(t.len() as int) =~= b + (tail + rest));
            crate::wire::lemma_tag_roundtrip(u.number, wt, b + (tail + rest));
            let acc1 = ImageGroupModel { unknown_fields: acc.unknown_fields.push(u), ..acc };
            assert(acc.unknown_fields.push(u) =~= (acc.unknown_fields + v).take(acc.unknown_fields.len() + 1int));
            lemma_grouped_take(acc.unknown_fields + v, acc.unknown_fields.len() + 1int);
            lemma_grouped_insert_last(acc.unknown_fields, u);
            Self::lemma_merge_step(acc, u.number, wt, t, b, tail + rest, acc1, lim);
            assert(acc1.unknown_fields + v.subrange(1, v.len() as int) =~= acc.unknown_fields + v);
            Self::lemma_merge_unknown_fields(acc1, v.subrange(1, v.len() as int), rest, lim);
        }
    }

    /// Reading back the encoding of a model that can be written gives the model,
    /// whatever the limit past its end.
    #[verifier::spinoff_prover]
    #[verifier::rlimit(100)]
    pub proof fn lemma_roundtrip(self, lim: nat)
        requires
            self.wf(),
        ensures
            ImageGroupModel::empty().merge(self.to_bytes(), lim) == Some(self),
    {
        reveal(ImageGroupModel::to_bytes);
        reveal(ImageGroupModel::wf);
        reveal_with_fuel(ImageGroupModel::merge, 1);
        let a0 = ImageGroupModel::empty();
        assert(ImageModel::all_writable(self.image));
        Self::lemma_merge_image(a0, self.image, self.encoded_from_unknown_fields(), lim);
        let a1 = ImageGroupModel { image: a0.image + self.image, ..a0 };
        assert(a1.unknown_fields + self.unknown_fields =~= self.unknown_fields);
        Self::lemma_merge_unknown_fields(a1, self.unknown_fields, Seq::empty(), lim);
        assert(unknown_list_bytes(self.unknown_fields) + Seq::<u8>::empty() =~= unknown_list_bytes(self.unknown_fields));
        let last = ImageGroupModel { unknown_fields: a1.unknown_fields + self.unknown_fields, ..a1 };
        assert(last.image =~= self.image);
        assert(last.unknown_fields =~= self.unknown_fields);
        assert(last == self);
    }
    /// A message whose only set field is `image` is written as field number 1 of the
    /// protocol's definition alone: the tag of that number with the wire type of the field,
    /// then the value.
    pub proof fn lemma_encoding_of_image(v: Seq<ImageModel>)
        ensures
            (ImageGroupModel { image: v, ..ImageGroupModel::empty() }).to_bytes() == length_delimited_list_bytes(1, ImageModel::encodings(v)),
    {
        reveal(ImageGroupModel::to_bytes);
        let m = ImageGroupModel { image: v, ..ImageGroupModel::empty() };
        assert(m.to_bytes() =~= length_delimited_list_bytes(1, ImageModel::encodings(v)));
    }

}

#[allow(non_snake_case)]
impl ImageGroup {
    /// The models of a list of messages.
    pub open spec fn seq_model(v: Seq<ImageGroup>) -> Seq<ImageGroupModel> {
        v.map_values(|m: ImageGroup| m@)
    }

    /// A message with no field set.
    pub fn new() -> (r: Self)
        ensures
            r@ == ImageGroupModel::empty(),
            r@.wf(),
    {
        let r = ImageGroup {
            image: Vec::new(),
            unknown_fields: Vec::new(),
        };
        assert(Image::seq_model(r.image@) =~= Seq::<ImageModel>::empty());
        assert(unknown_models(r.unknown_fields@) =~= Seq::<UnknownFieldModel>::empty());
        proof {
            ImageGroupModel::lemma_empty_wf();
        }
        r
    }

    /// Empties field `image`.
    pub fn clear_image(&mut self)
        ensures
            final(self)@ == (ImageGroupModel { image: Seq::empty(), ..old(self)@ }),
    {
        self.image = Vec::new();
        assert(Image::seq_model(self.image@) =~= Seq::<ImageModel>::empty());
    }

    /// Sets field `image` to the elements of `v`.
    pub fn set_image(&mut self, v: Vec<Image>)
        ensures
            final(self)@ == (ImageGroupModel { image: Image::seq_model(v@), ..old(self)@ }),
    {
        self.image = v;
    }

    /// The elements of field `image`, to change in place.
    pub fn mut_image(&mut self) -> (r: &mut Vec<Image>)
        ensures
            Image::seq_model(r@) == old(self)@.image,
            final(self)@ == (ImageGroupModel { image: Image::seq_model(final(r)@), ..old(self)@ }),
    {
        field_mut(&mut self.image)
    }

    /// Takes the elements of field `image`, leaving it empty.
    pub fn take_image(&mut self) -> (r: Vec<Image>)
        ensures
            Image::seq_model(r@) == old(self)@.image,
            final(self)@ == (ImageGroupModel { image: Seq::empty(), ..old(self)@ }),
    {
        let mut r = Vec::new();
        std::mem::swap(&mut r, &mut self.image);
        assert(Image::seq_model(self.image@) =~= Seq::<ImageModel>::empty());
        r
    }

    /// The elements of field `image`.
    pub fn get_image(&self) -> (r: &[Image])
        ensures
            Image::seq_model(r@) == self@.image,
    {
        self.image.as_slice()
    }

    /// Merges one field whose tag (number `f`, wire type `wt`) has been read
    /// from the bytes `s` that follow the tag; returns the number of bytes the
    /// value took.
    fn merge_field(&mut self, f: u32, wt: u32, s: &[u8], lim: u64) -> (r: Option<usize>)
        ensures
            match old(self)@.merge_field(f, wt, s@, lim as nat) {
                Some((m, k)) => r == Some(k as usize) && final(self)@ == m,
                None => r is None && final(self)@ == old(self)@.merge_field_failed(f, wt, s@, lim as nat),
            },
    {

        if f == 1 {
            if wt != WIRE_LENGTH_DELIMITED {
                return None;
            }
            match read_embedded_window(s, lim) {
                Some((a, b, past)) => {
                    if a == 0 || a > b || b > s.len() {
                        let x = Image::new();
                        let ghost old_v = self.image@;
                        field_mut(&mut self.image).push(x);
                        assert(Image::seq_model(self.image@) =~= Image::seq_model(old_v).push(self.image@.last()@));
                        return None;
                    }
                    let sub = &s[a..b];
                    let mut x = Image::new();
                    let ok = x.merge_from_slice(sub, past);
                    let ghost old_v = self.image@;
                    field_mut(&mut self.image).push(x);
                    assert(Image::seq_model(self.image@) =~= Image::seq_model(old_v).push(self.image@.last()@));
                    if ok {
                        Some(b)
                    } else {
                        None
                    }
                },
                None => {
                    let x = Image::new();
                    let ghost old_v = self.image@;
                    field_mut(&mut self.image).push(x);
                    assert(Image::seq_model(self.image@) =~= Image::seq_model(old_v).push(self.image@.last()@));
                    None
                },
            }
        } else {
            match read_unknown(f, wt, s) {
                Some((Some(u), k)) => {
                    insert_unknown(field_mut(&mut self.unknown_fields), u);
                    Some(k)
                },
                Some((None, k)) => Some(k),
                None => None,
            }
        }
    }

    /// Merges all the fields that `s` holds, in order; `false` when the bytes
    /// are not a valid encoding (the message then holds what was merged so far).
    #[verifier::spinoff_prover]
    #[verifier::rlimit(50)]
    fn merge_from_slice(&mut self, s: &[u8], lim: u64) -> (ok: bool)
        ensures
            match old(self)@.merge(s@, lim as nat) {
                Some(m) => ok && final(self)@ == m,
                None => !ok && final(self)@ == old(self)@.merge_partial(s@, lim as nat),
            },
    {
        proof {
            reveal_with_fuel(ImageGroupModel::merge, 1);
            reveal_with_fuel(ImageGroupModel::merge_partial, 1);
        }
        let mut pos: usize = 0;
        assert(s@.skip(0) =~= s@);
        while pos < s.len()
            invariant
                pos <= s.len(),
                old(self)@.merge(s@, lim as nat) == self@.merge(s@.skip(pos as int), lim as nat),
                old(self)@.merge_partial(s@, lim as nat) == self@.merge_partial(s@.skip(pos as int), lim as nat),
            decreases s.len() - pos,
        {
            let rest = &s[pos..s.len()];
            assert(rest@ == s@.skip(pos as int));
            proof {
                reveal_with_fuel(ImageGroupModel::merge, 1);
                reveal_with_fuel(ImageGroupModel::merge_partial, 1);
                lemma_tag_parse_len(rest@);
            }
            match pb_read_tag_unpack(rest) {
                None => {
                    return false;
                },
                Some((f, wt, n)) => {
                    if n == 0 || n > rest.len() {
                        return false;
                    }
                    let rest2 = &rest[n..rest.len()];
                    assert(rest2@ == rest@.skip(n as int));
                    proof {
                        self@.lemma_merge_field_len(f, wt, rest2@, lim as nat);
                    }
                    match self.merge_field(f, wt, rest2, lim) {
                        None => {
                            return false;
                        },
                        Some(k) => {
                            if k > rest2.len() {
                                return false;
                            }
                            assert(rest@.skip((n + k) as int) =~= s@.skip((pos + n + k) as int));
                            pos = pos + n + k;
                        },
                    }
                },
            }
        }
        assert(s@.skip(pos as int) =~= Seq::<u8>::empty());
        proof {
            reveal_with_fuel(ImageGroupModel::merge, 1);
        }
        true
    }

    /// The message that `s` encodes, if it is a valid encoding.
    fn parse_slice(s: &[u8], lim: u64) -> (r: Option<Self>)
        ensures
            match ImageGroupModel::empty().merge(s@, lim as nat) {
                Some(m) => r matches Some(x) && x@ == m,
                None => r is None,
            },
    {
        let mut m = ImageGroup::new();
        if m.merge_from_slice(s, lim) {
            Some(m)
        } else {
            None
        }
    }

    /// Merges the fields that `bytes` encodes into this message, in order: a set
    /// field is replaced, a repeated field grows. On an invalid encoding the
    /// error comes back, the fields merged before the first field that could not
    /// be read stay merged, and that field is left as `merge_field_failed` says.
    pub fn merge_from_bytes(&mut self, bytes: &[u8]) -> (r: Result<(), DecodeError>)
        ensures
            match old(self)@.merge(bytes@, top_limit(bytes@.len())) {
                Some(m) => r is Ok && final(self)@ == m,
                None => r is Err && final(self)@ == old(self)@.merge_partial(bytes@, top_limit(bytes@.len())),
            },
    {
        let lim: u64 = u64::MAX - bytes.len() as u64;
        if self.merge_from_slice(bytes, lim) {
            Ok(())
        } else {
            Err(DecodeError)
        }
    }

    /// Parses a message from its encoding.
    pub fn parse_from_bytes(bytes: &[u8]) -> (r: Result<Self, DecodeError>)
        ensures
            match ImageGroupModel::empty().merge(bytes@, top_limit(bytes@.len())) {
                Some(m) => r matches Ok(x) && x@ == m,
                None => r is Err,
            },
    {
        let lim: u64 = u64::MAX - bytes.len() as u64;
        match Self::parse_slice(bytes, lim) {
            Some(m) => Ok(m),
            None => Err(DecodeError),
        }
    }

    /// Appends the encoding of field `image` to `out`.
    fn write_field_image(&self, out: &mut Vec<u8>)
        requires
            self@.wf(),
        ensures
            final(out)@ == old(out)@ + length_delimited_list_bytes(1, ImageModel::encodings(self@.image)),
            final(out)@ + self@.encoded_from_unknown_fields() == old(out)@ + self@.encoded_from_image(),
    {
        proof {
            reveal(ImageGroupModel::wf);
        }
        let ghost o = out@;
        let ghost m = self@;
        let ghost w = ImageModel::encodings(m.image);
        assert(w.subrange(0, w.len() as int) =~= w);
        assert(o + Seq::<u8>::empty() =~= o);
        let mut i: usize = 0;
        while i < self.image.len()
            invariant
                i <= self.image.len(),
                self@ == m,
                m.wf(),
                w.len() == self.image@.len(),
                w == ImageModel::encodings(m.image),
                o + length_delimited_list_bytes(1, w) == out@ + length_delimited_list_bytes(1, w.subrange(i as int, w.len() as int)),
            decreases self.image.len() - i,
        {
            proof {
                reveal(ImageGroupModel::wf);
                lemma_length_delimited_list_cons(1, w.subrange(i as int, w.len() as int));
                assert(m.image[i as int] == self.image@[i as int]@);
                assert(m.image[i as int].wf());
                assert(w.subrange(i as int, w.len() as int)[0] == w[i as int]);
                assert(w.subrange(i as int, w.len() as int).subrange(1, w.len() - i) =~= w.subrange(i + 1, w.len() as int));
            }
            let ghost before = out@;
            let mut tmp: Vec<u8> = Vec::new();
            self.image[i].write_to(&mut tmp);
            assert(tmp@ =~= w[i as int]);
            pb_write_tag(out, 1, WIRE_LENGTH_DELIMITED);
            write_bytes_value(out, tmp.as_slice());
            proof {
                lemma_write_list_step(before, tag_bytes(1, WIRE_LENGTH_DELIMITED), bytes_value_bytes(w[i as int]), length_delimited_list_bytes(1, w.subrange(i + 1, w.len() as int)), Seq::<u8>::empty());
                assert(length_delimited_list_bytes(1, w.subrange(i + 1, w.len() as int)) + Seq::<u8>::empty() =~= length_delimited_list_bytes(1, w.subrange(i + 1, w.len() as int)));
                assert(tag_bytes(1, WIRE_LENGTH_DELIMITED) + (bytes_value_bytes(w[i as int]) + length_delimited_list_bytes(1, w.subrange(i + 1, w.len() as int))) + Seq::<u8>::empty() =~= tag_bytes(1, WIRE_LENGTH_DELIMITED) + (bytes_value_bytes(w[i as int]) + length_delimited_list_bytes(1, w.subrange(i + 1, w.len() as int))));
            }
            i = i + 1;
        }
        assert(w.subrange(i as int, w.len() as int) =~= Seq::<Seq<u8>>::empty());
        assert(out@ + Seq::<u8>::empty() =~= out@);
        proof {
            lemma_concat_assoc(o, length_delimited_list_bytes(1, ImageModel::encodings(m.image)), m.encoded_from_unknown_fields());
        }
    }

    /// Appends the fields of unknown numbers to `out`.
    fn write_unknown_fields(&self, out: &mut Vec<u8>)
        requires
            self@.wf(),
        ensures
            final(out)@ == old(out)@ + unknown_list_bytes(self@.unknown_fields),
    {
        proof {
            reveal(ImageGroupModel::wf);
        }
        let ghost o = out@;
        let ghost m = self@;
        let mut j: usize = 0;
        assert(m.unknown_fields.subrange(0, m.unknown_fields.len() as int) =~= m.unknown_fields);
        assert(o + Seq::<u8>::empty() =~= o);
        while j < self.unknown_fields.len()
            invariant
                j <= self.unknown_fields.len(),
                self@ == m,
                m.wf(),
                o + unknown_list_bytes(m.unknown_fields) == out@ + unknown_list_bytes(m.unknown_fields.subrange(j as int, m.unknown_fields.len() as int)),
            decreases self.unknown_fields.len() - j,
        {
            proof {
                reveal(ImageGroupModel::wf);
                lemma_unknown_list_cons(m.unknown_fields.subrange(j as int, m.unknown_fields.len() as int));
                assert(m.unknown_fields[j as int] == self.unknown_fields@[j as int]@);
                assert(m.unknown_fields.subrange(j as int, m.unknown_fields.len() as int)[0] == m.unknown_fields[j as int]);
                assert(m.unknown_fields.subrange(j as int, m.unknown_fields.len() as int).subrange(1, m.unknown_fields.len() - j) =~= m.unknown_fields.subrange(j + 1, m.unknown_fields.len() as int));
            }
            let ghost before = out@;
            write_unknown(out, &self.unknown_fields[j]);
            proof {
                lemma_concat_assoc(before, unknown_field_bytes(m.unknown_fields[j as int]), unknown_list_bytes(m.unknown_fields.subrange(j + 1, m.unknown_fields.len() as int)));
            }
            j = j + 1;
        }
        assert(m.unknown_fields.subrange(j as int, m.unknown_fields.len() as int) =~= Seq::<UnknownFieldModel>::empty());
        assert(out@ =~= o + unknown_list_bytes(m.unknown_fields));
    }

    /// Appends the encoding of the message to `out`.
    fn write_to(&self, out: &mut Vec<u8>)
        requires
            self@.wf(),
        ensures
            final(out)@ == old(out)@ + self@.to_bytes(),
    {
        proof {
            reveal(ImageGroupModel::to_bytes);
        }
        let ghost o = out@;
        let ghost m = self@;
        assert(o + m.to_bytes() == out@ + m.encoded_from_image());
        self.write_field_image(out);
        self.write_unknown_fields(out);
    }

    /// The encoding of the message.
    pub fn write_to_bytes(&self) -> (r: Vec<u8>)
        requires
            self@.wf(),
        ensures
            r@ == self@.to_bytes(),
    {
        let mut out: Vec<u8> = Vec::new();
        self.write_to(&mut out);
        assert(out@ =~= self@.to_bytes());
        out
    }

    /// The length of the encoding of the message.
    pub fn compute_size(&self) -> (r: u32)
        requires
            self@.wf(),
            self@.to_bytes().len() <= u32::MAX,
        ensures
            r == self@.to_bytes().len(),
    {
        let v = self.write_to_bytes();
        v.len() as u32
    }
    /// A copy of the message.
    pub fn clone_message(&self) -> (r: Self)
        ensures
            r@ == self@,
    {
        let mut image: Vec<Image> = Vec::new();
        let mut i: usize = 0;
        while i < self.image.len()
            invariant
                i <= self.image@.len(),
                image@.len() == i,
                forall|j: int| 0 <= j < i ==> #[trigger] image@[j]@ == self.image@[j]@,
            decreases self.image@.len() - i,
        {
            image.push(self.image[i].clone_message());
            i = i + 1;
        }
        assert(Image::seq_model(image@) =~= Image::seq_model(self.image@));
        let unknown_fields = clone_unknown_fields(&self.unknown_fields);
        ImageGroup { image, unknown_fields }
    }

}

impl Clone for ImageGroup {
    fn clone(&self) -> (r: Self)
        ensures
            r@ == self@,
    {
        self.clone_message()
    }
}

impl Default for ImageGroup {
    fn default() -> (r: Self)
        ensures
            r@ == ImageGroupModel::empty(),
    {
        ImageGroup::new()
    }
}

/// The `Biography` message.
#[allow(non_snake_case)]
#[derive(Debug, PartialEq)]
pub struct Biography {
    text: Option<String>,
    portrait: Vec<Image>,
    portrait_group: Vec<ImageGroup>,
    unknown_fields: Vec<UnknownField>,
}

/// The model of a `Biography`: each field's value, `None` or empty when unset,
/// and the fields of unknown numbers, in the order they were read.
#[allow(non_snake_case)]
pub struct BiographyModel {
    pub text: Option<Seq<char>>,
    pub portrait: Seq<ImageModel>,
    pub portrait_group: Seq<ImageGroupModel>,
    pub unknown_fields: Seq<UnknownFieldModel>,
}

impl View for Biography {
    type V = BiographyModel;

    closed spec fn view(&self) -> BiographyModel {
        BiographyModel {
            text: opt_view(self.text),
            portrait: Image::seq_model(self.portrait@),
            portrait_group: ImageGroup::seq_model(self.portrait_group@),
            unknown_fields: unknown_models(self.unknown_fields@),
        }
    }
}

#[allow(non_snake_case)]
impl BiographyModel {
    /// The model of a message with no field set.
    pub open spec fn empty() -> Self {
        BiographyModel {
            text: None,
            portrait: Seq::empty(),
            portrait_group: Seq::empty(),
            unknown_fields: Seq::empty(),
        }
    }

    /// The encodings of a list of messages.
    pub open spec fn encodings(v: Seq<BiographyModel>) -> Seq<Seq<u8>> {
        v.map_values(|m: BiographyModel| m.to_bytes())
    }

    /// Every message of a list can be written, and its encoding fits a 32-bit length.
    pub open spec fn all_writable(v: Seq<BiographyModel>) -> bool {
        forall|i: int| 0 <= i < v.len() ==> #[trigger] v[i].wf() && fits_u32(v[i].to_bytes())
    }

    /// The field numbers that this message knows.
    pub open spec fn is_known_field(f: u32) -> bool {
        f == 1 || f == 2 || f == 3
    }

    /// Merging one field whose tag (number `f`, wire type `wt`) has been read;
    /// `s` holds the bytes after the tag. The result is the merged model and
    /// the number of bytes the value took; a set field is replaced, a repeated
    /// field grows, a field of unknown number is kept or, if a group, skipped.
    pub open spec fn merge_field(self, f: u32, wt: u32, s: Seq<u8>, lim: nat) -> Option<(Self, nat)> {
        if f == 1 {
            if wt != WIRE_LENGTH_DELIMITED {
                None
            } else {
                match string_parse(s) {
                    Some((c, k)) => Some((BiographyModel { text: Some(c), ..self }, k)),
                    None => None,
                }
            }
        } else if f == 2 {
            if wt != WIRE_LENGTH_DELIMITED {
                None
            } else {
                match embedded_window(s, lim) {
                    Some((a, b, x)) => if 0 < a <= b <= s.len() {
                        match ImageModel::empty().merge(s.subrange(a as int, b as int), x) {
                            Some(x) => Some((BiographyModel { portrait: self.portrait.push(x), ..self }, b)),
                            None => None,
                        }
                    } else {
                        None
                    },
                    None => None,
                }
            }
        } else if f == 3 {
            if wt != WIRE_LENGTH_DELIMITED {
                None
            } else {
                match embedded_window(s, lim) {
                    Some((a, b, x)) => if 0 < a <= b <= s.len() {
                        match ImageGroupModel::empty().merge(s.subrange(a as int, b as int), x) {
                            Some(x) => Some((BiographyModel { portrait_group: self.portrait_group.push(x), ..self }, b)),
                            None => None,
                        }
                    } else {
                        None
                    },
                    None => None,
                }
            }
        } else {
            match unknown_parse(f, wt, s) {
                Some((Some(u), k)) => Some((BiographyModel { unknown_fields: grouped_insert(self.unknown_fields, u), ..self }, k)),
                Some((None, k)) => Some((self, k)),
                None => None,
            }
        }
    }

    /// What is left of the model when merging one field (number `f`, wire type
    /// `wt`, value at the front of `s`) fails: a string, bytes or message field
    /// of the right wire type is first set to its empty value (a repeated one
    /// gets an empty element) and an embedded message keeps the fields merged
    /// into it before the failure; packed values read before the failure stay.
    pub open spec fn merge_field_failed(self, f: u32, wt: u32, s: Seq<u8>, lim: nat) -> Self {
        if f == 1 {
            if wt != WIRE_LENGTH_DELIMITED {
                self
            } else {
                BiographyModel { text: Some(Seq::<char>::empty()), ..self }
            }
        } else if f == 2 {
            if wt != WIRE_LENGTH_DELIMITED {
                self
            } else {
                match embedded_window(s, lim) {
                    Some((a, b, x)) => if 0 < a <= b <= s.len() {
                        BiographyModel { portrait: self.portrait.push(ImageModel::empty().merge_partial(s.subrange(a as int, b as int), x)), ..self }
                    } else {
                        BiographyModel { portrait: self.portrait.push(ImageModel::empty()), ..self }
                    },
                    None => BiographyModel { portrait: self.portrait.push(ImageModel::empty()), ..self },
                }
            }
        } else if f == 3 {
            if wt != WIRE_LENGTH_DELIMITED {
                self
            } else {
                match embedded_window(s, lim) {
                    Some((a, b, x)) => if 0 < a <= b <= s.len() {
                        BiographyModel { portrait_group: self.portrait_group.push(ImageGroupModel::empty().merge_partial(s.subrange(a as int, b as int), x)), ..self }
                    } else {
                        BiographyModel { portrait_group: self.portrait_group.push(ImageGroupModel::empty()), ..self }
                    },
                    None => BiographyModel { portrait_group: self.portrait_group.push(ImageGroupModel::empty()), ..self },
                }
            }
        } else {
            self
        }
    }

    /// The value of a merged field takes no more than the bytes after its tag.
    pub proof fn lemma_merge_field_len(self, f: u32, wt: u32, s: Seq<u8>, lim: nat)
        ensures
            self.merge_field(f, wt, s, lim) matches Some((_m, k)) ==> k <= s.len(),
    {
        lemma_varint_parse_len(s);
        crate::wire::lemma_unknown_parse_len(f, wt, s);
    }

    /// Merging all the fields that `s` holds, in order, where the length of an
    /// embedded message may reach `lim` bytes past the end of `s` (such a message
    /// is read up to the end of `s`).
    #[verifier::opaque]
    pub open spec fn merge(self, s: Seq<u8>, lim: nat) -> Option<Self>
        decreases s.len(),
    {
        if s.len() == 0 {
            Some(self)
        } else {
            match tag_parse(s) {
                Some((f, wt, n)) => if 0 < n <= s.len() {
                    match self.merge_field(f, wt, s.skip(n as int), lim) {
                        Some((m, k)) => if n + k <= s.len() {
                            m.merge(s.skip((n + k) as int), lim)
                        } else {
                            None
                        },
                        None => None,
                    }
                } else {
                    None
                },
                None => None,
            }
        }
    }

    /// What merging `s` leaves: the fields merged in order up to the first one
    /// whose tag or value cannot be read, then what `merge_field_failed` leaves of
    /// that one; all of `s` where it is a valid encoding.
    #[verifier::opaque]
    pub open spec fn merge_partial(self, s: Seq<u8>, lim: nat) -> Self
        decreases s.len(),
    {
        if s.len() == 0 {
            self
        } else {
            match tag_parse(s) {
                Some((f, wt, n)) => if 0 < n <= s.len() {
                    match self.merge_field(f, wt, s.skip(n as int), lim) {
                        Some((m, k)) => if n + k <= s.len() {
                            m.merge_partial(s.skip((n + k) as int), lim)
                        } else {
                            m
                        },
                        None => self.merge_field_failed(f, wt, s.skip(n as int), lim),
                    }
                } else {
                    self
                },
                None => self,
            }
        }
    }

    /// The encoding of field `text` and of every field written after it.
    pub open spec fn encoded_from_text(self) -> Seq<u8> {
        opt_length_delimited_field_bytes(1, match self.text { Some(c) => Some(encode_utf8(c)), None => None }) + self.encoded_from_portrait()
    }

    /// The encoding of field `portrait` and of every field written after it.
    pub open spec fn encoded_from_portrait(self) -> Seq<u8> {
        length_delimited_list_bytes(2, ImageModel::encodings(self.portrait)) + self.encoded_from_portrait_group()
    }

    /// The encoding of field `portrait_group` and of every field written after it.
    pub open spec fn encoded_from_portrait_group(self) -> Seq<u8> {
        length_delimited_list_bytes(3, ImageGroupModel::encodings(self.portrait_group)) + self.encoded_from_unknown_fields()
    }

    /// The encoding of the fields of unknown numbers, written last.
    pub open spec fn encoded_from_unknown_fields(self) -> Seq<u8> {
        unknown_list_bytes(self.unknown_fields)
    }

    /// The encoding of the message: its set fields in order of declaration,
    /// each element of a repeated field in order, then the unknown fields.
    #[verifier::opaque]
    pub open spec fn to_bytes(self) -> Seq<u8> {
        self.encoded_from_text()
    }

    /// A model that can be written and read back: every length fits the
    /// 32-bit length prefix, nested messages can be written, and the unknown
    /// fields have valid numbers that this message does not know.
    #[verifier::opaque]
    pub open spec fn wf(self) -> bool {
        &&& (self.text matches Some(c) ==> fits_u32(encode_utf8(c)))
        &&& ImageModel::all_writable(self.portrait)
        &&& ImageGroupModel::all_writable(self.portrait_group)
        &&& (forall|i: int| 0 <= i < self.unknown_fields.len() ==> unknown_field_wf(#[trigger] self.unknown_fields[i]) && !Self::is_known_field(self.unknown_fields[i].number))
        &&& unknown_grouped(self.unknown_fields)
    }

    /// The message with no field set can be written and read back.
    pub proof fn lemma_empty_wf()
        ensures
            Self::empty().wf(),
    {
        reveal_with_fuel(BiographyModel::wf, 1);
        lemma_grouped_empty();
    }

    /// Merging a field's tag and value, whatever follows them.
    pub proof fn lemma_merge_step(acc: Self, f: u32, wt: u32, t: Seq<u8>, b: Seq<u8>, rest: Seq<u8>, acc2: Self, lim: nat)
        requires
            tag_parse(t + (b + rest)) == Some((f, wt, t.len())),
            t.len() > 0,
            acc.merge_field(f, wt, b + rest, lim) == Some((acc2, b.len())),
        ensures
            acc.merge(t + (b + rest), lim) == acc2.merge(rest, lim),
    {
        reveal_with_fuel(BiographyModel::merge, 1);
        lemma_skip_chunk(t, b, rest);
    }

    /// Merging the encoding of field `text` sets it, whatever follows.
    pub proof fn lemma_merge_text(acc: Self, v: Option<Seq<char>>, rest: Seq<u8>, lim: nat)
        requires
            (v matches Some(c) ==> fits_u32(encode_utf8(c))),
        ensures
            acc.merge(opt_length_delimited_field_bytes(1, match v { Some(c) => Some(encode_utf8(c)), None => None }) + rest, lim) == (BiographyModel { text: if v is Some { v } else { acc.text }, ..acc }).merge(rest, lim),
    {
        match v {
            None => {
                assert(opt_length_delimited_field_bytes(1, match v { Some(c) => Some(encode_utf8(c)), None => None }) + rest =~= rest);
                assert((BiographyModel { text: acc.text, ..acc }) == acc);
            },
            Some(x) => {
                let t = tag_bytes(1, WIRE_LENGTH_DELIMITED);
                let b = bytes_value_bytes(encode_utf8(x));
                assert(opt_length_delimited_field_bytes(1, match v { Some(c) => Some(encode_utf8(c)), None => None }) + rest =~= t + (b + rest));
                lemma_tag_roundtrip(1, WIRE_LENGTH_DELIMITED, b + rest);
                lemma_string_roundtrip(x, rest);
                Self::lemma_merge_step(acc, 1, WIRE_LENGTH_DELIMITED, t, b, rest, BiographyModel { text: v, ..acc }, lim);
            },
        }
    }

    /// Merging the encoding of the elements of field `portrait` appends them, whatever follows.
    #[verifier::rlimit(50)]
    pub proof fn lemma_merge_portrait(acc: Self, v: Seq<ImageModel>, rest: Seq<u8>, lim: nat)
        requires
            ImageModel::all_writable(v),
        ensures
            acc.merge(length_delimited_list_bytes(2, ImageModel::encodings(v)) + rest, lim) == (BiographyModel { portrait: acc.portrait + v, ..acc }).merge(rest, lim),
        decreases v.len(),
    {
        let w = ImageModel::encodings(v);
        if v.len() == 0 {
            assert(length_delimited_list_bytes(2, w) + rest =~= rest);
            assert(acc.portrait + v =~= acc.portrait);
            assert((BiographyModel { portrait: acc.portrait + v, ..acc }) == acc);
        } else {
            lemma_length_delimited_list_cons(2, w);
            assert(v[0].wf() && fits_u32(v[0].to_bytes()));
            let t = tag_bytes(2, WIRE_LENGTH_DELIMITED);
            let b = bytes_value_bytes(w[0]);
            let tail = length_delimited_list_bytes(2, w.subrange(1, w.len() as int));
            assert(length_delimited_list_bytes(2, w) + rest =~= t + (b + (tail + rest)));
            lemma_tag_roundtrip(2, WIRE_LENGTH_DELIMITED, b + (tail + rest));
            lemma_message_window(v[0].to_bytes(), tail + rest);
            lemma_embedded_window(v[0].to_bytes(), tail + rest, lim);
            v[0].lemma_roundtrip(0);
            lemma_varint_parse_len(b + (tail + rest));
            let acc1 = BiographyModel { portrait: acc.portrait.push(v[0]), ..acc };
            Self::lemma_merge_step(acc, 2, WIRE_LENGTH_DELIMITED, t, b, tail + rest, acc1, lim);
            assert(w.subrange(1, w.len() as int) =~= ImageModel::encodings(v.subrange(1, v.len() as int)));
            assert forall|j: int| 0 <= j < v.len() - 1 implies #[trigger] v.subrange(1, v.len() as int)[j].wf() && fits_u32(v.subrange(1, v.len() as int)[j].to_bytes()) by {
                assert(v.subrange(1, v.len() as int)[j] == v[j + 1]);
            }
            Self::lemma_merge_portrait(acc1, v.subrange(1, v.len() as int), rest, lim);
            assert(acc1.portrait + v.subrange(1, v.len() as int) =~= acc.portrait + v);
        }
    }

    /// Merging the encoding of the elements of field `portrait_group` appends them, whatever follows.
    #[verifier::rlimit(50)]
    pub proof fn lemma_merge_portrait_group(acc: Self, v: Seq<ImageGroupModel>, rest: Seq<u8>, lim: nat)
        requires
            ImageGroupModel::all_writable(v),
        ensures
            acc.merge(length_delimited_list_bytes(3, ImageGroupModel::encodings(v)) + rest, lim) == (BiographyModel { portrait_group: acc.portrait_group + v, ..acc }).merge(rest, lim),
        decreases v.len(),
    {
        let w = ImageGroupModel::encodings(v);
        if v.len() == 0 {
            assert(length_delimited_list_bytes(3, w) + rest =~= rest);
            assert(acc.portrait_group + v =~= acc.portrait_group);
            assert((BiographyModel { portrait_group: acc.portrait_group + v, ..acc }) == acc);
        } else {
            lemma_length_delimited_list_cons(3, w);
            assert(v[0].wf() && fits_u32(v[0].to_bytes()));
            let t = tag_bytes(3, WIRE_LENGTH_DELIMITED);
            let b = bytes_value_bytes(w[0]);
            let tail = length_delimited_list_bytes(3, w.subrange(1, w.len() as int));
            assert(length_delimited_list_bytes(3, w) + rest =~= t + (b + (tail + rest)));
            lemma_tag_roundtrip(3, WIRE_LENGTH_DELIMITED, b + (tail + rest));
            lemma_message_window(v[0].to_bytes(), tail + rest);
            lemma_embedded_window(v[0].to_bytes(), tail + rest, lim);
            v[0].lemma_roundtrip(0);
            lemma_varint_parse_len(b + (tail + rest));
            let acc1 = BiographyModel { portrait_group: acc.portrait_group.push(v[0]), ..acc };
            Self::lemma_merge_step(acc, 3, WIRE_LENGTH_DELIMITED, t, b, tail + rest, acc1, lim);
            assert(w.subrange(1, w.len() as int) =~= ImageGroupModel::encodings(v.subrange(1, v.len() as int)));
            assert forall|j: int| 0 <= j < v.len() - 1 implies #[trigger] v.subrange(1, v.len() as int)[j].wf() && fits_u32(v.subrange(1, v.len() as int)[j].to_bytes()) by {
                assert(v.subrange(1, v.len() as int)[j] == v[j + 1]);
            }
            Self::lemma_merge_portrait_group(acc1, v.subrange(1, v.len() as int), rest, lim);
            assert(acc1.portrait_group + v.subrange(1, v.len() as int) =~= acc.portrait_group + v);
        }
    }

    /// Merging the encoding of fields of unknown numbers keeps them, whatever follows.
    #[verifier::rlimit(50)]
    pub proof fn lemma_merge_unknown_fields(acc: Self, v: Seq<UnknownFieldModel>, rest: Seq<u8>, lim: nat)
        requires
            forall|i: int| 0 <= i < v.len() ==> unknown_field_wf(#[trigger] v[i]) && !Self::is_known_field(v[i].number),
            unknown_grouped(acc.unknown_fields + v),
        ensures
            acc.merge(unknown_list_bytes(v) + rest, lim) == (BiographyModel { unknown_fields: acc.unknown_fields + v, ..acc }).merge(rest, lim),
        decreases v.len(),
    {
        if v.len() == 0 {
            assert(unknown_list_bytes(v) + rest =~= rest);
            assert(acc.unknown_fields + v =~= acc.unknown_fields);
            assert((BiographyModel { unknown_fields: acc.unknown_fields + v, ..acc }) == acc);
        } else {
            lemma_unknown_list_cons(v);
            let u = v[0];
            let wt = crate::wire::unknown_wire_type(u.value);
            let t = tag_bytes(u.number, wt);
            let b = crate::wire::unknown_value_bytes(u.value);
            let tail = unknown_list_bytes(v.subrange(1, v.len() as int));
            assert(unknown_list_bytes(v) + rest =~= t + (b + (tail + rest)));
            assert(unknown_field_bytes(u) + (tail + rest) =~= t + (b + (tail + rest)));
            lemma_unknown_roundtrip(u, tail + rest);
            assert((t + (b + (tail + rest))).skip(t.len() as int) =~= b + (tail + rest));
            crate::wire::lemma_tag_roundtrip(u.number, wt, b + (tail + rest));
            let acc1 = BiographyModel { unknown_fields: acc.unknown_fields.push(u), ..acc };
            assert(acc.unknown_fields.push(u) =~= (acc.unknown_fields + v).take(acc.unknown_fields.len() + 1int));
            lemma_grouped_take(acc.unknown_fields + v, acc.unknown_fields.len() + 1int);
            lemma_grouped_insert_last(acc.unknown_fields, u);
            Self::lemma_merge_step(acc, u.number, wt, t, b, tail + rest, acc1, lim);
            assert(acc1.unknown_fields + v.subrange(1, v.len() as int) =~= acc.unknown_fields + v);
            Self::lemma_merge_unknown_fields(acc1, v.subrange(1, v.len() as int), rest, lim);
        }
    }

    /// Reading back the encoding of a model that can be written gives the model,
    /// whatever the limit past its end.
    #[verifier::spinoff_prover]
    #[verifier::rlimit(100)]
    pub proof fn lemma_roundtrip(self, lim: nat)
        requires
            self.wf(),
        ensures
            BiographyModel::empty().merge(self.to_bytes(), lim) == Some(self),
    {
        reveal(BiographyModel::to_bytes);
        reveal(BiographyModel::wf);
        reveal_with_fuel(BiographyModel::merge, 1);
        let a0 = BiographyModel::empty();
        assert((self.text matches Some(c) ==> fits_u32(encode_utf8(c))));
        Self::lemma_merge_text(a0, self.text, self.encoded_from_portrait(), lim);
        let a1 = BiographyModel { text: if self.text is Some { self.text } else { a0.text }, ..a0 };
        assert(ImageModel::all_writable(self.portrait));
        Self::lemma_merge_portrait(a1, self.portrait, self.encoded_from_portrait_group(), lim);
        let a2 = BiographyModel { portrait: a1.portrait + self.portrait, ..a1 };
        assert(ImageGroupModel::all_writable(self.portrait_group));
        Self::lemma_merge_portrait_group(a2, self.portrait_group, self.encoded_from_unknown_fields(), lim);
        let a3 = BiographyModel { portrait_group: a2.portrait_group + self.portrait_group, ..a2 };
        assert(a3.unknown_fields + self.unknown_fields =~= self.unknown_fields);
        Self::lemma_merge_unknown_fields(a3, self.unknown_fields, Seq::empty(), lim);
        assert(unknown_list_bytes(self.unknown_fields) + Seq::<u8>::empty() =~= unknown_list_bytes(self.unknown_fields));
        let last = BiographyModel { unknown_fields: a3.unknown_fields + self.unknown_fields, ..a3 };
        assert(last.portrait =~= self.portrait);
        assert(last.portrait_group =~= self.portrait_group);
        assert(last.unknown_fields =~= self.unknown_fields);
        assert(last == self);
    }
    /// A message whose only set field is `text` is written as field number 1 of the
    /// protocol's definition alone: the tag of that number with the wire type of the field,
    /// then the value.
    pub proof fn lemma_encoding_of_text(v: Option<Seq<char>>)
        ensures
            (BiographyModel { text: v, ..BiographyModel::empty() }).to_bytes() == opt_length_delimited_field_bytes(1, match v { Some(c) => Some(encode_utf8(c)), None => None }),
    {
        reveal(BiographyModel::to_bytes);
        let m = BiographyModel { text: v, ..BiographyModel::empty() };
        assert(m.to_bytes() =~= opt_length_delimited_field_bytes(1, match v { Some(c) => Some(encode_utf8(c)), None => None }));
    }

    /// A message whose only set field is `portrait` is written as field number 2 of the
    /// protocol's definition alone: the tag of that number with the wire type of the field,
    /// then the value.
    pub proof fn lemma_encoding_of_portrait(v: Seq<ImageModel>)
        ensures
            (BiographyModel { portrait: v, ..BiographyModel::empty() }).to_bytes() == length_delimited_list_bytes(2, ImageModel::encodings(v)),
    {
        reveal(BiographyModel::to_bytes);
        let m = BiographyModel { portrait: v, ..BiographyModel::empty() };
        assert(m.to_bytes() =~= length_delimited_list_bytes(2, ImageModel::encodings(v)));
    }

    /// A message whose only set field is `portrait_group` is written as field number 3 of the
    /// protocol's definition alone: the tag of that number with the wire type of the field,
    /// then the value.
    pub proof fn lemma_encoding_of_portrait_group(v: Seq<ImageGroupModel>)
        ensures
            (BiographyModel { portrait_group: v, ..BiographyModel::empty() }).to_bytes() == length_delimited_list_bytes(3, ImageGroupModel::encodings(v)),
    {
        reveal(BiographyModel::to_bytes);
        let m = BiographyModel { portrait_group: v, ..BiographyModel::empty() };
        assert(m.to_bytes() =~= length_delimited_list_bytes(3, ImageGroupModel::encodings(v)));
    }

}

#[allow(non_snake_case)]
impl Biography {
    /// The models of a list of messages.
    pub open spec fn seq_model(v: Seq<Biography>) -> Seq<BiographyModel> {
        v.map_values(|m: Biography| m@)
    }

    /// A message with no field set.
    pub fn new() -> (r: Self)
        ensures
            r@ == BiographyModel::empty(),
            r@.wf(),
    {
        let r = Biography {
            text: None,
            portrait: Vec::new(),
            portrait_group: Vec::new(),
            unknown_fields: Vec::new(),
        };
        assert(Image::seq_model(r.portrait@) =~= Seq::<ImageModel>::empty());
        assert(ImageGroup::seq_model(r.portrait_group@) =~= Seq::<ImageGroupModel>::empty());
        assert(unknown_models(r.unknown_fields@) =~= Seq::<UnknownFieldModel>::empty());
        proof {
            BiographyModel::lemma_empty_wf();
        }
        r
    }

    /// Unsets field `text`.
    pub fn clear_text(&mut self)
        ensures
            final(self)@ == (BiographyModel { text: None, ..old(self)@ }),
    {
        self.text = None;
    }

    /// Whether field `text` is set.
    pub fn has_text(&self) -> (r: bool)
        ensures
            r == self@.text is Some,
    {
        self.text.is_some()
    }

    /// Sets field `text` to `v`.
    pub fn set_text(&mut self, v: String)
        ensures
            final(self)@ == (BiographyModel { text: Some(v@), ..old(self)@ }),
    {
        self.text = Some(v);
    }

    /// Field `text`, to change in place; an unset field is first set to its default.
    pub fn mut_text(&mut self) -> (r: &mut String)
        ensures
            r@ == chars_or_empty(old(self)@.text),
            final(self)@ == (BiographyModel { text: Some(final(r)@), ..old(self)@ }),

    {
        if self.text.is_none() {
            self.text = Some(String::new());
        }
        opt_as_mut(&mut self.text).unwrap()
    }

    /// Takes field `text` (its default when unset), leaving it unset.
    pub fn take_text(&mut self) -> (r: String)
        ensures
            r@ == chars_or_empty(old(self)@.text),
            final(self)@ == (BiographyModel { text: None, ..old(self)@ }),
    {
        let mut t = None;
        std::mem::swap(&mut t, &mut self.text);
        match t {
            Some(v) => v,
            None => String::new(),
        }
    }

    /// Field `text`, or the empty string when unset.
    pub fn get_text(&self) -> (r: &str)
        ensures
            r@ == chars_or_empty(self@.text),
    {
        match &self.text {
            Some(v) => v.as_str(),
            None => {
                proof {
                    reveal_strlit("");
                }
                ""
            },
        }
    }

    /// Empties field `portrait`.
    pub fn clear_portrait(&mut self)
        ensures
            final(self)@ == (BiographyModel { portrait: Seq::empty(), ..old(self)@ }),
    {
        self.portrait = Vec::new();
        assert(Image::seq_model(self.portrait@) =~= Seq::<ImageModel>::empty());
    }

    /// Sets field `portrait` to the elements of `v`.
    pub fn set_portrait(&mut self, v: Vec<Image>)
        ensures
            final(self)@ == (BiographyModel { portrait: Image::seq_model(v@), ..old(self)@ }),
    {
        self.portrait = v;
    }

    /// The elements of field `portrait`, to change in place.
    pub fn mut_portrait(&mut self) -> (r: &mut Vec<Image>)
        ensures
            Image::seq_model(r@) == old(self)@.portrait,
            final(self)@ == (BiographyModel { portrait: Image::seq_model(final(r)@), ..old(self)@ }),
    {
        field_mut(&mut self.portrait)
    }

    /// Takes the elements of field `portrait`, leaving it empty.
    pub fn take_portrait(&mut self) -> (r: Vec<Image>)
        ensures
            Image::seq_model(r@) == old(self)@.portrait,
            final(self)@ == (BiographyModel { portrait: Seq::empty(), ..old(self)@ }),
    {
        let mut r = Vec::new();
        std::mem::swap(&mut r, &mut self.portrait);
        assert(Image::seq_model(self.portrait@) =~= Seq::<ImageModel>::empty());
        r
    }

    /// The elements of field `portrait`.
    pub fn get_portrait(&self) -> (r: &[Image])
        ensures
            Image::seq_model(r@) == self@.portrait,
    {
        self.portrait.as_slice()
    }

    /// Empties field `portrait_group`.
    pub fn clear_portrait_group(&mut self)
        ensures
            final(self)@ == (BiographyModel { portrait_group: Seq::empty(), ..old(self)@ }),
    {
        self.portrait_group = Vec::new();
        assert(ImageGroup::seq_model(self.portrait_group@) =~= Seq::<ImageGroupModel>::empty());
    }

    /// Sets field `portrait_group` to the elements of `v`.
    pub fn set_portrait_group(&mut self, v: Vec<ImageGroup>)
        ensures
            final(self)@ == (BiographyModel { portrait_group: ImageGroup::seq_model(v@), ..old(self)@ }),
    {
        self.portrait_group = v;
    }

    /// The elements of field `portrait_group`, to change in place.
    pub fn mut_portrait_group(&mut self) -> (r: &mut Vec<ImageGroup>)
        ensures
            ImageGroup::seq_model(r@) == old(self)@.portrait_group,
            final(self)@ == (BiographyModel { portrait_group: ImageGroup::seq_model(final(r)@), ..old(self)@ }),
    {
        field_mut(&mut self.portrait_group)
    }

    /// Takes the elements of field `portrait_group`, leaving it empty.
    pub fn take_portrait_group(&mut self) -> (r: Vec<ImageGroup>)
        ensures
            ImageGroup::seq_model(r@) == old(self)@.portrait_group,
            final(self)@ == (BiographyModel { portrait_group: Seq::empty(), ..old(self)@ }),
    {
        let mut r = Vec::new();
        std::mem::swap(&mut r, &mut self.portrait_group);
        assert(ImageGroup::seq_model(self.portrait_group@) =~= Seq::<ImageGroupModel>::empty());
        r
    }

    /// The elements of field `portrait_group`.
    pub fn get_portrait_group(&self) -> (r: &[ImageGroup])
        ensures
            ImageGroup::seq_model(r@) == self@.portrait_group,
    {
        self.portrait_group.as_slice()
    }

    /// Merges one field whose tag (number `f`, wire type `wt`) has been read
    /// from the bytes `s` that follow the tag; returns the number of bytes the
    /// value took.
    fn merge_field(&mut self, f: u32, wt: u32, s: &[u8], lim: u64) -> (r: Option<usize>)
        ensures
            match old(self)@.merge_field(f, wt, s@, lim as nat) {
                Some((m, k)) => r == Some(k as usize) && final(self)@ == m,
                None => r is None && final(self)@ == old(self)@.merge_field_failed(f, wt, s@, lim as nat),
            },
    {

        if f == 1 {
            if wt != WIRE_LENGTH_DELIMITED {
                return None;
            }
            match read_string(s) {
                Some((v, k)) => {
                    self.text = Some(v);
                    Some(k)
                },
                None => {
                    self.text = Some(String::new());
                    None
                },
            }
        } else if f == 2 {
            if wt != WIRE_LENGTH_DELIMITED {
                return None;
            }
            match read_embedded_window(s, lim) {
                Some((a, b, past)) => {
                    if a == 0 || a > b || b > s.len() {
                        let x = Image::new();
                        let ghost old_v = self.portrait@;
                        field_mut(&mut self.portrait).push(x);
                        assert(Image::seq_model(self.portrait@) =~= Image::seq_model(old_v).push(self.portrait@.last()@));
                        return None;
                    }
                    let sub = &s[a..b];
                    let mut x = Image::new();
                    let ok = x.merge_from_slice(sub, past);
                    let ghost old_v = self.portrait@;
                    field_mut(&mut self.portrait).push(x);
                    assert(Image::seq_model(self.portrait@) =~= Image::seq_model(old_v).push(self.portrait@.last()@));
                    if ok {
                        Some(b)
                    } else {
                        None
                    }
                },
                None => {
                    let x = Image::new();
                    let ghost old_v = self.portrait@;
                    field_mut(&mut self.portrait).push(x);
                    assert(Image::seq_model(self.portrait@) =~= Image::seq_model(old_v).push(self.portrait@.last()@));
                    None
                },
            }
        } else if f == 3 {
            if wt != WIRE_LENGTH_DELIMITED {
                return None;
            }
            match read_embedded_window(s, lim) {
                Some((a, b, past)) => {
                    if a == 0 || a > b || b > s.len() {
                        let x = ImageGroup::new();
                        let ghost old_v = self.portrait_group@;
                        field_mut(&mut self.portrait_group).push(x);
                        assert(ImageGroup::seq_model(self.portrait_group@) =~= ImageGroup::seq_model(old_v).push(self.portrait_group@.last()@));
                        return None;
                    }
                    let sub = &s[a..b];
                    let mut x = ImageGroup::new();
                    let ok = x.merge_from_slice(sub, past);
                    let ghost old_v = self.portrait_group@;
                    field_mut(&mut self.portrait_group).push(x);
                    assert(ImageGroup::seq_model(self.portrait_group@) =~= ImageGroup::seq_model(old_v).push(self.portrait_group@.last()@));
                    if ok {
                        Some(b)
                    } else {
                        None
                    }
                },
                None => {
                    let x = ImageGroup::new();
                    let ghost old_v = self.portrait_group@;
                    field_mut(&mut self.portrait_group).push(x);
                    assert(ImageGroup::seq_model(self.portrait_group@) =~= ImageGroup::seq_model(old_v).push(self.portrait_group@.last()@));
                    None
                },
            }
        } else {
            match read_unknown(f, wt, s) {
                Some((Some(u), k)) => {
                    insert_unknown(field_mut(&mut self.unknown_fields), u);
                    Some(k)
                },
                Some((None, k)) => Some(k),
                None => None,
            }
        }
    }

    /// Merges all the fields that `s` holds, in order; `false` when the bytes
    /// are not a valid encoding (the message then holds what was merged so far).
    #[verifier::spinoff_prover]
    #[verifier::rlimit(50)]
    fn merge_from_slice(&mut self, s: &[u8], lim: u64) -> (ok: bool)
        ensures
            match old(self)@.merge(s@, lim as nat) {
                Some(m) => ok && final(self)@ == m,
                None => !ok && final(self)@ == old(self)@.merge_partial(s@, lim as nat),
            },
    {
        proof {
            reveal_with_fuel(BiographyModel::merge, 1);
            reveal_with_fuel(BiographyModel::merge_partial, 1);
        }
        let mut pos: usize = 0;
        assert(s@.skip(0) =~= s@);
        while pos < s.len()
            invariant
                pos <= s.len(),
                old(self)@.merge(s@, lim as nat) == self@.merge(s@.skip(pos as int), lim as nat),
                old(self)@.merge_partial(s@, lim as nat) == self@.merge_partial(s@.skip(pos as int), lim as nat),
            decreases s.len() - pos,
        {
            let rest = &s[pos..s.len()];
            assert(rest@ == s@.skip(pos as int));
            proof {
                reveal_with_fuel(BiographyModel::merge, 1);
                reveal_with_fuel(BiographyModel::merge_partial, 1);
                lemma_tag_parse_len(rest@);
            }
            match pb_read_tag_unpack(rest) {
                None => {
                    return false;
                },
                Some((f, wt, n)) => {
                    if n == 0 || n > rest.len() {
                        return false;
                    }
                    let rest2 = &rest[n..rest.len()];
                    assert(rest2@ == rest@.skip(n as int));
                    proof {
                        self@.lemma_merge_field_len(f, wt, rest2@, lim as nat);
                    }
                    match self.merge_field(f, wt, rest2, lim) {
                        None => {
                            return false;
                        },
                        Some(k) => {
                            if k > rest2.len() {
                                return false;
                            }
                            assert(rest@.skip((n + k) as int) =~= s@.skip((pos + n + k) as int));
                            pos = pos + n + k;
                        },
                    }
                },
            }
        }
        assert(s@.skip(pos as int) =~= Seq::<u8>::empty());
        proof {
            reveal_with_fuel(BiographyModel::merge, 1);
        }
        true
    }

    /// The message that `s` encodes, if it is a valid encoding.
    fn parse_slice(s: &[u8], lim: u64) -> (r: Option<Self>)
        ensures
            match BiographyModel::empty().merge(s@, lim as nat) {
                Some(m) => r matches Some(x) && x@ == m,
                None => r is None,
            },
    {
        let mut m = Biography::new();
        if m.merge_from_slice(s, lim) {
            Some(m)
        } else {
            None
        }
    }

    /// Merges the fields that `bytes` encodes into this message, in order: a set
    /// field is replaced, a repeated field grows. On an invalid encoding the
    /// error comes back, the fields merged before the first field that could not
    /// be read stay merged, and that field is left as `merge_field_failed` says.
    pub fn merge_from_bytes(&mut self, bytes: &[u8]) -> (r: Result<(), DecodeError>)
        ensures
            match old(self)@.merge(bytes@, top_limit(bytes@.len())) {
                Some(m) => r is Ok && final(self)@ == m,
                None => r is Err && final(self)@ == old(self)@.merge_partial(bytes@, top_limit(bytes@.len())),
            },
    {
        let lim: u64 = u64::MAX - bytes.len() as u64;
        if self.merge_from_slice(bytes, lim) {
            Ok(())
        } else {
            Err(DecodeError)
        }
    }

    /// Parses a message from its encoding.
    pub fn parse_from_bytes(bytes: &[u8]) -> (r: Result<Self, DecodeError>)
        ensures
            match BiographyModel::empty().merge(bytes@, top_limit(bytes@.len())) {
                Some(m) => r matches Ok(x) && x@ == m,
                None => r is Err,
            },
    {
        let lim: u64 = u64::MAX - bytes.len() as u64;
        match Self::parse_slice(bytes, lim) {
            Some(m) => Ok(m),
            None => Err(DecodeError),
        }
    }

    /// Appends the encoding of field `text` to `out`.
    fn write_field_text(&self, out: &mut Vec<u8>)
        requires
            self@.wf(),
        ensures
            final(out)@ == old(out)@ + opt_length_delimited_field_bytes(1, match self@.text { Some(c) => Some(encode_utf8(c)), None => None }),
            final(out)@ + self@.encoded_from_portrait() == old(out)@ + self@.encoded_from_text(),
    {
        proof {
            reveal(BiographyModel::wf);
        }
        let ghost o = out@;
        let ghost m = self@;
        match &self.text {
            Some(v) => {
                pb_write_tag(out, 1, WIRE_LENGTH_DELIMITED);
                write_string_value(out, v.as_str());
                proof {
                    lemma_concat_assoc(o, tag_bytes(1, WIRE_LENGTH_DELIMITED), bytes_value_bytes(encode_utf8(v@)));
                }
            },
            None => {
                assert(o + Seq::<u8>::empty() =~= o);
            },
        }
        proof {
            lemma_concat_assoc(o, opt_length_delimited_field_bytes(1, match m.text { Some(c) => Some(encode_utf8(c)), None => None }), m.encoded_from_portrait());
        }
    }

    /// Appends the encoding of field `portrait` to `out`.
    fn write_field_portrait(&self, out: &mut Vec<u8>)
        requires
            self@.wf(),
        ensures
            final(out)@ == old(out)@ + length_delimited_list_bytes(2, ImageModel::encodings(self@.portrait)),
            final(out)@ + self@.encoded_from_portrait_group() == old(out)@ + self@.encoded_from_portrait(),
    {
        proof {
            reveal(BiographyModel::wf);
        }
        let ghost o = out@;
        let ghost m = self@;
        let ghost w = ImageModel::encodings(m.portrait);
        assert(w.subrange(0, w.len() as int) =~= w);
        assert(o + Seq::<u8>::empty() =~= o);
        let mut i: usize = 0;
        while i < self.portrait.len()
            invariant
                i <= self.portrait.len(),
                self@ == m,
                m.wf(),
                w.len() == self.portrait@.len(),
                w == ImageModel::encodings(m.portrait),
                o + length_delimited_list_bytes(2, w) == out@ + length_delimited_list_bytes(2, w.subrange(i as int, w.len() as int)),
            decreases self.portrait.len() - i,
        {
            proof {
                reveal(BiographyModel::wf);
                lemma_length_delimited_list_cons(2, w.subrange(i as int, w.len() as int));
                assert(m.portrait[i as int] == self.portrait@[i as int]@);
                assert(m.portrait[i as int].wf());
                assert(w.subrange(i as int, w.len() as int)[0] == w[i as int]);
                assert(w.subrange(i as int, w.len() as int).subrange(1, w.len() - i) =~= w.subrange(i + 1, w.len() as int));
            }
            let ghost before = out@;
            let mut tmp: Vec<u8> = Vec::new();
            self.portrait[i].write_to(&mut tmp);
            assert(tmp@ =~= w[i as int]);
            pb_write_tag(out, 2, WIRE_LENGTH_DELIMITED);
            write_bytes_value(out, tmp.as_slice());
            proof {
                lemma_write_list_step(before, tag_bytes(2, WIRE_LENGTH_DELIMITED), bytes_value_bytes(w[i as int]), length_delimited_list_bytes(2, w.subrange(i + 1, w.len() as int)), Seq::<u8>::empty());
                assert(length_delimited_list_bytes(2, w.subrange(i + 1, w.len() as int)) + Seq::<u8>::empty() =~= length_delimited_list_bytes(2, w.subrange(i + 1, w.len() as int)));
                assert(tag_bytes(2, WIRE_LENGTH_DELIMITED) + (bytes_value_bytes(w[i as int]) + length_delimited_list_bytes(2, w.subrange(i + 1, w.len() as int))) + Seq::<u8>::empty() =~= tag_bytes(2, WIRE_LENGTH_DELIMITED) + (bytes_value_bytes(w[i as int]) + length_delimited_list_bytes(2, w.subrange(i + 1, w.len() as int))));
            }
            i = i + 1;
        }
        assert(w.subrange(i as int, w.len() as int) =~= Seq::<Seq<u8>>::empty());
        assert(out@ + Seq::<u8>::empty() =~= out@);
        proof {
            lemma_concat_assoc(o, length_delimited_list_bytes(2, ImageModel::encodings(m.portrait)), m.encoded_from_portrait_group());
        }
    }

    /// Appends the encoding of field `portrait_group` to `out`.
    fn write_field_portrait_group(&self, out: &mut Vec<u8>)
        requires
            self@.wf(),
        ensures
            final(out)@ == old(out)@ + length_delimited_list_bytes(3, ImageGroupModel::encodings(self@.portrait_group)),
            final(out)@ + self@.encoded_from_unknown_fields() == old(out)@ + self@.encoded_from_portrait_group(),
    {
        proof {
            reveal(BiographyModel::wf);
        }
        let ghost o = out@;
        let ghost m = self@;
        let ghost w = ImageGroupModel::encodings(m.portrait_group);
        assert(w.subrange(0, w.len() as int) =~= w);
        assert(o + Seq::<u8>::empty() =~= o);
        let mut i: usize = 0;
        while i < self.portrait_group.len()
            invariant
                i <= self.portrait_group.len(),
                self@ == m,
                m.wf(),
                w.len() == self.portrait_group@.len(),
                w == ImageGroupModel::encodings(m.portrait_group),
                o + length_delimited_list_bytes(3, w) == out@ + length_delimited_list_bytes(3, w.subrange(i as int, w.len() as int)),
            decreases self.portrait_group.len() - i,
        {
            proof {
                reveal(BiographyModel::wf);
                lemma_length_delimited_list_cons(3, w.subrange(i as int, w.len() as int));
                assert(m.portrait_group[i as int] == self.portrait_group@[i as int]@);
                assert(m.portrait_group[i as int].wf());
                assert(w.subrange(i as int, w.len() as int)[0] == w[i as int]);
                assert(w.subrange(i as int, w.len() as int).subrange(1, w.len() - i) =~= w.subrange(i + 1, w.len() as int));
            }
            let ghost before = out@;
            let mut tmp: Vec<u8> = Vec::new();
            self.portrait_group[i].write_to(&mut tmp);
            assert(tmp@ =~= w[i as int]);
            pb_write_tag(out, 3, WIRE_LENGTH_DELIMITED);
            write_bytes_value(out, tmp.as_slice());
            proof {
                lemma_write_list_step(before, tag_bytes(3, WIRE_LENGTH_DELIMITED), bytes_value_bytes(w[i as int]), length_delimited_list_bytes(3, w.subrange(i + 1, w.len() as int)), Seq::<u8>::empty());
                assert(length_delimited_list_bytes(3, w.subrange(i + 1, w.len() as int)) + Seq::<u8>::empty() =~= length_delimited_list_bytes(3, w.subrange(i + 1, w.len() as int)));
                assert(tag_bytes(3, WIRE_LENGTH_DELIMITED) + (bytes_value_bytes(w[i as int]) + length_delimited_list_bytes(3, w.subrange(i + 1, w.len() as int))) + Seq::<u8>::empty() =~= tag_bytes(3, WIRE_LENGTH_DELIMITED) + (bytes_value_bytes(w[i as int]) + length_delimited_list_bytes(3, w.subrange(i + 1, w.len() as int))));
            }
            i = i + 1;
        }
        assert(w.subrange(i as int, w.len() as int) =~= Seq::<Seq<u8>>::empty());
        assert(out@ + Seq::<u8>::empty() =~= out@);
        proof {
            lemma_concat_assoc(o, length_delimited_list_bytes(3, ImageGroupModel::encodings(m.portrait_group)), m.encoded_from_unknown_fields());
        }
    }

    /// Appends the fields of unknown numbers to `out`.
    fn write_unknown_fields(&self, out: &mut Vec<u8>)
        requires
            self@.wf(),
        ensures
            final(out)@ == old(out)@ + unknown_list_bytes(self@.unknown_fields),
    {
        proof {
            reveal(BiographyModel::wf);
        }
        let ghost o = out@;
        let ghost m = self@;
        let mut j: usize = 0;
        assert(m.unknown_fields.subrange(0, m.unknown_fields.len() as int) =~= m.unknown_fields);
        assert(o + Seq::<u8>::empty() =~= o);
        while j < self.unknown_fields.len()
            invariant
                j <= self.unknown_fields.len(),
                self@ == m,
                m.wf(),
                o + unknown_list_bytes(m.unknown_fields) == out@ + unknown_list_bytes(m.unknown_fields.subrange(j as int, m.unknown_fields.len() as int)),
            decreases self.unknown_fields.len() - j,
        {
            proof {
                reveal(BiographyModel::wf);
                lemma_unknown_list_cons(m.unknown_fields.subrange(j as int, m.unknown_fields.len() as int));
                assert(m.unknown_fields[j as int] == self.unknown_fields@[j as int]@);
                assert(m.unknown_fields.subrange(j as int, m.unknown_fields.len() as int)[0] == m.unknown_fields[j as int]);
                assert(m.unknown_fields.subrange(j as int, m.unknown_fields.len() as int).subrange(1, m.unknown_fields.len() - j) =~= m.unknown_fields.subrange(j + 1, m.unknown_fields.len() as int));
            }
            let ghost before = out@;
            write_unknown(out, &self.unknown_fields[j]);
            proof {
                lemma_concat_assoc(before, unknown_field_bytes(m.unknown_fields[j as int]), unknown_list_bytes(m.unknown_fields.subrange(j + 1, m.unknown_fields.len() as int)));
            }
            j = j + 1;
        }
        assert(m.unknown_fields.subrange(j as int, m.unknown_fields.len() as int) =~= Seq::<UnknownFieldModel>::empty());
        assert(out@ =~= o + unknown_list_bytes(m.unknown_fields));
    }

    /// Appends the encoding of the message to `out`.
    fn write_to(&self, out: &mut Vec<u8>)
        requires
            self@.wf(),
        ensures
            final(out)@ == old(out)@ + self@.to_bytes(),
    {
        proof {
            reveal(BiographyModel::to_bytes);
        }
        let ghost o = out@;
        let ghost m = self@;
        assert(o + m.to_bytes() == out@ + m.encoded_from_text());
        self.write_field_text(out);
        self.write_field_portrait(out);
        self.write_field_portrait_group(out);
        self.write_unknown_fields(out);
    }

    /// The encoding of the message.
    pub fn write_to_bytes(&self) -> (r: Vec<u8>)
        requires
            self@.wf(),
        ensures
            r@ == self@.to_bytes(),
    {
        let mut out: Vec<u8> = Vec::new();
        self.write_to(&mut out);
        assert(out@ =~= self@.to_bytes());
        out
    }

    /// The length of the encoding of the message.
    pub fn compute_size(&self) -> (r: u32)
        requires
            self@.wf(),
            self@.to_bytes().len() <= u32::MAX,
        ensures
            r == self@.to_bytes().len(),
    {
        let v = self.write_to_bytes();
        v.len() as u32
    }
    /// A copy of the message.
    pub fn clone_message(&self) -> (r: Self)
        ensures
            r@ == self@,
    {
        let text = clone_opt_string(&self.text);
        let mut portrait: Vec<Image> = Vec::new();
        let mut i: usize = 0;
        while i < self.portrait.len()
            invariant
                i <= self.portrait@.len(),
                portrait@.len() == i,
                forall|j: int| 0 <= j < i ==> #[trigger] portrait@[j]@ == self.portrait@[j]@,
            decreases self.portrait@.len() - i,
        {
            portrait.push(self.portrait[i].clone_message());
            i = i + 1;
        }
        assert(Image::seq_model(portrait@) =~= Image::seq_model(self.portrait@));
        let mut portrait_group: Vec<ImageGroup> = Vec::new();
        let mut i: usize = 0;
        while i < self.portrait_group.len()
            invariant
                i <= self.portrait_group@.len(),
                portrait_group@.len() == i,
                forall|j: int| 0 <= j < i ==> #[trigger] portrait_group@[j]@ == self.portrait_group@[j]@,
            decreases self.portrait_group@.len() - i,
        {
            portrait_group.push(self.portrait_group[i].clone_message());
            i = i + 1;
        }
        assert(ImageGroup::seq_model(portrait_group@) =~= ImageGroup::seq_model(self.portrait_group@));
        let unknown_fields = clone_unknown_fields(&self.unknown_fields);
        Biography { text, portrait, portrait_group, unknown_fields }
    }

}

impl Clone for Biography {
    fn clone(&self) -> (r: Self)
        ensures
            r@ == self@,
    {
        self.clone_message()
    }
}

impl Default for Biography {
    fn default() -> (r: Self)
        ensures
            r@ == BiographyModel::empty(),
    {
        Biography::new()
    }
}

/// The `Disc` message.
#[allow(non_snake_case)]
#[derive(Debug, PartialEq)]
pub struct Disc {
    number: Option<i32>,
    name: Option<String>,
    track: Vec<Track>,
    unknown_fields: Vec<UnknownField>,
}

/// The model of a `Disc`: each field's value, `None` or empty when unset,
/// and the fields of unknown numbers, in the order they were read.
#[allow(non_snake_case)]
pub struct DiscModel {
    pub number: Option<i32>,
    pub name: Option<Seq<char>>,
    pub track: Seq<TrackModel>,
    pub unknown_fields: Seq<UnknownFieldModel>,
}

impl View for Disc {
    type V = DiscModel;

    closed spec fn view(&self) -> DiscModel {
        self.model()
    }
}

#[allow(non_snake_case)]
impl Disc {
    /// The model of the message: the view, written out for the messages that contain one another.
    pub closed spec fn model(self) -> DiscModel
        decreases self, 1int,
    {
        DiscModel {
            number: self.number,
            name: opt_view(self.name),
            track: Track::seq_model(self.track@),
            unknown_fields: unknown_models(self.unknown_fields@),
        }
    }
}

#[allow(non_snake_case)]
impl DiscModel {
    /// The model of a message with no field set.
    pub open spec fn empty() -> Self {
        DiscModel {
            number: None,
            name: None,
            track: Seq::empty(),
            unknown_fields: Seq::empty(),
        }
    }

    /// The encodings of a list of messages.
    pub open spec fn encodings(v: Seq<DiscModel>) -> Seq<Seq<u8>> {
        v.map_values(|m: DiscModel| m.to_bytes())
    }

    /// Every message of a list can be written, and its encoding fits a 32-bit length.
    pub open spec fn all_writable(v: Seq<DiscModel>) -> bool {
        forall|i: int| 0 <= i < v.len() ==> #[trigger] v[i].wf() && fits_u32(v[i].to_bytes())
    }

    /// Every message of a list can be written, element by element.
    pub open spec fn writable_list(v: Seq<DiscModel>) -> bool
        decreases v, 0int,
    {
        v.len() == 0 || (v[0].wf() && fits_u32(v[0].to_bytes()) && Self::writable_list(v.subrange(1, v.len() as int)))
    }

    /// Each message of a list that can be written element by element can be written.
    #[verifier::spinoff_prover]
    pub proof fn lemma_writable_list(v: Seq<DiscModel>)
        requires
            Self::writable_list(v),
        ensures
            Self::all_writable(v),
        decreases v.len(),
    {
        reveal_with_fuel(DiscModel::wf, 1);
        if v.len() > 0 {
            let tail = v.subrange(1, v.len() as int);
            Self::lemma_writable_list(tail);
            assert forall|i: int| 0 <= i < v.len() implies #[trigger] v[i].wf() && fits_u32(v[i].to_bytes()) by {
                if i > 0 {
                    assert(v[i] == tail[i - 1]);
                }
            }
        }
    }

    /// The encoding of the elements of a repeated field of number `f`, each as a length-delimited
    /// value after its tag.
    pub open spec fn list_bytes(f: u32, v: Seq<DiscModel>) -> Seq<u8>
        decreases v, 0int,
    {
        if v.len() == 0 {
            Seq::empty()
        } else {
            tag_bytes(f, WIRE_LENGTH_DELIMITED) + bytes_value_bytes(v[0].to_bytes()) + Self::list_bytes(
                f,
                v.subrange(1, v.len() as int),
            )
        }
    }

    /// The encoding of a repeated field is the list of the encodings of its elements.
    #[verifier::spinoff_prover]
    pub proof fn lemma_list_bytes(f: u32, v: Seq<DiscModel>)
        ensures
            Self::list_bytes(f, v) == length_delimited_list_bytes(f, Self::encodings(v)),
        decreases v.len(),
    {
        let e = Self::encodings(v);
        if v.len() > 0 {
            let tail = v.subrange(1, v.len() as int);
            Self::lemma_list_bytes(f, tail);
            assert(e.subrange(1, v.len() as int) =~= Self::encodings(tail));
            assert(e[0] == v[0].to_bytes());
            lemma_length_delimited_list_cons(f, e);
            lemma_concat_assoc(tag_bytes(f, WIRE_LENGTH_DELIMITED), bytes_value_bytes(e[0]), Self::list_bytes(f, tail));
        } else {
            assert(e =~= Seq::<Seq<u8>>::empty());
        }
    }

    /// The field numbers that this message knows.
    pub open spec fn is_known_field(f: u32) -> bool {
        f == 1 || f == 2 || f == 3
    }

    /// Merging one field whose tag (number `f`, wire type `wt`) has been read;
    /// `s` holds the bytes after the tag. The result is the merged model and
    /// the number of bytes the value took; a set field is replaced, a repeated
    /// field grows, a field of unknown number is kept or, if a group, skipped.
    pub open spec fn merge_field(self, f: u32, wt: u32, s: Seq<u8>, lim: nat) -> Option<(Self, nat)>
        decreases s.len(),
    {
        if f == 1 {
            if wt != WIRE_VARINT {
                None
            } else {
                match varint_parse(s) {
                    Some((v, k)) => Some((DiscModel { number: Some(zigzag_decode32(v as u32)), ..self }, k)),
                    None => None,
                }
            }
        } else if f == 2 {
            if wt != WIRE_LENGTH_DELIMITED {
                None
            } else {
                match string_parse(s) {
                    Some((c, k)) => Some((DiscModel { name: Some(c), ..self }, k)),
                    None => None,
                }
            }
        } else if f == 3 {
            if wt != WIRE_LENGTH_DELIMITED {
                None
            } else {
                match embedded_window(s, lim) {
                    Some((a, b, x)) => if 0 < a <= b <= s.len() {
                        match TrackModel::empty().merge(s.subrange(a as int, b as int), x) {
                            Some(x) => Some((DiscModel { track: self.track.push(x), ..self }, b)),
                            None => None,
                        }
                    } else {
                        None
                    },
                    None => None,
                }
            }
        } else {
            match unknown_parse(f, wt, s) {
                Some((Some(u), k)) => Some((DiscModel { unknown_fields: grouped_insert(self.unknown_fields, u), ..self }, k)),
                Some((None, k)) => Some((self, k)),
                None => None,
            }
        }
    }

    /// What is left of the model when merging one field (number `f`, wire type
    /// `wt`, value at the front of `s`) fails: a string, bytes or message field
    /// of the right wire type is first set to its empty value (a repeated one
    /// gets an empty element) and an embedded message keeps the fields merged
    /// into it before the failure; packed values read before the failure stay.
    pub open spec fn merge_field_failed(self, f: u32, wt: u32, s: Seq<u8>, lim: nat) -> Self
        decreases s.len(),
    {
        if f == 2 {
            if wt != WIRE_LENGTH_DELIMITED {
                self
            } else {
                DiscModel { name: Some(Seq::<char>::empty()), ..self }
            }
        } else if f == 3 {
            if wt != WIRE_LENGTH_DELIMITED {
                self
            } else {
                match embedded_window(s, lim) {
                    Some((a, b, x)) => if 0 < a <= b <= s.len() {
                        DiscModel { track: self.track.push(TrackModel::empty().merge_partial(s.subrange(a as int, b as int), x)), ..self }
                    } else {
                        DiscModel { track: self.track.push(TrackModel::empty()), ..self }
                    },
                    None => DiscModel { track: self.track.push(TrackModel::empty()), ..self },
                }
            }
        } else {
            self
        }
    }

    /// The value of a merged field takes no more than the bytes after its tag.
    #[verifier::spinoff_prover]
    pub proof fn lemma_merge_field_len(self, f: u32, wt: u32, s: Seq<u8>, lim: nat)
        ensures
            self.merge_field(f, wt, s, lim) matches Some((_m, k)) ==> k <= s.len(),
    {
        lemma_varint_parse_len(s);
        crate::wire::lemma_unknown_parse_len(f, wt, s);
    }

    /// Merging all the fields that `s` holds, in order, where the length of an
    /// embedded message may reach `lim` bytes past the end of `s` (such a message
    /// is read up to the end of `s`).
    #[verifier::opaque]
    pub open spec fn merge(self, s: Seq<u8>, lim: nat) -> Option<Self>
        decreases s.len(),
    {
        if s.len() == 0 {
            Some(self)
        } else {
            match tag_parse(s) {
                Some((f, wt, n)) => if 0 < n <= s.len() {
                    match self.merge_field(f, wt, s.skip(n as int), lim) {
                        Some((m, k)) => if n + k <= s.len() {
                            m.merge(s.skip((n + k) as int), lim)
                        } else {
                            None
                        },
                        None => None,
                    }
                } else {
                    None
                },
                None => None,
            }
        }
    }

    /// What merging `s` leaves: the fields merged in order up to the first one
    /// whose tag or value cannot be read, then what `merge_field_failed` leaves of
    /// that one; all of `s` where it is a valid encoding.
    #[verifier::opaque]
    pub open spec fn merge_partial(self, s: Seq<u8>, lim: nat) -> Self
        decreases s.len(),
    {
        if s.len() == 0 {
            self
        } else {
            match tag_parse(s) {
                Some((f, wt, n)) => if 0 < n <= s.len() {
                    match self.merge_field(f, wt, s.skip(n as int), lim) {
                        Some((m, k)) => if n + k <= s.len() {
                            m.merge_partial(s.skip((n + k) as int), lim)
                        } else {
                            m
                        },
                        None => self.merge_field_failed(f, wt, s.skip(n as int), lim),
                    }
                } else {
                    self
                },
                None => self,
            }
        }
    }

    /// The encoding of field `number` and of every field written after it.
    pub open spec fn encoded_from_number(self) -> Seq<u8>
        decreases self, 4int,
    {
        opt_varint_field_bytes(1, match self.number { Some(x) => Some(zigzag_encode32(x) as u64), None => None }) + self.encoded_from_name()
    }

    /// The encoding of field `name` and of every field written after it.
    pub open spec fn encoded_from_name(self) -> Seq<u8>
        decreases self, 3int,
    {
        opt_length_delimited_field_bytes(2, match self.name { Some(c) => Some(encode_utf8(c)), None => None }) + self.encoded_from_track()
    }

    /// The encoding of field `track` and of every field written after it.
    pub open spec fn encoded_from_track(self) -> Seq<u8>
        decreases self, 2int,
    {
        TrackModel::list_bytes(3, self.track) + self.encoded_from_unknown_fields()
    }

    /// The encoding of the fields of unknown numbers, written last.
    pub open spec fn encoded_from_unknown_fields(self) -> Seq<u8> {
        unknown_list_bytes(self.unknown_fields)
    }

    /// The encoding of the message: its set fields in order of declaration,
    /// each element of a repeated field in order, then the unknown fields.
    #[verifier::opaque]
    pub open spec fn to_bytes(self) -> Seq<u8>
        decreases self, 5int,
    {
        self.encoded_from_number()
    }

    /// A model that can be written and read back: every length fits the
    /// 32-bit length prefix, nested messages can be written, and the unknown
    /// fields have valid numbers that this message does not know.
    #[verifier::opaque]
    pub open spec fn wf(self) -> bool
        decreases self, 1int,
    {
        &&& (self.name matches Some(c) ==> fits_u32(encode_utf8(c)))
        &&& TrackModel::writable_list(self.track)
        &&& (forall|i: int| 0 <= i < self.unknown_fields.len() ==> unknown_field_wf(#[trigger] self.unknown_fields[i]) && !Self::is_known_field(self.unknown_fields[i].number))
        &&& unknown_grouped(self.unknown_fields)
    }

    /// The message with no field set can be written and read back.
    #[verifier::spinoff_prover]
    pub proof fn lemma_empty_wf()
        ensures
            Self::empty().wf(),
    {
        reveal_with_fuel(DiscModel::wf, 1);
        lemma_grouped_empty();
    }

    /// Merging a field's tag and value, whatever follows them.
    #[verifier::spinoff_prover]
    pub proof fn lemma_merge_step(acc: Self, f: u32, wt: u32, t: Seq<u8>, b: Seq<u8>, rest: Seq<u8>, acc2: Self, lim: nat)
        requires
            tag_parse(t + (b + rest)) == Some((f, wt, t.len())),
            t.len() > 0,
            acc.merge_field(f, wt, b + rest, lim) == Some((acc2, b.len())),
        ensures
            acc.merge(t + (b + rest), lim) == acc2.merge(rest, lim),
    {
        reveal_with_fuel(DiscModel::merge, 1);
        lemma_skip_chunk(t, b, rest);
    }

    /// Merging the encoding of field `number` sets it, whatever follows.
    #[verifier::spinoff_prover]
    pub proof fn lemma_merge_number(acc: Self, v: Option<i32>, rest: Seq<u8>, lim: nat)
        ensures
            acc.merge(opt_varint_field_bytes(1, match v { Some(x) => Some(zigzag_encode32(x) as u64), None => None }) + rest, lim) == (DiscModel { number: if v is Some { v } else { acc.number }, ..acc }).merge(rest, lim),
    {
        match v {
            None => {
                assert(opt_varint_field_bytes(1, match v { Some(x) => Some(zigzag_encode32(x) as u64), None => None }) + rest =~= rest);
                assert((DiscModel { number: acc.number, ..acc }) == acc);
            },
            Some(x) => {
                let t = tag_bytes(1, WIRE_VARINT);
                let b = varint_bytes(zigzag_encode32(x) as u64);
                assert(opt_varint_field_bytes(1, match v { Some(x) => Some(zigzag_encode32(x) as u64), None => None }) + rest =~= t + (b + rest));
                lemma_tag_roundtrip(1, WIRE_VARINT, b + rest);
                lemma_varint_roundtrip(zigzag_encode32(x) as u64, rest);
                    lemma_varint_casts(0, 0, 0, false, x);
                    crate::wire::lemma_zigzag_roundtrip(x);
                Self::lemma_merge_step(acc, 1, WIRE_VARINT, t, b, rest, DiscModel { number: v, ..acc }, lim);
            },
        }
    }

    /// Merging the encoding of field `name` sets it, whatever follows.
    #[verifier::spinoff_prover]
    pub proof fn lemma_merge_name(acc: Self, v: Option<Seq<char>>, rest: Seq<u8>, lim: nat)
        requires
            (v matches Some(c) ==> fits_u32(encode_utf8(c))),
        ensures
            acc.merge(opt_length_delimited_field_bytes(2, match v { Some(c) => Some(encode_utf8(c)), None => None }) + rest, lim) == (DiscModel { name: if v is Some { v } else { acc.name }, ..acc }).merge(rest, lim),
    {
        match v {
            None => {
                assert(opt_length_delimited_field_bytes(2, match v { Some(c) => Some(encode_utf8(c)), None => None }) + rest =~= rest);
                assert((DiscModel { name: acc.name, ..acc }) == acc);
            },
            Some(x) => {
                let t = tag_bytes(2, WIRE_LENGTH_DELIMITED);
                let b = bytes_value_bytes(encode_utf8(x));
                assert(opt_length_delimited_field_bytes(2, match v { Some(c) => Some(encode_utf8(c)), None => None }) + rest =~= t + (b + rest));
                lemma_tag_roundtrip(2, WIRE_LENGTH_DELIMITED, b + rest);
                lemma_string_roundtrip(x, rest);
                Self::lemma_merge_step(acc, 2, WIRE_LENGTH_DELIMITED, t, b, rest, DiscModel { name: v, ..acc }, lim);
            },
        }
    }

    /// Merging the encoding of the elements of field `track` appends them, whatever follows.
    #[verifier::spinoff_prover]
    #[verifier::rlimit(100)]
    pub proof fn lemma_merge_track(acc: Self, v: Seq<TrackModel>, rest: Seq<u8>, lim: nat)
        requires
            TrackModel::writable_list(v),
        ensures
            acc.merge(TrackModel::list_bytes(3, v) + rest, lim) == (DiscModel { track: acc.track + v, ..acc }).merge(rest, lim),
        decreases v, 0int,
    {
        TrackModel::lemma_list_bytes(3, v);
        TrackModel::lemma_writable_list(v);
        reveal_with_fuel(TrackModel::merge, 1);
        let w = TrackModel::encodings(v);
        if v.len() == 0 {
            assert(length_delimited_list_bytes(3, w) + rest =~= rest);
            assert(acc.track + v =~= acc.track);
            assert((DiscModel { track: acc.track + v, ..acc }) == acc);
        } else {
            lemma_length_delimited_list_cons(3, w);
            assert(v[0].wf() && fits_u32(v[0].to_bytes()));
            let t = tag_bytes(3, WIRE_LENGTH_DELIMITED);
            let b = bytes_value_bytes(w[0]);
            let tail = length_delimited_list_bytes(3, w.subrange(1, w.len() as int));
            assert(length_delimited_list_bytes(3, w) + rest =~= t + (b + (tail + rest)));
            lemma_tag_roundtrip(3, WIRE_LENGTH_DELIMITED, b + (tail + rest));
            lemma_message_window(v[0].to_bytes(), tail + rest);
            lemma_embedded_window(v[0].to_bytes(), tail + rest, lim);
            v[0].lemma_roundtrip(0);
            lemma_varint_parse_len(b + (tail + rest));
            let acc1 = DiscModel { track: acc.track.push(v[0]), ..acc };
            Self::lemma_merge_step(acc, 3, WIRE_LENGTH_DELIMITED, t, b, tail + rest, acc1, lim);
            assert(w.subrange(1, w.len() as int) =~= TrackModel::encodings(v.subrange(1, v.len() as int)));
            assert forall|j: int| 0 <= j < v.len() - 1 implies #[trigger] v.subrange(1, v.len() as int)[j].wf() && fits_u32(v.subrange(1, v.len() as int)[j].to_bytes()) by {
                assert(v.subrange(1, v.len() as int)[j] == v[j + 1]);
            }
            Self::lemma_merge_track(acc1, v.subrange(1, v.len() as int), rest, lim);
            TrackModel::lemma_list_bytes(3, v.subrange(1, v.len() as int));
            assert(acc1.track + v.subrange(1, v.len() as int) =~= acc.track + v);
        }
    }

    /// Merging the encoding of fields of unknown numbers keeps them, whatever follows.
    #[verifier::spinoff_prover]
    #[verifier::rlimit(50)]
    pub proof fn lemma_merge_unknown_fields(acc: Self, v: Seq<UnknownFieldModel>, rest: Seq<u8>, lim: nat)
        requires
            forall|i: int| 0 <= i < v.len() ==> unknown_field_wf(#[trigger] v[i]) && !Self::is_known_field(v[i].number),
            unknown_grouped(acc.unknown_fields + v),
        ensures
            acc.merge(unknown_list_bytes(v) + rest, lim) == (DiscModel { unknown_fields: acc.unknown_fields + v, ..acc }).merge(rest, lim),
        decreases v.len(),
    {
        if v.len() == 0 {
            assert(unknown_list_bytes(v) + rest =~= rest);
            assert(acc.unknown_fields + v =~= acc.unknown_fields);
            assert((DiscModel { unknown_fields: acc.unknown_fields + v, ..acc }) == acc);
        } else {
            lemma_unknown_list_cons(v);
            let u = v[0];
            let wt = crate::wire::unknown_wire_type(u.value);
            let t = tag_bytes(u.number, wt);
            let b = crate::wire::unknown_value_bytes(u.value);
            let tail = unknown_list_bytes(v.subrange(1, v.len() as int));
            assert(unknown_list_bytes(v) + rest =~= t + (b + (tail + rest)));
            assert(unknown_field_bytes(u) + (tail + rest) =~= t + (b + (tail + rest)));
            lemma_unknown_roundtrip(u, tail + rest);
            assert((t + (b + (tail + rest))).skip(t.len() as int) =~= b + (tail + rest));
            crate::wire::lemma_tag_roundtrip(u.number, wt, b + (tail + rest));
            let acc1 = DiscModel { unknown_fields: acc.unknown_fields.push(u), ..acc };
            assert(acc.unknown_fields.push(u) =~= (acc.unknown_fields + v).take(acc.unknown_fields.len() + 1int));
            lemma_grouped_take(acc.unknown_fields + v, acc.unknown_fields.len() + 1int);
            lemma_grouped_insert_last(acc.unknown_fields, u);
            Self::lemma_merge_step(acc, u.number, wt, t, b, tail + rest, acc1, lim);
            assert(acc1.unknown_fields + v.subrange(1, v.len() as int) =~= acc.unknown_fields + v);
            Self::lemma_merge_unknown_fields(acc1, v.subrange(1, v.len() as int), rest, lim);
        }
    }

    /// Reading back the encoding of a model that can be written gives the model,
    /// whatever the limit past its end.
    #[verifier::spinoff_prover]
    #[verifier::rlimit(100)]
    pub proof fn lemma_roundtrip(self, lim: nat)
        requires
            self.wf(),
        ensures
            DiscModel::empty().merge(self.to_bytes(), lim) == Some(self),
        decreases self, 1int,
    {
        reveal_with_fuel(DiscModel::to_bytes, 1);
        reveal_with_fuel(DiscModel::wf, 1);
        reveal_with_fuel(DiscModel::merge, 1);
        let a0 = DiscModel::empty();
        Self::lemma_merge_number(a0, self.number, self.encoded_from_name(), lim);
        let a1 = DiscModel { number: if self.number is Some { self.number } else { a0.number }, ..a0 };
        assert((self.name matches Some(c) ==> fits_u32(encode_utf8(c))));
        Self::lemma_merge_name(a1, self.name, self.encoded_from_track(), lim);
        let a2 = DiscModel { name: if self.name is Some { self.name } else { a1.name }, ..a1 };
        assert(TrackModel::writable_list(self.track));
        Self::lemma_merge_track(a2, self.track, self.encoded_from_unknown_fields(), lim);
        let a3 = DiscModel { track: a2.track + self.track, ..a2 };
        assert(a3.unknown_fields + self.unknown_fields =~= self.unknown_fields);
        Self::lemma_merge_unknown_fields(a3, self.unknown_fields, Seq::empty(), lim);
        assert(unknown_list_bytes(self.unknown_fields) + Seq::<u8>::empty() =~= unknown_list_bytes(self.unknown_fields));
        let last = DiscModel { unknown_fields: a3.unknown_fields + self.unknown_fields, ..a3 };
        assert(last.track =~= self.track);
        assert(last.unknown_fields =~= self.unknown_fields);
        assert(last == self);
    }
    /// A message whose only set field is `number` is written as field number 1 of the
    /// protocol's definition alone: the tag of that number with the wire type of the field,
    /// then the value.
    #[verifier::spinoff_prover]
    pub proof fn lemma_encoding_of_number(v: Option<i32>)
        ensures
            (DiscModel { number: v, ..DiscModel::empty() }).to_bytes() == opt_varint_field_bytes(1, match v { Some(x) => Some(zigzag_encode32(x) as u64), None => None }),
    {
        reveal_with_fuel(DiscModel::to_bytes, 6);
        let m = DiscModel { number: v, ..DiscModel::empty() };
        assert(m.to_bytes() =~= opt_varint_field_bytes(1, match v { Some(x) => Some(zigzag_encode32(x) as u64), None => None }));
    }

    /// A message whose only set field is `name` is written as field number 2 of the
    /// protocol's definition alone: the tag of that number with the wire type of the field,
    /// then the value.
    #[verifier::spinoff_prover]
    pub proof fn lemma_encoding_of_name(v: Option<Seq<char>>)
        ensures
            (DiscModel { name: v, ..DiscModel::empty() }).to_bytes() == opt_length_delimited_field_bytes(2, match v { Some(c) => Some(encode_utf8(c)), None => None }),
    {
        reveal_with_fuel(DiscModel::to_bytes, 6);
        let m = DiscModel { name: v, ..DiscModel::empty() };
        assert(m.to_bytes() =~= opt_length_delimited_field_bytes(2, match v { Some(c) => Some(encode_utf8(c)), None => None }));
    }

    /// A message whose only set field is `track` is written as field number 3 of the
    /// protocol's definition alone: the tag of that number with the wire type of the field,
    /// then the value.
    #[verifier::spinoff_prover]
    pub proof fn lemma_encoding_of_track(v: Seq<TrackModel>)
        ensures
            (DiscModel { track: v, ..DiscModel::empty() }).to_bytes() == TrackModel::list_bytes(3, v),
    {
        reveal_with_fuel(DiscModel::to_bytes, 6);
        let m = DiscModel { track: v, ..DiscModel::empty() };
        assert(m.to_bytes() =~= TrackModel::list_bytes(3, v));
    }

}

#[allow(non_snake_case)]
impl Disc {
    /// The models of a list of messages.
    pub open spec fn seq_model(v: Seq<Disc>) -> Seq<DiscModel>
        decreases v, 0int,
    {
        if v.len() == 0 {
            Seq::empty()
        } else {
            Self::seq_model(v.subrange(0, v.len() - 1)).push(v[v.len() - 1].model())
        }
    }

    /// The list of models has an element for each message, its model.
    #[verifier::spinoff_prover]
    pub proof fn lemma_seq_model(v: Seq<Disc>)
        ensures
            Self::seq_model(v).len() == v.len(),
            forall|i: int| 0 <= i < v.len() ==> #[trigger] Self::seq_model(v)[i] == v[i]@,
        decreases v.len(),
    {
        if v.len() > 0 {
            Self::lemma_seq_model(v.subrange(0, v.len() - 1));
        }
    }

    /// Appending a message appends its model.
    #[verifier::spinoff_prover]
    pub proof fn lemma_seq_model_push(v: Seq<Disc>, x: Disc)
        ensures
            Self::seq_model(v.push(x)) == Self::seq_model(v).push(x@),
    {
        assert(v.push(x).subrange(0, v.len() as int) =~= v);
    }

    /// A message with no field set.
    #[verifier::spinoff_prover]
    pub fn new() -> (r: Self)
        ensures
            r@ == DiscModel::empty(),
            r@.wf(),
    {
        let r = Disc {
            number: None,
            name: None,
            track: Vec::new(),
            unknown_fields: Vec::new(),
        };
        assert(Track::seq_model(r.track@) =~= Seq::<TrackModel>::empty());
        assert(unknown_models(r.unknown_fields@) =~= Seq::<UnknownFieldModel>::empty());
        proof {
            DiscModel::lemma_empty_wf();
        }
        r
    }

    /// Unsets field `number`.
    #[verifier::spinoff_prover]
    pub fn clear_number(&mut self)
        ensures
            final(self)@ == (DiscModel { number: None, ..old(self)@ }),
    {
        self.number = None;
    }

    /// Whether field `number` is set.
    #[verifier::spinoff_prover]
    pub fn has_number(&self) -> (r: bool)
        ensures
            r == self@.number is Some,
    {
        self.number.is_some()
    }

    /// Sets field `number` to `v`.
    #[verifier::spinoff_prover]
    pub fn set_number(&mut self, v: i32)
        ensures
            final(self)@ == (DiscModel { number: Some(v), ..old(self)@ }),
    {
        self.number = Some(v);
    }

    /// Field `number`, or `0` when unset.
    #[verifier::spinoff_prover]
    pub fn get_number(&self) -> (r: i32)
        ensures
            r == (match self@.number { Some(x) => x, None => 0i32 }),
    {
        match self.number {
            Some(x) => x,
            None => 0i32,
        }
    }

    /// Unsets field `name`.
    #[verifier::spinoff_prover]
    pub fn clear_name(&mut self)
        ensures
            final(self)@ == (DiscModel { name: None, ..old(self)@ }),
    {
        self.name = None;
    }

    /// Whether field `name` is set.
    #[verifier::spinoff_prover]
    pub fn has_name(&self) -> (r: bool)
        ensures
            r == self@.name is Some,
    {
        self.name.is_some()
    }

    /// Sets field `name` to `v`.
    #[verifier::spinoff_prover]
    pub fn set_name(&mut self, v: String)
        ensures
            final(self)@ == (DiscModel { name: Some(v@), ..old(self)@ }),
    {
        self.name = Some(v);
    }

    /// Field `name`, to change in place; an unset field is first set to its default.
    #[verifier::spinoff_prover]
    pub fn mut_name(&mut self) -> (r: &mut String)
        ensures
            r@ == chars_or_empty(old(self)@.name),
            final(self)@ == (DiscModel { name: Some(final(r)@), ..old(self)@ }),

    {
        if self.name.is_none() {
            self.name = Some(String::new());
        }
        opt_as_mut(&mut self.name).unwrap()
    }

    /// Takes field `name` (its default when unset), leaving it unset.
    #[verifier::spinoff_prover]
    pub fn take_name(&mut self) -> (r: String)
        ensures
            r@ == chars_or_empty(old(self)@.name),
            final(self)@ == (DiscModel { name: None, ..old(self)@ }),
    {
        let mut t = None;
        std::mem::swap(&mut t, &mut self.name);
        match t {
            Some(v) => v,
            None => String::new(),
        }
    }

    /// Field `name`, or the empty string when unset.
    #[verifier::spinoff_prover]
    pub fn get_name(&self) -> (r: &str)
        ensures
            r@ == chars_or_empty(self@.name),
    {
        match &self.name {
            Some(v) => v.as_str(),
            None => {
                proof {
                    reveal_strlit("");
                }
                ""
            },
        }
    }

    /// Empties field `track`.
    #[verifier::spinoff_prover]
    pub fn clear_track(&mut self)
        ensures
            final(self)@ == (DiscModel { track: Seq::empty(), ..old(self)@ }),
    {
        self.track = Vec::new();
        assert(Track::seq_model(self.track@) =~= Seq::<TrackModel>::empty());
    }

    /// Sets field `track` to the elements of `v`.
    #[verifier::spinoff_prover]
    pub fn set_track(&mut self, v: Vec<Track>)
        ensures
            final(self)@ == (DiscModel { track: Track::seq_model(v@), ..old(self)@ }),
    {
        self.track = v;
    }

    /// The elements of field `track`, to change in place.
    #[verifier::spinoff_prover]
    pub fn mut_track(&mut self) -> (r: &mut Vec<Track>)
        ensures
            Track::seq_model(r@) == old(self)@.track,
            final(self)@ == (DiscModel { track: Track::seq_model(final(r)@), ..old(self)@ }),
    {
        field_mut(&mut self.track)
    }

    /// Takes the elements of field `track`, leaving it empty.
    #[verifier::spinoff_prover]
    pub fn take_track(&mut self) -> (r: Vec<Track>)
        ensures
            Track::seq_model(r@) == old(self)@.track,
            final(self)@ == (DiscModel { track: Seq::empty(), ..old(self)@ }),
    {
        let mut r = Vec::new();
        std::mem::swap(&mut r, &mut self.track);
        assert(Track::seq_model(self.track@) =~= Seq::<TrackModel>::empty());
        r
    }

    /// The elements of field `track`.
    #[verifier::spinoff_prover]
    pub fn get_track(&self) -> (r: &[Track])
        ensures
            Track::seq_model(r@) == self@.track,
    {
        self.track.as_slice()
    }

    /// Merges one field whose tag (number `f`, wire type `wt`) has been read
    /// from the bytes `s` that follow the tag; returns the number of bytes the
    /// value took.
    #[verifier::spinoff_prover]
    fn merge_field(&mut self, f: u32, wt: u32, s: &[u8], lim: u64) -> (r: Option<usize>)
        ensures
            match old(self)@.merge_field(f, wt, s@, lim as nat) {
                Some((m, k)) => r == Some(k as usize) && final(self)@ == m,
                None => r is None && final(self)@ == old(self)@.merge_field_failed(f, wt, s@, lim as nat),
            },
        decreases s@.len(), 1int,
    {

        proof {
            reveal_with_fuel(TrackModel::merge, 1);
        }
        if f == 1 {
            if wt != WIRE_VARINT {
                return None;
            }
            match pb_read_sint32(s) {
                Some((v, k)) => {
                    self.number = Some(v);
                    Some(k)
                },
                None => None,
            }
        } else if f == 2 {
            if wt != WIRE_LENGTH_DELIMITED {
                return None;
            }
            match read_string(s) {
                Some((v, k)) => {
                    self.name = Some(v);
                    Some(k)
                },
                None => {
                    self.name = Some(String::new());
                    None
                },
            }
        } else if f == 3 {
            if wt != WIRE_LENGTH_DELIMITED {
                return None;
            }
            match read_embedded_window(s, lim) {
                Some((a, b, past)) => {
                    if a == 0 || a > b || b > s.len() {
                        let x = Track::new();
                        let ghost old_v = self.track@;
                        field_mut(&mut self.track).push(x);
                        proof {
                            assert(self.track@ =~= old_v.push(self.track@.last()));
                            Track::lemma_seq_model_push(old_v, self.track@.last());
                        }
                        return None;
                    }
                    let sub = &s[a..b];
                    let mut x = Track::new();
                    let ok = x.merge_from_slice(sub, past);
                    let ghost old_v = self.track@;
                    field_mut(&mut self.track).push(x);
                    proof {
                        assert(self.track@ =~= old_v.push(self.track@.last()));
                        Track::lemma_seq_model_push(old_v, self.track@.last());
                    }
                    if ok {
                        Some(b)
                    } else {
                        None
                    }
                },
                None => {
                    let x = Track::new();
                    let ghost old_v = self.track@;
                    field_mut(&mut self.track).push(x);
                    proof {
                        assert(self.track@ =~= old_v.push(self.track@.last()));
                        Track::lemma_seq_model_push(old_v, self.track@.last());
                    }
                    None
                },
            }
        } else {
            match read_unknown(f, wt, s) {
                Some((Some(u), k)) => {
                    insert_unknown(field_mut(&mut self.unknown_fields), u);
                    Some(k)
                },
                Some((None, k)) => Some(k),
                None => None,
            }
        }
    }

    /// Merges all the fields that `s` holds, in order; `false` when the bytes
    /// are not a valid encoding (the message then holds what was merged so far).
    #[verifier::spinoff_prover]
    #[verifier::rlimit(100)]
    fn merge_from_slice(&mut self, s: &[u8], lim: u64) -> (ok: bool)
        ensures
            match old(self)@.merge(s@, lim as nat) {
                Some(m) => ok && final(self)@ == m,
                None => !ok && final(self)@ == old(self)@.merge_partial(s@, lim as nat),
            },
        decreases s@.len(), 2int,
    {
        proof {
            reveal_with_fuel(DiscModel::merge, 1);
            reveal_with_fuel(DiscModel::merge_partial, 1);
        }
        let mut pos: usize = 0;
        assert(s@.skip(0) =~= s@);
        while pos < s.len()
            invariant
                pos <= s.len(),
                old(self)@.merge(s@, lim as nat) == self@.merge(s@.skip(pos as int), lim as nat),
                old(self)@.merge_partial(s@, lim as nat) == self@.merge_partial(s@.skip(pos as int), lim as nat),
            decreases s.len() - pos,
        {
            let rest = &s[pos..s.len()];
            assert(rest@ == s@.skip(pos as int));
            proof {
                reveal_with_fuel(DiscModel::merge, 1);
                reveal_with_fuel(DiscModel::merge_partial, 1);
                lemma_tag_parse_len(rest@);
            }
            match pb_read_tag_unpack(rest) {
                None => {
                    return false;
                },
                Some((f, wt, n)) => {
                    if n == 0 || n > rest.len() {
                        return false;
                    }
                    let rest2 = &rest[n..rest.len()];
                    assert(rest2@ == rest@.skip(n as int));
                    proof {
                        self@.lemma_merge_field_len(f, wt, rest2@, lim as nat);
                    }
                    match self.merge_field(f, wt, rest2, lim) {
                        None => {
                            return false;
                        },
                        Some(k) => {
                            if k > rest2.len() {
                                return false;
                            }
                            assert(rest@.skip((n + k) as int) =~= s@.skip((pos + n + k) as int));
                            pos = pos + n + k;
                        },
                    }
                },
            }
        }
        assert(s@.skip(pos as int) =~= Seq::<u8>::empty());
        proof {
            reveal_with_fuel(DiscModel::merge, 1);
        }
        true
    }

    /// The message that `s` encodes, if it is a valid encoding.
    #[verifier::spinoff_prover]
    fn parse_slice(s: &[u8], lim: u64) -> (r: Option<Self>)
        ensures
            match DiscModel::empty().merge(s@, lim as nat) {
                Some(m) => r matches Some(x) && x@ == m,
                None => r is None,
            },
        decreases s@.len(), 3int,
    {
        let mut m = Disc::new();
        if m.merge_from_slice(s, lim) {
            Some(m)
        } else {
            None
        }
    }

    /// Merges the fields that `bytes` encodes into this message, in order: a set
    /// field is replaced, a repeated field grows. On an invalid encoding the
    /// error comes back, the fields merged before the first field that could not
    /// be read stay merged, and that field is left as `merge_field_failed` says.
    #[verifier::spinoff_prover]
    pub fn merge_from_bytes(&mut self, bytes: &[u8]) -> (r: Result<(), DecodeError>)
        ensures
            match old(self)@.merge(bytes@, top_limit(bytes@.len())) {
                Some(m) => r is Ok && final(self)@ == m,
                None => r is Err && final(self)@ == old(self)@.merge_partial(bytes@, top_limit(bytes@.len())),
            },
    {
        let lim: u64 = u64::MAX - bytes.len() as u64;
        if self.merge_from_slice(bytes, lim) {
            Ok(())
        } else {
            Err(DecodeError)
        }
    }

    /// Parses a message from its encoding.
    #[verifier::spinoff_prover]
    pub fn parse_from_bytes(bytes: &[u8]) -> (r: Result<Self, DecodeError>)
        ensures
            match DiscModel::empty().merge(bytes@, top_limit(bytes@.len())) {
                Some(m) => r matches Ok(x) && x@ == m,
                None => r is Err,
            },
    {
        let lim: u64 = u64::MAX - bytes.len() as u64;
        match Self::parse_slice(bytes, lim) {
            Some(m) => Ok(m),
            None => Err(DecodeError),
        }
    }

    /// Appends the encoding of field `number` to `out`.
    #[verifier::spinoff_prover]
    fn write_field_number(&self, out: &mut Vec<u8>)
        requires
            self@.wf(),
        ensures
            final(out)@ == old(out)@ + opt_varint_field_bytes(1, match self@.number { Some(x) => Some(zigzag_encode32(x) as u64), None => None }),
            final(out)@ + self@.encoded_from_name() == old(out)@ + self@.encoded_from_number(),
    {
        proof {
            reveal_with_fuel(DiscModel::wf, 1);
        }
        let ghost o = out@;
        let ghost m = self@;
        match self.number {
            Some(x) => {
                pb_write_tag(out, 1, WIRE_VARINT);
                pb_write_sint32_no_tag(out, x);
                proof {
                    lemma_concat_assoc(o, tag_bytes(1, WIRE_VARINT), varint_bytes(zigzag_encode32(x) as u64));
                }
            },
            None => {
                assert(o + Seq::<u8>::empty() =~= o);
            },
        }
        proof {
            lemma_concat_assoc(o, opt_varint_field_bytes(1, match m.number { Some(x) => Some(zigzag_encode32(x) as u64), None => None }), m.encoded_from_name());
        }
    }

    /// Appends the encoding of field `name` to `out`.
    #[verifier::spinoff_prover]
    fn write_field_name(&self, out: &mut Vec<u8>)
        requires
            self@.wf(),
        ensures
            final(out)@ == old(out)@ + opt_length_delimited_field_bytes(2, match self@.name { Some(c) => Some(encode_utf8(c)), None => None }),
            final(out)@ + self@.encoded_from_track() == old(out)@ + self@.encoded_from_name(),
    {
        proof {
            reveal_with_fuel(DiscModel::wf, 1);
        }
        let ghost o = out@;
        let ghost m = self@;
        match &self.name {
            Some(v) => {
                pb_write_tag(out, 2, WIRE_LENGTH_DELIMITED);
                write_string_value(out, v.as_str());
                proof {
                    lemma_concat_assoc(o, tag_bytes(2, WIRE_LENGTH_DELIMITED), bytes_value_bytes(encode_utf8(v@)));
                }
            },
            None => {
                assert(o + Seq::<u8>::empty() =~= o);
            },
        }
        proof {
            lemma_concat_assoc(o, opt_length_delimited_field_bytes(2, match m.name { Some(c) => Some(encode_utf8(c)), None => None }), m.encoded_from_track());
        }
    }

    /// Appends the encoding of field `track` to `out`.
    #[verifier::spinoff_prover]
    fn write_field_track(&self, out: &mut Vec<u8>)
        requires
            self@.wf(),
        ensures
            final(out)@ == old(out)@ + TrackModel::list_bytes(3, self@.track),
            final(out)@ + self@.encoded_from_unknown_fields() == old(out)@ + self@.encoded_from_track(),
        decreases self, 1int,
    {
        proof {
            reveal_with_fuel(DiscModel::wf, 1);
        }
        let ghost o = out@;
        let ghost m = self@;
        proof {
            Track::lemma_seq_model(self.track@);
        }
        let ghost w = TrackModel::encodings(m.track);
        assert(w.subrange(0, w.len() as int) =~= w);
        assert(o + Seq::<u8>::empty() =~= o);
        let mut i: usize = 0;
        while i < self.track.len()
            invariant
                i <= self.track.len(),
                self@ == m,
                m.wf(),
                w.len() == self.track@.len(),
                w == TrackModel::encodings(m.track),
                o + length_delimited_list_bytes(3, w) == out@ + length_delimited_list_bytes(3, w.subrange(i as int, w.len() as int)),
            decreases self.track.len() - i,
        {
            proof {
                reveal_with_fuel(DiscModel::wf, 1);
                Track::lemma_seq_model(self.track@);
                TrackModel::lemma_writable_list(m.track);
                lemma_length_delimited_list_cons(3, w.subrange(i as int, w.len() as int));
                assert(m.track[i as int] == self.track@[i as int]@);
                assert(m.track[i as int].wf());
                assert(w.subrange(i as int, w.len() as int)[0] == w[i as int]);
                assert(w.subrange(i as int, w.len() as int).subrange(1, w.len() - i) =~= w.subrange(i + 1, w.len() as int));
            }
            let ghost before = out@;
            let mut tmp: Vec<u8> = Vec::new();
            self.track[i].write_to(&mut tmp);
            assert(tmp@ =~= w[i as int]);
            pb_write_tag(out, 3, WIRE_LENGTH_DELIMITED);
            write_bytes_value(out, tmp.as_slice());
            proof {
                lemma_write_list_step(before, tag_bytes(3, WIRE_LENGTH_DELIMITED), bytes_value_bytes(w[i as int]), length_delimited_list_bytes(3, w.subrange(i + 1, w.len() as int)), Seq::<u8>::empty());
                assert(length_delimited_list_bytes(3, w.subrange(i + 1, w.len() as int)) + Seq::<u8>::empty() =~= length_delimited_list_bytes(3, w.subrange(i + 1, w.len() as int)));
                assert(tag_bytes(3, WIRE_LENGTH_DELIMITED) + (bytes_value_bytes(w[i as int]) + length_delimited_list_bytes(3, w.subrange(i + 1, w.len() as int))) + Seq::<u8>::empty() =~= tag_bytes(3, WIRE_LENGTH_DELIMITED) + (bytes_value_bytes(w[i as int]) + length_delimited_list_bytes(3, w.subrange(i + 1, w.len() as int))));
            }
            i = i + 1;
        }
        assert(w.subrange(i as int, w.len() as int) =~= Seq::<Seq<u8>>::empty());
        assert(out@ + Seq::<u8>::empty() =~= out@);
        proof {
            TrackModel::lemma_list_bytes(3, m.track);
            lemma_concat_assoc(o, TrackModel::list_bytes(3, m.track), m.encoded_from_unknown_fields());
        }
    }

    /// Appends the fields of unknown numbers to `out`.
    #[verifier::spinoff_prover]
    fn write_unknown_fields(&self, out: &mut Vec<u8>)
        requires
            self@.wf(),
        ensures
            final(out)@ == old(out)@ + unknown_list_bytes(self@.unknown_fields),
    {
        proof {
            reveal_with_fuel(DiscModel::wf, 1);
        }
        let ghost o = out@;
        let ghost m = self@;
        let mut j: usize = 0;
        assert(m.unknown_fields.subrange(0, m.unknown_fields.len() as int) =~= m.unknown_fields);
        assert(o + Seq::<u8>::empty() =~= o);
        while j < self.unknown_fields.len()
            invariant
                j <= self.unknown_fields.len(),
                self@ == m,
                m.wf(),
                o + unknown_list_bytes(m.unknown_fields) == out@ + unknown_list_bytes(m.unknown_fields.subrange(j as int, m.unknown_fields.len() as int)),
            decreases self.unknown_fields.len() - j,
        {
            proof {
                reveal_with_fuel(DiscModel::wf, 1);
                lemma_unknown_list_cons(m.unknown_fields.subrange(j as int, m.unknown_fields.len() as int));
                assert(m.unknown_fields[j as int] == self.unknown_fields@[j as int]@);
                assert(m.unknown_fields.subrange(j as int, m.unknown_fields.len() as int)[0] == m.unknown_fields[j as int]);
                assert(m.unknown_fields.subrange(j as int, m.unknown_fields.len() as int).subrange(1, m.unknown_fields.len() - j) =~= m.unknown_fields.subrange(j + 1, m.unknown_fields.len() as int));
            }
            let ghost before = out@;
            write_unknown(out, &self.unknown_fields[j]);
            proof {
                lemma_concat_assoc(before, unknown_field_bytes(m.unknown_fields[j as int]), unknown_list_bytes(m.unknown_fields.subrange(j + 1, m.unknown_fields.len() as int)));
            }
            j = j + 1;
        }
        assert(m.unknown_fields.subrange(j as int, m.unknown_fields.len() as int) =~= Seq::<UnknownFieldModel>::empty());
        assert(out@ =~= o + unknown_list_bytes(m.unknown_fields));
    }

    /// Appends the encoding of the message to `out`.
    #[verifier::spinoff_prover]
    fn write_to(&self, out: &mut Vec<u8>)
        requires
            self@.wf(),
        ensures
            final(out)@ == old(out)@ + self@.to_bytes(),
        decreases self, 2int,
    {
        proof {
            reveal_with_fuel(DiscModel::to_bytes, 1);
        }
        let ghost o = out@;
        let ghost m = self@;
        assert(o + m.to_bytes() == out@ + m.encoded_from_number());
        self.write_field_number(out);
        self.write_field_name(out);
        self.write_field_track(out);
        self.write_unknown_fields(out);
    }

    /// The encoding of the message.
    #[verifier::spinoff_prover]
    pub fn write_to_bytes(&self) -> (r: Vec<u8>)
        requires
            self@.wf(),
        ensures
            r@ == self@.to_bytes(),
    {
        let mut out: Vec<u8> = Vec::new();
        self.write_to(&mut out);
        assert(out@ =~= self@.to_bytes());
        out
    }

    /// The length of the encoding of the message.
    #[verifier::spinoff_prover]
    pub fn compute_size(&self) -> (r: u32)
        requires
            self@.wf(),
            self@.to_bytes().len() <= u32::MAX,
        ensures
            r == self@.to_bytes().len(),
    {
        let v = self.write_to_bytes();
        v.len() as u32
    }
    /// A copy of the message.
    #[verifier::spinoff_prover]
    pub fn clone_message(&self) -> (r: Self)
        ensures
            r@ == self@,
        decreases self,
    {
        let number = self.number;
        let name = clone_opt_string(&self.name);
        let mut track: Vec<Track> = Vec::new();
        let mut i: usize = 0;
        while i < self.track.len()
            invariant
                i <= self.track@.len(),
                track@.len() == i,
                forall|j: int| 0 <= j < i ==> #[trigger] track@[j]@ == self.track@[j]@,
            decreases self.track@.len() - i,
        {
            track.push(self.track[i].clone_message());
            i = i + 1;
        }
        proof {
            Track::lemma_seq_model(track@);
            Track::lemma_seq_model(self.track@);
        }
        assert(Track::seq_model(track@) =~= Track::seq_model(self.track@));
        let unknown_fields = clone_unknown_fields(&self.unknown_fields);
        Disc { number, name, track, unknown_fields }
    }

}

impl Clone for Disc {
    #[verifier::spinoff_prover]
    fn clone(&self) -> (r: Self)
        ensures
            r@ == self@,
    {
        self.clone_message()
    }
}

impl Default for Disc {
    #[verifier::spinoff_prover]
    fn default() -> (r: Self)
        ensures
            r@ == DiscModel::empty(),
    {
        Disc::new()
    }
}

/// The `Copyright` message.
#[allow(non_snake_case)]
#[derive(Debug, PartialEq)]
pub struct Copyright {
    typ: Option<Copyright_Type>,
    text: Option<String>,
    unknown_fields: Vec<UnknownField>,
}

/// The model of a `Copyright`: each field's value, `None` or empty when unset,
/// and the fields of unknown numbers, in the order they were read.
#[allow(non_snake_case)]
pub struct CopyrightModel {
    pub typ: Option<Copyright_Type>,
    pub text: Option<Seq<char>>,
    pub unknown_fields: Seq<UnknownFieldModel>,
}

impl View for Copyright {
    type V = CopyrightModel;

    closed spec fn view(&self) -> CopyrightModel {
        CopyrightModel {
            typ: self.typ,
            text: opt_view(self.text),
            unknown_fields: unknown_models(self.unknown_fields@),
        }
    }
}

#[allow(non_snake_case)]
impl CopyrightModel {
    /// The model of a message with no field set.
    pub open spec fn empty() -> Self {
        CopyrightModel {
            typ: None,
            text: None,
            unknown_fields: Seq::empty(),
        }
    }

    /// The encodings of a list of messages.
    pub open spec fn encodings(v: Seq<CopyrightModel>) -> Seq<Seq<u8>> {
        v.map_values(|m: CopyrightModel| m.to_bytes())
    }

    /// Every message of a list can be written, and its encoding fits a 32-bit length.
    pub open spec fn all_writable(v: Seq<CopyrightModel>) -> bool {
        forall|i: int| 0 <= i < v.len() ==> #[trigger] v[i].wf() && fits_u32(v[i].to_bytes())
    }

    /// The field numbers that this message knows.
    pub open spec fn is_known_field(f: u32) -> bool {
        f == 1 || f == 2
    }

    /// Merging one field whose tag (number `f`, wire type `wt`) has been read;
    /// `s` holds the bytes after the tag. The result is the merged model and
    /// the number of bytes the value took; a set field is replaced, a repeated
    /// field grows, a field of unknown number is kept or, if a group, skipped.
    pub open spec fn merge_field(self, f: u32, wt: u32, s: Seq<u8>, lim: nat) -> Option<(Self, nat)> {
        if f == 1 {
            if wt != WIRE_VARINT {
                None
            } else {
                match varint_parse(s) {
                    Some((v, k)) => match Copyright_Type::spec_from_i32(varint_int32(v)) {
                        Some(e) => Some((CopyrightModel { typ: Some(e), ..self }, k)),
                        None => None,
                    },
                    None => None,
                }
            }
        } else if f == 2 {
            if wt != WIRE_LENGTH_DELIMITED {
                None
            } else {
                match string_parse(s) {
                    Some((c, k)) => Some((CopyrightModel { text: Some(c), ..self }, k)),
                    None => None,
                }
            }
        } else {
            match unknown_parse(f, wt, s) {
                Some((Some(u), k)) => Some((CopyrightModel { unknown_fields: grouped_insert(self.unknown_fields, u), ..self }, k)),
                Some((None, k)) => Some((self, k)),
                None => None,
            }
        }
    }

    /// What is left of the model when merging one field (number `f`, wire type
    /// `wt`, value at the front of `s`) fails: a string, bytes or message field
    /// of the right wire type is first set to its empty value (a repeated one
    /// gets an empty element) and an embedded message keeps the fields merged
    /// into it before the failure; packed values read before the failure stay.
    pub open spec fn merge_field_failed(self, f: u32, wt: u32, s: Seq<u8>, lim: nat) -> Self {
        if f == 2 {
            if wt != WIRE_LENGTH_DELIMITED {
                self
            } else {
                CopyrightModel { text: Some(Seq::<char>::empty()), ..self }
            }
        } else {
            self
        }
    }

    /// The value of a merged field takes no more than the bytes after its tag.
    pub proof fn lemma_merge_field_len(self, f: u32, wt: u32, s: Seq<u8>, lim: nat)
        ensures
            self.merge_field(f, wt, s, lim) matches Some((_m, k)) ==> k <= s.len(),
    {
        lemma_varint_parse_len(s);
        crate::wire::lemma_unknown_parse_len(f, wt, s);
    }

    /// Merging all the fields that `s` holds, in order, where the length of an
    /// embedded message may reach `lim` bytes past the end of `s` (such a message
    /// is read up to the end of `s`).
    #[verifier::opaque]
    pub open spec fn merge(self, s: Seq<u8>, lim: nat) -> Option<Self>
        decreases s.len(),
    {
        if s.len() == 0 {
            Some(self)
        } else {
            match tag_parse(s) {
                Some((f, wt, n)) => if 0 < n <= s.len() {
                    match self.merge_field(f, wt, s.skip(n as int), lim) {
                        Some((m, k)) => if n + k <= s.len() {
                            m.merge(s.skip((n + k) as int), lim)
                        } else {
                            None
                        },
                        None => None,
                    }
                } else {
                    None
                },
                None => None,
            }
        }
    }

    /// What merging `s` leaves: the fields merged in order up to the first one
    /// whose tag or value cannot be read, then what `merge_field_failed` leaves of
    /// that one; all of `s` where it is a valid encoding.
    #[verifier::opaque]
    pub open spec fn merge_partial(self, s: Seq<u8>, lim: nat) -> Self
        decreases s.len(),
    {
        if s.len() == 0 {
            self
        } else {
            match tag_parse(s) {
                Some((f, wt, n)) => if 0 < n <= s.len() {
                    match self.merge_field(f, wt, s.skip(n as int), lim) {
                        Some((m, k)) => if n + k <= s.len() {
                            m.merge_partial(s.skip((n + k) as int), lim)
                        } else {
                            m
                        },
                        None => self.merge_field_failed(f, wt, s.skip(n as int), lim),
                    }
                } else {
                    self
                },
                None => self,
            }
        }
    }

    /// The encoding of field `typ` and of every field written after it.
    pub open spec fn encoded_from_typ(self) -> Seq<u8> {
        opt_varint_field_bytes(1, match self.typ { Some(x) => Some(int32_varint(x.spec_value())), None => None }) + self.encoded_from_text()
    }

    /// The encoding of field `text` and of every field written after it.
    pub open spec fn encoded_from_text(self) -> Seq<u8> {
        opt_length_delimited_field_bytes(2, match self.text { Some(c) => Some(encode_utf8(c)), None => None }) + self.encoded_from_unknown_fields()
    }

    /// The encoding of the fields of unknown numbers, written last.
    pub open spec fn encoded_from_unknown_fields(self) -> Seq<u8> {
        unknown_list_bytes(self.unknown_fields)
    }

    /// The encoding of the message: its set fields in order of declaration,
    /// each element of a repeated field in order, then the unknown fields.
    #[verifier::opaque]
    pub open spec fn to_bytes(self) -> Seq<u8> {
        self.encoded_from_typ()
    }

    /// A model that can be written and read back: every length fits the
    /// 32-bit length prefix, nested messages can be written, and the unknown
    /// fields have valid numbers that this message does not know.
    #[verifier::opaque]
    pub open spec fn wf(self) -> bool {
        &&& (self.text matches Some(c) ==> fits_u32(encode_utf8(c)))
        &&& (forall|i: int| 0 <= i < self.unknown_fields.len() ==> unknown_field_wf(#[trigger] self.unknown_fields[i]) && !Self::is_known_field(self.unknown_fields[i].number))
        &&& unknown_grouped(self.unknown_fields)
    }

    /// The message with no field set can be written and read back.
    pub proof fn lemma_empty_wf()
        ensures
            Self::empty().wf(),
    {
        reveal_with_fuel(CopyrightModel::wf, 1);
        lemma_grouped_empty();
    }

    /// Merging a field's tag and value, whatever follows them.
    pub proof fn lemma_merge_step(acc: Self, f: u32, wt: u32, t: Seq<u8>, b: Seq<u8>, rest: Seq<u8>, acc2: Self, lim: nat)
        requires
            tag_parse(t + (b + rest)) == Some((f, wt, t.len())),
            t.len() > 0,
            acc.merge_field(f, wt, b + rest, lim) == Some((acc2, b.len())),
        ensures
            acc.merge(t + (b + rest), lim) == acc2.merge(rest, lim),
    {
        reveal_with_fuel(CopyrightModel::merge, 1);
        lemma_skip_chunk(t, b, rest);
    }

    /// Merging the encoding of field `typ` sets it, whatever follows.
    pub proof fn lemma_merge_typ(acc: Self, v: Option<Copyright_Type>, rest: Seq<u8>, lim: nat)
        ensures
            acc.merge(opt_varint_field_bytes(1, match v { Some(x) => Some(int32_varint(x.spec_value())), None => None }) + rest, lim) == (CopyrightModel { typ: if v is Some { v } else { acc.typ }, ..acc }).merge(rest, lim),
    {
        match v {
            None => {
                assert(opt_varint_field_bytes(1, match v { Some(x) => Some(int32_varint(x.spec_value())), None => None }) + rest =~= rest);
                assert((CopyrightModel { typ: acc.typ, ..acc }) == acc);
            },
            Some(x) => {
                let t = tag_bytes(1, WIRE_VARINT);
                let b = varint_bytes(int32_varint(x.spec_value()));
                assert(opt_varint_field_bytes(1, match v { Some(x) => Some(int32_varint(x.spec_value())), None => None }) + rest =~= t + (b + rest));
                lemma_tag_roundtrip(1, WIRE_VARINT, b + rest);
                lemma_varint_roundtrip(int32_varint(x.spec_value()), rest);
                    lemma_varint_casts(x.spec_value(), 0, 0, false, 0);
                    x.lemma_value_roundtrip();
                Self::lemma_merge_step(acc, 1, WIRE_VARINT, t, b, rest, CopyrightModel { typ: v, ..acc }, lim);
            },
        }
    }

    /// Merging the encoding of field `text` sets it, whatever follows.
    pub proof fn lemma_merge_text(acc: Self, v: Option<Seq<char>>, rest: Seq<u8>, lim: nat)
        requires
            (v matches Some(c) ==> fits_u32(encode_utf8(c))),
        ensures
            acc.merge(opt_length_delimited_field_bytes(2, match v { Some(c) => Some(encode_utf8(c)), None => None }) + rest, lim) == (CopyrightModel { text: if v is Some { v } else { acc.text }, ..acc }).merge(rest, lim),
    {
        match v {
            None => {
                assert(opt_length_delimited_field_bytes(2, match v { Some(c) => Some(encode_utf8(c)), None => None }) + rest =~= rest);
                assert((CopyrightModel { text: acc.text, ..acc }) == acc);
            },
            Some(x) => {
                let t = tag_bytes(2, WIRE_LENGTH_DELIMITED);
                let b = bytes_value_bytes(encode_utf8(x));
                assert(opt_length_delimited_field_bytes(2, match v { Some(c) => Some(encode_utf8(c)), None => None }) + rest =~= t + (b + rest));
                lemma_tag_roundtrip(2, WIRE_LENGTH_DELIMITED, b + rest);
                lemma_string_roundtrip(x, rest);
                Self::lemma_merge_step(acc, 2, WIRE_LENGTH_DELIMITED, t, b, rest, CopyrightModel { text: v, ..acc }, lim);
            },
        }
    }

    /// Merging the encoding of fields of unknown numbers keeps them, whatever follows.
    #[verifier::rlimit(50)]
    pub proof fn lemma_merge_unknown_fields(acc: Self, v: Seq<UnknownFieldModel>, rest: Seq<u8>, lim: nat)
        requires
            forall|i: int| 0 <= i < v.len() ==> unknown_field_wf(#[trigger] v[i]) && !Self::is_known_field(v[i].number),
            unknown_grouped(acc.unknown_fields + v),
        ensures
            acc.merge(unknown_list_bytes(v) + rest, lim) == (CopyrightModel { unknown_fields: acc.unknown_fields + v, ..acc }).merge(rest, lim),
        decreases v.len(),
    {
        if v.len() == 0 {
            assert(unknown_list_bytes(v) + rest =~= rest);
            assert(acc.unknown_fields + v =~= acc.unknown_fields);
            assert((CopyrightModel { unknown_fields: acc.unknown_fields + v, ..acc }) == acc);
        } else {
            lemma_unknown_list_cons(v);
            let u = v[0];
            let wt = crate::wire::unknown_wire_type(u.value);
            let t = tag_bytes(u.number, wt);
            let b = crate::wire::unknown_value_bytes(u.value);
            let tail = unknown_list_bytes(v.subrange(1, v.len() as int));
            assert(unknown_list_bytes(v) + rest =~= t + (b + (tail + rest)));
            assert(unknown_field_bytes(u) + (tail + rest) =~= t + (b + (tail + rest)));
            lemma_unknown_roundtrip(u, tail + rest);
            assert((t + (b + (tail + rest))).skip(t.len() as int) =~= b + (tail + rest));
            crate::wire::lemma_tag_roundtrip(u.number, wt, b + (tail + rest));
            let acc1 = CopyrightModel { unknown_fields: acc.unknown_fields.push(u), ..acc };
            assert(acc.unknown_fields.push(u) =~= (acc.unknown_fields + v).take(acc.unknown_fields.len() + 1int));
            lemma_grouped_take(acc.unknown_fields + v, acc.unknown_fields.len() + 1int);
            lemma_grouped_insert_last(acc.unknown_fields, u);
            Self::lemma_merge_step(acc, u.number, wt, t, b, tail + rest, acc1, lim);
            assert(acc1.unknown_fields + v.subrange(1, v.len() as int) =~= acc.unknown_fields + v);
            Self::lemma_merge_unknown_fields(acc1, v.subrange(1, v.len() as int), rest, lim);
        }
    }

    /// Reading back the encoding of a model that can be written gives the model,
    /// whatever the limit past its end.
    #[verifier::spinoff_prover]
    #[verifier::rlimit(100)]
    pub proof fn lemma_roundtrip(self, lim: nat)
        requires
            self.wf(),
        ensures
            CopyrightModel::empty().merge(self.to_bytes(), lim) == Some(self),
    {
        reveal(CopyrightModel::to_bytes);
        reveal(CopyrightModel::wf);
        reveal_with_fuel(CopyrightModel::merge, 1);
        let a0 = CopyrightModel::empty();
        Self::lemma_merge_typ(a0, self.typ, self.encoded_from_text(), lim);
        let a1 = CopyrightModel { typ: if self.typ is Some { self.typ } else { a0.typ }, ..a0 };
        assert((self.text matches Some(c) ==> fits_u32(encode_utf8(c))));
        Self::lemma_merge_text(a1, self.text, self.encoded_from_unknown_fields(), lim);
        let a2 = CopyrightModel { text: if self.text is Some { self.text } else { a1.text }, ..a1 };
        assert(a2.unknown_fields + self.unknown_fields =~= self.unknown_fields);
        Self::lemma_merge_unknown_fields(a2, self.unknown_fields, Seq::empty(), lim);
        assert(unknown_list_bytes(self.unknown_fields) + Seq::<u8>::empty() =~= unknown_list_bytes(self.unknown_fields));
        let last = CopyrightModel { unknown_fields: a2.unknown_fields + self.unknown_fields, ..a2 };
        assert(last.unknown_fields =~= self.unknown_fields);
        assert(last == self);
    }
    /// A message whose only set field is `typ` is written as field number 1 of the
    /// protocol's definition alone: the tag of that number with the wire type of the field,
    /// then the value.
    pub proof fn lemma_encoding_of_typ(v: Option<Copyright_Type>)
        ensures
            (CopyrightModel { typ: v, ..CopyrightModel::empty() }).to_bytes() == opt_varint_field_bytes(1, match v { Some(x) => Some(int32_varint(x.spec_value())), None => None }),
    {
        reveal(CopyrightModel::to_bytes);
        let m = CopyrightModel { typ: v, ..CopyrightModel::empty() };
        assert(m.to_bytes() =~= opt_varint_field_bytes(1, match v { Some(x) => Some(int32_varint(x.spec_value())), None => None }));
    }

    /// A message whose only set field is `text` is written as field number 2 of the
    /// protocol's definition alone: the tag of that number with the wire type of the field,
    /// then the value.
    pub proof fn lemma_encoding_of_text(v: Option<Seq<char>>)
        ensures
            (CopyrightModel { text: v, ..CopyrightModel::empty() }).to_bytes() == opt_length_delimited_field_bytes(2, match v { Some(c) => Some(encode_utf8(c)), None => None }),
    {
        reveal(CopyrightModel::to_bytes);
        let m = CopyrightModel { text: v, ..CopyrightModel::empty() };
        assert(m.to_bytes() =~= opt_length_delimited_field_bytes(2, match v { Some(c) => Some(encode_utf8(c)), None => None }));
    }

}

#[allow(non_snake_case)]
impl Copyright {
    /// The models of a list of messages.
    pub open spec fn seq_model(v: Seq<Copyright>) -> Seq<CopyrightModel> {
        v.map_values(|m: Copyright| m@)
    }

    /// A message with no field set.
    pub fn new() -> (r: Self)
        ensures
            r@ == CopyrightModel::empty(),
            r@.wf(),
    {
        let r = Copyright {
            typ: None,
            text: None,
            unknown_fields: Vec::new(),
        };
        assert(unknown_models(r.unknown_fields@) =~= Seq::<UnknownFieldModel>::empty());
        proof {
            CopyrightModel::lemma_empty_wf();
        }
        r
    }

    /// Unsets field `typ`.
    pub fn clear_typ(&mut self)
        ensures
            final(self)@ == (CopyrightModel { typ: None, ..old(self)@ }),
    {
        self.typ = None;
    }

    /// Whether field `typ` is set.
    pub fn has_typ(&self) -> (r: bool)
        ensures
            r == self@.typ is Some,
    {
        self.typ.is_some()
    }

    /// Sets field `typ` to `v`.
    pub fn set_typ(&mut self, v: Copyright_Type)
        ensures
            final(self)@ == (CopyrightModel { typ: Some(v), ..old(self)@ }),
    {
        self.typ = Some(v);
    }

    /// Field `typ`, or `Copyright_Type::P` when unset.
    pub fn get_typ(&self) -> (r: Copyright_Type)
        ensures
            r == (match self@.typ { Some(x) => x, None => Copyright_Type::P }),
    {
        match self.typ {
            Some(x) => x,
            None => Copyright_Type::P,
        }
    }

    /// Unsets field `text`.
    pub fn clear_text(&mut self)
        ensures
            final(self)@ == (CopyrightModel { text: None, ..old(self)@ }),
    {
        self.text = None;
    }

    /// Whether field `text` is set.
    pub fn has_text(&self) -> (r: bool)
        ensures
            r == self@.text is Some,
    {
        self.text.is_some()
    }

    /// Sets field `text` to `v`.
    pub fn set_text(&mut self, v: String)
        ensures
            final(self)@ == (CopyrightModel { text: Some(v@), ..old(self)@ }),
    {
        self.text = Some(v);
    }

    /// Field `text`, to change in place; an unset field is first set to its default.
    pub fn mut_text(&mut self) -> (r: &mut String)
        ensures
            r@ == chars_or_empty(old(self)@.text),
            final(self)@ == (CopyrightModel { text: Some(final(r)@), ..old(self)@ }),

    {
        if self.text.is_none() {
            self.text = Some(String::new());
        }
        opt_as_mut(&mut self.text).unwrap()
    }

    /// Takes field `text` (its default when unset), leaving it unset.
    pub fn take_text(&mut self) -> (r: String)
        ensures
            r@ == chars_or_empty(old(self)@.text),
            final(self)@ == (CopyrightModel { text: None, ..old(self)@ }),
    {
        let mut t = None;
        std::mem::swap(&mut t, &mut self.text);
        match t {
            Some(v) => v,
            None => String::new(),
        }
    }

    /// Field `text`, or the empty string when unset.
    pub fn get_text(&self) -> (r: &str)
        ensures
            r@ == chars_or_empty(self@.text),
    {
        match &self.text {
            Some(v) => v.as_str(),
            None => {
                proof {
                    reveal_strlit("");
                }
                ""
            },
        }
    }

    /// Merges one field whose tag (number `f`, wire type `wt`) has been read
    /// from the bytes `s` that follow the tag; returns the number of bytes the
    /// value took.
    fn merge_field(&mut self, f: u32, wt: u32, s: &[u8], lim: u64) -> (r: Option<usize>)
        ensures
            match old(self)@.merge_field(f, wt, s@, lim as nat) {
                Some((m, k)) => r == Some(k as usize) && final(self)@ == m,
                None => r is None && final(self)@ == old(self)@.merge_field_failed(f, wt, s@, lim as nat),
            },
    {

        if f == 1 {
            if wt != WIRE_VARINT {
                return None;
            }
            proof {
                lemma_varint_parse_len(s@);
            }
            match pb_read_raw_varint64(s) {
                Some((v, k)) => match Copyright_Type::from_i32((v as u32) as i32) {
                    Some(e) => {
                        self.typ = Some(e);
                        Some(k)
                    },
                    None => None,
                },
                None => None,
            }
        } else if f == 2 {
            if wt != WIRE_LENGTH_DELIMITED {
                return None;
            }
            match read_string(s) {
                Some((v, k)) => {
                    self.text = Some(v);
                    Some(k)
                },
                None => {
                    self.text = Some(String::new());
                    None
                },
            }
        } else {
            match read_unknown(f, wt, s) {
                Some((Some(u), k)) => {
                    insert_unknown(field_mut(&mut self.unknown_fields), u);
                    Some(k)
                },
                Some((None, k)) => Some(k),
                None => None,
            }
        }
    }

    /// Merges all the fields that `s` holds, in order; `false` when the bytes
    /// are not a valid encoding (the message then holds what was merged so far).
    #[verifier::spinoff_prover]
    #[verifier::rlimit(50)]
    fn merge_from_slice(&mut self, s: &[u8], lim: u64) -> (ok: bool)
        ensures
            match old(self)@.merge(s@, lim as nat) {
                Some(m) => ok && final(self)@ == m,
                None => !ok && final(self)@ == old(self)@.merge_partial(s@, lim as nat),
            },
    {
        proof {
            reveal_with_fuel(CopyrightModel::merge, 1);
            reveal_with_fuel(CopyrightModel::merge_partial, 1);
        }
        let mut pos: usize = 0;
        assert(s@.skip(0) =~= s@);
        while pos < s.len()
            invariant
                pos <= s.len(),
                old(self)@.merge(s@, lim as nat) == self@.merge(s@.skip(pos as int), lim as nat),
                old(self)@.merge_partial(s@, lim as nat) == self@.merge_partial(s@.skip(pos as int), lim as nat),
            decreases s.len() - pos,
        {
            let rest = &s[pos..s.len()];
            assert(rest@ == s@.skip(pos as int));
            proof {
                reveal_with_fuel(CopyrightModel::merge, 1);
                reveal_with_fuel(CopyrightModel::merge_partial, 1);
                lemma_tag_parse_len(rest@);
            }
            match pb_read_tag_unpack(rest) {
                None => {
                    return false;
                },
                Some((f, wt, n)) => {
                    if n == 0 || n > rest.len() {
                        return false;
                    }
                    let rest2 = &rest[n..rest.len()];
                    assert(rest2@ == rest@.skip(n as int));
                    proof {
                        self@.lemma_merge_field_len(f, wt, rest2@, lim as nat);
                    }
                    match self.merge_field(f, wt, rest2, lim) {
                        None => {
                            return false;
                        },
                        Some(k) => {
                            if k > rest2.len() {
                                return false;
                            }
                            assert(rest@.skip((n + k) as int) =~= s@.skip((pos + n + k) as int));
                            pos = pos + n + k;
                        },
                    }
                },
            }
        }
        assert(s@.skip(pos as int) =~= Seq::<u8>::empty());
        proof {
            reveal_with_fuel(CopyrightModel::merge, 1);
        }
        true
    }

    /// The message that `s` encodes, if it is a valid encoding.
    fn parse_slice(s: &[u8], lim: u64) -> (r: Option<Self>)
        ensures
            match CopyrightModel::empty().merge(s@, lim as nat) {
                Some(m) => r matches Some(x) && x@ == m,
                None => r is None,
            },
    {
        let mut m = Copyright::new();
        if m.merge_from_slice(s, lim) {
            Some(m)
        } else {
            None
        }
    }

    /// Merges the fields that `bytes` encodes into this message, in order: a set
    /// field is replaced, a repeated field grows. On an invalid encoding the
    /// error comes back, the fields merged before the first field that could not
    /// be read stay merged, and that field is left as `merge_field_failed` says.
    pub fn merge_from_bytes(&mut self, bytes: &[u8]) -> (r: Result<(), DecodeError>)
        ensures
            match old(self)@.merge(bytes@, top_limit(bytes@.len())) {
                Some(m) => r is Ok && final(self)@ == m,
                None => r is Err && final(self)@ == old(self)@.merge_partial(bytes@, top_limit(bytes@.len())),
            },
    {
        let lim: u64 = u64::MAX - bytes.len() as u64;
        if self.merge_from_slice(bytes, lim) {
            Ok(())
        } else {
            Err(DecodeError)
        }
    }

    /// Parses a message from its encoding.
    pub fn parse_from_bytes(bytes: &[u8]) -> (r: Result<Self, DecodeError>)
        ensures
            match CopyrightModel::empty().merge(bytes@, top_limit(bytes@.len())) {
                Some(m) => r matches Ok(x) && x@ == m,
                None => r is Err,
            },
    {
        let lim: u64 = u64::MAX - bytes.len() as u64;
        match Self::parse_slice(bytes, lim) {
            Some(m) => Ok(m),
            None => Err(DecodeError),
        }
    }

    /// Appends the encoding of field `typ` to `out`.
    fn write_field_typ(&self, out: &mut Vec<u8>)
        requires
            self@.wf(),
        ensures
            final(out)@ == old(out)@ + opt_varint_field_bytes(1, match self@.typ { Some(x) => Some(int32_varint(x.spec_value())), None => None }),
            final(out)@ + self@.encoded_from_text() == old(out)@ + self@.encoded_from_typ(),
    {
        proof {
            reveal(CopyrightModel::wf);
        }
        let ghost o = out@;
        let ghost m = self@;
        match self.typ {
            Some(x) => {
                pb_write_tag(out, 1, WIRE_VARINT);
                pb_write_raw_varint64(out, x.value() as u64);
                proof {
                    lemma_concat_assoc(o, tag_bytes(1, WIRE_VARINT), varint_bytes(int32_varint(x.spec_value())));
                }
            },
            None => {
                assert(o + Seq::<u8>::empty() =~= o);
            },
        }
        proof {
            lemma_concat_assoc(o, opt_varint_field_bytes(1, match m.typ { Some(x) => Some(int32_varint(x.spec_value())), None => None }), m.encoded_from_text());
        }
    }

    /// Appends the encoding of field `text` to `out`.
    fn write_field_text(&self, out: &mut Vec<u8>)
        requires
            self@.wf(),
        ensures
            final(out)@ == old(out)@ + opt_length_delimited_field_bytes(2, match self@.text { Some(c) => Some(encode_utf8(c)), None => None }),
            final(out)@ + self@.encoded_from_unknown_fields() == old(out)@ + self@.encoded_from_text(),
    {
        proof {
            reveal(CopyrightModel::wf);
        }
        let ghost o = out@;
        let ghost m = self@;
        match &self.text {
            Some(v) => {
                pb_write_tag(out, 2, WIRE_LENGTH_DELIMITED);
                write_string_value(out, v.as_str());
                proof {
                    lemma_concat_assoc(o, tag_bytes(2, WIRE_LENGTH_DELIMITED), bytes_value_bytes(encode_utf8(v@)));
                }
            },
            None => {
                assert(o + Seq::<u8>::empty() =~= o);
            },
        }
        proof {
            lemma_concat_assoc(o, opt_length_delimited_field_bytes(2, match m.text { Some(c) => Some(encode_utf8(c)), None => None }), m.encoded_from_unknown_fields());
        }
    }

    /// Appends the fields of unknown numbers to `out`.
    fn write_unknown_fields(&self, out: &mut Vec<u8>)
        requires
            self@.wf(),
        ensures
            final(out)@ == old(out)@ + unknown_list_bytes(self@.unknown_fields),
    {
        proof {
            reveal(CopyrightModel::wf);
        }
        let ghost o = out@;
        let ghost m = self@;
        let mut j: usize = 0;
        assert(m.unknown_fields.subrange(0, m.unknown_fields.len() as int) =~= m.unknown_fields);
        assert(o + Seq::<u8>::empty() =~= o);
        while j < self.unknown_fields.len()
            invariant
                j <= self.unknown_fields.len(),
                self@ == m,
                m.wf(),
                o + unknown_list_bytes(m.unknown_fields) == out@ + unknown_list_bytes(m.unknown_fields.subrange(j as int, m.unknown_fields.len() as int)),
            decreases self.unknown_fields.len() - j,
        {
            proof {
                reveal(CopyrightModel::wf);
                lemma_unknown_list_cons(m.unknown_fields.subrange(j as int, m.unknown_fields.len() as int));
                assert(m.unknown_fields[j as int] == self.unknown_fields@[j as int]@);
                assert(m.unknown_fields.subrange(j as int, m.unknown_fields.len() as int)[0] == m.unknown_fields[j as int]);
                assert(m.unknown_fields.subrange(j as int, m.unknown_fields.len() as int).subrange(1, m.unknown_fields.len() - j) =~= m.unknown_fields.subrange(j + 1, m.unknown_fields.len() as int));
            }
            let ghost before = out@;
            write_unknown(out, &self.unknown_fields[j]);
            proof {
                lemma_concat_assoc(before, unknown_field_bytes(m.unknown_fields[j as int]), unknown_list_bytes(m.unknown_fields.subrange(j + 1, m.unknown_fields.len() as int)));
            }
            j = j + 1;
        }
        assert(m.unknown_fields.subrange(j as int, m.unknown_fields.len() as int) =~= Seq::<UnknownFieldModel>::empty());
        assert(out@ =~= o + unknown_list_bytes(m.unknown_fields));
    }

    /// Appends the encoding of the message to `out`.
    fn write_to(&self, out: &mut Vec<u8>)
        requires
            self@.wf(),
        ensures
            final(out)@ == old(out)@ + self@.to_bytes(),
    {
        proof {
            reveal(CopyrightModel::to_bytes);
        }
        let ghost o = out@;
        let ghost m = self@;
        assert(o + m.to_bytes() == out@ + m.encoded_from_typ());
        self.write_field_typ(out);
        self.write_field_text(out);
        self.write_unknown_fields(out);
    }

    /// The encoding of the message.
    pub fn write_to_bytes(&self) -> (r: Vec<u8>)
        requires
            self@.wf(),
        ensures
            r@ == self@.to_bytes(),
    {
        let mut out: Vec<u8> = Vec::new();
        self.write_to(&mut out);
        assert(out@ =~= self@.to_bytes());
        out
    }

    /// The length of the encoding of the message.
    pub fn compute_size(&self) -> (r: u32)
        requires
            self@.wf(),
            self@.to_bytes().len() <= u32::MAX,
        ensures
            r == self@.to_bytes().len(),
    {
        let v = self.write_to_bytes();
        v.len() as u32
    }
    /// A copy of the message.
    pub fn clone_message(&self) -> (r: Self)
        ensures
            r@ == self@,
    {
        let typ = self.typ;
        let text = clone_opt_string(&self.text);
        let unknown_fields = clone_unknown_fields(&self.unknown_fields);
        Copyright { typ, text, unknown_fields }
    }

}

impl Clone for Copyright {
    fn clone(&self) -> (r: Self)
        ensures
            r@ == self@,
    {
        self.clone_message()
    }
}

impl Default for Copyright {
    fn default() -> (r: Self)
        ensures
            r@ == CopyrightModel::empty(),
    {
        Copyright::new()
    }
}

/// The `Restriction` message.
#[allow(non_snake_case)]
#[derive(Debug, PartialEq)]
pub struct Restriction {
    countries_allowed: Option<String>,
    countries_forbidden: Option<String>,
    typ: Option<Restriction_Type>,
    catalogue_str: Vec<String>,
    unknown_fields: Vec<UnknownField>,
}

/// The model of a `Restriction`: each field's value, `None` or empty when unset,
/// and the fields of unknown numbers, in the order they were read.
#[allow(non_snake_case)]
pub struct RestrictionModel {
    pub countries_allowed: Option<Seq<char>>,
    pub countries_forbidden: Option<Seq<char>>,
    pub typ: Option<Restriction_Type>,
    pub catalogue_str: Seq<Seq<char>>,
    pub unknown_fields: Seq<UnknownFieldModel>,
}

impl View for Restriction {
    type V = RestrictionModel;

    closed spec fn view(&self) -> RestrictionModel {
        RestrictionModel {
            countries_allowed: opt_view(self.countries_allowed),
            countries_forbidden: opt_view(self.countries_forbidden),
            typ: self.typ,
            catalogue_str: string_models(self.catalogue_str@),
            unknown_fields: unknown_models(self.unknown_fields@),
        }
    }
}

#[allow(non_snake_case)]
impl RestrictionModel {
    /// The model of a message with no field set.
    pub open spec fn empty() -> Self {
        RestrictionModel {
            countries_allowed: None,
            countries_forbidden: None,
            typ: None,
            catalogue_str: Seq::empty(),
            unknown_fields: Seq::empty(),
        }
    }

    /// The encodings of a list of messages.
    pub open spec fn encodings(v: Seq<RestrictionModel>) -> Seq<Seq<u8>> {
        v.map_values(|m: RestrictionModel| m.to_bytes())
    }

    /// Every message of a list can be written, and its encoding fits a 32-bit length.
    pub open spec fn all_writable(v: Seq<RestrictionModel>) -> bool {
        forall|i: int| 0 <= i < v.len() ==> #[trigger] v[i].wf() && fits_u32(v[i].to_bytes())
    }

    /// The field numbers that this message knows.
    pub open spec fn is_known_field(f: u32) -> bool {
        f == 2 || f == 3 || f == 4 || f == 5
    }

    /// Merging one field whose tag (number `f`, wire type `wt`) has been read;
    /// `s` holds the bytes after the tag. The result is the merged model and
    /// the number of bytes the value took; a set field is replaced, a repeated
    /// field grows, a field of unknown number is kept or, if a group, skipped.
    pub open spec fn merge_field(self, f: u32, wt: u32, s: Seq<u8>, lim: nat) -> Option<(Self, nat)> {
        if f == 2 {
            if wt != WIRE_LENGTH_DELIMITED {
                None
            } else {
                match string_parse(s) {
                    Some((c, k)) => Some((RestrictionModel { countries_allowed: Some(c), ..self }, k)),
                    None => None,
                }
            }
        } else if f == 3 {
            if wt != WIRE_LENGTH_DELIMITED {
                None
            } else {
                match string_parse(s) {
                    Some((c, k)) => Some((RestrictionModel { countries_forbidden: Some(c), ..self }, k)),
                    None => None,
                }
            }
        } else if f == 4 {
            if wt != WIRE_VARINT {
                None
            } else {
                match varint_parse(s) {
                    Some((v, k)) => match Restriction_Type::spec_from_i32(varint_int32(v)) {
                        Some(e) => Some((RestrictionModel { typ: Some(e), ..self }, k)),
                        None => None,
                    },
                    None => None,
                }
            }
        } else if f == 5 {
            if wt != WIRE_LENGTH_DELIMITED {
                None
            } else {
                match string_parse(s) {
                    Some((c, k)) => Some((RestrictionModel { catalogue_str: self.catalogue_str.push(c), ..self }, k)),
                    None => None,
                }
            }
        } else {
            match unknown_parse(f, wt, s) {
                Some((Some(u), k)) => Some((RestrictionModel { unknown_fields: grouped_insert(self.unknown_fields, u), ..self }, k)),
                Some((None, k)) => Some((self, k)),
                None => None,
            }
        }
    }

    /// What is left of the model when merging one field (number `f`, wire type
    /// `wt`, value at the front of `s`) fails: a string, bytes or message field
    /// of the right wire type is first set to its empty value (a repeated one
    /// gets an empty element) and an embedded message keeps the fields merged
    /// into it before the failure; packed values read before the failure stay.
    pub open spec fn merge_field_failed(self, f: u32, wt: u32, s: Seq<u8>, lim: nat) -> Self {
        if f == 2 {
            if wt != WIRE_LENGTH_DELIMITED {
                self
            } else {
                RestrictionModel { countries_allowed: Some(Seq::<char>::empty()), ..self }
            }
        } else if f == 3 {
            if wt != WIRE_LENGTH_DELIMITED {
                self
            } else {
                RestrictionModel { countries_forbidden: Some(Seq::<char>::empty()), ..self }
            }
        } else if f == 5 {
            if wt != WIRE_LENGTH_DELIMITED {
                self
            } else {
                RestrictionModel { catalogue_str: self.catalogue_str.push(Seq::<char>::empty()), ..self }
            }
        } else {
            self
        }
    }

    /// The value of a merged field takes no more than the bytes after its tag.
    pub proof fn lemma_merge_field_len(self, f: u32, wt: u32, s: Seq<u8>, lim: nat)
        ensures
            self.merge_field(f, wt, s, lim) matches Some((_m, k)) ==> k <= s.len(),
    {
        lemma_varint_parse_len(s);
        crate::wire::lemma_unknown_parse_len(f, wt, s);
    }

    /// Merging all the fields that `s` holds, in order, where the length of an
    /// embedded message may reach `lim` bytes past the end of `s` (such a message
    /// is read up to the end of `s`).
    #[verifier::opaque]
    pub open spec fn merge(self, s: Seq<u8>, lim: nat) -> Option<Self>
        decreases s.len(),
    {
        if s.len() == 0 {
            Some(self)
        } else {
            match tag_parse(s) {
                Some((f, wt, n)) => if 0 < n <= s.len() {
                    match self.merge_field(f, wt, s.skip(n as int), lim) {
                        Some((m, k)) => if n + k <= s.len() {
                            m.merge(s.skip((n + k) as int), lim)
                        } else {
                            None
                        },
                        None => None,
                    }
                } else {
                    None
                },
                None => None,
            }
        }
    }

    /// What merging `s` leaves: the fields merged in order up to the first one
    /// whose tag or value cannot be read, then what `merge_field_failed` leaves of
    /// that one; all of `s` where it is a valid encoding.
    #[verifier::opaque]
    pub open spec fn merge_partial(self, s: Seq<u8>, lim: nat) -> Self
        decreases s.len(),
    {
        if s.len() == 0 {
            self
        } else {
            match tag_parse(s) {
                Some((f, wt, n)) => if 0 < n <= s.len() {
                    match self.merge_field(f, wt, s.skip(n as int), lim) {
                        Some((m, k)) => if n + k <= s.len() {
                            m.merge_partial(s.skip((n + k) as int), lim)
                        } else {
                            m
                        },
                        None => self.merge_field_failed(f, wt, s.skip(n as int), lim),
                    }
                } else {
                    self
                },
                None => self,
            }
        }
    }

    /// The encoding of field `countries_allowed` and of every field written after it.
    pub open spec fn encoded_from_countries_allowed(self) -> Seq<u8> {
        opt_length_delimited_field_bytes(2, match self.countries_allowed { Some(c) => Some(encode_utf8(c)), None => None }) + self.encoded_from_countries_forbidden()
    }

    /// The encoding of field `countries_forbidden` and of every field written after it.
    pub open spec fn encoded_from_countries_forbidden(self) -> Seq<u8> {
        opt_length_delimited_field_bytes(3, match self.countries_forbidden { Some(c) => Some(encode_utf8(c)), None => None }) + self.encoded_from_typ()
    }

    /// The encoding of field `typ` and of every field written after it.
    pub open spec fn encoded_from_typ(self) -> Seq<u8> {
        opt_varint_field_bytes(4, match self.typ { Some(x) => Some(int32_varint(x.spec_value())), None => None }) + self.encoded_from_catalogue_str()
    }

    /// The encoding of field `catalogue_str` and of every field written after it.
    pub open spec fn encoded_from_catalogue_str(self) -> Seq<u8> {
        length_delimited_list_bytes(5, utf8_encodings(self.catalogue_str)) + self.encoded_from_unknown_fields()
    }

    /// The encoding of the fields of unknown numbers, written last.
    pub open spec fn encoded_from_unknown_fields(self) -> Seq<u8> {
        unknown_list_bytes(self.unknown_fields)
    }

    /// The encoding of the message: its set fields in order of declaration,
    /// each element of a repeated field in order, then the unknown fields.
    #[verifier::opaque]
    pub open spec fn to_bytes(self) -> Seq<u8> {
        self.encoded_from_countries_allowed()
    }

    /// A model that can be written and read back: every length fits the
    /// 32-bit length prefix, nested messages can be written, and the unknown
    /// fields have valid numbers that this message does not know.
    #[verifier::opaque]
    pub open spec fn wf(self) -> bool {
        &&& (self.countries_allowed matches Some(c) ==> fits_u32(encode_utf8(c)))
        &&& (self.countries_forbidden matches Some(c) ==> fits_u32(encode_utf8(c)))
        &&& crate::wire::all_fit_u32(utf8_encodings(self.catalogue_str))
        &&& (forall|i: int| 0 <= i < self.unknown_fields.len() ==> unknown_field_wf(#[trigger] self.unknown_fields[i]) && !Self::is_known_field(self.unknown_fields[i].number))
        &&& unknown_grouped(self.unknown_fields)
    }

    /// The message with no field set can be written and read back.
    pub proof fn lemma_empty_wf()
        ensures
            Self::empty().wf(),
    {
        reveal_with_fuel(RestrictionModel::wf, 1);
        lemma_grouped_empty();
    }

    /// Merging a field's tag and value, whatever follows them.
    pub proof fn lemma_merge_step(acc: Self, f: u32, wt: u32, t: Seq<u8>, b: Seq<u8>, rest: Seq<u8>, acc2: Self, lim: nat)
        requires
            tag_parse(t + (b + rest)) == Some((f, wt, t.len())),
            t.len() > 0,
            acc.merge_field(f, wt, b + rest, lim) == Some((acc2, b.len())),
        ensures
            acc.merge(t + (b + rest), lim) == acc2.merge(rest, lim),
    {
        reveal_with_fuel(RestrictionModel::merge, 1);
        lemma_skip_chunk(t, b, rest);
    }

    /// Merging the encoding of field `countries_allowed` sets it, whatever follows.
    pub proof fn lemma_merge_countries_allowed(acc: Self, v: Option<Seq<char>>, rest: Seq<u8>, lim: nat)
        requires
            (v matches Some(c) ==> fits_u32(encode_utf8(c))),
        ensures
            acc.merge(opt_length_delimited_field_bytes(2, match v { Some(c) => Some(encode_utf8(c)), None => None }) + rest, lim) == (RestrictionModel { countries_allowed: if v is Some { v } else { acc.countries_allowed }, ..acc }).merge(rest, lim),
    {
        match v {
            None => {
                assert(opt_length_delimited_field_bytes(2, match v { Some(c) => Some(encode_utf8(c)), None => None }) + rest =~= rest);
                assert((RestrictionModel { countries_allowed: acc.countries_allowed, ..acc }) == acc);
            },
            Some(x) => {
                let t = tag_bytes(2, WIRE_LENGTH_DELIMITED);
                let b = bytes_value_bytes(encode_utf8(x));
                assert(opt_length_delimited_field_bytes(2, match v { Some(c) => Some(encode_utf8(c)), None => None }) + rest =~= t + (b + rest));
                lemma_tag_roundtrip(2, WIRE_LENGTH_DELIMITED, b + rest);
                lemma_string_roundtrip(x, rest);
                Self::lemma_merge_step(acc, 2, WIRE_LENGTH_DELIMITED, t, b, rest, RestrictionModel { countries_allowed: v, ..acc }, lim);
            },
        }
    }

    /// Merging the encoding of field `countries_forbidden` sets it, whatever follows.
    pub proof fn lemma_merge_countries_forbidden(acc: Self, v: Option<Seq<char>>, rest: Seq<u8>, lim: nat)
        requires
            (v matches Some(c) ==> fits_u32(encode_utf8(c))),
        ensures
            acc.merge(opt_length_delimited_field_bytes(3, match v { Some(c) => Some(encode_utf8(c)), None => None }) + rest, lim) == (RestrictionModel { countries_forbidden: if v is Some { v } else { acc.countries_forbidden }, ..acc }).merge(rest, lim),
    {
        match v {
            None => {
                assert(opt_length_delimited_field_bytes(3, match v { Some(c) => Some(encode_utf8(c)), None => None }) + rest =~= rest);
                assert((RestrictionModel { countries_forbidden: acc.countries_forbidden, ..acc }) == acc);
            },
            Some(x) => {
                let t = tag_bytes(3, WIRE_LENGTH_DELIMITED);
                let b = bytes_value_bytes(encode_utf8(x));
                assert(opt_length_delimited_field_bytes(3, match v { Some(c) => Some(encode_utf8(c)), None => None }) + rest =~= t + (b + rest));
                lemma_tag_roundtrip(3, WIRE_LENGTH_DELIMITED, b + rest);
                lemma_string_roundtrip(x, rest);
                Self::lemma_merge_step(acc, 3, WIRE_LENGTH_DELIMITED, t, b, rest, RestrictionModel { countries_forbidden: v, ..acc }, lim);
            },
        }
    }

    /// Merging the encoding of field `typ` sets it, whatever follows.
    pub proof fn lemma_merge_typ(acc: Self, v: Option<Restriction_Type>, rest: Seq<u8>, lim: nat)
        ensures
            acc.merge(opt_varint_field_bytes(4, match v { Some(x) => Some(int32_varint(x.spec_value())), None => None }) + rest, lim) == (RestrictionModel { typ: if v is Some { v } else { acc.typ }, ..acc }).merge(rest, lim),
    {
        match v {
            None => {
                assert(opt_varint_field_bytes(4, match v { Some(x) => Some(int32_varint(x.spec_value())), None => None }) + rest =~= rest);
                assert((RestrictionModel { typ: acc.typ, ..acc }) == acc);
            },
            Some(x) => {
                let t = tag_bytes(4, WIRE_VARINT);
                let b = varint_bytes(int32_varint(x.spec_value()));
                assert(opt_varint_field_bytes(4, match v { Some(x) => Some(int32_varint(x.spec_value())), None => None }) + rest =~= t + (b + rest));
                lemma_tag_roundtrip(4, WIRE_VARINT, b + rest);
                lemma_varint_roundtrip(int32_varint(x.spec_value()), rest);
                    lemma_varint_casts(x.spec_value(), 0, 0, false, 0);
                    x.lemma_value_roundtrip();
                Self::lemma_merge_step(acc, 4, WIRE_VARINT, t, b, rest, RestrictionModel { typ: v, ..acc }, lim);
            },
        }
    }

    /// Merging the encoding of the elements of field `catalogue_str` appends them, whatever follows.
    #[verifier::rlimit(50)]
    pub proof fn lemma_merge_catalogue_str(acc: Self, v: Seq<Seq<char>>, rest: Seq<u8>, lim: nat)
        requires
            crate::wire::all_fit_u32(utf8_encodings(v)),
        ensures
            acc.merge(length_delimited_list_bytes(5, utf8_encodings(v)) + rest, lim) == (RestrictionModel { catalogue_str: acc.catalogue_str + v, ..acc }).merge(rest, lim),
        decreases v.len(),
    {
        let w = utf8_encodings(v);
        if v.len() == 0 {
            assert(length_delimited_list_bytes(5, w) + rest =~= rest);
            assert(acc.catalogue_str + v =~= acc.catalogue_str);
            assert((RestrictionModel { catalogue_str: acc.catalogue_str + v, ..acc }) == acc);
        } else {
            lemma_length_delimited_list_cons(5, w);
            assert(fits_u32(w[0]));
            let t = tag_bytes(5, WIRE_LENGTH_DELIMITED);
            let b = bytes_value_bytes(w[0]);
            let tail = length_delimited_list_bytes(5, w.subrange(1, w.len() as int));
            assert(length_delimited_list_bytes(5, w) + rest =~= t + (b + (tail + rest)));
            lemma_tag_roundtrip(5, WIRE_LENGTH_DELIMITED, b + (tail + rest));
            lemma_string_roundtrip(v[0], tail + rest);
            let acc1 = RestrictionModel { catalogue_str: acc.catalogue_str.push(v[0]), ..acc };
            Self::lemma_merge_step(acc, 5, WIRE_LENGTH_DELIMITED, t, b, tail + rest, acc1, lim);
            assert(w.subrange(1, w.len() as int) =~= utf8_encodings(v.subrange(1, v.len() as int)));
            assert forall|j: int| 0 <= j < w.len() - 1 implies fits_u32(#[trigger] w.subrange(1, w.len() as int)[j]) by {
                assert(w.subrange(1, w.len() as int)[j] == w[j + 1]);
            }
            Self::lemma_merge_catalogue_str(acc1, v.subrange(1, v.len() as int), rest, lim);
            assert(acc1.catalogue_str + v.subrange(1, v.len() as int) =~= acc.catalogue_str + v);
        }
    }

    /// Merging the encoding of fields of unknown numbers keeps them, whatever follows.
    #[verifier::rlimit(50)]
    pub proof fn lemma_merge_unknown_fields(acc: Self, v: Seq<UnknownFieldModel>, rest: Seq<u8>, lim: nat)
        requires
            forall|i: int| 0 <= i < v.len() ==> unknown_field_wf(#[trigger] v[i]) && !Self::is_known_field(v[i].number),
            unknown_grouped(acc.unknown_fields + v),
        ensures
            acc.merge(unknown_list_bytes(v) + rest, lim) == (RestrictionModel { unknown_fields: acc.unknown_fields + v, ..acc }).merge(rest, lim),
        decreases v.len(),
    {
        if v.len() == 0 {
            assert(unknown_list_bytes(v) + rest =~= rest);
            assert(acc.unknown_fields + v =~= acc.unknown_fields);
            assert((RestrictionModel { unknown_fields: acc.unknown_fields + v, ..acc }) == acc);
        } else {
            lemma_unknown_list_cons(v);
            let u = v[0];
            let wt = crate::wire::unknown_wire_type(u.value);
            let t = tag_bytes(u.number, wt);
            let b = crate::wire::unknown_value_bytes(u.value);
            let tail = unknown_list_bytes(v.subrange(1, v.len() as int));
            assert(unknown_list_bytes(v) + rest =~= t + (b + (tail + rest)));
            assert(unknown_field_bytes(u) + (tail + rest) =~= t + (b + (tail + rest)));
            lemma_unknown_roundtrip(u, tail + rest);
            assert((t + (b + (tail + rest))).skip(t.len() as int) =~= b + (tail + rest));
            crate::wire::lemma_tag_roundtrip(u.number, wt, b + (tail + rest));
            let acc1 = RestrictionModel { unknown_fields: acc.unknown_fields.push(u), ..acc };
            assert(acc.unknown_fields.push(u) =~= (acc.unknown_fields + v).take(acc.unknown_fields.len() + 1int));
            lemma_grouped_take(acc.unknown_fields + v, acc.unknown_fields.len() + 1int);
            lemma_grouped_insert_last(acc.unknown_fields, u);
            Self::lemma_merge_step(acc, u.number, wt, t, b, tail + rest, acc1, lim);
            assert(acc1.unknown_fields + v.subrange(1, v.len() as int) =~= acc.unknown_fields + v);
            Self::lemma_merge_unknown_fields(acc1, v.subrange(1, v.len() as int), rest, lim);
        }
    }

    /// Reading back the encoding of a model that can be written gives the model,
    /// whatever the limit past its end.
    #[verifier::spinoff_prover]
    #[verifier::rlimit(100)]
    pub proof fn lemma_roundtrip(self, lim: nat)
        requires
            self.wf(),
        ensures
            RestrictionModel::empty().merge(self.to_bytes(), lim) == Some(self),
    {
        reveal(RestrictionModel::to_bytes);
        reveal(RestrictionModel::wf);
        reveal_with_fuel(RestrictionModel::merge, 1);
        let a0 = RestrictionModel::empty();
        assert((self.countries_allowed matches Some(c) ==> fits_u32(encode_utf8(c))));
        Self::lemma_merge_countries_allowed(a0, self.countries_allowed, self.encoded_from_countries_forbidden(), lim);
        let a1 = RestrictionModel { countries_allowed: if self.countries_allowed is Some { self.countries_allowed } else { a0.countries_allowed }, ..a0 };
        assert((self.countries_forbidden matches Some(c) ==> fits_u32(encode_utf8(c))));
        Self::lemma_merge_countries_forbidden(a1, self.countries_forbidden, self.encoded_from_typ(), lim);
        let a2 = RestrictionModel { countries_forbidden: if self.countries_forbidden is Some { self.countries_forbidden } else { a1.countries_forbidden }, ..a1 };
        Self::lemma_merge_typ(a2, self.typ, self.encoded_from_catalogue_str(), lim);
        let a3 = RestrictionModel { typ: if self.typ is Some { self.typ } else { a2.typ }, ..a2 };
        assert(crate::wire::all_fit_u32(utf8_encodings(self.catalogue_str)));
        Self::lemma_merge_catalogue_str(a3, self.catalogue_str, self.encoded_from_unknown_fields(), lim);
        let a4 = RestrictionModel { catalogue_str: a3.catalogue_str + self.catalogue_str, ..a3 };
        assert(a4.unknown_fields + self.unknown_fields =~= self.unknown_fields);
        Self::lemma_merge_unknown_fields(a4, self.unknown_fields, Seq::empty(), lim);
        assert(unknown_list_bytes(self.unknown_fields) + Seq::<u8>::empty() =~= unknown_list_bytes(self.unknown_fields));
        let last = RestrictionModel { unknown_fields: a4.unknown_fields + self.unknown_fields, ..a4 };
        assert(last.catalogue_str =~= self.catalogue_str);
        assert(last.unknown_fields =~= self.unknown_fields);
        assert(last == self);
    }
    /// A message whose only set field is `countries_allowed` is written as field number 2 of the
    /// protocol's definition alone: the tag of that number with the wire type of the field,
    /// then the value.
    pub proof fn lemma_encoding_of_countries_allowed(v: Option<Seq<char>>)
        ensures
            (RestrictionModel { countries_allowed: v, ..RestrictionModel::empty() }).to_bytes() == opt_length_delimited_field_bytes(2, match v { Some(c) => Some(encode_utf8(c)), None => None }),
    {
        reveal(RestrictionModel::to_bytes);
        let m = RestrictionModel { countries_allowed: v, ..RestrictionModel::empty() };
        assert(m.to_bytes() =~= opt_length_delimited_field_bytes(2, match v { Some(c) => Some(encode_utf8(c)), None => None }));
    }

    /// A message whose only set field is `countries_forbidden` is written as field number 3 of the
    /// protocol's definition alone: the tag of that number with the wire type of the field,
    /// then the value.
    pub proof fn lemma_encoding_of_countries_forbidden(v: Option<Seq<char>>)
        ensures
            (RestrictionModel { countries_forbidden: v, ..RestrictionModel::empty() }).to_bytes() == opt_length_delimited_field_bytes(3, match v { Some(c) => Some(encode_utf8(c)), None => None }),
    {
        reveal(RestrictionModel::to_bytes);
        let m = RestrictionModel { countries_forbidden: v, ..RestrictionModel::empty() };
        assert(m.to_bytes() =~= opt_length_delimited_field_bytes(3, match v { Some(c) => Some(encode_utf8(c)), None => None }));
    }

    /// A message whose only set field is `typ` is written as field number 4 of the
    /// protocol's definition alone: the tag of that number with the wire type of the field,
    /// then the value.
    pub proof fn lemma_encoding_of_typ(v: Option<Restriction_Type>)
        ensures
            (RestrictionModel { typ: v, ..RestrictionModel::empty() }).to_bytes() == opt_varint_field_bytes(4, match v { Some(x) => Some(int32_varint(x.spec_value())), None => None }),
    {
        reveal(RestrictionModel::to_bytes);
        let m = RestrictionModel { typ: v, ..RestrictionModel::empty() };
        assert(m.to_bytes() =~= opt_varint_field_bytes(4, match v { Some(x) => Some(int32_varint(x.spec_value())), None => None }));
    }

    /// A message whose only set field is `catalogue_str` is written as field number 5 of the
    /// protocol's definition alone: the tag of that number with the wire type of the field,
    /// then the value.
    pub proof fn lemma_encoding_of_catalogue_str(v: Seq<Seq<char>>)
        ensures
            (RestrictionModel { catalogue_str: v, ..RestrictionModel::empty() }).to_bytes() == length_delimited_list_bytes(5, utf8_encodings(v)),
    {
        reveal(RestrictionModel::to_bytes);
        let m = RestrictionModel { catalogue_str: v, ..RestrictionModel::empty() };
        assert(m.to_bytes() =~= length_delimited_list_bytes(5, utf8_encodings(v)));
    }

}

#[allow(non_snake_case)]
impl Restriction {
    /// The models of a list of messages.
    pub open spec fn seq_model(v: Seq<Restriction>) -> Seq<RestrictionModel> {
        v.map_values(|m: Restriction| m@)
    }

    /// A message with no field set.
    pub fn new() -> (r: Self)
        ensures
            r@ == RestrictionModel::empty(),
            r@.wf(),
    {
        let r = Restriction {
            countries_allowed: None,
            countries_forbidden: None,
            typ: None,
            catalogue_str: Vec::new(),
            unknown_fields: Vec::new(),
        };
        assert(string_models(r.catalogue_str@) =~= Seq::<Seq<char>>::empty());
        assert(unknown_models(r.unknown_fields@) =~= Seq::<UnknownFieldModel>::empty());
        proof {
            RestrictionModel::lemma_empty_wf();
        }
        r
    }

    /// Unsets field `countries_allowed`.
    pub fn clear_countries_allowed(&mut self)
        ensures
            final(self)@ == (RestrictionModel { countries_allowed: None, ..old(self)@ }),
    {
        self.countries_allowed = None;
    }

    /// Whether field `countries_allowed` is set.
    pub fn has_countries_allowed(&self) -> (r: bool)
        ensures
            r == self@.countries_allowed is Some,
    {
        self.countries_allowed.is_some()
    }

    /// Sets field `countries_allowed` to `v`.
    pub fn set_countries_allowed(&mut self, v: String)
        ensures
            final(self)@ == (RestrictionModel { countries_allowed: Some(v@), ..old(self)@ }),
    {
        self.countries_allowed = Some(v);
    }

    /// Field `countries_allowed`, to change in place; an unset field is first set to its default.
    pub fn mut_countries_allowed(&mut self) -> (r: &mut String)
        ensures
            r@ == chars_or_empty(old(self)@.countries_allowed),
            final(self)@ == (RestrictionModel { countries_allowed: Some(final(r)@), ..old(self)@ }),

    {
        if self.countries_allowed.is_none() {
            self.countries_allowed = Some(String::new());
        }
        opt_as_mut(&mut self.countries_allowed).unwrap()
    }

    /// Takes field `countries_allowed` (its default when unset), leaving it unset.
    pub fn take_countries_allowed(&mut self) -> (r: String)
        ensures
            r@ == chars_or_empty(old(self)@.countries_allowed),
            final(self)@ == (RestrictionModel { countries_allowed: None, ..old(self)@ }),
    {
        let mut t = None;
        std::mem::swap(&mut t, &mut self.countries_allowed);
        match t {
            Some(v) => v,
            None => String::new(),
        }
    }

    /// Field `countries_allowed`, or the empty string when unset.
    pub fn get_countries_allowed(&self) -> (r: &str)
        ensures
            r@ == chars_or_empty(self@.countries_allowed),
    {
        match &self.countries_allowed {
            Some(v) => v.as_str(),
            None => {
                proof {
                    reveal_strlit("");
                }
                ""
            },
        }
    }

    /// Unsets field `countries_forbidden`.
    pub fn clear_countries_forbidden(&mut self)
        ensures
            final(self)@ == (RestrictionModel { countries_forbidden: None, ..old(self)@ }),
    {
        self.countries_forbidden = None;
    }

    /// Whether field `countries_forbidden` is set.
    pub fn has_countries_forbidden(&self) -> (r: bool)
        ensures
            r == self@.countries_forbidden is Some,
    {
        self.countries_forbidden.is_some()
    }

    /// Sets field `countries_forbidden` to `v`.
    pub fn set_countries_forbidden(&mut self, v: String)
        ensures
            final(self)@ == (RestrictionModel { countries_forbidden: Some(v@), ..old(self)@ }),
    {
        self.countries_forbidden = Some(v);
    }

    /// Field `countries_forbidden`, to change in place; an unset field is first set to its default.
    pub fn mut_countries_forbidden(&mut self) -> (r: &mut String)
        ensures
            r@ == chars_or_empty(old(self)@.countries_forbidden),
            final(self)@ == (RestrictionModel { countries_forbidden: Some(final(r)@), ..old(self)@ }),

    {
        if self.countries_forbidden.is_none() {
            self.countries_forbidden = Some(String::new());
        }
        opt_as_mut(&mut self.countries_forbidden).unwrap()
    }

    /// Takes field `countries_forbidden` (its default when unset), leaving it unset.
    pub fn take_countries_forbidden(&mut self) -> (r: String)
        ensures
            r@ == chars_or_empty(old(self)@.countries_forbidden),
            final(self)@ == (RestrictionModel { countries_forbidden: None, ..old(self)@ }),
    {
        let mut t = None;
        std::mem::swap(&mut t, &mut self.countries_forbidden);
        match t {
            Some(v) => v,
            None => String::new(),
        }
    }

    /// Field `countries_forbidden`, or the empty string when unset.
    pub fn get_countries_forbidden(&self) -> (r: &str)
        ensures
            r@ == chars_or_empty(self@.countries_forbidden),
    {
        match &self.countries_forbidden {
            Some(v) => v.as_str(),
            None => {
                proof {
                    reveal_strlit("");
                }
                ""
            },
        }
    }

    /// Unsets field `typ`.
    pub fn clear_typ(&mut self)
        ensures
            final(self)@ == (RestrictionModel { typ: None, ..old(self)@ }),
    {
        self.typ = None;
    }

    /// Whether field `typ` is set.
    pub fn has_typ(&self) -> (r: bool)
        ensures
            r == self@.typ is Some,
    {
        self.typ.is_some()
    }

    /// Sets field `typ` to `v`.
    pub fn set_typ(&mut self, v: Restriction_Type)
        ensures
            final(self)@ == (RestrictionModel { typ: Some(v), ..old(self)@ }),
    {
        self.typ = Some(v);
    }

    /// Field `typ`, or `Restriction_Type::STREAMING` when unset.
    pub fn get_typ(&self) -> (r: Restriction_Type)
        ensures
            r == (match self@.typ { Some(x) => x, None => Restriction_Type::STREAMING }),
    {
        match self.typ {
            Some(x) => x,
            None => Restriction_Type::STREAMING,
        }
    }

    /// Empties field `catalogue_str`.
    pub fn clear_catalogue_str(&mut self)
        ensures
            final(self)@ == (RestrictionModel { catalogue_str: Seq::empty(), ..old(self)@ }),
    {
        self.catalogue_str = Vec::new();
        assert(string_models(self.catalogue_str@) =~= Seq::<Seq<char>>::empty());
    }

    /// Sets field `catalogue_str` to the elements of `v`.
    pub fn set_catalogue_str(&mut self, v: Vec<String>)
        ensures
            final(self)@ == (RestrictionModel { catalogue_str: string_models(v@), ..old(self)@ }),
    {
        self.catalogue_str = v;
    }

    /// The elements of field `catalogue_str`, to change in place.
    pub fn mut_catalogue_str(&mut self) -> (r: &mut Vec<String>)
        ensures
            string_models(r@) == old(self)@.catalogue_str,
            final(self)@ == (RestrictionModel { catalogue_str: string_models(final(r)@), ..old(self)@ }),
    {
        field_mut(&mut self.catalogue_str)
    }

    /// Takes the elements of field `catalogue_str`, leaving it empty.
    pub fn take_catalogue_str(&mut self) -> (r: Vec<String>)
        ensures
            string_models(r@) == old(self)@.catalogue_str,
            final(self)@ == (RestrictionModel { catalogue_str: Seq::empty(), ..old(self)@ }),
    {
        let mut r = Vec::new();
        std::mem::swap(&mut r, &mut self.catalogue_str);
        assert(string_models(self.catalogue_str@) =~= Seq::<Seq<char>>::empty());
        r
    }

    /// The elements of field `catalogue_str`.
    pub fn get_catalogue_str(&self) -> (r: &[String])
        ensures
            string_models(r@) == self@.catalogue_str,
    {
        self.catalogue_str.as_slice()
    }

    /// Merges one field whose tag (number `f`, wire type `wt`) has been read
    /// from the bytes `s` that follow the tag; returns the number of bytes the
    /// value took.
    fn merge_field(&mut self, f: u32, wt: u32, s: &[u8], lim: u64) -> (r: Option<usize>)
        ensures
            match old(self)@.merge_field(f, wt, s@, lim as nat) {
                Some((m, k)) => r == Some(k as usize) && final(self)@ == m,
                None => r is None && final(self)@ == old(self)@.merge_field_failed(f, wt, s@, lim as nat),
            },
    {

        if f == 2 {
            if wt != WIRE_LENGTH_DELIMITED {
                return None;
            }
            match read_string(s) {
                Some((v, k)) => {
                    self.countries_allowed = Some(v);
                    Some(k)
                },
                None => {
                    self.countries_allowed = Some(String::new());
                    None
                },
            }
        } else if f == 3 {
            if wt != WIRE_LENGTH_DELIMITED {
                return None;
            }
            match read_string(s) {
                Some((v, k)) => {
                    self.countries_forbidden = Some(v);
                    Some(k)
                },
                None => {
                    self.countries_forbidden = Some(String::new());
                    None
                },
            }
        } else if f == 4 {
            if wt != WIRE_VARINT {
                return None;
            }
            proof {
                lemma_varint_parse_len(s@);
            }
            match pb_read_raw_varint64(s) {
                Some((v, k)) => match Restriction_Type::from_i32((v as u32) as i32) {
                    Some(e) => {
                        self.typ = Some(e);
                        Some(k)
                    },
                    None => None,
                },
                None => None,
            }
        } else if f == 5 {
            if wt != WIRE_LENGTH_DELIMITED {
                return None;
            }
            match read_string(s) {
                Some((v, k)) => {
                    let ghost old_v = self.catalogue_str@;
                    field_mut(&mut self.catalogue_str).push(v);
                    assert(string_models(self.catalogue_str@) =~= string_models(old_v).push(self.catalogue_str@.last()@));
                    Some(k)
                },
                None => {
                    let ghost old_v = self.catalogue_str@;
                    field_mut(&mut self.catalogue_str).push(String::new());
                    assert(string_models(self.catalogue_str@) =~= string_models(old_v).push(Seq::<char>::empty()));
                    None
                },
            }
        } else {
            match read_unknown(f, wt, s) {
                Some((Some(u), k)) => {
                    insert_unknown(field_mut(&mut self.unknown_fields), u);
                    Some(k)
                },
                Some((None, k)) => Some(k),
                None => None,
            }
        }
    }

    /// Merges all the fields that `s` holds, in order; `false` when the bytes
    /// are not a valid encoding (the message then holds what was merged so far).
    #[verifier::spinoff_prover]
    #[verifier::rlimit(50)]
    fn merge_from_slice(&mut self, s: &[u8], lim: u64) -> (ok: bool)
        ensures
            match old(self)@.merge(s@, lim as nat) {
                Some(m) => ok && final(self)@ == m,
                None => !ok && final(self)@ == old(self)@.merge_partial(s@, lim as nat),
            },
    {
        proof {
            reveal_with_fuel(RestrictionModel::merge, 1);
            reveal_with_fuel(RestrictionModel::merge_partial, 1);
        }
        let mut pos: usize = 0;
        assert(s@.skip(0) =~= s@);
        while pos < s.len()
            invariant
                pos <= s.len(),
                old(self)@.merge(s@, lim as nat) == self@.merge(s@.skip(pos as int), lim as nat),
                old(self)@.merge_partial(s@, lim as nat) == self@.merge_partial(s@.skip(pos as int), lim as nat),
            decreases s.len() - pos,
        {
            let rest = &s[pos..s.len()];
            assert(rest@ == s@.skip(pos as int));
            proof {
                reveal_with_fuel(RestrictionModel::merge, 1);
                reveal_with_fuel(RestrictionModel::merge_partial, 1);
                lemma_tag_parse_len(rest@);
            }
            match pb_read_tag_unpack(rest) {
                None => {
                    return false;
                },
                Some((f, wt, n)) => {
                    if n == 0 || n > rest.len() {
                        return false;
                    }
                    let rest2 = &rest[n..rest.len()];
                    assert(rest2@ == rest@.skip(n as int));
                    proof {
                        self@.lemma_merge_field_len(f, wt, rest2@, lim as nat);
                    }
                    match self.merge_field(f, wt, rest2, lim) {
                        None => {
                            return false;
                        },
                        Some(k) => {
                            if k > rest2.len() {
                                return false;
                            }
                            assert(rest@.skip((n + k) as int) =~= s@.skip((pos + n + k) as int));
                            pos = pos + n + k;
                        },
                    }
                },
            }
        }
        assert(s@.skip(pos as int) =~= Seq::<u8>::empty());
        proof {
            reveal_with_fuel(RestrictionModel::merge, 1);
        }
        true
    }

    /// The message that `s` encodes, if it is a valid encoding.
    fn parse_slice(s: &[u8], lim: u64) -> (r: Option<Self>)
        ensures
            match RestrictionModel::empty().merge(s@, lim as nat) {
                Some(m) => r matches Some(x) && x@ == m,
                None => r is None,
            },
    {
        let mut m = Restriction::new();
        if m.merge_from_slice(s, lim) {
            Some(m)
        } else {
            None
        }
    }

    /// Merges the fields that `bytes` encodes into this message, in order: a set
    /// field is replaced, a repeated field grows. On an invalid encoding the
    /// error comes back, the fields merged before the first field that could not
    /// be read stay merged, and that field is left as `merge_field_failed` says.
    pub fn merge_from_bytes(&mut self, bytes: &[u8]) -> (r: Result<(), DecodeError>)
        ensures
            match old(self)@.merge(bytes@, top_limit(bytes@.len())) {
                Some(m) => r is Ok && final(self)@ == m,
                None => r is Err && final(self)@ == old(self)@.merge_partial(bytes@, top_limit(bytes@.len())),
            },
    {
        let lim: u64 = u64::MAX - bytes.len() as u64;
        if self.merge_from_slice(bytes, lim) {
            Ok(())
        } else {
            Err(DecodeError)
        }
    }

    /// Parses a message from its encoding.
    pub fn parse_from_bytes(bytes: &[u8]) -> (r: Result<Self, DecodeError>)
        ensures
            match RestrictionModel::empty().merge(bytes@, top_limit(bytes@.len())) {
                Some(m) => r matches Ok(x) && x@ == m,
                None => r is Err,
            },
    {
        let lim: u64 = u64::MAX - bytes.len() as u64;
        match Self::parse_slice(bytes, lim) {
            Some(m) => Ok(m),
            None => Err(DecodeError),
        }
    }

    /// Appends the encoding of field `countries_allowed` to `out`.
    fn write_field_countries_allowed(&self, out: &mut Vec<u8>)
        requires
            self@.wf(),
        ensures
            final(out)@ == old(out)@ + opt_length_delimited_field_bytes(2, match self@.countries_allowed { Some(c) => Some(encode_utf8(c)), None => None }),
            final(out)@ + self@.encoded_from_countries_forbidden() == old(out)@ + self@.encoded_from_countries_allowed(),
    {
        proof {
            reveal(RestrictionModel::wf);
        }
        let ghost o = out@;
        let ghost m = self@;
        match &self.countries_allowed {
            Some(v) => {
                pb_write_tag(out, 2, WIRE_LENGTH_DELIMITED);
                write_string_value(out, v.as_str());
                proof {
                    lemma_concat_assoc(o, tag_bytes(2, WIRE_LENGTH_DELIMITED), bytes_value_bytes(encode_utf8(v@)));
                }
            },
            None => {
                assert(o + Seq::<u8>::empty() =~= o);
            },
        }
        proof {
            lemma_concat_assoc(o, opt_length_delimited_field_bytes(2, match m.countries_allowed { Some(c) => Some(encode_utf8(c)), None => None }), m.encoded_from_countries_forbidden());
        }
    }

    /// Appends the encoding of field `countries_forbidden` to `out`.
    fn write_field_countries_forbidden(&self, out: &mut Vec<u8>)
        requires
            self@.wf(),
        ensures
            final(out)@ == old(out)@ + opt_length_delimited_field_bytes(3, match self@.countries_forbidden { Some(c) => Some(encode_utf8(c)), None => None }),
            final(out)@ + self@.encoded_from_typ() == old(out)@ + self@.encoded_from_countries_forbidden(),
    {
        proof {
            reveal(RestrictionModel::wf);
        }
        let ghost o = out@;
        let ghost m = self@;
        match &self.countries_forbidden {
            Some(v) => {
                pb_write_tag(out, 3, WIRE_LENGTH_DELIMITED);
                write_string_value(out, v.as_str());
                proof {
                    lemma_concat_assoc(o, tag_bytes(3, WIRE_LENGTH_DELIMITED), bytes_value_bytes(encode_utf8(v@)));
                }
            },
            None => {
                assert(o + Seq::<u8>::empty() =~= o);
            },
        }
        proof {
            lemma_concat_assoc(o, opt_length_delimited_field_bytes(3, match m.countries_forbidden { Some(c) => Some(encode_utf8(c)), None => None }), m.encoded_from_typ());
        }
    }

    /// Appends the encoding of field `typ` to `out`.
    fn write_field_typ(&self, out: &mut Vec<u8>)
        requires
            self@.wf(),
        ensures
            final(out)@ == old(out)@ + opt_varint_field_bytes(4, match self@.typ { Some(x) => Some(int32_varint(x.spec_value())), None => None }),
            final(out)@ + self@.encoded_from_catalogue_str() == old(out)@ + self@.encoded_from_typ(),
    {
        proof {
            reveal(RestrictionModel::wf);
        }
        let ghost o = out@;
        let ghost m = self@;
        match self.typ {
            Some(x) => {
                pb_write_tag(out, 4, WIRE_VARINT);
                pb_write_raw_varint64(out, x.value() as u64);
                proof {
                    lemma_concat_assoc(o, tag_bytes(4, WIRE_VARINT), varint_bytes(int32_varint(x.spec_value())));
                }
            },
            None => {
                assert(o + Seq::<u8>::empty() =~= o);
            },
        }
        proof {
            lemma_concat_assoc(o, opt_varint_field_bytes(4, match m.typ { Some(x) => Some(int32_varint(x.spec_value())), None => None }), m.encoded_from_catalogue_str());
        }
    }

    /// Appends the encoding of field `catalogue_str` to `out`.
    fn write_field_catalogue_str(&self, out: &mut Vec<u8>)
        requires
            self@.wf(),
        ensures
            final(out)@ == old(out)@ + length_delimited_list_bytes(5, utf8_encodings(self@.catalogue_str)),
            final(out)@ + self@.encoded_from_unknown_fields() == old(out)@ + self@.encoded_from_catalogue_str(),
    {
        proof {
            reveal(RestrictionModel::wf);
        }
        let ghost o = out@;
        let ghost m = self@;
        let ghost w = utf8_encodings(m.catalogue_str);
        assert(w.subrange(0, w.len() as int) =~= w);
        assert(o + Seq::<u8>::empty() =~= o);
        let mut i: usize = 0;
        while i < self.catalogue_str.len()
            invariant
                i <= self.catalogue_str.len(),
                self@ == m,
                m.wf(),
                w.len() == self.catalogue_str@.len(),
                w == utf8_encodings(m.catalogue_str),
                o + length_delimited_list_bytes(5, w) == out@ + length_delimited_list_bytes(5, w.subrange(i as int, w.len() as int)),
            decreases self.catalogue_str.len() - i,
        {
            proof {
                reveal(RestrictionModel::wf);
                lemma_length_delimited_list_cons(5, w.subrange(i as int, w.len() as int));
                assert(m.catalogue_str[i as int] == self.catalogue_str@[i as int]@);
                assert(fits_u32(w[i as int]));
                assert(w.subrange(i as int, w.len() as int)[0] == w[i as int]);
                assert(w.subrange(i as int, w.len() as int).subrange(1, w.len() - i) =~= w.subrange(i + 1, w.len() as int));
            }
            let ghost before = out@;
            pb_write_tag(out, 5, WIRE_LENGTH_DELIMITED);
            write_string_value(out, self.catalogue_str[i].as_str());
            proof {
                lemma_write_list_step(before, tag_bytes(5, WIRE_LENGTH_DELIMITED), bytes_value_bytes(w[i as int]), length_delimited_list_bytes(5, w.subrange(i + 1, w.len() as int)), Seq::<u8>::empty());
                assert(length_delimited_list_bytes(5, w.subrange(i + 1, w.len() as int)) + Seq::<u8>::empty() =~= length_delimited_list_bytes(5, w.subrange(i + 1, w.len() as int)));
                assert(tag_bytes(5, WIRE_LENGTH_DELIMITED) + (bytes_value_bytes(w[i as int]) + length_delimited_list_bytes(5, w.subrange(i + 1, w.len() as int))) + Seq::<u8>::empty() =~= tag_bytes(5, WIRE_LENGTH_DELIMITED) + (bytes_value_bytes(w[i as int]) + length_delimited_list_bytes(5, w.subrange(i + 1, w.len() as int))));
            }
            i = i + 1;
        }
        assert(w.subrange(i as int, w.len() as int) =~= Seq::<Seq<u8>>::empty());
        assert(out@ + Seq::<u8>::empty() =~= out@);
        proof {
            lemma_concat_assoc(o, length_delimited_list_bytes(5, utf8_encodings(m.catalogue_str)), m.encoded_from_unknown_fields());
        }
    }

    /// Appends the fields of unknown numbers to `out`.
    fn write_unknown_fields(&self, out: &mut Vec<u8>)
        requires
            self@.wf(),
        ensures
            final(out)@ == old(out)@ + unknown_list_bytes(self@.unknown_fields),
    {
        proof {
            reveal(RestrictionModel::wf);
        }
        let ghost o = out@;
        let ghost m = self@;
        let mut j: usize = 0;
        assert(m.unknown_fields.subrange(0, m.unknown_fields.len() as int) =~= m.unknown_fields);
        assert(o + Seq::<u8>::empty() =~= o);
        while j < self.unknown_fields.len()
            invariant
                j <= self.unknown_fields.len(),
                self@ == m,
                m.wf(),
                o + unknown_list_bytes(m.unknown_fields) == out@ + unknown_list_bytes(m.unknown_fields.subrange(j as int, m.unknown_fields.len() as int)),
            decreases self.unknown_fields.len() - j,
        {
            proof {
                reveal(RestrictionModel::wf);
                lemma_unknown_list_cons(m.unknown_fields.subrange(j as int, m.unknown_fields.len() as int));
                assert(m.unknown_fields[j as int] == self.unknown_fields@[j as int]@);
                assert(m.unknown_fields.subrange(j as int, m.unknown_fields.len() as int)[0] == m.unknown_fields[j as int]);
                assert(m.unknown_fields.subrange(j as int, m.unknown_fields.len() as int).subrange(1, m.unknown_fields.len() - j) =~= m.unknown_fields.subrange(j + 1, m.unknown_fields.len() as int));
            }
            let ghost before = out@;
            write_unknown(out, &self.unknown_fields[j]);
            proof {
                lemma_concat_assoc(before, unknown_field_bytes(m.unknown_fields[j as int]), unknown_list_bytes(m.unknown_fields.subrange(j + 1, m.unknown_fields.len() as int)));
            }
            j = j + 1;
        }
        assert(m.unknown_fields.subrange(j as int, m.unknown_fields.len() as int) =~= Seq::<UnknownFieldModel>::empty());
        assert(out@ =~= o + unknown_list_bytes(m.unknown_fields));
    }

    /// Appends the encoding of the message to `out`.
    fn write_to(&self, out: &mut Vec<u8>)
        requires
            self@.wf(),
        ensures
            final(out)@ == old(out)@ + self@.to_bytes(),
    {
        proof {
            reveal(RestrictionModel::to_bytes);
        }
        let ghost o = out@;
        let ghost m = self@;
        assert(o + m.to_bytes() == out@ + m.encoded_from_countries_allowed());
        self.write_field_countries_allowed(out);
        self.write_field_countries_forbidden(out);
        self.write_field_typ(out);
        self.write_field_catalogue_str(out);
        self.write_unknown_fields(out);
    }

    /// The encoding of the message.
    pub fn write_to_bytes(&self) -> (r: Vec<u8>)
        requires
            self@.wf(),
        ensures
            r@ == self@.to_bytes(),
    {
        let mut out: Vec<u8> = Vec::new();
        self.write_to(&mut out);
        assert(out@ =~= self@.to_bytes());
        out
    }

    /// The length of the encoding of the message.
    pub fn compute_size(&self) -> (r: u32)
        requires
            self@.wf(),
            self@.to_bytes().len() <= u32::MAX,
        ensures
            r == self@.to_bytes().len(),
    {
        let v = self.write_to_bytes();
        v.len() as u32
    }
    /// A copy of the message.
    pub fn clone_message(&self) -> (r: Self)
        ensures
            r@ == self@,
    {
        let countries_allowed = clone_opt_string(&self.countries_allowed);
        let countries_forbidden = clone_opt_string(&self.countries_forbidden);
        let typ = self.typ;
        let catalogue_str = clone_strings(&self.catalogue_str);
        let unknown_fields = clone_unknown_fields(&self.unknown_fields);
        Restriction { countries_allowed, countries_forbidden, typ, catalogue_str, unknown_fields }
    }

}

impl Clone for Restriction {
    fn clone(&self) -> (r: Self)
        ensures
            r@ == self@,
    {
        self.clone_message()
    }
}

impl Default for Restriction {
    fn default() -> (r: Self)
        ensures
            r@ == RestrictionModel::empty(),
    {
        Restriction::new()
    }
}

/// The `SalePeriod` message.
#[allow(non_snake_case)]
#[derive(Debug, PartialEq)]
pub struct SalePeriod {
    restriction: Vec<Restriction>,
    start: Box<Date>,
    has_start: bool,
    end: Box<Date>,
    has_end: bool,
    unknown_fields: Vec<UnknownField>,
}

/// The model of a `SalePeriod`: each field's value, `None` or empty when unset,
/// and the fields of unknown numbers, in the order they were read.
#[allow(non_snake_case)]
pub struct SalePeriodModel {
    pub restriction: Seq<RestrictionModel>,
    pub start: Option<DateModel>,
    pub end: Option<DateModel>,
    pub unknown_fields: Seq<UnknownFieldModel>,
}

impl View for SalePeriod {
    type V = SalePeriodModel;

    closed spec fn view(&self) -> SalePeriodModel {
        SalePeriodModel {
            restriction: Restriction::seq_model(self.restriction@),
            start: if self.has_start {
                Some(self.start@)
            } else {
                None
            },
            end: if self.has_end {
                Some(self.end@)
            } else {
                None
            },
            unknown_fields: unknown_models(self.unknown_fields@),
        }
    }
}

#[allow(non_snake_case)]
impl SalePeriodModel {
    /// The model of a message with no field set.
    pub open spec fn empty() -> Self {
        SalePeriodModel {
            restriction: Seq::empty(),
            start: None,
            end: None,
            unknown_fields: Seq::empty(),
        }
    }

    /// The encodings of a list of messages.
    pub open spec fn encodings(v: Seq<SalePeriodModel>) -> Seq<Seq<u8>> {
        v.map_values(|m: SalePeriodModel| m.to_bytes())
    }

    /// Every message of a list can be written, and its encoding fits a 32-bit length.
    pub open spec fn all_writable(v: Seq<SalePeriodModel>) -> bool {
        forall|i: int| 0 <= i < v.len() ==> #[trigger] v[i].wf() && fits_u32(v[i].to_bytes())
    }

    /// The field numbers that this message knows.
    pub open spec fn is_known_field(f: u32) -> bool {
        f == 1 || f == 2 || f == 3
    }

    /// Merging one field whose tag (number `f`, wire type `wt`) has been read;
    /// `s` holds the bytes after the tag. The result is the merged model and
    /// the number of bytes the value took; a set field is replaced, a repeated
    /// field grows, a field of unknown number is kept or, if a group, skipped.
    pub open spec fn merge_field(self, f: u32, wt: u32, s: Seq<u8>, lim: nat) -> Option<(Self, nat)> {
        if f == 1 {
            if wt != WIRE_LENGTH_DELIMITED {
                None
            } else {
                match embedded_window(s, lim) {
                    Some((a, b, x)) => if 0 < a <= b <= s.len() {
                        match RestrictionModel::empty().merge(s.subrange(a as int, b as int), x) {
                            Some(x) => Some((SalePeriodModel { restriction: self.restriction.push(x), ..self }, b)),
                            None => None,
                        }
                    } else {
                        None
                    },
                    None => None,
                }
            }
        } else if f == 2 {
            if wt != WIRE_LENGTH_DELIMITED {
                None
            } else {
                match embedded_window(s, lim) {
                    Some((a, b, x)) => if 0 < a <= b <= s.len() {
                        match DateModel::empty().merge(s.subrange(a as int, b as int), x) {
                            Some(x) => Some((SalePeriodModel { start: Some(x), ..self }, b)),
                            None => None,
                        }
                    } else {
                        None
                    },
                    None => None,
                }
            }
        } else if f == 3 {
            if wt != WIRE_LENGTH_DELIMITED {
                None
            } else {
                match embedded_window(s, lim) {
                    Some((a, b, x)) => if 0 < a <= b <= s.len() {
                        match DateModel::empty().merge(s.subrange(a as int, b as int), x) {
                            Some(x) => Some((SalePeriodModel { end: Some(x), ..self }, b)),
                            None => None,
                        }
                    } else {
                        None
                    },
                    None => None,
                }
            }
        } else {
            match unknown_parse(f, wt, s) {
                Some((Some(u), k)) => Some((SalePeriodModel { unknown_fields: grouped_insert(self.unknown_fields, u), ..self }, k)),
                Some((None, k)) => Some((self, k)),
                None => None,
            }
        }
    }

    /// What is left of the model when merging one field (number `f`, wire type
    /// `wt`, value at the front of `s`) fails: a string, bytes or message field
    /// of the right wire type is first set to its empty value (a repeated one
    /// gets an empty element) and an embedded message keeps the fields merged
    /// into it before the failure; packed values read before the failure stay.
    pub open spec fn merge_field_failed(self, f: u32, wt: u32, s: Seq<u8>, lim: nat) -> Self {
        if f == 1 {
            if wt != WIRE_LENGTH_DELIMITED {
                self
            } else {
                match embedded_window(s, lim) {
                    Some((a, b, x)) => if 0 < a <= b <= s.len() {
                        SalePeriodModel { restriction: self.restriction.push(RestrictionModel::empty().merge_partial(s.subrange(a as int, b as int), x)), ..self }
                    } else {
                        SalePeriodModel { restriction: self.restriction.push(RestrictionModel::empty()), ..self }
                    },
                    None => SalePeriodModel { restriction: self.restriction.push(RestrictionModel::empty()), ..self },
                }
            }
        } else if f == 2 {
            if wt != WIRE_LENGTH_DELIMITED {
                self
            } else {
                match embedded_window(s, lim) {
                    Some((a, b, x)) => if 0 < a <= b <= s.len() {
                        SalePeriodModel { start: Some(DateModel::empty().merge_partial(s.subrange(a as int, b as int), x)), ..self }
                    } else {
                        SalePeriodModel { start: Some(DateModel::empty()), ..self }
                    },
                    None => SalePeriodModel { start: Some(DateModel::empty()), ..self },
                }
            }
        } else if f == 3 {
            if wt != WIRE_LENGTH_DELIMITED {
                self
            } else {
                match embedded_window(s, lim) {
                    Some((a, b, x)) => if 0 < a <= b <= s.len() {
                        SalePeriodModel { end: Some(DateModel::empty().merge_partial(s.subrange(a as int, b as int), x)), ..self }
                    } else {
                        SalePeriodModel { end: Some(DateModel::empty()), ..self }
                    },
                    None => SalePeriodModel { end: Some(DateModel::empty()), ..self },
                }
            }
        } else {
            self
        }
    }

    /// The value of a merged field takes no more than the bytes after its tag.
    pub proof fn lemma_merge_field_len(self, f: u32, wt: u32, s: Seq<u8>, lim: nat)
        ensures
            self.merge_field(f, wt, s, lim) matches Some((_m, k)) ==> k <= s.len(),
    {
        lemma_varint_parse_len(s);
        crate::wire::lemma_unknown_parse_len(f, wt, s);
    }

    /// Merging all the fields that `s` holds, in order, where the length of an
    /// embedded message may reach `lim` bytes past the end of `s` (such a message
    /// is read up to the end of `s`).
    #[verifier::opaque]
    pub open spec fn merge(self, s: Seq<u8>, lim: nat) -> Option<Self>
        decreases s.len(),
    {
        if s.len() == 0 {
            Some(self)
        } else {
            match tag_parse(s) {
                Some((f, wt, n)) => if 0 < n <= s.len() {
                    match self.merge_field(f, wt, s.skip(n as int), lim) {
                        Some((m, k)) => if n + k <= s.len() {
                            m.merge(s.skip((n + k) as int), lim)
                        } else {
                            None
                        },
                        None => None,
                    }
                } else {
                    None
                },
                None => None,
            }
        }
    }

    /// What merging `s` leaves: the fields merged in order up to the first one
    /// whose tag or value cannot be read, then what `merge_field_failed` leaves of
    /// that one; all of `s` where it is a valid encoding.
    #[verifier::opaque]
    pub open spec fn merge_partial(self, s: Seq<u8>, lim: nat) -> Self
        decreases s.len(),
    {
        if s.len() == 0 {
            self
        } else {
            match tag_parse(s) {
                Some((f, wt, n)) => if 0 < n <= s.len() {
                    match self.merge_field(f, wt, s.skip(n as int), lim) {
                        Some((m, k)) => if n + k <= s.len() {
                            m.merge_partial(s.skip((n + k) as int), lim)
                        } else {
                            m
                        },
                        None => self.merge_field_failed(f, wt, s.skip(n as int), lim),
                    }
                } else {
                    self
                },
                None => self,
            }
        }
    }

    /// The encoding of field `restriction` and of every field written after it.
    pub open spec fn encoded_from_restriction(self) -> Seq<u8> {
        length_delimited_list_bytes(1, RestrictionModel::encodings(self.restriction)) + self.encoded_from_start()
    }

    /// The encoding of field `start` and of every field written after it.
    pub open spec fn encoded_from_start(self) -> Seq<u8> {
        opt_length_delimited_field_bytes(2, match self.start { Some(m) => Some(m.to_bytes()), None => None }) + self.encoded_from_end()
    }

    /// The encoding of field `end` and of every field written after it.
    pub open spec fn encoded_from_end(self) -> Seq<u8> {
        opt_length_delimited_field_bytes(3, match self.end { Some(m) => Some(m.to_bytes()), None => None }) + self.encoded_from_unknown_fields()
    }

    /// The encoding of the fields of unknown numbers, written last.
    pub open spec fn encoded_from_unknown_fields(self) -> Seq<u8> {
        unknown_list_bytes(self.unknown_fields)
    }

    /// The encoding of the message: its set fields in order of declaration,
    /// each element of a repeated field in order, then the unknown fields.
    #[verifier::opaque]
    pub open spec fn to_bytes(self) -> Seq<u8> {
        self.encoded_from_restriction()
    }

    /// A model that can be written and read back: every length fits the
    /// 32-bit length prefix, nested messages can be written, and the unknown
    /// fields have valid numbers that this message does not know.
    #[verifier::opaque]
    pub open spec fn wf(self) -> bool {
        &&& RestrictionModel::all_writable(self.restriction)
        &&& (self.start matches Some(m) ==> m.wf() && fits_u32(m.to_bytes()))
        &&& (self.end matches Some(m) ==> m.wf() && fits_u32(m.to_bytes()))
        &&& (forall|i: int| 0 <= i < self.unknown_fields.len() ==> unknown_field_wf(#[trigger] self.unknown_fields[i]) && !Self::is_known_field(self.unknown_fields[i].number))
        &&& unknown_grouped(self.unknown_fields)
    }

    /// The message with no field set can be written and read back.
    pub proof fn lemma_empty_wf()
        ensures
            Self::empty().wf(),
    {
        reveal_with_fuel(SalePeriodModel::wf, 1);
        lemma_grouped_empty();
    }

    /// Merging a field's tag and value, whatever follows them.
    pub proof fn lemma_merge_step(acc: Self, f: u32, wt: u32, t: Seq<u8>, b: Seq<u8>, rest: Seq<u8>, acc2: Self, lim: nat)
        requires
            tag_parse(t + (b + rest)) == Some((f, wt, t.len())),
            t.len() > 0,
            acc.merge_field(f, wt, b + rest, lim) == Some((acc2, b.len())),
        ensures
            acc.merge(t + (b + rest), lim) == acc2.merge(rest, lim),
    {
        reveal_with_fuel(SalePeriodModel::merge, 1);
        lemma_skip_chunk(t, b, rest);
    }

    /// Merging the encoding of the elements of field `restriction` appends them, whatever follows.
    #[verifier::rlimit(50)]
    pub proof fn lemma_merge_restriction(acc: Self, v: Seq<RestrictionModel>, rest: Seq<u8>, lim: nat)
        requires
            RestrictionModel::all_writable(v),
        ensures
            acc.merge(length_delimited_list_bytes(1, RestrictionModel::encodings(v)) + rest, lim) == (SalePeriodModel { restriction: acc.restriction + v, ..acc }).merge(rest, lim),
        decreases v.len(),
    {
        let w = RestrictionModel::encodings(v);
        if v.len() == 0 {
            assert(length_delimited_list_bytes(1, w) + rest =~= rest);
            assert(acc.restriction + v =~= acc.restriction);
            assert((SalePeriodModel { restriction: acc.restriction + v, ..acc }) == acc);
        } else {
            lemma_length_delimited_list_cons(1, w);
            assert(v[0].wf() && fits_u32(v[0].to_bytes()));
            let t = tag_bytes(1, WIRE_LENGTH_DELIMITED);
            let b = bytes_value_bytes(w[0]);
            let tail = length_delimited_list_bytes(1, w.subrange(1, w.len() as int));
            assert(length_delimited_list_bytes(1, w) + rest =~= t + (b + (tail + rest)));
            lemma_tag_roundtrip(1, WIRE_LENGTH_DELIMITED, b + (tail + rest));
            lemma_message_window(v[0].to_bytes(), tail + rest);
            lemma_embedded_window(v[0].to_bytes(), tail + rest, lim);
            v[0].lemma_roundtrip(0);
            lemma_varint_parse_len(b + (tail + rest));
            let acc1 = SalePeriodModel { restriction: acc.restriction.push(v[0]), ..acc };
            Self::lemma_merge_step(acc, 1, WIRE_LENGTH_DELIMITED, t, b, tail + rest, acc1, lim);
            assert(w.subrange(1, w.len() as int) =~= RestrictionModel::encodings(v.subrange(1, v.len() as int)));
            assert forall|j: int| 0 <= j < v.len() - 1 implies #[trigger] v.subrange(1, v.len() as int)[j].wf() && fits_u32(v.subrange(1, v.len() as int)[j].to_bytes()) by {
                assert(v.subrange(1, v.len() as int)[j] == v[j + 1]);
            }
            Self::lemma_merge_restriction(acc1, v.subrange(1, v.len() as int), rest, lim);
            assert(acc1.restriction + v.subrange(1, v.len() as int) =~= acc.restriction + v);
        }
    }

    /// Merging the encoding of field `start` sets it, whatever follows.
    pub proof fn lemma_merge_start(acc: Self, v: Option<DateModel>, rest: Seq<u8>, lim: nat)
        requires
            (v matches Some(m) ==> m.wf() && fits_u32(m.to_bytes())),
        ensures
            acc.merge(opt_length_delimited_field_bytes(2, match v { Some(m) => Some(m.to_bytes()), None => None }) + rest, lim) == (SalePeriodModel { start: if v is Some { v } else { acc.start }, ..acc }).merge(rest, lim),
    {
        match v {
            None => {
                assert(opt_length_delimited_field_bytes(2, match v { Some(m) => Some(m.to_bytes()), None => None }) + rest =~= rest);
                assert((SalePeriodModel { start: acc.start, ..acc }) == acc);
            },
            Some(x) => {
                let t = tag_bytes(2, WIRE_LENGTH_DELIMITED);
                let b = bytes_value_bytes(x.to_bytes());
                assert(opt_length_delimited_field_bytes(2, match v { Some(m) => Some(m.to_bytes()), None => None }) + rest =~= t + (b + rest));
                lemma_tag_roundtrip(2, WIRE_LENGTH_DELIMITED, b + rest);
                lemma_message_window(x.to_bytes(), rest);
                    lemma_embedded_window(x.to_bytes(), rest, lim);
                    x.lemma_roundtrip(0);
                    lemma_varint_parse_len(bytes_value_bytes(x.to_bytes()) + rest);
                Self::lemma_merge_step(acc, 2, WIRE_LENGTH_DELIMITED, t, b, rest, SalePeriodModel { start: v, ..acc }, lim);
            },
        }
    }

    /// Merging the encoding of field `end` sets it, whatever follows.
    pub proof fn lemma_merge_end(acc: Self, v: Option<DateModel>, rest: Seq<u8>, lim: nat)
        requires
            (v matches Some(m) ==> m.wf() && fits_u32(m.to_bytes())),
        ensures
            acc.merge(opt_length_delimited_field_bytes(3, match v { Some(m) => Some(m.to_bytes()), None => None }) + rest, lim) == (SalePeriodModel { end: if v is Some { v } else { acc.end }, ..acc }).merge(rest, lim),
    {
        match v {
            None => {
                assert(opt_length_delimited_field_bytes(3, match v { Some(m) => Some(m.to_bytes()), None => None }) + rest =~= rest);
                assert((SalePeriodModel { end: acc.end, ..acc }) == acc);
            },
            Some(x) => {
                let t = tag_bytes(3, WIRE_LENGTH_DELIMITED);
                let b = bytes_value_bytes(x.to_bytes());
                assert(opt_length_delimited_field_bytes(3, match v { Some(m) => Some(m.to_bytes()), None => None }) + rest =~= t + (b + rest));
                lemma_tag_roundtrip(3, WIRE_LENGTH_DELIMITED, b + rest);
                lemma_message_window(x.to_bytes(), rest);
                    lemma_embedded_window(x.to_bytes(), rest, lim);
                    x.lemma_roundtrip(0);
                    lemma_varint_parse_len(bytes_value_bytes(x.to_bytes()) + rest);
                Self::lemma_merge_step(acc, 3, WIRE_LENGTH_DELIMITED, t, b, rest, SalePeriodModel { end: v, ..acc }, lim);
            },
        }
    }

    /// Merging the encoding of fields of unknown numbers keeps them, whatever follows.
    #[verifier::rlimit(50)]
    pub proof fn lemma_merge_unknown_fields(acc: Self, v: Seq<UnknownFieldModel>, rest: Seq<u8>, lim: nat)
        requires
            forall|i: int| 0 <= i < v.len() ==> unknown_field_wf(#[trigger] v[i]) && !Self::is_known_field(v[i].number),
            unknown_grouped(acc.unknown_fields + v),
        ensures
            acc.merge(unknown_list_bytes(v) + rest, lim) == (SalePeriodModel { unknown_fields: acc.unknown_fields + v, ..acc }).merge(rest, lim),
        decreases v.len(),
    {
        if v.len() == 0 {
            assert(unknown_list_bytes(v) + rest =~= rest);
            assert(acc.unknown_fields + v =~= acc.unknown_fields);
            assert((SalePeriodModel { unknown_fields: acc.unknown_fields + v, ..acc }) == acc);
        } else {
            lemma_unknown_list_cons(v);
            let u = v[0];
            let wt = crate::wire::unknown_wire_type(u.value);
            let t = tag_bytes(u.number, wt);
            let b = crate::wire::unknown_value_bytes(u.value);
            let tail = unknown_list_bytes(v.subrange(1, v.len() as int));
            assert(unknown_list_bytes(v) + rest =~= t + (b + (tail + rest)));
            assert(unknown_field_bytes(u) + (tail + rest) =~= t + (b + (tail + rest)));
            lemma_unknown_roundtrip(u, tail + rest);
            assert((t + (b + (tail + rest))).skip(t.len() as int) =~= b + (tail + rest));
            crate::wire::lemma_tag_roundtrip(u.number, wt, b + (tail + rest));
            let acc1 = SalePeriodModel { unknown_fields: acc.unknown_fields.push(u), ..acc };
            assert(acc.unknown_fields.push(u) =~= (acc.unknown_fields + v).take(acc.unknown_fields.len() + 1int));
            lemma_grouped_take(acc.unknown_fields + v, acc.unknown_fields.len() + 1int);
            lemma_grouped_insert_last(acc.unknown_fields, u);
            Self::lemma_merge_step(acc, u.number, wt, t, b, tail + rest, acc1, lim);
            assert(acc1.unknown_fields + v.subrange(1, v.len() as int) =~= acc.unknown_fields + v);
            Self::lemma_merge_unknown_fields(acc1, v.subrange(1, v.len() as int), rest, lim);
        }
    }

    /// Reading back the encoding of a model that can be written gives the model,
    /// whatever the limit past its end.
    #[verifier::spinoff_prover]
    #[verifier::rlimit(100)]
    pub proof fn lemma_roundtrip(self, lim: nat)
        requires
            self.wf(),
        ensures
            SalePeriodModel::empty().merge(self.to_bytes(), lim) == Some(self),
    {
        reveal(SalePeriodModel::to_bytes);
        reveal(SalePeriodModel::wf);
        reveal_with_fuel(SalePeriodModel::merge, 1);
        let a0 = SalePeriodModel::empty();
        assert(RestrictionModel::all_writable(self.restriction));
        Self::lemma_merge_restriction(a0, self.restriction, self.encoded_from_start(), lim);
        let a1 = SalePeriodModel { restriction: a0.restriction + self.restriction, ..a0 };
        assert((self.start matches Some(m) ==> m.wf() && fits_u32(m.to_bytes())));
        Self::lemma_merge_start(a1, self.start, self.encoded_from_end(), lim);
        let a2 = SalePeriodModel { start: if self.start is Some { self.start } else { a1.start }, ..a1 };
        assert((self.end matches Some(m) ==> m.wf() && fits_u32(m.to_bytes())));
        Self::lemma_merge_end(a2, self.end, self.encoded_from_unknown_fields(), lim);
        let a3 = SalePeriodModel { end: if self.end is Some { self.end } else { a2.end }, ..a2 };
        assert(a3.unknown_fields + self.unknown_fields =~= self.unknown_fields);
        Self::lemma_merge_unknown_fields(a3, self.unknown_fields, Seq::empty(), lim);
        assert(unknown_list_bytes(self.unknown_fields) + Seq::<u8>::empty() =~= unknown_list_bytes(self.unknown_fields));
        let last = SalePeriodModel { unknown_fields: a3.unknown_fields + self.unknown_fields, ..a3 };
        assert(last.restriction =~= self.restriction);
        assert(last.unknown_fields =~= self.unknown_fields);
        assert(last == self);
    }
    /// A message whose only set field is `restriction` is written as field number 1 of the
    /// protocol's definition alone: the tag of that number with the wire type of the field,
    /// then the value.
    pub proof fn lemma_encoding_of_restriction(v: Seq<RestrictionModel>)
        ensures
            (SalePeriodModel { restriction: v, ..SalePeriodModel::empty() }).to_bytes() == length_delimited_list_bytes(1, RestrictionModel::encodings(v)),
    {
        reveal(SalePeriodModel::to_bytes);
        let m = SalePeriodModel { restriction: v, ..SalePeriodModel::empty() };
        assert(m.to_bytes() =~= length_delimited_list_bytes(1, RestrictionModel::encodings(v)));
    }

    /// A message whose only set field is `start` is written as field number 2 of the
    /// protocol's definition alone: the tag of that number with the wire type of the field,
    /// then the value.
    pub proof fn lemma_encoding_of_start(v: Option<DateModel>)
        ensures
            (SalePeriodModel { start: v, ..SalePeriodModel::empty() }).to_bytes() == opt_length_delimited_field_bytes(2, match v { Some(m) => Some(m.to_bytes()), None => None }),
    {
        reveal(SalePeriodModel::to_bytes);
        let m = SalePeriodModel { start: v, ..SalePeriodModel::empty() };
        assert(m.to_bytes() =~= opt_length_delimited_field_bytes(2, match v { Some(m) => Some(m.to_bytes()), None => None }));
    }

    /// A message whose only set field is `end` is written as field number 3 of the
    /// protocol's definition alone: the tag of that number with the wire type of the field,
    /// then the value.
    pub proof fn lemma_encoding_of_end(v: Option<DateModel>)
        ensures
            (SalePeriodModel { end: v, ..SalePeriodModel::empty() }).to_bytes() == opt_length_delimited_field_bytes(3, match v { Some(m) => Some(m.to_bytes()), None => None }),
    {
        reveal(SalePeriodModel::to_bytes);
        let m = SalePeriodModel { end: v, ..SalePeriodModel::empty() };
        assert(m.to_bytes() =~= opt_length_delimited_field_bytes(3, match v { Some(m) => Some(m.to_bytes()), None => None }));
    }

}

#[allow(non_snake_case)]
impl SalePeriod {
    #[verifier::type_invariant]
    spec fn unset_fields_are_empty(self) -> bool {
        (!self.has_start ==> self.start@ == DateModel::empty())
        && (!self.has_end ==> self.end@ == DateModel::empty())
    }

    /// The models of a list of messages.
    pub open spec fn seq_model(v: Seq<SalePeriod>) -> Seq<SalePeriodModel> {
        v.map_values(|m: SalePeriod| m@)
    }

    /// A message with no field set.
    pub fn new() -> (r: Self)
        ensures
            r@ == SalePeriodModel::empty(),
            r@.wf(),
    {
        let r = SalePeriod {
            restriction: Vec::new(),
            start: Box::new(Date::new()),
            has_start: false,
            end: Box::new(Date::new()),
            has_end: false,
            unknown_fields: Vec::new(),
        };
        assert(Restriction::seq_model(r.restriction@) =~= Seq::<RestrictionModel>::empty());
        assert(unknown_models(r.unknown_fields@) =~= Seq::<UnknownFieldModel>::empty());
        proof {
            SalePeriodModel::lemma_empty_wf();
        }
        r
    }

    /// Empties field `restriction`.
    pub fn clear_restriction(&mut self)
        ensures
            final(self)@ == (SalePeriodModel { restriction: Seq::empty(), ..old(self)@ }),
    {
        proof {
            use_type_invariant(&*self);
        }
        self.restriction = Vec::new();
        assert(Restriction::seq_model(self.restriction@) =~= Seq::<RestrictionModel>::empty());
    }

    /// Sets field `restriction` to the elements of `v`.
    pub fn set_restriction(&mut self, v: Vec<Restriction>)
        ensures
            final(self)@ == (SalePeriodModel { restriction: Restriction::seq_model(v@), ..old(self)@ }),
    {
        proof {
            use_type_invariant(&*self);
        }
        self.restriction = v;
    }

    /// The elements of field `restriction`, to change in place.
    pub fn mut_restriction(&mut self) -> (r: &mut Vec<Restriction>)
        ensures
            Restriction::seq_model(r@) == old(self)@.restriction,
            final(self)@ == (SalePeriodModel { restriction: Restriction::seq_model(final(r)@), ..old(self)@ }),
    {
        proof {
            use_type_invariant(&*self);
        }
        field_mut(&mut self.restriction)
    }

    /// Takes the elements of field `restriction`, leaving it empty.
    pub fn take_restriction(&mut self) -> (r: Vec<Restriction>)
        ensures
            Restriction::seq_model(r@) == old(self)@.restriction,
            final(self)@ == (SalePeriodModel { restriction: Seq::empty(), ..old(self)@ }),
    {
        proof {
            use_type_invariant(&*self);
        }
        let mut r = Vec::new();
        std::mem::swap(&mut r, &mut self.restriction);
        assert(Restriction::seq_model(self.restriction@) =~= Seq::<RestrictionModel>::empty());
        r
    }

    /// The elements of field `restriction`.
    pub fn get_restriction(&self) -> (r: &[Restriction])
        ensures
            Restriction::seq_model(r@) == self@.restriction,
    {
        self.restriction.as_slice()
    }

    /// Unsets field `start`.
    pub fn clear_start(&mut self)
        ensures
            final(self)@ == (SalePeriodModel { start: None, ..old(self)@ }),
    {
        proof {
            use_type_invariant(&*self);
        }
        self.start = Box::new(Date::new());
        self.has_start = false;
    }

    /// Whether field `start` is set.
    pub fn has_start(&self) -> (r: bool)
        ensures
            r == self@.start is Some,
    {
        self.has_start
    }

    /// Sets field `start` to `v`.
    pub fn set_start(&mut self, v: Date)
        ensures
            final(self)@ == (SalePeriodModel { start: Some(v@), ..old(self)@ }),
    {
        proof {
            use_type_invariant(&*self);
        }
        self.has_start = true;
        self.start = Box::new(v);
    }

    /// Field `start`, to change in place; an unset field is first set to its default.
    pub fn mut_start(&mut self) -> (r: &mut Date)
        ensures
            r@ == (match old(self)@.start { Some(x) => x, None => DateModel::empty() }),
            final(self)@ == (SalePeriodModel { start: Some(final(r)@), ..old(self)@ }),

        no_unwind
    {
        proof {
            use_type_invariant(&*self);
        }
        self.has_start = true;
        box_mut(&mut self.start)
    }

    /// Takes field `start` (its default when unset), leaving it unset.
    pub fn take_start(&mut self) -> (r: Date)
        ensures
            r@ == (match old(self)@.start { Some(x) => x, None => DateModel::empty() }),
            final(self)@ == (SalePeriodModel { start: None, ..old(self)@ }),
    {
        proof {
            use_type_invariant(&*self);
        }
        let mut b = Box::new(Date::new());
        std::mem::swap(&mut b, &mut self.start);
        self.has_start = false;
        *b
    }

    /// Field `start`, or a message with no field set when unset.
    pub fn get_start(&self) -> (r: &Date)
        ensures
            r@ == (match self@.start { Some(x) => x, None => DateModel::empty() }),
    {
        proof {
            use_type_invariant(self);
        }
        &self.start
    }

    /// Unsets field `end`.
    pub fn clear_end(&mut self)
        ensures
            final(self)@ == (SalePeriodModel { end: None, ..old(self)@ }),
    {
        proof {
            use_type_invariant(&*self);
        }
        self.end = Box::new(Date::new());
        self.has_end = false;
    }

    /// Whether field `end` is set.
    pub fn has_end(&self) -> (r: bool)
        ensures
            r == self@.end is Some,
    {
        self.has_end
    }

    /// Sets field `end` to `v`.
    pub fn set_end(&mut self, v: Date)
        ensures
            final(self)@ == (SalePeriodModel { end: Some(v@), ..old(self)@ }),
    {
        proof {
            use_type_invariant(&*self);
        }
        self.has_end = true;
        self.end = Box::new(v);
    }

    /// Field `end`, to change in place; an unset field is first set to its default.
    pub fn mut_end(&mut self) -> (r: &mut Date)
        ensures
            r@ == (match old(self)@.end { Some(x) => x, None => DateModel::empty() }),
            final(self)@ == (SalePeriodModel { end: Some(final(r)@), ..old(self)@ }),

        no_unwind
    {
        proof {
            use_type_invariant(&*self);
        }
        self.has_end = true;
        box_mut(&mut self.end)
    }

    /// Takes field `end` (its default when unset), leaving it unset.
    pub fn take_end(&mut self) -> (r: Date)
        ensures
            r@ == (match old(self)@.end { Some(x) => x, None => DateModel::empty() }),
            final(self)@ == (SalePeriodModel { end: None, ..old(self)@ }),
    {
        proof {
            use_type_invariant(&*self);
        }
        let mut b = Box::new(Date::new());
        std::mem::swap(&mut b, &mut self.end);
        self.has_end = false;
        *b
    }

    /// Field `end`, or a message with no field set when unset.
    pub fn get_end(&self) -> (r: &Date)
        ensures
            r@ == (match self@.end { Some(x) => x, None => DateModel::empty() }),
    {
        proof {
            use_type_invariant(self);
        }
        &self.end
    }

    /// Merges one field whose tag (number `f`, wire type `wt`) has been read
    /// from the bytes `s` that follow the tag; returns the number of bytes the
    /// value took.
    fn merge_field(&mut self, f: u32, wt: u32, s: &[u8], lim: u64) -> (r: Option<usize>)
        ensures
            match old(self)@.merge_field(f, wt, s@, lim as nat) {
                Some((m, k)) => r == Some(k as usize) && final(self)@ == m,
                None => r is None && final(self)@ == old(self)@.merge_field_failed(f, wt, s@, lim as nat),
            },
    {
        proof {
            use_type_invariant(&*self);
        }
        if f == 1 {
            if wt != WIRE_LENGTH_DELIMITED {
                return None;
            }
            match read_embedded_window(s, lim) {
                Some((a, b, past)) => {
                    if a == 0 || a > b || b > s.len() {
                        let x = Restriction::new();
                        let ghost old_v = self.restriction@;
                        field_mut(&mut self.restriction).push(x);
                        assert(Restriction::seq_model(self.restriction@) =~= Restriction::seq_model(old_v).push(self.restriction@.last()@));
                        return None;
                    }
                    let sub = &s[a..b];
                    let mut x = Restriction::new();
                    let ok = x.merge_from_slice(sub, past);
                    let ghost old_v = self.restriction@;
                    field_mut(&mut self.restriction).push(x);
                    assert(Restriction::seq_model(self.restriction@) =~= Restriction::seq_model(old_v).push(self.restriction@.last()@));
                    if ok {
                        Some(b)
                    } else {
                        None
                    }
                },
                None => {
                    let x = Restriction::new();
                    let ghost old_v = self.restriction@;
                    field_mut(&mut self.restriction).push(x);
                    assert(Restriction::seq_model(self.restriction@) =~= Restriction::seq_model(old_v).push(self.restriction@.last()@));
                    None
                },
            }
        } else if f == 2 {
            if wt != WIRE_LENGTH_DELIMITED {
                return None;
            }
            match read_embedded_window(s, lim) {
                Some((a, b, past)) => {
                    if a == 0 || a > b || b > s.len() {
                        let x = Date::new();
                        self.has_start = true;
                        self.start = Box::new(x);
                        return None;
                    }
                    let sub = &s[a..b];
                    let mut x = Date::new();
                    let ok = x.merge_from_slice(sub, past);
                    self.has_start = true;
                    self.start = Box::new(x);
                    if ok {
                        Some(b)
                    } else {
                        None
                    }
                },
                None => {
                    let x = Date::new();
                    self.has_start = true;
                    self.start = Box::new(x);
                    None
                },
            }
        } else if f == 3 {
            if wt != WIRE_LENGTH_DELIMITED {
                return None;
            }
            match read_embedded_window(s, lim) {
                Some((a, b, past)) => {
                    if a == 0 || a > b || b > s.len() {
                        let x = Date::new();
                        self.has_end = true;
                        self.end = Box::new(x);
                        return None;
                    }
                    let sub = &s[a..b];
                    let mut x = Date::new();
                    let ok = x.merge_from_slice(sub, past);
                    self.has_end = true;
                    self.end = Box::new(x);
                    if ok {
                        Some(b)
                    } else {
                        None
                    }
                },
                None => {
                    let x = Date::new();
                    self.has_end = true;
                    self.end = Box::new(x);
                    None
                },
            }
        } else {
            match read_unknown(f, wt, s) {
                Some((Some(u), k)) => {
                    insert_unknown(field_mut(&mut self.unknown_fields), u);
                    Some(k)
                },
                Some((None, k)) => Some(k),
                None => None,
            }
        }
    }

    /// Merges all the fields that `s` holds, in order; `false` when the bytes
    /// are not a valid encoding (the message then holds what was merged so far).
    #[verifier::spinoff_prover]
    #[verifier::rlimit(50)]
    fn merge_from_slice(&mut self, s: &[u8], lim: u64) -> (ok: bool)
        ensures
            match old(self)@.merge(s@, lim as nat) {
                Some(m) => ok && final(self)@ == m,
                None => !ok && final(self)@ == old(self)@.merge_partial(s@, lim as nat),
            },
    {
        proof {
            reveal_with_fuel(SalePeriodModel::merge, 1);
            reveal_with_fuel(SalePeriodModel::merge_partial, 1);
        }
        let mut pos: usize = 0;
        assert(s@.skip(0) =~= s@);
        while pos < s.len()
            invariant
                pos <= s.len(),
                old(self)@.merge(s@, lim as nat) == self@.merge(s@.skip(pos as int), lim as nat),
                old(self)@.merge_partial(s@, lim as nat) == self@.merge_partial(s@.skip(pos as int), lim as nat),
            decreases s.len() - pos,
        {
            let rest = &s[pos..s.len()];
            assert(rest@ == s@.skip(pos as int));
            proof {
                reveal_with_fuel(SalePeriodModel::merge, 1);
                reveal_with_fuel(SalePeriodModel::merge_partial, 1);
                lemma_tag_parse_len(rest@);
            }
            match pb_read_tag_unpack(rest) {
                None => {
                    return false;
                },
                Some((f, wt, n)) => {
                    if n == 0 || n > rest.len() {
                        return false;
                    }
                    let rest2 = &rest[n..rest.len()];
                    assert(rest2@ == rest@.skip(n as int));
                    proof {
                        self@.lemma_merge_field_len(f, wt, rest2@, lim as nat);
                    }
                    match self.merge_field(f, wt, rest2, lim) {
                        None => {
                            return false;
                        },
                        Some(k) => {
                            if k > rest2.len() {
                                return false;
                            }
                            assert(rest@.skip((n + k) as int) =~= s@.skip((pos + n + k) as int));
                            pos = pos + n + k;
                        },
                    }
                },
            }
        }
        assert(s@.skip(pos as int) =~= Seq::<u8>::empty());
        proof {
            reveal_with_fuel(SalePeriodModel::merge, 1);
        }
        true
    }

    /// The message that `s` encodes, if it is a valid encoding.
    fn parse_slice(s: &[u8], lim: u64) -> (r: Option<Self>)
        ensures
            match SalePeriodModel::empty().merge(s@, lim as nat) {
                Some(m) => r matches Some(x) && x@ == m,
                None => r is None,
            },
    {
        let mut m = SalePeriod::new();
        if m.merge_from_slice(s, lim) {
            Some(m)
        } else {
            None
        }
    }

    /// Merges the fields that `bytes` encodes into this message, in order: a set
    /// field is replaced, a repeated field grows. On an invalid encoding the
    /// error comes back, the fields merged before the first field that could not
    /// be read stay merged, and that field is left as `merge_field_failed` says.
    pub fn merge_from_bytes(&mut self, bytes: &[u8]) -> (r: Result<(), DecodeError>)
        ensures
            match old(self)@.merge(bytes@, top_limit(bytes@.len())) {
                Some(m) => r is Ok && final(self)@ == m,
                None => r is Err && final(self)@ == old(self)@.merge_partial(bytes@, top_limit(bytes@.len())),
            },
    {
        let lim: u64 = u64::MAX - bytes.len() as u64;
        if self.merge_from_slice(bytes, lim) {
            Ok(())
        } else {
            Err(DecodeError)
        }
    }

    /// Parses a message from its encoding.
    pub fn parse_from_bytes(bytes: &[u8]) -> (r: Result<Self, DecodeError>)
        ensures
            match SalePeriodModel::empty().merge(bytes@, top_limit(bytes@.len())) {
                Some(m) => r matches Ok(x) && x@ == m,
                None => r is Err,
            },
    {
        let lim: u64 = u64::MAX - bytes.len() as u64;
        match Self::parse_slice(bytes, lim) {
            Some(m) => Ok(m),
            None => Err(DecodeError),
        }
    }

    /// Appends the encoding of field `restriction` to `out`.
    fn write_field_restriction(&self, out: &mut Vec<u8>)
        requires
            self@.wf(),
        ensures
            final(out)@ == old(out)@ + length_delimited_list_bytes(1, RestrictionModel::encodings(self@.restriction)),
            final(out)@ + self@.encoded_from_start() == old(out)@ + self@.encoded_from_restriction(),
    {
        proof {
            use_type_invariant(self);
        }
        proof {
            reveal(SalePeriodModel::wf);
        }
        let ghost o = out@;
        let ghost m = self@;
        let ghost w = RestrictionModel::encodings(m.restriction);
        assert(w.subrange(0, w.len() as int) =~= w);
        assert(o + Seq::<u8>::empty() =~= o);
        let mut i: usize = 0;
        while i < self.restriction.len()
            invariant
                i <= self.restriction.len(),
                self@ == m,
                m.wf(),
                w.len() == self.restriction@.len(),
                w == RestrictionModel::encodings(m.restriction),
                o + length_delimited_list_bytes(1, w) == out@ + length_delimited_list_bytes(1, w.subrange(i as int, w.len() as int)),
            decreases self.restriction.len() - i,
        {
            proof {
                reveal(SalePeriodModel::wf);
                lemma_length_delimited_list_cons(1, w.subrange(i as int, w.len() as int));
                assert(m.restriction[i as int] == self.restriction@[i as int]@);
                assert(m.restriction[i as int].wf());
                assert(w.subrange(i as int, w.len() as int)[0] == w[i as int]);
                assert(w.subrange(i as int, w.len() as int).subrange(1, w.len() - i) =~= w.subrange(i + 1, w.len() as int));
            }
            let ghost before = out@;
            let mut tmp: Vec<u8> = Vec::new();
            self.restriction[i].write_to(&mut tmp);
            assert(tmp@ =~= w[i as int]);
            pb_write_tag(out, 1, WIRE_LENGTH_DELIMITED);
            write_bytes_value(out, tmp.as_slice());
            proof {
                lemma_write_list_step(before, tag_bytes(1, WIRE_LENGTH_DELIMITED), bytes_value_bytes(w[i as int]), length_delimited_list_bytes(1, w.subrange(i + 1, w.len() as int)), Seq::<u8>::empty());
                assert(length_delimited_list_bytes(1, w.subrange(i + 1, w.len() as int)) + Seq::<u8>::empty() =~= length_delimited_list_bytes(1, w.subrange(i + 1, w.len() as int)));
                assert(tag_bytes(1, WIRE_LENGTH_DELIMITED) + (bytes_value_bytes(w[i as int]) + length_delimited_list_bytes(1, w.subrange(i + 1, w.len() as int))) + Seq::<u8>::empty() =~= tag_bytes(1, WIRE_LENGTH_DELIMITED) + (bytes_value_bytes(w[i as int]) + length_delimited_list_bytes(1, w.subrange(i + 1, w.len() as int))));
            }
            i = i + 1;
        }
        assert(w.subrange(i as int, w.len() as int) =~= Seq::<Seq<u8>>::empty());
        assert(out@ + Seq::<u8>::empty() =~= out@);
        proof {
            lemma_concat_assoc(o, length_delimited_list_bytes(1, RestrictionModel::encodings(m.restriction)), m.encoded_from_start());
        }
    }

    /// Appends the encoding of field `start` to `out`.
    fn write_field_start(&self, out: &mut Vec<u8>)
        requires
            self@.wf(),
        ensures
            final(out)@ == old(out)@ + opt_length_delimited_field_bytes(2, match self@.start { Some(m) => Some(m.to_bytes()), None => None }),
            final(out)@ + self@.encoded_from_end() == old(out)@ + self@.encoded_from_start(),
    {
        proof {
            use_type_invariant(self);
        }
        proof {
            reveal(SalePeriodModel::wf);
        }
        let ghost o = out@;
        let ghost m = self@;
        if self.has_start {
            let mut tmp: Vec<u8> = Vec::new();
            self.start.write_to(&mut tmp);
            assert(tmp@ =~= m.start.unwrap().to_bytes());
            pb_write_tag(out, 2, WIRE_LENGTH_DELIMITED);
            write_bytes_value(out, tmp.as_slice());
            proof {
                lemma_concat_assoc(o, tag_bytes(2, WIRE_LENGTH_DELIMITED), bytes_value_bytes(tmp@));
            }
        } else {
            assert(o + Seq::<u8>::empty() =~= o);
        }
        proof {
            lemma_concat_assoc(o, opt_length_delimited_field_bytes(2, match m.start { Some(m) => Some(m.to_bytes()), None => None }), m.encoded_from_end());
        }
    }

    /// Appends the encoding of field `end` to `out`.
    fn write_field_end(&self, out: &mut Vec<u8>)
        requires
            self@.wf(),
        ensures
            final(out)@ == old(out)@ + opt_length_delimited_field_bytes(3, match self@.end { Some(m) => Some(m.to_bytes()), None => None }),
            final(out)@ + self@.encoded_from_unknown_fields() == old(out)@ + self@.encoded_from_end(),
    {
        proof {
            use_type_invariant(self);
        }
        proof {
            reveal(SalePeriodModel::wf);
        }
        let ghost o = out@;
        let ghost m = self@;
        if self.has_end {
            let mut tmp: Vec<u8> = Vec::new();
            self.end.write_to(&mut tmp);
            assert(tmp@ =~= m.end.unwrap().to_bytes());
            pb_write_tag(out, 3, WIRE_LENGTH_DELIMITED);
            write_bytes_value(out, tmp.as_slice());
            proof {
                lemma_concat_assoc(o, tag_bytes(3, WIRE_LENGTH_DELIMITED), bytes_value_bytes(tmp@));
            }
        } else {
            assert(o + Seq::<u8>::empty() =~= o);
        }
        proof {
            lemma_concat_assoc(o, opt_length_delimited_field_bytes(3, match m.end { Some(m) => Some(m.to_bytes()), None => None }), m.encoded_from_unknown_fields());
        }
    }

    /// Appends the fields of unknown numbers to `out`.
    fn write_unknown_fields(&self, out: &mut Vec<u8>)
        requires
            self@.wf(),
        ensures
            final(out)@ == old(out)@ + unknown_list_bytes(self@.unknown_fields),
    {
        proof {
            reveal(SalePeriodModel::wf);
        }
        let ghost o = out@;
        let ghost m = self@;
        let mut j: usize = 0;
        assert(m.unknown_fields.subrange(0, m.unknown_fields.len() as int) =~= m.unknown_fields);
        assert(o + Seq::<u8>::empty() =~= o);
        while j < self.unknown_fields.len()
            invariant
                j <= self.unknown_fields.len(),
                self@ == m,
                m.wf(),
                o + unknown_list_bytes(m.unknown_fields) == out@ + unknown_list_bytes(m.unknown_fields.subrange(j as int, m.unknown_fields.len() as int)),
            decreases self.unknown_fields.len() - j,
        {
            proof {
                reveal(SalePeriodModel::wf);
                lemma_unknown_list_cons(m.unknown_fields.subrange(j as int, m.unknown_fields.len() as int));
                assert(m.unknown_fields[j as int] == self.unknown_fields@[j as int]@);
                assert(m.unknown_fields.subrange(j as int, m.unknown_fields.len() as int)[0] == m.unknown_fields[j as int]);
                assert(m.unknown_fields.subrange(j as int, m.unknown_fields.len() as int).subrange(1, m.unknown_fields.len() - j) =~= m.unknown_fields.subrange(j + 1, m.unknown_fields.len() as int));
            }
            let ghost before = out@;
            write_unknown(out, &self.unknown_fields[j]);
            proof {
                lemma_concat_assoc(before, unknown_field_bytes(m.unknown_fields[j as int]), unknown_list_bytes(m.unknown_fields.subrange(j + 1, m.unknown_fields.len() as int)));
            }
            j = j + 1;
        }
        assert(m.unknown_fields.subrange(j as int, m.unknown_fields.len() as int) =~= Seq::<UnknownFieldModel>::empty());
        assert(out@ =~= o + unknown_list_bytes(m.unknown_fields));
    }

    /// Appends the encoding of the message to `out`.
    fn write_to(&self, out: &mut Vec<u8>)
        requires
            self@.wf(),
        ensures
            final(out)@ == old(out)@ + self@.to_bytes(),
    {
        proof {
            reveal(SalePeriodModel::to_bytes);
        }
        let ghost o = out@;
        let ghost m = self@;
        assert(o + m.to_bytes() == out@ + m.encoded_from_restriction());
        self.write_field_restriction(out);
        self.write_field_start(out);
        self.write_field_end(out);
        self.write_unknown_fields(out);
    }

    /// The encoding of the message.
    pub fn write_to_bytes(&self) -> (r: Vec<u8>)
        requires
            self@.wf(),
        ensures
            r@ == self@.to_bytes(),
    {
        let mut out: Vec<u8> = Vec::new();
        self.write_to(&mut out);
        assert(out@ =~= self@.to_bytes());
        out
    }

    /// The length of the encoding of the message.
    pub fn compute_size(&self) -> (r: u32)
        requires
            self@.wf(),
            self@.to_bytes().len() <= u32::MAX,
        ensures
            r == self@.to_bytes().len(),
    {
        let v = self.write_to_bytes();
        v.len() as u32
    }
    /// A copy of the message.
    pub fn clone_message(&self) -> (r: Self)
        ensures
            r@ == self@,
    {
        proof {
            use_type_invariant(self);
        }
        let mut restriction: Vec<Restriction> = Vec::new();
        let mut i: usize = 0;
        while i < self.restriction.len()
            invariant
                i <= self.restriction@.len(),
                restriction@.len() == i,
                forall|j: int| 0 <= j < i ==> #[trigger] restriction@[j]@ == self.restriction@[j]@,
            decreases self.restriction@.len() - i,
        {
            restriction.push(self.restriction[i].clone_message());
            i = i + 1;
        }
        assert(Restriction::seq_model(restriction@) =~= Restriction::seq_model(self.restriction@));
        let start = Box::new(self.start.clone_message());
        let has_start = self.has_start;
        let end = Box::new(self.end.clone_message());
        let has_end = self.has_end;
        let unknown_fields = clone_unknown_fields(&self.unknown_fields);
        SalePeriod { restriction, has_start, start, has_end, end, unknown_fields }
    }

}

impl Clone for SalePeriod {
    fn clone(&self) -> (r: Self)
        ensures
            r@ == self@,
    {
        self.clone_message()
    }
}

impl Default for SalePeriod {
    fn default() -> (r: Self)
        ensures
            r@ == SalePeriodModel::empty(),
    {
        SalePeriod::new()
    }
}

/// The `ExternalId` message.
#[allow(non_snake_case)]
#[derive(Debug, PartialEq)]
pub struct ExternalId {
    typ: Option<String>,
    id: Option<String>,
    unknown_fields: Vec<UnknownField>,
}

/// The model of a `ExternalId`: each field's value, `None` or empty when unset,
/// and the fields of unknown numbers, in the order they were read.
#[allow(non_snake_case)]
pub struct ExternalIdModel {
    pub typ: Option<Seq<char>>,
    pub id: Option<Seq<char>>,
    pub unknown_fields: Seq<UnknownFieldModel>,
}

impl View for ExternalId {
    type V = ExternalIdModel;

    closed spec fn view(&self) -> ExternalIdModel {
        ExternalIdModel {
            typ: opt_view(self.typ),
            id: opt_view(self.id),
            unknown_fields: unknown_models(self.unknown_fields@),
        }
    }
}

#[allow(non_snake_case)]
impl ExternalIdModel {
    /// The model of a message with no field set.
    pub open spec fn empty() -> Self {
        ExternalIdModel {
            typ: None,
            id: None,
            unknown_fields: Seq::empty(),
        }
    }

    /// The encodings of a list of messages.
    pub open spec fn encodings(v: Seq<ExternalIdModel>) -> Seq<Seq<u8>> {
        v.map_values(|m: ExternalIdModel| m.to_bytes())
    }

    /// Every message of a list can be written, and its encoding fits a 32-bit length.
    pub open spec fn all_writable(v: Seq<ExternalIdModel>) -> bool {
        forall|i: int| 0 <= i < v.len() ==> #[trigger] v[i].wf() && fits_u32(v[i].to_bytes())
    }

    /// The field numbers that this message knows.
    pub open spec fn is_known_field(f: u32) -> bool {
        f == 1 || f == 2
    }

    /// Merging one field whose tag (number `f`, wire type `wt`) has been read;
    /// `s` holds the bytes after the tag. The result is the merged model and
    /// the number of bytes the value took; a set field is replaced, a repeated
    /// field grows, a field of unknown number is kept or, if a group, skipped.
    pub open spec fn merge_field(self, f: u32, wt: u32, s: Seq<u8>, lim: nat) -> Option<(Self, nat)> {
        if f == 1 {
            if wt != WIRE_LENGTH_DELIMITED {
                None
            } else {
                match string_parse(s) {
                    Some((c, k)) => Some((ExternalIdModel { typ: Some(c), ..self }, k)),
                    None => None,
                }
            }
        } else if f == 2 {
            if wt != WIRE_LENGTH_DELIMITED {
                None
            } else {
                match string_parse(s) {
                    Some((c, k)) => Some((ExternalIdModel { id: Some(c), ..self }, k)),
                    None => None,
                }
            }
        } else {
            match unknown_parse(f, wt, s) {
                Some((Some(u), k)) => Some((ExternalIdModel { unknown_fields: grouped_insert(self.unknown_fields, u), ..self }, k)),
                Some((None, k)) => Some((self, k)),
                None => None,
            }
        }
    }

    /// What is left of the model when merging one field (number `f`, wire type
    /// `wt`, value at the front of `s`) fails: a string, bytes or message field
    /// of the right wire type is first set to its empty value (a repeated one
    /// gets an empty element) and an embedded message keeps the fields merged
    /// into it before the failure; packed values read before the failure stay.
    pub open spec fn merge_field_failed(self, f: u32, wt: u32, s: Seq<u8>, lim: nat) -> Self {
        if f == 1 {
            if wt != WIRE_LENGTH_DELIMITED {
                self
            } else {
                ExternalIdModel { typ: Some(Seq::<char>::empty()), ..self }
            }
        } else if f == 2 {
            if wt != WIRE_LENGTH_DELIMITED {
                self
            } else {
                ExternalIdModel { id: Some(Seq::<char>::empty()), ..self }
            }
        } else {
            self
        }
    }

    /// The value of a merged field takes no more than the bytes after its tag.
    pub proof fn lemma_merge_field_len(self, f: u32, wt: u32, s: Seq<u8>, lim: nat)
        ensures
            self.merge_field(f, wt, s, lim) matches Some((_m, k)) ==> k <= s.len(),
    {
        lemma_varint_parse_len(s);
        crate::wire::lemma_unknown_parse_len(f, wt, s);
    }

    /// Merging all the fields that `s` holds, in order, where the length of an
    /// embedded message may reach `lim` bytes past the end of `s` (such a message
    /// is read up to the end of `s`).
    #[verifier::opaque]
    pub open spec fn merge(self, s: Seq<u8>, lim: nat) -> Option<Self>
        decreases s.len(),
    {
        if s.len() == 0 {
            Some(self)
        } else {
            match tag_parse(s) {
                Some((f, wt, n)) => if 0 < n <= s.len() {
                    match self.merge_field(f, wt, s.skip(n as int), lim) {
                        Some((m, k)) => if n + k <= s.len() {
                            m.merge(s.skip((n + k) as int), lim)
                        } else {
                            None
                        },
                        None => None,
                    }
                } else {
                    None
                },
                None => None,
            }
        }
    }

    /// What merging `s` leaves: the fields merged in order up to the first one
    /// whose tag or value cannot be read, then what `merge_field_failed` leaves of
    /// that one; all of `s` where it is a valid encoding.
    #[verifier::opaque]
    pub open spec fn merge_partial(self, s: Seq<u8>, lim: nat) -> Self
        decreases s.len(),
    {
        if s.len() == 0 {
            self
        } else {
            match tag_parse(s) {
                Some((f, wt, n)) => if 0 < n <= s.len() {
                    match self.merge_field(f, wt, s.skip(n as int), lim) {
                        Some((m, k)) => if n + k <= s.len() {
                            m.merge_partial(s.skip((n + k) as int), lim)
                        } else {
                            m
                        },
                        None => self.merge_field_failed(f, wt, s.skip(n as int), lim),
                    }
                } else {
                    self
                },
                None => self,
            }
        }
    }

    /// The encoding of field `typ` and of every field written after it.
    pub open spec fn encoded_from_typ(self) -> Seq<u8> {
        opt_length_delimited_field_bytes(1, match self.typ { Some(c) => Some(encode_utf8(c)), None => None }) + self.encoded_from_id()
    }

    /// The encoding of field `id` and of every field written after it.
    pub open spec fn encoded_from_id(self) -> Seq<u8> {
        opt_length_delimited_field_bytes(2, match self.id { Some(c) => Some(encode_utf8(c)), None => None }) + self.encoded_from_unknown_fields()
    }

    /// The encoding of the fields of unknown numbers, written last.
    pub open spec fn encoded_from_unknown_fields(self) -> Seq<u8> {
        unknown_list_bytes(self.unknown_fields)
    }

    /// The encoding of the message: its set fields in order of declaration,
    /// each element of a repeated field in order, then the unknown fields.
    #[verifier::opaque]
    pub open spec fn to_bytes(self) -> Seq<u8> {
        self.encoded_from_typ()
    }

    /// A model that can be written and read back: every length fits the
    /// 32-bit length prefix, nested messages can be written, and the unknown
    /// fields have valid numbers that this message does not know.
    #[verifier::opaque]
    pub open spec fn wf(self) -> bool {
        &&& (self.typ matches Some(c) ==> fits_u32(encode_utf8(c)))
        &&& (self.id matches Some(c) ==> fits_u32(encode_utf8(c)))
        &&& (forall|i: int| 0 <= i < self.unknown_fields.len() ==> unknown_field_wf(#[trigger] self.unknown_fields[i]) && !Self::is_known_field(self.unknown_fields[i].number))
        &&& unknown_grouped(self.unknown_fields)
    }

    /// The message with no field set can be written and read back.
    pub proof fn lemma_empty_wf()
        ensures
            Self::empty().wf(),
    {
        reveal_with_fuel(ExternalIdModel::wf, 1);
        lemma_grouped_empty();
    }

    /// Merging a field's tag and value, whatever follows them.
    pub proof fn lemma_merge_step(acc: Self, f: u32, wt: u32, t: Seq<u8>, b: Seq<u8>, rest: Seq<u8>, acc2: Self, lim: nat)
        requires
            tag_parse(t + (b + rest)) == Some((f, wt, t.len())),
            t.len() > 0,
            acc.merge_field(f, wt, b + rest, lim) == Some((acc2, b.len())),
        ensures
            acc.merge(t + (b + rest), lim) == acc2.merge(rest, lim),
    {
        reveal_with_fuel(ExternalIdModel::merge, 1);
        lemma_skip_chunk(t, b, rest);
    }

    /// Merging the encoding of field `typ` sets it, whatever follows.
    pub proof fn lemma_merge_typ(acc: Self, v: Option<Seq<char>>, rest: Seq<u8>, lim: nat)
        requires
            (v matches Some(c) ==> fits_u32(encode_utf8(c))),
        ensures
            acc.merge(opt_length_delimited_field_bytes(1, match v { Some(c) => Some(encode_utf8(c)), None => None }) + rest, lim) == (ExternalIdModel { typ: if v is Some { v } else { acc.typ }, ..acc }).merge(rest, lim),
    {
        match v {
            None => {
                assert(opt_length_delimited_field_bytes(1, match v { Some(c) => Some(encode_utf8(c)), None => None }) + rest =~= rest);
                assert((ExternalIdModel { typ: acc.typ, ..acc }) == acc);
            },
            Some(x) => {
                let t = tag_bytes(1, WIRE_LENGTH_DELIMITED);
                let b = bytes_value_bytes(encode_utf8(x));
                assert(opt_length_delimited_field_bytes(1, match v { Some(c) => Some(encode_utf8(c)), None => None }) + rest =~= t + (b + rest));
                lemma_tag_roundtrip(1, WIRE_LENGTH_DELIMITED, b + rest);
                lemma_string_roundtrip(x, rest);
                Self::lemma_merge_step(acc, 1, WIRE_LENGTH_DELIMITED, t, b, rest, ExternalIdModel { typ: v, ..acc }, lim);
            },
        }
    }

    /// Merging the encoding of field `id` sets it, whatever follows.
    pub proof fn lemma_merge_id(acc: Self, v: Option<Seq<char>>, rest: Seq<u8>, lim: nat)
        requires
            (v matches Some(c) ==> fits_u32(encode_utf8(c))),
        ensures
            acc.merge(opt_length_delimited_field_bytes(2, match v { Some(c) => Some(encode_utf8(c)), None => None }) + rest, lim) == (ExternalIdModel { id: if v is Some { v } else { acc.id }, ..acc }).merge(rest, lim),
    {
        match v {
            None => {
                assert(opt_length_delimited_field_bytes(2, match v { Some(c) => Some(encode_utf8(c)), None => None }) + rest =~= rest);
                assert((ExternalIdModel { id: acc.id, ..acc }) == acc);
            },
            Some(x) => {
                let t = tag_bytes(2, WIRE_LENGTH_DELIMITED);
                let b = bytes_value_bytes(encode_utf8(x));
                assert(opt_length_delimited_field_bytes(2, match v { Some(c) => Some(encode_utf8(c)), None => None }) + rest =~= t + (b + rest));
                lemma_tag_roundtrip(2, WIRE_LENGTH_DELIMITED, b + rest);
                lemma_string_roundtrip(x, rest);
                Self::lemma_merge_step(acc, 2, WIRE_LENGTH_DELIMITED, t, b, rest, ExternalIdModel { id: v, ..acc }, lim);
            },
        }
    }

    /// Merging the encoding of fields of unknown numbers keeps them, whatever follows.
    #[verifier::rlimit(50)]
    pub proof fn lemma_merge_unknown_fields(acc: Self, v: Seq<UnknownFieldModel>, rest: Seq<u8>, lim: nat)
        requires
            forall|i: int| 0 <= i < v.len() ==> unknown_field_wf(#[trigger] v[i]) && !Self::is_known_field(v[i].number),
            unknown_grouped(acc.unknown_fields + v),
        ensures
            acc.merge(unknown_list_bytes(v) + rest, lim) == (ExternalIdModel { unknown_fields: acc.unknown_fields + v, ..acc }).merge(rest, lim),
        decreases v.len(),
    {
        if v.len() == 0 {
            assert(unknown_list_bytes(v) + rest =~= rest);
            assert(acc.unknown_fields + v =~= acc.unknown_fields);
            assert((ExternalIdModel { unknown_fields: acc.unknown_fields + v, ..acc }) == acc);
        } else {
            lemma_unknown_list_cons(v);
            let u = v[0];
            let wt = crate::wire::unknown_wire_type(u.value);
            let t = tag_bytes(u.number, wt);
            let b = crate::wire::unknown_value_bytes(u.value);
            let tail = unknown_list_bytes(v.subrange(1, v.len() as int));
            assert(unknown_list_bytes(v) + rest =~= t + (b + (tail + rest)));
            assert(unknown_field_bytes(u) + (tail + rest) =~= t + (b + (tail + rest)));
            lemma_unknown_roundtrip(u, tail + rest);
            assert((t + (b + (tail + rest))).skip(t.len() as int) =~= b + (tail + rest));
            crate::wire::lemma_tag_roundtrip(u.number, wt, b + (tail + rest));
            let acc1 = ExternalIdModel { unknown_fields: acc.unknown_fields.push(u), ..acc };
            assert(acc.unknown_fields.push(u) =~= (acc.unknown_fields + v).take(acc.unknown_fields.len() + 1int));
            lemma_grouped_take(acc.unknown_fields + v, acc.unknown_fields.len() + 1int);
            lemma_grouped_insert_last(acc.unknown_fields, u);
            Self::lemma_merge_step(acc, u.number, wt, t, b, tail + rest, acc1, lim);
            assert(acc1.unknown_fields + v.subrange(1, v.len() as int) =~= acc.unknown_fields + v);
            Self::lemma_merge_unknown_fields(acc1, v.subrange(1, v.len() as int), rest, lim);
        }
    }

    /// Reading back the encoding of a model that can be written gives the model,
    /// whatever the limit past its end.
    #[verifier::spinoff_prover]
    #[verifier::rlimit(100)]
    pub proof fn lemma_roundtrip(self, lim: nat)
        requires
            self.wf(),
        ensures
            ExternalIdModel::empty().merge(self.to_bytes(), lim) == Some(self),
    {
        reveal(ExternalIdModel::to_bytes);
        reveal(ExternalIdModel::wf);
        reveal_with_fuel(ExternalIdModel::merge, 1);
        let a0 = ExternalIdModel::empty();
        assert((self.typ matches Some(c) ==> fits_u32(encode_utf8(c))));
        Self::lemma_merge_typ(a0, self.typ, self.encoded_from_id(), lim);
        let a1 = ExternalIdModel { typ: if self.typ is Some { self.typ } else { a0.typ }, ..a0 };
        assert((self.id matches Some(c) ==> fits_u32(encode_utf8(c))));
        Self::lemma_merge_id(a1, self.id, self.encoded_from_unknown_fields(), lim);
        let a2 = ExternalIdModel { id: if self.id is Some { self.id } else { a1.id }, ..a1 };
        assert(a2.unknown_fields + self.unknown_fields =~= self.unknown_fields);
        Self::lemma_merge_unknown_fields(a2, self.unknown_fields, Seq::empty(), lim);
        assert(unknown_list_bytes(self.unknown_fields) + Seq::<u8>::empty() =~= unknown_list_bytes(self.unknown_fields));
        let last = ExternalIdModel { unknown_fields: a2.unknown_fields + self.unknown_fields, ..a2 };
        assert(last.unknown_fields =~= self.unknown_fields);
        assert(last == self);
    }
    /// A message whose only set field is `typ` is written as field number 1 of the
    /// protocol's definition alone: the tag of that number with the wire type of the field,
    /// then the value.
    pub proof fn lemma_encoding_of_typ(v: Option<Seq<char>>)
        ensures
            (ExternalIdModel { typ: v, ..ExternalIdModel::empty() }).to_bytes() == opt_length_delimited_field_bytes(1, match v { Some(c) => Some(encode_utf8(c)), None => None }),
    {
        reveal(ExternalIdModel::to_bytes);
        let m = ExternalIdModel { typ: v, ..ExternalIdModel::empty() };
        assert(m.to_bytes() =~= opt_length_delimited_field_bytes(1, match v { Some(c) => Some(encode_utf8(c)), None => None }));
    }

    /// A message whose only set field is `id` is written as field number 2 of the
    /// protocol's definition alone: the tag of that number with the wire type of the field,
    /// then the value.
    pub proof fn lemma_encoding_of_id(v: Option<Seq<char>>)
        ensures
            (ExternalIdModel { id: v, ..ExternalIdModel::empty() }).to_bytes() == opt_length_delimited_field_bytes(2, match v { Some(c) => Some(encode_utf8(c)), None => None }),
    {
        reveal(ExternalIdModel::to_bytes);
        let m = ExternalIdModel { id: v, ..ExternalIdModel::empty() };
        assert(m.to_bytes() =~= opt_length_delimited_field_bytes(2, match v { Some(c) => Some(encode_utf8(c)), None => None }));
    }

}

#[allow(non_snake_case)]
impl ExternalId {
    /// The models of a list of messages.
    pub open spec fn seq_model(v: Seq<ExternalId>) -> Seq<ExternalIdModel> {
        v.map_values(|m: ExternalId| m@)
    }

    /// A message with no field set.
    pub fn new() -> (r: Self)
        ensures
            r@ == ExternalIdModel::empty(),
            r@.wf(),
    {
        let r = ExternalId {
            typ: None,
            id: None,
            unknown_fields: Vec::new(),
        };
        assert(unknown_models(r.unknown_fields@) =~= Seq::<UnknownFieldModel>::empty());
        proof {
            ExternalIdModel::lemma_empty_wf();
        }
        r
    }

    /// Unsets field `typ`.
    pub fn clear_typ(&mut self)
        ensures
            final(self)@ == (ExternalIdModel { typ: None, ..old(self)@ }),
    {
        self.typ = None;
    }

    /// Whether field `typ` is set.
    pub fn has_typ(&self) -> (r: bool)
        ensures
            r == self@.typ is Some,
    {
        self.typ.is_some()
    }

    /// Sets field `typ` to `v`.
    pub fn set_typ(&mut self, v: String)
        ensures
            final(self)@ == (ExternalIdModel { typ: Some(v@), ..old(self)@ }),
    {
        self.typ = Some(v);
    }

    /// Field `typ`, to change in place; an unset field is first set to its default.
    pub fn mut_typ(&mut self) -> (r: &mut String)
        ensures
            r@ == chars_or_empty(old(self)@.typ),
            final(self)@ == (ExternalIdModel { typ: Some(final(r)@), ..old(self)@ }),

    {
        if self.typ.is_none() {
            self.typ = Some(String::new());
        }
        opt_as_mut(&mut self.typ).unwrap()
    }

    /// Takes field `typ` (its default when unset), leaving it unset.
    pub fn take_typ(&mut self) -> (r: String)
        ensures
            r@ == chars_or_empty(old(self)@.typ),
            final(self)@ == (ExternalIdModel { typ: None, ..old(self)@ }),
    {
        let mut t = None;
        std::mem::swap(&mut t, &mut self.typ);
        match t {
            Some(v) => v,
            None => String::new(),
        }
    }

    /// Field `typ`, or the empty string when unset.
    pub fn get_typ(&self) -> (r: &str)
        ensures
            r@ == chars_or_empty(self@.typ),
    {
        match &self.typ {
            Some(v) => v.as_str(),
            None => {
                proof {
                    reveal_strlit("");
                }
                ""
            },
        }
    }

    /// Unsets field `id`.
    pub fn clear_id(&mut self)
        ensures
            final(self)@ == (ExternalIdModel { id: None, ..old(self)@ }),
    {
        self.id = None;
    }

    /// Whether field `id` is set.
    pub fn has_id(&self) -> (r: bool)
        ensures
            r == self@.id is Some,
    {
        self.id.is_some()
    }

    /// Sets field `id` to `v`.
    pub fn set_id(&mut self, v: String)
        ensures
            final(self)@ == (ExternalIdModel { id: Some(v@), ..old(self)@ }),
    {
        self.id = Some(v);
    }

    /// Field `id`, to change in place; an unset field is first set to its default.
    pub fn mut_id(&mut self) -> (r: &mut String)
        ensures
            r@ == chars_or_empty(old(self)@.id),
            final(self)@ == (ExternalIdModel { id: Some(final(r)@), ..old(self)@ }),

    {
        if self.id.is_none() {
            self.id = Some(String::new());
        }
        opt_as_mut(&mut self.id).unwrap()
    }

    /// Takes field `id` (its default when unset), leaving it unset.
    pub fn take_id(&mut self) -> (r: String)
        ensures
            r@ == chars_or_empty(old(self)@.id),
            final(self)@ == (ExternalIdModel { id: None, ..old(self)@ }),
    {
        let mut t = None;
        std::mem::swap(&mut t, &mut self.id);
        match t {
            Some(v) => v,
            None => String::new(),
        }
    }

    /// Field `id`, or the empty string when unset.
    pub fn get_id(&self) -> (r: &str)
        ensures
            r@ == chars_or_empty(self@.id),
    {
        match &self.id {
            Some(v) => v.as_str(),
            None => {
                proof {
                    reveal_strlit("");
                }
                ""
            },
        }
    }

    /// Merges one field whose tag (number `f`, wire type `wt`) has been read
    /// from the bytes `s` that follow the tag; returns the number of bytes the
    /// value took.
    fn merge_field(&mut self, f: u32, wt: u32, s: &[u8], lim: u64) -> (r: Option<usize>)
        ensures
            match old(self)@.merge_field(f, wt, s@, lim as nat) {
                Some((m, k)) => r == Some(k as usize) && final(self)@ == m,
                None => r is None && final(self)@ == old(self)@.merge_field_failed(f, wt, s@, lim as nat),
            },
    {

        if f == 1 {
            if wt != WIRE_LENGTH_DELIMITED {
                return None;
            }
            match read_string(s) {
                Some((v, k)) => {
                    self.typ = Some(v);
                    Some(k)
                },
                None => {
                    self.typ = Some(String::new());
                    None
                },
            }
        } else if f == 2 {
            if wt != WIRE_LENGTH_DELIMITED {
                return None;
            }
            match read_string(s) {
                Some((v, k)) => {
                    self.id = Some(v);
                    Some(k)
                },
                None => {
                    self.id = Some(String::new());
                    None
                },
            }
        } else {
            match read_unknown(f, wt, s) {
                Some((Some(u), k)) => {
                    insert_unknown(field_mut(&mut self.unknown_fields), u);
                    Some(k)
                },
                Some((None, k)) => Some(k),
                None => None,
            }
        }
    }

    /// Merges all the fields that `s` holds, in order; `false` when the bytes
    /// are not a valid encoding (the message then holds what was merged so far).
    #[verifier::spinoff_prover]
    #[verifier::rlimit(50)]
    fn merge_from_slice(&mut self, s: &[u8], lim: u64) -> (ok: bool)
        ensures
            match old(self)@.merge(s@, lim as nat) {
                Some(m) => ok && final(self)@ == m,
                None => !ok && final(self)@ == old(self)@.merge_partial(s@, lim as nat),
            },
    {
        proof {
            reveal_with_fuel(ExternalIdModel::merge, 1);
            reveal_with_fuel(ExternalIdModel::merge_partial, 1);
        }
        let mut pos: usize = 0;
        assert(s@.skip(0) =~= s@);
        while pos < s.len()
            invariant
                pos <= s.len(),
                old(self)@.merge(s@, lim as nat) == self@.merge(s@.skip(pos as int), lim as nat),
                old(self)@.merge_partial(s@, lim as nat) == self@.merge_partial(s@.skip(pos as int), lim as nat),
            decreases s.len() - pos,
        {
            let rest = &s[pos..s.len()];
            assert(rest@ == s@.skip(pos as int));
            proof {
                reveal_with_fuel(ExternalIdModel::merge, 1);
                reveal_with_fuel(ExternalIdModel::merge_partial, 1);
                lemma_tag_parse_len(rest@);
            }
            match pb_read_tag_unpack(rest) {
                None => {
                    return false;
                },
                Some((f, wt, n)) => {
                    if n == 0 || n > rest.len() {
                        return false;
                    }
                    let rest2 = &rest[n..rest.len()];
                    assert(rest2@ == rest@.skip(n as int));
                    proof {
                        self@.lemma_merge_field_len(f, wt, rest2@, lim as nat);
                    }
                    match self.merge_field(f, wt, rest2, lim) {
                        None => {
                            return false;
                        },
                        Some(k) => {
                            if k > rest2.len() {
                                return false;
                            }
                            assert(rest@.skip((n + k) as int) =~= s@.skip((pos + n + k) as int));
                            pos = pos + n + k;
                        },
                    }
                },
            }
        }
        assert(s@.skip(pos as int) =~= Seq::<u8>::empty());
        proof {
            reveal_with_fuel(ExternalIdModel::merge, 1);
        }
        true
    }

    /// The message that `s` encodes, if it is a valid encoding.
    fn parse_slice(s: &[u8], lim: u64) -> (r: Option<Self>)
        ensures
            match ExternalIdModel::empty().merge(s@, lim as nat) {
                Some(m) => r matches Some(x) && x@ == m,
                None => r is None,
            },
    {
        let mut m = ExternalId::new();
        if m.merge_from_slice(s, lim) {
            Some(m)
        } else {
            None
        }
    }

    /// Merges the fields that `bytes` encodes into this message, in order: a set
    /// field is replaced, a repeated field grows. On an invalid encoding the
    /// error comes back, the fields merged before the first field that could not
    /// be read stay merged, and that field is left as `merge_field_failed` says.
    pub fn merge_from_bytes(&mut self, bytes: &[u8]) -> (r: Result<(), DecodeError>)
        ensures
            match old(self)@.merge(bytes@, top_limit(bytes@.len())) {
                Some(m) => r is Ok && final(self)@ == m,
                None => r is Err && final(self)@ == old(self)@.merge_partial(bytes@, top_limit(bytes@.len())),
            },
    {
        let lim: u64 = u64::MAX - bytes.len() as u64;
        if self.merge_from_slice(bytes, lim) {
            Ok(())
        } else {
            Err(DecodeError)
        }
    }

    /// Parses a message from its encoding.
    pub fn parse_from_bytes(bytes: &[u8]) -> (r: Result<Self, DecodeError>)
        ensures
            match ExternalIdModel::empty().merge(bytes@, top_limit(bytes@.len())) {
                Some(m) => r matches Ok(x) && x@ == m,
                None => r is Err,
            },
    {
        let lim: u64 = u64::MAX - bytes.len() as u64;
        match Self::parse_slice(bytes, lim) {
            Some(m) => Ok(m),
            None => Err(DecodeError),
        }
    }

    /// Appends the encoding of field `typ` to `out`.
    fn write_field_typ(&self, out: &mut Vec<u8>)
        requires
            self@.wf(),
        ensures
            final(out)@ == old(out)@ + opt_length_delimited_field_bytes(1, match self@.typ { Some(c) => Some(encode_utf8(c)), None => None }),
            final(out)@ + self@.encoded_from_id() == old(out)@ + self@.encoded_from_typ(),
    {
        proof {
            reveal(ExternalIdModel::wf);
        }
        let ghost o = out@;
        let ghost m = self@;
        match &self.typ {
            Some(v) => {
                pb_write_tag(out, 1, WIRE_LENGTH_DELIMITED);
                write_string_value(out, v.as_str());
                proof {
                    lemma_concat_assoc(o, tag_bytes(1, WIRE_LENGTH_DELIMITED), bytes_value_bytes(encode_utf8(v@)));
                }
            },
            None => {
                assert(o + Seq::<u8>::empty() =~= o);
            },
        }
        proof {
            lemma_concat_assoc(o, opt_length_delimited_field_bytes(1, match m.typ { Some(c) => Some(encode_utf8(c)), None => None }), m.encoded_from_id());
        }
    }

    /// Appends the encoding of field `id` to `out`.
    fn write_field_id(&self, out: &mut Vec<u8>)
        requires
            self@.wf(),
        ensures
            final(out)@ == old(out)@ + opt_length_delimited_field_bytes(2, match self@.id { Some(c) => Some(encode_utf8(c)), None => None }),
            final(out)@ + self@.encoded_from_unknown_fields() == old(out)@ + self@.encoded_from_id(),
    {
        proof {
            reveal(ExternalIdModel::wf);
        }
        let ghost o = out@;
        let ghost m = self@;
        match &self.id {
            Some(v) => {
                pb_write_tag(out, 2, WIRE_LENGTH_DELIMITED);
                write_string_value(out, v.as_str());
                proof {
                    lemma_concat_assoc(o, tag_bytes(2, WIRE_LENGTH_DELIMITED), bytes_value_bytes(encode_utf8(v@)));
                }
            },
            None => {
                assert(o + Seq::<u8>::empty() =~= o);
            },
        }
        proof {
            lemma_concat_assoc(o, opt_length_delimited_field_bytes(2, match m.id { Some(c) => Some(encode_utf8(c)), None => None }), m.encoded_from_unknown_fields());
        }
    }

    /// Appends the fields of unknown numbers to `out`.
    fn write_unknown_fields(&self, out: &mut Vec<u8>)
        requires
            self@.wf(),
        ensures
            final(out)@ == old(out)@ + unknown_list_bytes(self@.unknown_fields),
    {
        proof {
            reveal(ExternalIdModel::wf);
        }
        let ghost o = out@;
        let ghost m = self@;
        let mut j: usize = 0;
        assert(m.unknown_fields.subrange(0, m.unknown_fields.len() as int) =~= m.unknown_fields);
        assert(o + Seq::<u8>::empty() =~= o);
        while j < self.unknown_fields.len()
            invariant
                j <= self.unknown_fields.len(),
                self@ == m,
                m.wf(),
                o + unknown_list_bytes(m.unknown_fields) == out@ + unknown_list_bytes(m.unknown_fields.subrange(j as int, m.unknown_fields.len() as int)),
            decreases self.unknown_fields.len() - j,
        {
            proof {
                reveal(ExternalIdModel::wf);
                lemma_unknown_list_cons(m.unknown_fields.subrange(j as int, m.unknown_fields.len() as int));
                assert(m.unknown_fields[j as int] == self.unknown_fields@[j as int]@);
                assert(m.unknown_fields.subrange(j as int, m.unknown_fields.len() as int)[0] == m.unknown_fields[j as int]);
                assert(m.unknown_fields.subrange(j as int, m.unknown_fields.len() as int).subrange(1, m.unknown_fields.len() - j) =~= m.unknown_fields.subrange(j + 1, m.unknown_fields.len() as int));
            }
            let ghost before = out@;
            write_unknown(out, &self.unknown_fields[j]);
            proof {
                lemma_concat_assoc(before, unknown_field_bytes(m.unknown_fields[j as int]), unknown_list_bytes(m.unknown_fields.subrange(j + 1, m.unknown_fields.len() as int)));
            }
            j = j + 1;
        }
        assert(m.unknown_fields.subrange(j as int, m.unknown_fields.len() as int) =~= Seq::<UnknownFieldModel>::empty());
        assert(out@ =~= o + unknown_list_bytes(m.unknown_fields));
    }

    /// Appends the encoding of the message to `out`.
    fn write_to(&self, out: &mut Vec<u8>)
        requires
            self@.wf(),
        ensures
            final(out)@ == old(out)@ + self@.to_bytes(),
    {
        proof {
            reveal(ExternalIdModel::to_bytes);
        }
        let ghost o = out@;
        let ghost m = self@;
        assert(o + m.to_bytes() == out@ + m.encoded_from_typ());
        self.write_field_typ(out);
        self.write_field_id(out);
        self.write_unknown_fields(out);
    }

    /// The encoding of the message.
    pub fn write_to_bytes(&self) -> (r: Vec<u8>)
        requires
            self@.wf(),
        ensures
            r@ == self@.to_bytes(),
    {
        let mut out: Vec<u8> = Vec::new();
        self.write_to(&mut out);
        assert(out@ =~= self@.to_bytes());
        out
    }

    /// The length of the encoding of the message.
    pub fn compute_size(&self) -> (r: u32)
        requires
            self@.wf(),
            self@.to_bytes().len() <= u32::MAX,
        ensures
            r == self@.to_bytes().len(),
    {
        let v = self.write_to_bytes();
        v.len() as u32
    }
    /// A copy of the message.
    pub fn clone_message(&self) -> (r: Self)
        ensures
            r@ == self@,
    {
        let typ = clone_opt_string(&self.typ);
        let id = clone_opt_string(&self.id);
        let unknown_fields = clone_unknown_fields(&self.unknown_fields);
        ExternalId { typ, id, unknown_fields }
    }

}

impl Clone for ExternalId {
    fn clone(&self) -> (r: Self)
        ensures
            r@ == self@,
    {
        self.clone_message()
    }
}

impl Default for ExternalId {
    fn default() -> (r: Self)
        ensures
            r@ == ExternalIdModel::empty(),
    {
        ExternalId::new()
    }
}

/// The `AudioFile` message.
#[allow(non_snake_case)]
#[derive(Debug, PartialEq)]
pub struct AudioFile {
    file_id: Option<Vec<u8>>,
    format: Option<AudioFile_Format>,
    unknown_fields: Vec<UnknownField>,
}

/// The model of a `AudioFile`: each field's value, `None` or empty when unset,
/// and the fields of unknown numbers, in the order they were read.
#[allow(non_snake_case)]
pub struct AudioFileModel {
    pub file_id: Option<Seq<u8>>,
    pub format: Option<AudioFile_Format>,
    pub unknown_fields: Seq<UnknownFieldModel>,
}

impl View for AudioFile {
    type V = AudioFileModel;

    closed spec fn view(&self) -> AudioFileModel {
        AudioFileModel {
            file_id: opt_view(self.file_id),
            format: self.format,
            unknown_fields: unknown_models(self.unknown_fields@),
        }
    }
}

#[allow(non_snake_case)]
impl AudioFileModel {
    /// The model of a message with no field set.
    pub open spec fn empty() -> Self {
        AudioFileModel {
            file_id: None,
            format: None,
            unknown_fields: Seq::empty(),
        }
    }

    /// The encodings of a list of messages.
    pub open spec fn encodings(v: Seq<AudioFileModel>) -> Seq<Seq<u8>> {
        v.map_values(|m: AudioFileModel| m.to_bytes())
    }

    /// Every message of a list can be written, and its encoding fits a 32-bit length.
    pub open spec fn all_writable(v: Seq<AudioFileModel>) -> bool {
        forall|i: int| 0 <= i < v.len() ==> #[trigger] v[i].wf() && fits_u32(v[i].to_bytes())
    }

    /// The field numbers that this message knows.
    pub open spec fn is_known_field(f: u32) -> bool {
        f == 1 || f == 2
    }

    /// Merging one field whose tag (number `f`, wire type `wt`) has been read;
    /// `s` holds the bytes after the tag. The result is the merged model and
    /// the number of bytes the value took; a set field is replaced, a repeated
    /// field grows, a field of unknown number is kept or, if a group, skipped.
    pub open spec fn merge_field(self, f: u32, wt: u32, s: Seq<u8>, lim: nat) -> Option<(Self, nat)> {
        if f == 1 {
            if wt != WIRE_LENGTH_DELIMITED {
                None
            } else {
                match bytes_parse(s) {
                    Some((c, k)) => Some((AudioFileModel { file_id: Some(c), ..self }, k)),
                    None => None,
                }
            }
        } else if f == 2 {
            if wt != WIRE_VARINT {
                None
            } else {
                match varint_parse(s) {
                    Some((v, k)) => match AudioFile_Format::spec_from_i32(varint_int32(v)) {
                        Some(e) => Some((AudioFileModel { format: Some(e), ..self }, k)),
                        None => None,
                    },
                    None => None,
                }
            }
        } else {
            match unknown_parse(f, wt, s) {
                Some((Some(u), k)) => Some((AudioFileModel { unknown_fields: grouped_insert(self.unknown_fields, u), ..self }, k)),
                Some((None, k)) => Some((self, k)),
                None => None,
            }
        }
    }

    /// What is left of the model when merging one field (number `f`, wire type
    /// `wt`, value at the front of `s`) fails: a string, bytes or message field
    /// of the right wire type is first set to its empty value (a repeated one
    /// gets an empty element) and an embedded message keeps the fields merged
    /// into it before the failure; packed values read before the failure stay.
    pub open spec fn merge_field_failed(self, f: u32, wt: u32, s: Seq<u8>, lim: nat) -> Self {
        if f == 1 {
            if wt != WIRE_LENGTH_DELIMITED {
                self
            } else {
                AudioFileModel { file_id: Some(Seq::<u8>::empty()), ..self }
            }
        } else {
            self
        }
    }

    /// The value of a merged field takes no more than the bytes after its tag.
    pub proof fn lemma_merge_field_len(self, f: u32, wt: u32, s: Seq<u8>, lim: nat)
        ensures
            self.merge_field(f, wt, s, lim) matches Some((_m, k)) ==> k <= s.len(),
    {
        lemma_varint_parse_len(s);
        crate::wire::lemma_unknown_parse_len(f, wt, s);
    }

    /// Merging all the fields that `s` holds, in order, where the length of an
    /// embedded message may reach `lim` bytes past the end of `s` (such a message
    /// is read up to the end of `s`).
    #[verifier::opaque]
    pub open spec fn merge(self, s: Seq<u8>, lim: nat) -> Option<Self>
        decreases s.len(),
    {
        if s.len() == 0 {
            Some(self)
        } else {
            match tag_parse(s) {
                Some((f, wt, n)) => if 0 < n <= s.len() {
                    match self.merge_field(f, wt, s.skip(n as int), lim) {
                        Some((m, k)) => if n + k <= s.len() {
                            m.merge(s.skip((n + k) as int), lim)
                        } else {
                            None
                        },
                        None => None,
                    }
                } else {
                    None
                },
                None => None,
            }
        }
    }

    /// What merging `s` leaves: the fields merged in order up to the first one
    /// whose tag or value cannot be read, then what `merge_field_failed` leaves of
    /// that one; all of `s` where it is a valid encoding.
    #[verifier::opaque]
    pub open spec fn merge_partial(self, s: Seq<u8>, lim: nat) -> Self
        decreases s.len(),
    {
        if s.len() == 0 {
            self
        } else {
            match tag_parse(s) {
                Some((f, wt, n)) => if 0 < n <= s.len() {
                    match self.merge_field(f, wt, s.skip(n as int), lim) {
                        Some((m, k)) => if n + k <= s.len() {
                            m.merge_partial(s.skip((n + k) as int), lim)
                        } else {
                            m
                        },
                        None => self.merge_field_failed(f, wt, s.skip(n as int), lim),
                    }
                } else {
                    self
                },
                None => self,
            }
        }
    }

    /// The encoding of field `file_id` and of every field written after it.
    pub open spec fn encoded_from_file_id(self) -> Seq<u8> {
        opt_length_delimited_field_bytes(1, self.file_id) + self.encoded_from_format()
    }

    /// The encoding of field `format` and of every field written after it.
    pub open spec fn encoded_from_format(self) -> Seq<u8> {
        opt_varint_field_bytes(2, match self.format { Some(x) => Some(int32_varint(x.spec_value())), None => None }) + self.encoded_from_unknown_fields()
    }

    /// The encoding of the fields of unknown numbers, written last.
    pub open spec fn encoded_from_unknown_fields(self) -> Seq<u8> {
        unknown_list_bytes(self.unknown_fields)
    }

    /// The encoding of the message: its set fields in order of declaration,
    /// each element of a repeated field in order, then the unknown fields.
    #[verifier::opaque]
    pub open spec fn to_bytes(self) -> Seq<u8> {
        self.encoded_from_file_id()
    }

    /// A model that can be written and read back: every length fits the
    /// 32-bit length prefix, nested messages can be written, and the unknown
    /// fields have valid numbers that this message does not know.
    #[verifier::opaque]
    pub open spec fn wf(self) -> bool {
        &&& (self.file_id matches Some(b) ==> fits_u32(b))
        &&& (forall|i: int| 0 <= i < self.unknown_fields.len() ==> unknown_field_wf(#[trigger] self.unknown_fields[i]) && !Self::is_known_field(self.unknown_fields[i].number))
        &&& unknown_grouped(self.unknown_fields)
    }

    /// The message with no field set can be written and read back.
    pub proof fn lemma_empty_wf()
        ensures
            Self::empty().wf(),
    {
        reveal_with_fuel(AudioFileModel::wf, 1);
        lemma_grouped_empty();
    }

    /// Merging a field's tag and value, whatever follows them.
    pub proof fn lemma_merge_step(acc: Self, f: u32, wt: u32, t: Seq<u8>, b: Seq<u8>, rest: Seq<u8>, acc2: Self, lim: nat)
        requires
            tag_parse(t + (b + rest)) == Some((f, wt, t.len())),
            t.len() > 0,
            acc.merge_field(f, wt, b + rest, lim) == Some((acc2, b.len())),
        ensures
            acc.merge(t + (b + rest), lim) == acc2.merge(rest, lim),
    {
        reveal_with_fuel(AudioFileModel::merge, 1);
        lemma_skip_chunk(t, b, rest);
    }

    /// Merging the encoding of field `file_id` sets it, whatever follows.
    pub proof fn lemma_merge_file_id(acc: Self, v: Option<Seq<u8>>, rest: Seq<u8>, lim: nat)
        requires
            (v matches Some(b) ==> fits_u32(b)),
        ensures
            acc.merge(opt_length_delimited_field_bytes(1, v) + rest, lim) == (AudioFileModel { file_id: if v is Some { v } else { acc.file_id }, ..acc }).merge(rest, lim),
    {
        match v {
            None => {
                assert(opt_length_delimited_field_bytes(1, v) + rest =~= rest);
                assert((AudioFileModel { file_id: acc.file_id, ..acc }) == acc);
            },
            Some(x) => {
                let t = tag_bytes(1, WIRE_LENGTH_DELIMITED);
                let b = bytes_value_bytes(x);
                assert(opt_length_delimited_field_bytes(1, v) + rest =~= t + (b + rest));
                lemma_tag_roundtrip(1, WIRE_LENGTH_DELIMITED, b + rest);
                lemma_bytes_roundtrip(x, rest);
                Self::lemma_merge_step(acc, 1, WIRE_LENGTH_DELIMITED, t, b, rest, AudioFileModel { file_id: v, ..acc }, lim);
            },
        }
    }

    /// Merging the encoding of field `format` sets it, whatever follows.
    pub proof fn lemma_merge_format(acc: Self, v: Option<AudioFile_Format>, rest: Seq<u8>, lim: nat)
        ensures
            acc.merge(opt_varint_field_bytes(2, match v { Some(x) => Some(int32_varint(x.spec_value())), None => None }) + rest, lim) == (AudioFileModel { format: if v is Some { v } else { acc.format }, ..acc }).merge(rest, lim),
    {
        match v {
            None => {
                assert(opt_varint_field_bytes(2, match v { Some(x) => Some(int32_varint(x.spec_value())), None => None }) + rest =~= rest);
                assert((AudioFileModel { format: acc.format, ..acc }) == acc);
            },
            Some(x) => {
                let t = tag_bytes(2, WIRE_VARINT);
                let b = varint_bytes(int32_varint(x.spec_value()));
                assert(opt_varint_field_bytes(2, match v { Some(x) => Some(int32_varint(x.spec_value())), None => None }) + rest =~= t + (b + rest));
                lemma_tag_roundtrip(2, WIRE_VARINT, b + rest);
                lemma_varint_roundtrip(int32_varint(x.spec_value()), rest);
                    lemma_varint_casts(x.spec_value(), 0, 0, false, 0);
                    x.lemma_value_roundtrip();
                Self::lemma_merge_step(acc, 2, WIRE_VARINT, t, b, rest, AudioFileModel { format: v, ..acc }, lim);
            },
        }
    }

    /// Merging the encoding of fields of unknown numbers keeps them, whatever follows.
    #[verifier::rlimit(50)]
    pub proof fn lemma_merge_unknown_fields(acc: Self, v: Seq<UnknownFieldModel>, rest: Seq<u8>, lim: nat)
        requires
            forall|i: int| 0 <= i < v.len() ==> unknown_field_wf(#[trigger] v[i]) && !Self::is_known_field(v[i].number),
            unknown_grouped(acc.unknown_fields + v),
        ensures
            acc.merge(unknown_list_bytes(v) + rest, lim) == (AudioFileModel { unknown_fields: acc.unknown_fields + v, ..acc }).merge(rest, lim),
        decreases v.len(),
    {
        if v.len() == 0 {
            assert(unknown_list_bytes(v) + rest =~= rest);
            assert(acc.unknown_fields + v =~= acc.unknown_fields);
            assert((AudioFileModel { unknown_fields: acc.unknown_fields + v, ..acc }) == acc);
        } else {
            lemma_unknown_list_cons(v);
            let u = v[0];
            let wt = crate::wire::unknown_wire_type(u.value);
            let t = tag_bytes(u.number, wt);
            let b = crate::wire::unknown_value_bytes(u.value);
            let tail = unknown_list_bytes(v.subrange(1, v.len() as int));
            assert(unknown_list_bytes(v) + rest =~= t + (b + (tail + rest)));
            assert(unknown_field_bytes(u) + (tail + rest) =~= t + (b + (tail + rest)));
            lemma_unknown_roundtrip(u, tail + rest);
            assert((t + (b + (tail + rest))).skip(t.len() as int) =~= b + (tail + rest));
            crate::wire::lemma_tag_roundtrip(u.number, wt, b + (tail + rest));
            let acc1 = AudioFileModel { unknown_fields: acc.unknown_fields.push(u), ..acc };
            assert(acc.unknown_fields.push(u) =~= (acc.unknown_fields + v).take(acc.unknown_fields.len() + 1int));
            lemma_grouped_take(acc.unknown_fields + v, acc.unknown_fields.len() + 1int);
            lemma_grouped_insert_last(acc.unknown_fields, u);
            Self::lemma_merge_step(acc, u.number, wt, t, b, tail + rest, acc1, lim);
            assert(acc1.unknown_fields + v.subrange(1, v.len() as int) =~= acc.unknown_fields + v);
            Self::lemma_merge_unknown_fields(acc1, v.subrange(1, v.len() as int), rest, lim);
        }
    }

    /// Reading back the encoding of a model that can be written gives the model,
    /// whatever the limit past its end.
    #[verifier::spinoff_prover]
    #[verifier::rlimit(100)]
    pub proof fn lemma_roundtrip(self, lim: nat)
        requires
            self.wf(),
        ensures
            AudioFileModel::empty().merge(self.to_bytes(), lim) == Some(self),
    {
        reveal(AudioFileModel::to_bytes);
        reveal(AudioFileModel::wf);
        reveal_with_fuel(AudioFileModel::merge, 1);
        let a0 = AudioFileModel::empty();
        assert((self.file_id matches Some(b) ==> fits_u32(b)));
        Self::lemma_merge_file_id(a0, self.file_id, self.encoded_from_format(), lim);
        let a1 = AudioFileModel { file_id: if self.file_id is Some { self.file_id } else { a0.file_id }, ..a0 };
        Self::lemma_merge_format(a1, self.format, self.encoded_from_unknown_fields(), lim);
        let a2 = AudioFileModel { format: if self.format is Some { self.format } else { a1.format }, ..a1 };
        assert(a2.unknown_fields + self.unknown_fields =~= self.unknown_fields);
        Self::lemma_merge_unknown_fields(a2, self.unknown_fields, Seq::empty(), lim);
        assert(unknown_list_bytes(self.unknown_fields) + Seq::<u8>::empty() =~= unknown_list_bytes(self.unknown_fields));
        let last = AudioFileModel { unknown_fields: a2.unknown_fields + self.unknown_fields, ..a2 };
        assert(last.unknown_fields =~= self.unknown_fields);
        assert(last == self);
    }
    /// A message whose only set field is `file_id` is written as field number 1 of the
    /// protocol's definition alone: the tag of that number with the wire type of the field,
    /// then the value.
    pub proof fn lemma_encoding_of_file_id(v: Option<Seq<u8>>)
        ensures
            (AudioFileModel { file_id: v, ..AudioFileModel::empty() }).to_bytes() == opt_length_delimited_field_bytes(1, v),
    {
        reveal(AudioFileModel::to_bytes);
        let m = AudioFileModel { file_id: v, ..AudioFileModel::empty() };
        assert(m.to_bytes() =~= opt_length_delimited_field_bytes(1, v));
    }

    /// A message whose only set field is `format` is written as field number 2 of the
    /// protocol's definition alone: the tag of that number with the wire type of the field,
    /// then the value.
    pub proof fn lemma_encoding_of_format(v: Option<AudioFile_Format>)
        ensures
            (AudioFileModel { format: v, ..AudioFileModel::empty() }).to_bytes() == opt_varint_field_bytes(2, match v { Some(x) => Some(int32_varint(x.spec_value())), None => None }),
    {
        reveal(AudioFileModel::to_bytes);
        let m = AudioFileModel { format: v, ..AudioFileModel::empty() };
        assert(m.to_bytes() =~= opt_varint_field_bytes(2, match v { Some(x) => Some(int32_varint(x.spec_value())), None => None }));
    }

}

#[allow(non_snake_case)]
impl AudioFile {
    /// The models of a list of messages.
    pub open spec fn seq_model(v: Seq<AudioFile>) -> Seq<AudioFileModel> {
        v.map_values(|m: AudioFile| m@)
    }

    /// A message with no field set.
    pub fn new() -> (r: Self)
        ensures
            r@ == AudioFileModel::empty(),
            r@.wf(),
    {
        let r = AudioFile {
            file_id: None,
            format: None,
            unknown_fields: Vec::new(),
        };
        assert(unknown_models(r.unknown_fields@) =~= Seq::<UnknownFieldModel>::empty());
        proof {
            AudioFileModel::lemma_empty_wf();
        }
        r
    }

    /// Unsets field `file_id`.
    pub fn clear_file_id(&mut self)
        ensures
            final(self)@ == (AudioFileModel { file_id: None, ..old(self)@ }),
    {
        self.file_id = None;
    }

    /// Whether field `file_id` is set.
    pub fn has_file_id(&self) -> (r: bool)
        ensures
            r == self@.file_id is Some,
    {
        self.file_id.is_some()
    }

    /// Sets field `file_id` to `v`.
    pub fn set_file_id(&mut self, v: Vec<u8>)
        ensures
            final(self)@ == (AudioFileModel { file_id: Some(v@), ..old(self)@ }),
    {
        self.file_id = Some(v);
    }

    /// Field `file_id`, to change in place; an unset field is first set to its default.
    pub fn mut_file_id(&mut self) -> (r: &mut Vec<u8>)
        ensures
            r@ == bytes_or_empty(old(self)@.file_id),
            final(self)@ == (AudioFileModel { file_id: Some(final(r)@), ..old(self)@ }),

    {
        if self.file_id.is_none() {
            self.file_id = Some(Vec::new());
        }
        opt_as_mut(&mut self.file_id).unwrap()
    }

    /// Takes field `file_id` (its default when unset), leaving it unset.
    pub fn take_file_id(&mut self) -> (r: Vec<u8>)
        ensures
            r@ == bytes_or_empty(old(self)@.file_id),
            final(self)@ == (AudioFileModel { file_id: None, ..old(self)@ }),
    {
        let mut t = None;
        std::mem::swap(&mut t, &mut self.file_id);
        match t {
            Some(v) => v,
            None => Vec::new(),
        }
    }

    /// Field `file_id`, or no bytes when unset.
    pub fn get_file_id(&self) -> (r: &[u8])
        ensures
            r@ == bytes_or_empty(self@.file_id),
    {
        match &self.file_id {
            Some(v) => v.as_slice(),
            None => &[],
        }
    }

    /// Unsets field `format`.
    pub fn clear_format(&mut self)
        ensures
            final(self)@ == (AudioFileModel { format: None, ..old(self)@ }),
    {
        self.format = None;
    }

    /// Whether field `format` is set.
    pub fn has_format(&self) -> (r: bool)
        ensures
            r == self@.format is Some,
    {
        self.format.is_some()
    }

    /// Sets field `format` to `v`.
    pub fn set_format(&mut self, v: AudioFile_Format)
        ensures
            final(self)@ == (AudioFileModel { format: Some(v), ..old(self)@ }),
    {
        self.format = Some(v);
    }

    /// Field `format`, or `AudioFile_Format::OGG_VORBIS_96` when unset.
    pub fn get_format(&self) -> (r: AudioFile_Format)
        ensures
            r == (match self@.format { Some(x) => x, None => AudioFile_Format::OGG_VORBIS_96 }),
    {
        match self.format {
            Some(x) => x,
            None => AudioFile_Format::OGG_VORBIS_96,
        }
    }

    /// Merges one field whose tag (number `f`, wire type `wt`) has been read
    /// from the bytes `s` that follow the tag; returns the number of bytes the
    /// value took.
    fn merge_field(&mut self, f: u32, wt: u32, s: &[u8], lim: u64) -> (r: Option<usize>)
        ensures
            match old(self)@.merge_field(f, wt, s@, lim as nat) {
                Some((m, k)) => r == Some(k as usize) && final(self)@ == m,
                None => r is None && final(self)@ == old(self)@.merge_field_failed(f, wt, s@, lim as nat),
            },
    {

        if f == 1 {
            if wt != WIRE_LENGTH_DELIMITED {
                return None;
            }
            match read_bytes(s) {
                Some((v, k)) => {
                    self.file_id = Some(v);
                    Some(k)
                },
                None => {
                    self.file_id = Some(Vec::new());
                    None
                },
            }
        } else if f == 2 {
            if wt != WIRE_VARINT {
                return None;
            }
            proof {
                lemma_varint_parse_len(s@);
            }
            match pb_read_raw_varint64(s) {
                Some((v, k)) => match AudioFile_Format::from_i32((v as u32) as i32) {
                    Some(e) => {
                        self.format = Some(e);
                        Some(k)
                    },
                    None => None,
                },
                None => None,
            }
        } else {
            match read_unknown(f, wt, s) {
                Some((Some(u), k)) => {
                    insert_unknown(field_mut(&mut self.unknown_fields), u);
                    Some(k)
                },
                Some((None, k)) => Some(k),
                None => None,
            }
        }
    }

    /// Merges all the fields that `s` holds, in order; `false` when the bytes
    /// are not a valid encoding (the message then holds what was merged so far).
    #[verifier::spinoff_prover]
    #[verifier::rlimit(50)]
    fn merge_from_slice(&mut self, s: &[u8], lim: u64) -> (ok: bool)
        ensures
            match old(self)@.merge(s@, lim as nat) {
                Some(m) => ok && final(self)@ == m,
                None => !ok && final(self)@ == old(self)@.merge_partial(s@, lim as nat),
            },
    {
        proof {
            reveal_with_fuel(AudioFileModel::merge, 1);
            reveal_with_fuel(AudioFileModel::merge_partial, 1);
        }
        let mut pos: usize = 0;
        assert(s@.skip(0) =~= s@);
        while pos < s.len()
            invariant
                pos <= s.len(),
                old(self)@.merge(s@, lim as nat) == self@.merge(s@.skip(pos as int), lim as nat),
                old(self)@.merge_partial(s@, lim as nat) == self@.merge_partial(s@.skip(pos as int), lim as nat),
            decreases s.len() - pos,
        {
            let rest = &s[pos..s.len()];
            assert(rest@ == s@.skip(pos as int));
            proof {
                reveal_with_fuel(AudioFileModel::merge, 1);
                reveal_with_fuel(AudioFileModel::merge_partial, 1);
                lemma_tag_parse_len(rest@);
            }
            match pb_read_tag_unpack(rest) {
                None => {
                    return false;
                },
                Some((f, wt, n)) => {
                    if n == 0 || n > rest.len() {
                        return false;
                    }
                    let rest2 = &rest[n..rest.len()];
                    assert(rest2@ == rest@.skip(n as int));
                    proof {
                        self@.lemma_merge_field_len(f, wt, rest2@, lim as nat);
                    }
                    match self.merge_field(f, wt, rest2, lim) {
                        None => {
                            return false;
                        },
                        Some(k) => {
                            if k > rest2.len() {
                                return false;
                            }
                            assert(rest@.skip((n + k) as int) =~= s@.skip((pos + n + k) as int));
                            pos = pos + n + k;
                        },
                    }
                },
            }
        }
        assert(s@.skip(pos as int) =~= Seq::<u8>::empty());
        proof {
            reveal_with_fuel(AudioFileModel::merge, 1);
        }
        true
    }

    /// The message that `s` encodes, if it is a valid encoding.
    fn parse_slice(s: &[u8], lim: u64) -> (r: Option<Self>)
        ensures
            match AudioFileModel::empty().merge(s@, lim as nat) {
                Some(m) => r matches Some(x) && x@ == m,
                None => r is None,
            },
    {
        let mut m = AudioFile::new();
        if m.merge_from_slice(s, lim) {
            Some(m)
        } else {
            None
        }
    }

    /// Merges the fields that `bytes` encodes into this message, in order: a set
    /// field is replaced, a repeated field grows. On an invalid encoding the
    /// error comes back, the fields merged before the first field that could not
    /// be read stay merged, and that field is left as `merge_field_failed` says.
    pub fn merge_from_bytes(&mut self, bytes: &[u8]) -> (r: Result<(), DecodeError>)
        ensures
            match old(self)@.merge(bytes@, top_limit(bytes@.len())) {
                Some(m) => r is Ok && final(self)@ == m,
                None => r is Err && final(self)@ == old(self)@.merge_partial(bytes@, top_limit(bytes@.len())),
            },
    {
        let lim: u64 = u64::MAX - bytes.len() as u64;
        if self.merge_from_slice(bytes, lim) {
            Ok(())
        } else {
            Err(DecodeError)
        }
    }

    /// Parses a message from its encoding.
    pub fn parse_from_bytes(bytes: &[u8]) -> (r: Result<Self, DecodeError>)
        ensures
            match AudioFileModel::empty().merge(bytes@, top_limit(bytes@.len())) {
                Some(m) => r matches Ok(x) && x@ == m,
                None => r is Err,
            },
    {
        let lim: u64 = u64::MAX - bytes.len() as u64;
        match Self::parse_slice(bytes, lim) {
            Some(m) => Ok(m),
            None => Err(DecodeError),
        }
    }

    /// Appends the encoding of field `file_id` to `out`.
    fn write_field_file_id(&self, out: &mut Vec<u8>)
        requires
            self@.wf(),
        ensures
            final(out)@ == old(out)@ + opt_length_delimited_field_bytes(1, self@.file_id),
            final(out)@ + self@.encoded_from_format() == old(out)@ + self@.encoded_from_file_id(),
    {
        proof {
            reveal(AudioFileModel::wf);
        }
        let ghost o = out@;
        let ghost m = self@;
        match &self.file_id {
            Some(v) => {
                pb_write_tag(out, 1, WIRE_LENGTH_DELIMITED);
                write_bytes_value(out, v.as_slice());
                proof {
                    lemma_concat_assoc(o, tag_bytes(1, WIRE_LENGTH_DELIMITED), bytes_value_bytes(v@));
                }
            },
            None => {
                assert(o + Seq::<u8>::empty() =~= o);
            },
        }
        proof {
            lemma_concat_assoc(o, opt_length_delimited_field_bytes(1, m.file_id), m.encoded_from_format());
        }
    }

    /// Appends the encoding of field `format` to `out`.
    fn write_field_format(&self, out: &mut Vec<u8>)
        requires
            self@.wf(),
        ensures
            final(out)@ == old(out)@ + opt_varint_field_bytes(2, match self@.format { Some(x) => Some(int32_varint(x.spec_value())), None => None }),
            final(out)@ + self@.encoded_from_unknown_fields() == old(out)@ + self@.encoded_from_format(),
    {
        proof {
            reveal(AudioFileModel::wf);
        }
        let ghost o = out@;
        let ghost m = self@;
        match self.format {
            Some(x) => {
                pb_write_tag(out, 2, WIRE_VARINT);
                pb_write_raw_varint64(out, x.value() as u64);
                proof {
                    lemma_concat_assoc(o, tag_bytes(2, WIRE_VARINT), varint_bytes(int32_varint(x.spec_value())));
                }
            },
            None => {
                assert(o + Seq::<u8>::empty() =~= o);
            },
        }
        proof {
            lemma_concat_assoc(o, opt_varint_field_bytes(2, match m.format { Some(x) => Some(int32_varint(x.spec_value())), None => None }), m.encoded_from_unknown_fields());
        }
    }

    /// Appends the fields of unknown numbers to `out`.
    fn write_unknown_fields(&self, out: &mut Vec<u8>)
        requires
            self@.wf(),
        ensures
            final(out)@ == old(out)@ + unknown_list_bytes(self@.unknown_fields),
    {
        proof {
            reveal(AudioFileModel::wf);
        }
        let ghost o = out@;
        let ghost m = self@;
        let mut j: usize = 0;
        assert(m.unknown_fields.subrange(0, m.unknown_fields.len() as int) =~= m.unknown_fields);
        assert(o + Seq::<u8>::empty() =~= o);
        while j < self.unknown_fields.len()
            invariant
                j <= self.unknown_fields.len(),
                self@ == m,
                m.wf(),
                o + unknown_list_bytes(m.unknown_fields) == out@ + unknown_list_bytes(m.unknown_fields.subrange(j as int, m.unknown_fields.len() as int)),
            decreases self.unknown_fields.len() - j,
        {
            proof {
                reveal(AudioFileModel::wf);
                lemma_unknown_list_cons(m.unknown_fields.subrange(j as int, m.unknown_fields.len() as int));
                assert(m.unknown_fields[j as int] == self.unknown_fields@[j as int]@);
                assert(m.unknown_fields.subrange(j as int, m.unknown_fields.len() as int)[0] == m.unknown_fields[j as int]);
                assert(m.unknown_fields.subrange(j as int, m.unknown_fields.len() as int).subrange(1, m.unknown_fields.len() - j) =~= m.unknown_fields.subrange(j + 1, m.unknown_fields.len() as int));
            }
            let ghost before = out@;
            write_unknown(out, &self.unknown_fields[j]);
            proof {
                lemma_concat_assoc(before, unknown_field_bytes(m.unknown_fields[j as int]), unknown_list_bytes(m.unknown_fields.subrange(j + 1, m.unknown_fields.len() as int)));
            }
            j = j + 1;
        }
        assert(m.unknown_fields.subrange(j as int, m.unknown_fields.len() as int) =~= Seq::<UnknownFieldModel>::empty());
        assert(out@ =~= o + unknown_list_bytes(m.unknown_fields));
    }

    /// Appends the encoding of the message to `out`.
    fn write_to(&self, out: &mut Vec<u8>)
        requires
            self@.wf(),
        ensures
            final(out)@ == old(out)@ + self@.to_bytes(),
    {
        proof {
            reveal(AudioFileModel::to_bytes);
        }
        let ghost o = out@;
        let ghost m = self@;
        assert(o + m.to_bytes() == out@ + m.encoded_from_file_id());
        self.write_field_file_id(out);
        self.write_field_format(out);
        self.write_unknown_fields(out);
    }

    /// The encoding of the message.
    pub fn write_to_bytes(&self) -> (r: Vec<u8>)
        requires
            self@.wf(),
        ensures
            r@ == self@.to_bytes(),
    {
        let mut out: Vec<u8> = Vec::new();
        self.write_to(&mut out);
        assert(out@ =~= self@.to_bytes());
        out
    }

    /// The length of the encoding of the message.
    pub fn compute_size(&self) -> (r: u32)
        requires
            self@.wf(),
            self@.to_bytes().len() <= u32::MAX,
        ensures
            r == self@.to_bytes().len(),
    {
        let v = self.write_to_bytes();
        v.len() as u32
    }
    /// A copy of the message.
    pub fn clone_message(&self) -> (r: Self)
        ensures
            r@ == self@,
    {
        let file_id = clone_opt_bytes(&self.file_id);
        let format = self.format;
        let unknown_fields = clone_unknown_fields(&self.unknown_fields);
        AudioFile { file_id, format, unknown_fields }
    }

}

impl Clone for AudioFile {
    fn clone(&self) -> (r: Self)
        ensures
            r@ == self@,
    {
        self.clone_message()
    }
}

impl Default for AudioFile {
    fn default() -> (r: Self)
        ensures
            r@ == AudioFileModel::empty(),
    {
        AudioFile::new()
    }
}

} // verus!