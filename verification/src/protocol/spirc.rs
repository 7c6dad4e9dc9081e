//! The messages of Spirc, the protocol by which Spotify Connect devices and controllers
//! exchange commands and playback state, with their wire encodings.
use vstd::prelude::*;
use crate::protocol::{box_mut, field_mut, opt_as_mut};
use crate::wire::{
    bool_varint, bytes_or_empty, chars_or_empty, fits_u32, int32_varint, lemma_bytes_roundtrip,
    lemma_length_delimited_list_cons, lemma_message_window, lemma_skip_chunk, lemma_string_roundtrip,
    lemma_tag_parse_len, lemma_tag_roundtrip, lemma_unknown_list_cons, lemma_unknown_roundtrip,
    lemma_varint_casts, lemma_varint_list_cons, lemma_varint_roundtrip, length_delimited_list_bytes,
    message_window, embedded_window, read_embedded_window, lemma_embedded_window, top_limit,
    opt_length_delimited_field_bytes, opt_varint_field_bytes, opt_view,
    packed_int64_parse, packed_int64_partial, pb_read_raw_varint64, pb_read_sint32, pb_read_tag_unpack, pb_write_raw_varint64,
    pb_write_sint32_no_tag, pb_write_tag, read_bytes, read_packed_int64,
    read_string, read_unknown, string_parse, bytes_parse, tag_bytes, tag_parse, bytes_value_bytes,
    unknown_field_bytes, grouped_insert, insert_unknown, unknown_grouped, lemma_grouped_insert_last,
    lemma_grouped_take, lemma_grouped_empty, unknown_field_wf, unknown_list_bytes, unknown_models, unknown_parse, varint_bool, varint_bytes,
    varint_int32, varint_list_bytes, varint_parse, write_bytes_value, write_string_value,
    write_unknown, zigzag_decode32, zigzag_encode32, DecodeError, UnknownField, UnknownFieldModel,
    WIRE_LENGTH_DELIMITED, WIRE_VARINT, string_models, utf8_encodings, int64_varints,
    lemma_varint_parse_len, lemma_write_chunk, lemma_empty_chunk, lemma_write_list_step,
    lemma_concat_assoc, clone_opt_bytes, clone_opt_string, clone_strings, clone_unknown_fields,
};
use vstd::utf8::encode_utf8;

verus! {

/// The values of the `MessageType` enumeration.
#[allow(non_camel_case_types)]
#[derive(Clone, Copy, Debug, PartialEq, Eq, Hash)]
pub enum MessageType {
    kMessageTypeHello,
    kMessageTypeGoodbye,
    kMessageTypeProbe,
    kMessageTypeNotify,
    kMessageTypeLoad,
    kMessageTypePlay,
    kMessageTypePause,
    kMessageTypePlayPause,
    kMessageTypeSeek,
    kMessageTypePrev,
    kMessageTypeNext,
    kMessageTypeVolume,
    kMessageTypeShuffle,
    kMessageTypeRepeat,
    kMessageTypeVolumeDown,
    kMessageTypeVolumeUp,
    kMessageTypeReplace,
    kMessageTypeLogout,
    kMessageTypeAction,
    kMessageTypeRename,
}

impl MessageType {
    /// The number that stands for each value on the wire.
    pub open spec fn spec_value(self) -> i32 {
        match self {
            MessageType::kMessageTypeHello => 1i32,
            MessageType::kMessageTypeGoodbye => 2i32,
            MessageType::kMessageTypeProbe => 3i32,
            MessageType::kMessageTypeNotify => 10i32,
            MessageType::kMessageTypeLoad => 20i32,
            MessageType::kMessageTypePlay => 21i32,
            MessageType::kMessageTypePause => 22i32,
            MessageType::kMessageTypePlayPause => 23i32,
            MessageType::kMessageTypeSeek => 24i32,
            MessageType::kMessageTypePrev => 25i32,
            MessageType::kMessageTypeNext => 26i32,
            MessageType::kMessageTypeVolume => 27i32,
            MessageType::kMessageTypeShuffle => 28i32,
            MessageType::kMessageTypeRepeat => 29i32,
            MessageType::kMessageTypeVolumeDown => 31i32,
            MessageType::kMessageTypeVolumeUp => 32i32,
            MessageType::kMessageTypeReplace => 33i32,
            MessageType::kMessageTypeLogout => 34i32,
            MessageType::kMessageTypeAction => 35i32,
            MessageType::kMessageTypeRename => 36i32,
        }
    }

    /// The value that a number stands for, if any.
    pub open spec fn spec_from_i32(v: i32) -> Option<MessageType> {
        if v == 1i32 {
            Some(MessageType::kMessageTypeHello)
        } else if v == 2i32 {
            Some(MessageType::kMessageTypeGoodbye)
        } else if v == 3i32 {
            Some(MessageType::kMessageTypeProbe)
        } else if v == 10i32 {
            Some(MessageType::kMessageTypeNotify)
        } else if v == 20i32 {
            Some(MessageType::kMessageTypeLoad)
        } else if v == 21i32 {
            Some(MessageType::kMessageTypePlay)
        } else if v == 22i32 {
            Some(MessageType::kMessageTypePause)
        } else if v == 23i32 {
            Some(MessageType::kMessageTypePlayPause)
        } else if v == 24i32 {
            Some(MessageType::kMessageTypeSeek)
        } else if v == 25i32 {
            Some(MessageType::kMessageTypePrev)
        } else if v == 26i32 {
            Some(MessageType::kMessageTypeNext)
        } else if v == 27i32 {
            Some(MessageType::kMessageTypeVolume)
        } else if v == 28i32 {
            Some(MessageType::kMessageTypeShuffle)
        } else if v == 29i32 {
            Some(MessageType::kMessageTypeRepeat)
        } else if v == 31i32 {
            Some(MessageType::kMessageTypeVolumeDown)
        } else if v == 32i32 {
            Some(MessageType::kMessageTypeVolumeUp)
        } else if v == 33i32 {
            Some(MessageType::kMessageTypeReplace)
        } else if v == 34i32 {
            Some(MessageType::kMessageTypeLogout)
        } else if v == 35i32 {
            Some(MessageType::kMessageTypeAction)
        } else if v == 36i32 {
            Some(MessageType::kMessageTypeRename)
        } else {
            None
        }
    }

    /// The number that stands for this value on the wire.
    pub fn value(&self) -> (r: i32)
        ensures
            r == self.spec_value(),
    {
        match self {
            MessageType::kMessageTypeHello => 1,
            MessageType::kMessageTypeGoodbye => 2,
            MessageType::kMessageTypeProbe => 3,
            MessageType::kMessageTypeNotify => 10,
            MessageType::kMessageTypeLoad => 20,
            MessageType::kMessageTypePlay => 21,
            MessageType::kMessageTypePause => 22,
            MessageType::kMessageTypePlayPause => 23,
            MessageType::kMessageTypeSeek => 24,
            MessageType::kMessageTypePrev => 25,
            MessageType::kMessageTypeNext => 26,
            MessageType::kMessageTypeVolume => 27,
            MessageType::kMessageTypeShuffle => 28,
            MessageType::kMessageTypeRepeat => 29,
            MessageType::kMessageTypeVolumeDown => 31,
            MessageType::kMessageTypeVolumeUp => 32,
            MessageType::kMessageTypeReplace => 33,
            MessageType::kMessageTypeLogout => 34,
            MessageType::kMessageTypeAction => 35,
            MessageType::kMessageTypeRename => 36,
        }
    }

    /// The value that `v` stands for, or `None` for a number of no value.
    pub fn from_i32(v: i32) -> (r: Option<MessageType>)
        ensures
            r == MessageType::spec_from_i32(v),
    {
        match v {
            1 => Some(MessageType::kMessageTypeHello),
            2 => Some(MessageType::kMessageTypeGoodbye),
            3 => Some(MessageType::kMessageTypeProbe),
            10 => Some(MessageType::kMessageTypeNotify),
            20 => Some(MessageType::kMessageTypeLoad),
            21 => Some(MessageType::kMessageTypePlay),
            22 => Some(MessageType::kMessageTypePause),
            23 => Some(MessageType::kMessageTypePlayPause),
            24 => Some(MessageType::kMessageTypeSeek),
            25 => Some(MessageType::kMessageTypePrev),
            26 => Some(MessageType::kMessageTypeNext),
            27 => Some(MessageType::kMessageTypeVolume),
            28 => Some(MessageType::kMessageTypeShuffle),
            29 => Some(MessageType::kMessageTypeRepeat),
            31 => Some(MessageType::kMessageTypeVolumeDown),
            32 => Some(MessageType::kMessageTypeVolumeUp),
            33 => Some(MessageType::kMessageTypeReplace),
            34 => Some(MessageType::kMessageTypeLogout),
            35 => Some(MessageType::kMessageTypeAction),
            36 => Some(MessageType::kMessageTypeRename),
            _ => None,
        }
    }

    /// All values, in the order of their declaration.
    pub fn values() -> (r: Vec<MessageType>)
        ensures
            r@ == seq![MessageType::kMessageTypeHello, MessageType::kMessageTypeGoodbye, MessageType::kMessageTypeProbe, MessageType::kMessageTypeNotify, MessageType::kMessageTypeLoad, MessageType::kMessageTypePlay, MessageType::kMessageTypePause, MessageType::kMessageTypePlayPause, MessageType::kMessageTypeSeek, MessageType::kMessageTypePrev, MessageType::kMessageTypeNext, MessageType::kMessageTypeVolume, MessageType::kMessageTypeShuffle, MessageType::kMessageTypeRepeat, MessageType::kMessageTypeVolumeDown, MessageType::kMessageTypeVolumeUp, MessageType::kMessageTypeReplace, MessageType::kMessageTypeLogout, MessageType::kMessageTypeAction, MessageType::kMessageTypeRename],
    {
        vec![MessageType::kMessageTypeHello, MessageType::kMessageTypeGoodbye, MessageType::kMessageTypeProbe, MessageType::kMessageTypeNotify, MessageType::kMessageTypeLoad, MessageType::kMessageTypePlay, MessageType::kMessageTypePause, MessageType::kMessageTypePlayPause, MessageType::kMessageTypeSeek, MessageType::kMessageTypePrev, MessageType::kMessageTypeNext, MessageType::kMessageTypeVolume, MessageType::kMessageTypeShuffle, MessageType::kMessageTypeRepeat, MessageType::kMessageTypeVolumeDown, MessageType::kMessageTypeVolumeUp, MessageType::kMessageTypeReplace, MessageType::kMessageTypeLogout, MessageType::kMessageTypeAction, MessageType::kMessageTypeRename]
    }

    /// The number of a value stands for that value.
    pub proof fn lemma_value_roundtrip(self)
        ensures
            MessageType::spec_from_i32(self.spec_value()) == Some(self),
    {
    }

    /// A number that stands for a value is that value's number.
    pub proof fn lemma_from_i32_value(v: i32)
        ensures
            MessageType::spec_from_i32(v) matches Some(e) ==> e.spec_value() == v,
    {
    }

    /// The numbers that the protocol's definition gives the values on the wire: each value
    /// has the number listed here, each listed number reads back as its value, and no other
    /// number stands for a value.
    pub proof fn lemma_proto_numbers()
        ensures
            MessageType::kMessageTypeHello.spec_value() == 1i32,
            MessageType::kMessageTypeGoodbye.spec_value() == 2i32,
            MessageType::kMessageTypeProbe.spec_value() == 3i32,
            MessageType::kMessageTypeNotify.spec_value() == 10i32,
            MessageType::kMessageTypeLoad.spec_value() == 20i32,
            MessageType::kMessageTypePlay.spec_value() == 21i32,
            MessageType::kMessageTypePause.spec_value() == 22i32,
            MessageType::kMessageTypePlayPause.spec_value() == 23i32,
            MessageType::kMessageTypeSeek.spec_value() == 24i32,
            MessageType::kMessageTypePrev.spec_value() == 25i32,
            MessageType::kMessageTypeNext.spec_value() == 26i32,
            MessageType::kMessageTypeVolume.spec_value() == 27i32,
            MessageType::kMessageTypeShuffle.spec_value() == 28i32,
            MessageType::kMessageTypeRepeat.spec_value() == 29i32,
            MessageType::kMessageTypeVolumeDown.spec_value() == 31i32,
            MessageType::kMessageTypeVolumeUp.spec_value() == 32i32,
            MessageType::kMessageTypeReplace.spec_value() == 33i32,
            MessageType::kMessageTypeLogout.spec_value() == 34i32,
            MessageType::kMessageTypeAction.spec_value() == 35i32,
            MessageType::kMessageTypeRename.spec_value() == 36i32,
            MessageType::spec_from_i32(1i32) == Some(MessageType::kMessageTypeHello),
            MessageType::spec_from_i32(2i32) == Some(MessageType::kMessageTypeGoodbye),
            MessageType::spec_from_i32(3i32) == Some(MessageType::kMessageTypeProbe),
            MessageType::spec_from_i32(10i32) == Some(MessageType::kMessageTypeNotify),
            MessageType::spec_from_i32(20i32) == Some(MessageType::kMessageTypeLoad),
            MessageType::spec_from_i32(21i32) == Some(MessageType::kMessageTypePlay),
            MessageType::spec_from_i32(22i32) == Some(MessageType::kMessageTypePause),
            MessageType::spec_from_i32(23i32) == Some(MessageType::kMessageTypePlayPause),
            MessageType::spec_from_i32(24i32) == Some(MessageType::kMessageTypeSeek),
            MessageType::spec_from_i32(25i32) == Some(MessageType::kMessageTypePrev),
            MessageType::spec_from_i32(26i32) == Some(MessageType::kMessageTypeNext),
            MessageType::spec_from_i32(27i32) == Some(MessageType::kMessageTypeVolume),
            MessageType::spec_from_i32(28i32) == Some(MessageType::kMessageTypeShuffle),
            MessageType::spec_from_i32(29i32) == Some(MessageType::kMessageTypeRepeat),
            MessageType::spec_from_i32(31i32) == Some(MessageType::kMessageTypeVolumeDown),
            MessageType::spec_from_i32(32i32) == Some(MessageType::kMessageTypeVolumeUp),
            MessageType::spec_from_i32(33i32) == Some(MessageType::kMessageTypeReplace),
            MessageType::spec_from_i32(34i32) == Some(MessageType::kMessageTypeLogout),
            MessageType::spec_from_i32(35i32) == Some(MessageType::kMessageTypeAction),
            MessageType::spec_from_i32(36i32) == Some(MessageType::kMessageTypeRename),
            forall|v: i32| #[trigger] MessageType::spec_from_i32(v) is Some ==> v == 1i32 || v == 2i32 || v == 3i32 || v == 10i32 || v == 20i32 || v == 21i32 || v == 22i32 || v == 23i32 || v == 24i32 || v == 25i32 || v == 26i32 || v == 27i32 || v == 28i32 || v == 29i32 || v == 31i32 || v == 32i32 || v == 33i32 || v == 34i32 || v == 35i32 || v == 36i32,
    {
    }
}

/// The values of the `CapabilityType` enumeration.
#[allow(non_camel_case_types)]
#[derive(Clone, Copy, Debug, PartialEq, Eq, Hash)]
pub enum CapabilityType {
    kSupportedContexts,
    kCanBePlayer,
    kRestrictToLocal,
    kDeviceType,
    kGaiaEqConnectId,
    kSupportsLogout,
    kIsObservable,
    kVolumeSteps,
    kSupportedTypes,
    kCommandAcks,
    kSupportsRename,
}

impl CapabilityType {
    /// The number that stands for each value on the wire.
    pub open spec fn spec_value(self) -> i32 {
        match self {
            CapabilityType::kSupportedContexts => 1i32,
            CapabilityType::kCanBePlayer => 2i32,
            CapabilityType::kRestrictToLocal => 3i32,
            CapabilityType::kDeviceType => 4i32,
            CapabilityType::kGaiaEqConnectId => 5i32,
            CapabilityType::kSupportsLogout => 6i32,
            CapabilityType::kIsObservable => 7i32,
            CapabilityType::kVolumeSteps => 8i32,
            CapabilityType::kSupportedTypes => 9i32,
            CapabilityType::kCommandAcks => 10i32,
            CapabilityType::kSupportsRename => 11i32,
        }
    }

    /// The value that a number stands for, if any.
    pub open spec fn spec_from_i32(v: i32) -> Option<CapabilityType> {
        if v == 1i32 {
            Some(CapabilityType::kSupportedContexts)
        } else if v == 2i32 {
            Some(CapabilityType::kCanBePlayer)
        } else if v == 3i32 {
            Some(CapabilityType::kRestrictToLocal)
        } else if v == 4i32 {
            Some(CapabilityType::kDeviceType)
        } else if v == 5i32 {
            Some(CapabilityType::kGaiaEqConnectId)
        } else if v == 6i32 {
            Some(CapabilityType::kSupportsLogout)
        } else if v == 7i32 {
            Some(CapabilityType::kIsObservable)
        } else if v == 8i32 {
            Some(CapabilityType::kVolumeSteps)
        } else if v == 9i32 {
            Some(CapabilityType::kSupportedTypes)
        } else if v == 10i32 {
            Some(CapabilityType::kCommandAcks)
        } else if v == 11i32 {
            Some(CapabilityType::kSupportsRename)
        } else {
            None
        }
    }

    /// The number that stands for this value on the wire.
    pub fn value(&self) -> (r: i32)
        ensures
            r == self.spec_value(),
    {
        match self {
            CapabilityType::kSupportedContexts => 1,
            CapabilityType::kCanBePlayer => 2,
            CapabilityType::kRestrictToLocal => 3,
            CapabilityType::kDeviceType => 4,
            CapabilityType::kGaiaEqConnectId => 5,
            CapabilityType::kSupportsLogout => 6,
            CapabilityType::kIsObservable => 7,
            CapabilityType::kVolumeSteps => 8,
            CapabilityType::kSupportedTypes => 9,
            CapabilityType::kCommandAcks => 10,
            CapabilityType::kSupportsRename => 11,
        }
    }

    /// The value that `v` stands for, or `None` for a number of no value.
    pub fn from_i32(v: i32) -> (r: Option<CapabilityType>)
        ensures
            r == CapabilityType::spec_from_i32(v),
    {
        match v {
            1 => Some(CapabilityType::kSupportedContexts),
            2 => Some(CapabilityType::kCanBePlayer),
            3 => Some(CapabilityType::kRestrictToLocal),
            4 => Some(CapabilityType::kDeviceType),
            5 => Some(CapabilityType::kGaiaEqConnectId),
            6 => Some(CapabilityType::kSupportsLogout),
            7 => Some(CapabilityType::kIsObservable),
            8 => Some(CapabilityType::kVolumeSteps),
            9 => Some(CapabilityType::kSupportedTypes),
            10 => Some(CapabilityType::kCommandAcks),
            11 => Some(CapabilityType::kSupportsRename),
            _ => None,
        }
    }

    /// All values, in the order of their declaration.
    pub fn values() -> (r: Vec<CapabilityType>)
        ensures
            r@ == seq![CapabilityType::kSupportedContexts, CapabilityType::kCanBePlayer, CapabilityType::kRestrictToLocal, CapabilityType::kDeviceType, CapabilityType::kGaiaEqConnectId, CapabilityType::kSupportsLogout, CapabilityType::kIsObservable, CapabilityType::kVolumeSteps, CapabilityType::kSupportedTypes, CapabilityType::kCommandAcks, CapabilityType::kSupportsRename],
    {
        vec![CapabilityType::kSupportedContexts, CapabilityType::kCanBePlayer, CapabilityType::kRestrictToLocal, CapabilityType::kDeviceType, CapabilityType::kGaiaEqConnectId, CapabilityType::kSupportsLogout, CapabilityType::kIsObservable, CapabilityType::kVolumeSteps, CapabilityType::kSupportedTypes, CapabilityType::kCommandAcks, CapabilityType::kSupportsRename]
    }

    /// The number of a value stands for that value.
    pub proof fn lemma_value_roundtrip(self)
        ensures
            CapabilityType::spec_from_i32(self.spec_value()) == Some(self),
    {
    }

    /// A number that stands for a value is that value's number.
    pub proof fn lemma_from_i32_value(v: i32)
        ensures
            CapabilityType::spec_from_i32(v) matches Some(e) ==> e.spec_value() == v,
    {
    }

    /// The numbers that the protocol's definition gives the values on the wire: each value
    /// has the number listed here, each listed number reads back as its value, and no other
    /// number stands for a value.
    pub proof fn lemma_proto_numbers()
        ensures
            CapabilityType::kSupportedContexts.spec_value() == 1i32,
            CapabilityType::kCanBePlayer.spec_value() == 2i32,
            CapabilityType::kRestrictToLocal.spec_value() == 3i32,
            CapabilityType::kDeviceType.spec_value() == 4i32,
            CapabilityType::kGaiaEqConnectId.spec_value() == 5i32,
            CapabilityType::kSupportsLogout.spec_value() == 6i32,
            CapabilityType::kIsObservable.spec_value() == 7i32,
            CapabilityType::kVolumeSteps.spec_value() == 8i32,
            CapabilityType::kSupportedTypes.spec_value() == 9i32,
            CapabilityType::kCommandAcks.spec_value() == 10i32,
            CapabilityType::kSupportsRename.spec_value() == 11i32,
            CapabilityType::spec_from_i32(1i32) == Some(CapabilityType::kSupportedContexts),
            CapabilityType::spec_from_i32(2i32) == Some(CapabilityType::kCanBePlayer),
            CapabilityType::spec_from_i32(3i32) == Some(CapabilityType::kRestrictToLocal),
            CapabilityType::spec_from_i32(4i32) == Some(CapabilityType::kDeviceType),
            CapabilityType::spec_from_i32(5i32) == Some(CapabilityType::kGaiaEqConnectId),
            CapabilityType::spec_from_i32(6i32) == Some(CapabilityType::kSupportsLogout),
            CapabilityType::spec_from_i32(7i32) == Some(CapabilityType::kIsObservable),
            CapabilityType::spec_from_i32(8i32) == Some(CapabilityType::kVolumeSteps),
            CapabilityType::spec_from_i32(9i32) == Some(CapabilityType::kSupportedTypes),
            CapabilityType::spec_from_i32(10i32) == Some(CapabilityType::kCommandAcks),
            CapabilityType::spec_from_i32(11i32) == Some(CapabilityType::kSupportsRename),
            forall|v: i32| #[trigger] CapabilityType::spec_from_i32(v) is Some ==> v == 1i32 || v == 2i32 || v == 3i32 || v == 4i32 || v == 5i32 || v == 6i32 || v == 7i32 || v == 8i32 || v == 9i32 || v == 10i32 || v == 11i32,
    {
    }
}

/// The values of the `PlayStatus` enumeration.
#[allow(non_camel_case_types)]
#[derive(Clone, Copy, Debug, PartialEq, Eq, Hash)]
pub enum PlayStatus {
    kPlayStatusStop,
    kPlayStatusPlay,
    kPlayStatusPause,
    kPlayStatusLoading,
}

impl PlayStatus {
    /// The number that stands for each value on the wire.
    pub open spec fn spec_value(self) -> i32 {
        match self {
            PlayStatus::kPlayStatusStop => 0i32,
            PlayStatus::kPlayStatusPlay => 1i32,
            PlayStatus::kPlayStatusPause => 2i32,
            PlayStatus::kPlayStatusLoading => 3i32,
        }
    }

    /// The value that a number stands for, if any.
    pub open spec fn spec_from_i32(v: i32) -> Option<PlayStatus> {
        if v == 0i32 {
            Some(PlayStatus::kPlayStatusStop)
        } else if v == 1i32 {
            Some(PlayStatus::kPlayStatusPlay)
        } else if v == 2i32 {
            Some(PlayStatus::kPlayStatusPause)
        } else if v == 3i32 {
            Some(PlayStatus::kPlayStatusLoading)
        } else {
            None
        }
    }

    /// The number that stands for this value on the wire.
    pub fn value(&self) -> (r: i32)
        ensures
            r == self.spec_value(),
    {
        match self {
            PlayStatus::kPlayStatusStop => 0,
            PlayStatus::kPlayStatusPlay => 1,
            PlayStatus::kPlayStatusPause => 2,
            PlayStatus::kPlayStatusLoading => 3,
        }
    }

    /// The value that `v` stands for, or `None` for a number of no value.
    pub fn from_i32(v: i32) -> (r: Option<PlayStatus>)
        ensures
            r == PlayStatus::spec_from_i32(v),
    {
        match v {
            0 => Some(PlayStatus::kPlayStatusStop),
            1 => Some(PlayStatus::kPlayStatusPlay),
            2 => Some(PlayStatus::kPlayStatusPause),
            3 => Some(PlayStatus::kPlayStatusLoading),
            _ => None,
        }
    }

    /// All values, in the order of their declaration.
    pub fn values() -> (r: Vec<PlayStatus>)
        ensures
            r@ == seq![PlayStatus::kPlayStatusStop, PlayStatus::kPlayStatusPlay, PlayStatus::kPlayStatusPause, PlayStatus::kPlayStatusLoading],
    {
        vec![PlayStatus::kPlayStatusStop, PlayStatus::kPlayStatusPlay, PlayStatus::kPlayStatusPause, PlayStatus::kPlayStatusLoading]
    }

    /// The number of a value stands for that value.
    pub proof fn lemma_value_roundtrip(self)
        ensures
            PlayStatus::spec_from_i32(self.spec_value()) == Some(self),
    {
    }

    /// A number that stands for a value is that value's number.
    pub proof fn lemma_from_i32_value(v: i32)
        ensures
            PlayStatus::spec_from_i32(v) matches Some(e) ==> e.spec_value() == v,
    {
    }

    /// The numbers that the protocol's definition gives the values on the wire: each value
    /// has the number listed here, each listed number reads back as its value, and no other
    /// number stands for a value.
    pub proof fn lemma_proto_numbers()
        ensures
            PlayStatus::kPlayStatusStop.spec_value() == 0i32,
            PlayStatus::kPlayStatusPlay.spec_value() == 1i32,
            PlayStatus::kPlayStatusPause.spec_value() == 2i32,
            PlayStatus::kPlayStatusLoading.spec_value() == 3i32,
            PlayStatus::spec_from_i32(0i32) == Some(PlayStatus::kPlayStatusStop),
            PlayStatus::spec_from_i32(1i32) == Some(PlayStatus::kPlayStatusPlay),
            PlayStatus::spec_from_i32(2i32) == Some(PlayStatus::kPlayStatusPause),
            PlayStatus::spec_from_i32(3i32) == Some(PlayStatus::kPlayStatusLoading),
            forall|v: i32| #[trigger] PlayStatus::spec_from_i32(v) is Some ==> v == 0i32 || v == 1i32 || v == 2i32 || v == 3i32,
    {
    }
}

/// The `Frame` message.
#[allow(non_snake_case)]
#[derive(Debug, PartialEq)]
pub struct Frame {
    version: Option<u32>,
    ident: Option<String>,
    protocol_version: Option<String>,
    seq_nr: Option<u32>,
    typ: Option<MessageType>,
    device_state: Box<DeviceState>,
    has_device_state: bool,
    goodbye: Box<Goodbye>,
    has_goodbye: bool,
    state: Box<State>,
    has_state: bool,
    position: Option<u32>,
    volume: Option<u32>,
    state_update_id: Option<i64>,
    recipient: Vec<String>,
    context_player_state: Option<Vec<u8>>,
    new_name: Option<String>,
    unknown_fields: Vec<UnknownField>,
}

/// The model of a `Frame`: each field's value, `None` or empty when unset,
/// and the fields of unknown numbers, in the order they were read.
#[allow(non_snake_case)]
pub struct FrameModel {
    pub version: Option<u32>,
    pub ident: Option<Seq<char>>,
    pub protocol_version: Option<Seq<char>>,
    pub seq_nr: Option<u32>,
    pub typ: Option<MessageType>,
    pub device_state: Option<DeviceStateModel>,
    pub goodbye: Option<GoodbyeModel>,
    pub state: Option<StateModel>,
    pub position: Option<u32>,
    pub volume: Option<u32>,
    pub state_update_id: Option<i64>,
    pub recipient: Seq<Seq<char>>,
    pub context_player_state: Option<Seq<u8>>,
    pub new_name: Option<Seq<char>>,
    pub unknown_fields: Seq<UnknownFieldModel>,
}

impl View for Frame {
    type V = FrameModel;

    closed spec fn view(&self) -> FrameModel {
        FrameModel {
            version: self.version,
            ident: opt_view(self.ident),
            protocol_version: opt_view(self.protocol_version),
            seq_nr: self.seq_nr,
            typ: self.typ,
            device_state: if self.has_device_state {
                Some(self.device_state@)
            } else {
                None
            },
            goodbye: if self.has_goodbye {
                Some(self.goodbye@)
            } else {
                None
            },
            state: if self.has_state {
                Some(self.state@)
            } else {
                None
            },
            position: self.position,
            volume: self.volume,
            state_update_id: self.state_update_id,
            recipient: string_models(self.recipient@),
            context_player_state: opt_view(self.context_player_state),
            new_name: opt_view(self.new_name),
            unknown_fields: unknown_models(self.unknown_fields@),
        }
    }
}

#[allow(non_snake_case)]
impl FrameModel {
    /// The model of a message with no field set.
    pub open spec fn empty() -> Self {
        FrameModel {
            version: None,
            ident: None,
            protocol_version: None,
            seq_nr: None,
            typ: None,
            device_state: None,
            goodbye: None,
            state: None,
            position: None,
            volume: None,
            state_update_id: None,
            recipient: Seq::empty(),
            context_player_state: None,
            new_name: None,
            unknown_fields: Seq::empty(),
        }
    }

    /// The encodings of a list of messages.
    pub open spec fn encodings(v: Seq<FrameModel>) -> Seq<Seq<u8>> {
        v.map_values(|m: FrameModel| m.to_bytes())
    }

    /// Every message of a list can be written, and its encoding fits a 32-bit length.
    pub open spec fn all_writable(v: Seq<FrameModel>) -> bool {
        forall|i: int| 0 <= i < v.len() ==> #[trigger] v[i].wf() && fits_u32(v[i].to_bytes())
    }

    /// The field numbers that this message knows.
    pub open spec fn is_known_field(f: u32) -> bool {
        f == 1 || f == 2 || f == 3 || f == 4 || f == 5 || f == 7 || f == 11 || f == 12 || f == 13 || f == 14 || f == 17 || f == 18 || f == 19 || f == 20
    }

    /// Merging one field whose tag (number `f`, wire type `wt`) has been read;
    /// `s` holds the bytes after the tag. The result is the merged model and
    /// the number of bytes the value took; a set field is replaced, a repeated
    /// field grows, a field of unknown number is kept or, if a group, skipped.
    pub open spec fn merge_field(self, f: u32, wt: u32, s: Seq<u8>, lim: nat) -> Option<(Self, nat)> {
        if f == 1 {
            if wt != WIRE_VARINT {
                None
            } else {
                match varint_parse(s) {
                    Some((v, k)) => Some((FrameModel { version: Some(v as u32), ..self }, k)),
                    None => None,
                }
            }
        } else if f == 2 {
            if wt != WIRE_LENGTH_DELIMITED {
                None
            } else {
                match string_parse(s) {
                    Some((c, k)) => Some((FrameModel { ident: Some(c), ..self }, k)),
                    None => None,
                }
            }
        } else if f == 3 {
            if wt != WIRE_LENGTH_DELIMITED {
                None
            } else {
                match string_parse(s) {
                    Some((c, k)) => Some((FrameModel { protocol_version: Some(c), ..self }, k)),
                    None => None,
                }
            }
        } else if f == 4 {
            if wt != WIRE_VARINT {
                None
            } else {
                match varint_parse(s) {
                    Some((v, k)) => Some((FrameModel { seq_nr: Some(v as u32), ..self }, k)),
                    None => None,
                }
            }
        } else if f == 5 {
            if wt != WIRE_VARINT {
                None
            } else {
                match varint_parse(s) {
                    Some((v, k)) => match MessageType::spec_from_i32(varint_int32(v)) {
                        Some(e) => Some((FrameModel { typ: Some(e), ..self }, k)),
                        None => None,
                    },
                    None => None,
                }
            }
        } else if f == 7 {
            if wt != WIRE_LENGTH_DELIMITED {
                None
            } else {
                match embedded_window(s, lim) {
                    Some((a, b, x)) => if 0 < a <= b <= s.len() {
                        match DeviceStateModel::empty().merge(s.subrange(a as int, b as int), x) {
                            Some(x) => Some((FrameModel { device_state: Some(x), ..self }, b)),
                            None => None,
                        }
                    } else {
                        None
                    },
                    None => None,
                }
            }
        } else if f == 11 {
            if wt != WIRE_LENGTH_DELIMITED {
                None
            } else {
                match embedded_window(s, lim) {
                    Some((a, b, x)) => if 0 < a <= b <= s.len() {
                        match GoodbyeModel::empty().merge(s.subrange(a as int, b as int), x) {
                            Some(x) => Some((FrameModel { goodbye: Some(x), ..self }, b)),
                            None => None,
                        }
                    } else {
                        None
                    },
                    None => None,
                }
            }
        } else if f == 12 {
            if wt != WIRE_LENGTH_DELIMITED {
                None
            } else {
                match embedded_window(s, lim) {
                    Some((a, b, x)) => if 0 < a <= b <= s.len() {
                        match StateModel::empty().merge(s.subrange(a as int, b as int), x) {
                            Some(x) => Some((FrameModel { state: Some(x), ..self }, b)),
                            None => None,
                        }
                    } else {
                        None
                    },
                    None => None,
                }
            }
        } else if f == 13 {
            if wt != WIRE_VARINT {
                None
            } else {
                match varint_parse(s) {
                    Some((v, k)) => Some((FrameModel { position: Some(v as u32), ..self }, k)),
                    None => None,
                }
            }
        } else if f == 14 {
            if wt != WIRE_VARINT {
                None
            } else {
                match varint_parse(s) {
                    Some((v, k)) => Some((FrameModel { volume: Some(v as u32), ..self }, k)),
                    None => None,
                }
            }
        } else if f == 17 {
            if wt != WIRE_VARINT {
                None
            } else {
                match varint_parse(s) {
                    Some((v, k)) => Some((FrameModel { state_update_id: Some(v as i64), ..self }, k)),
                    None => None,
                }
            }
        } else if f == 18 {
            if wt != WIRE_LENGTH_DELIMITED {
                None
            } else {
                match string_parse(s) {
                    Some((c, k)) => Some((FrameModel { recipient: self.recipient.push(c), ..self }, k)),
                    None => None,
                }
            }
        } else if f == 19 {
            if wt != WIRE_LENGTH_DELIMITED {
                None
            } else {
                match bytes_parse(s) {
                    Some((c, k)) => Some((FrameModel { context_player_state: Some(c), ..self }, k)),
                    None => None,
                }
            }
        } else if f == 20 {
            if wt != WIRE_LENGTH_DELIMITED {
                None
            } else {
                match string_parse(s) {
                    Some((c, k)) => Some((FrameModel { new_name: Some(c), ..self }, k)),
                    None => None,
                }
            }
        } else {
            match unknown_parse(f, wt, s) {
                Some((Some(u), k)) => Some((FrameModel { unknown_fields: grouped_insert(self.unknown_fields, u), ..self }, k)),
                Some((None, k)) => Some((self, k)),
                None => None,
            }
        }
    }

    /// What is left of the model when merging one field (number `f`, wire type
    /// `wt`, value at the front of `s`) fails: a string, bytes or message field
    /// of the right wire type is first set to its empty value (a repeated one
    /// gets an empty element) and an embedded message keeps the fields merged
    /// into it before the failure; packed values read before the failure stay.
    pub open spec fn merge_field_failed(self, f: u32, wt: u32, s: Seq<u8>, lim: nat) -> Self {
        if f == 2 {
            if wt != WIRE_LENGTH_DELIMITED {
                self
            } else {
                FrameModel { ident: Some(Seq::<char>::empty()), ..self }
            }
        } else if f == 3 {
            if wt != WIRE_LENGTH_DELIMITED {
                self
            } else {
                FrameModel { protocol_version: Some(Seq::<char>::empty()), ..self }
            }
        } else if f == 7 {
            if wt != WIRE_LENGTH_DELIMITED {
                self
            } else {
                match embedded_window(s, lim) {
                    Some((a, b, x)) => if 0 < a <= b <= s.len() {
                        FrameModel { device_state: Some(DeviceStateModel::empty().merge_partial(s.subrange(a as int, b as int), x)), ..self }
                    } else {
                        FrameModel { device_state: Some(DeviceStateModel::empty()), ..self }
                    },
                    None => FrameModel { device_state: Some(DeviceStateModel::empty()), ..self },
                }
            }
        } else if f == 11 {
            if wt != WIRE_LENGTH_DELIMITED {
                self
            } else {
                match embedded_window(s, lim) {
                    Some((a, b, x)) => if 0 < a <= b <= s.len() {
                        FrameModel { goodbye: Some(GoodbyeModel::empty().merge_partial(s.subrange(a as int, b as int), x)), ..self }
                    } else {
                        FrameModel { goodbye: Some(GoodbyeModel::empty()), ..self }
                    },
                    None => FrameModel { goodbye: Some(GoodbyeModel::empty()), ..self },
                }
            }
        } else if f == 12 {
            if wt != WIRE_LENGTH_DELIMITED {
                self
            } else {
                match embedded_window(s, lim) {
                    Some((a, b, x)) => if 0 < a <= b <= s.len() {
                        FrameModel { state: Some(StateModel::empty().merge_partial(s.subrange(a as int, b as int), x)), ..self }
                    } else {
                        FrameModel { state: Some(StateModel::empty()), ..self }
                    },
                    None => FrameModel { state: Some(StateModel::empty()), ..self },
                }
            }
        } else if f == 18 {
            if wt != WIRE_LENGTH_DELIMITED {
                self
            } else {
                FrameModel { recipient: self.recipient.push(Seq::<char>::empty()), ..self }
            }
        } else if f == 19 {
            if wt != WIRE_LENGTH_DELIMITED {
                self
            } else {
                FrameModel { context_player_state: Some(Seq::<u8>::empty()), ..self }
            }
        } else if f == 20 {
            if wt != WIRE_LENGTH_DELIMITED {
                self
            } else {
                FrameModel { new_name: Some(Seq::<char>::empty()), ..self }
            }
        } else {
            self
        }
    }

    /// The value of a merged field takes no more than the bytes after its tag.
    pub proof fn lemma_merge_field_len(self, f: u32, wt: u32, s: Seq<u8>, lim: nat)
        ensures
            self.merge_field(f, wt, s, lim) matches Some((_m, k)) ==> k <= s.len(),
    {
        lemma_varint_parse_len(s);
        crate::wire::lemma_unknown_parse_len(f, wt, s);
    }

    /// Merging all the fields that `s` holds, in order, where the length of an
    /// embedded message may reach `lim` bytes past the end of `s` (such a message
    /// is read up to the end of `s`).
    #[verifier::opaque]
    pub open spec fn merge(self, s: Seq<u8>, lim: nat) -> Option<Self>
        decreases s.len(),
    {
        if s.len() == 0 {
            Some(self)
        } else {
            match tag_parse(s) {
                Some((f, wt, n)) => if 0 < n <= s.len() {
                    match self.merge_field(f, wt, s.skip(n as int), lim) {
                        Some((m, k)) => if n + k <= s.len() {
                            m.merge(s.skip((n + k) as int), lim)
                        } else {
                            None
                        },
                        None => None,
                    }
                } else {
                    None
                },
                None => None,
            }
        }
    }

    /// What merging `s` leaves: the fields merged in order up to the first one
    /// whose tag or value cannot be read, then what `merge_field_failed` leaves of
    /// that one; all of `s` where it is a valid encoding.
    #[verifier::opaque]
    pub open spec fn merge_partial(self, s: Seq<u8>, lim: nat) -> Self
        decreases s.len(),
    {
        if s.len() == 0 {
            self
        } else {
            match tag_parse(s) {
                Some((f, wt, n)) => if 0 < n <= s.len() {
                    match self.merge_field(f, wt, s.skip(n as int), lim) {
                        Some((m, k)) => if n + k <= s.len() {
                            m.merge_partial(s.skip((n + k) as int), lim)
                        } else {
                            m
                        },
                        None => self.merge_field_failed(f, wt, s.skip(n as int), lim),
                    }
                } else {
                    self
                },
                None => self,
            }
        }
    }

    /// The encoding of field `version` and of every field written after it.
    pub open spec fn encoded_from_version(self) -> Seq<u8> {
        opt_varint_field_bytes(1, match self.version { Some(x) => Some(x as u64), None => None }) + self.encoded_from_ident()
    }

    /// The encoding of field `ident` and of every field written after it.
    pub open spec fn encoded_from_ident(self) -> Seq<u8> {
        opt_length_delimited_field_bytes(2, match self.ident { Some(c) => Some(encode_utf8(c)), None => None }) + self.encoded_from_protocol_version()
    }

    /// The encoding of field `protocol_version` and of every field written after it.
    pub open spec fn encoded_from_protocol_version(self) -> Seq<u8> {
        opt_length_delimited_field_bytes(3, match self.protocol_version { Some(c) => Some(encode_utf8(c)), None => None }) + self.encoded_from_seq_nr()
    }

    /// The encoding of field `seq_nr` and of every field written after it.
    pub open spec fn encoded_from_seq_nr(self) -> Seq<u8> {
        opt_varint_field_bytes(4, match self.seq_nr { Some(x) => Some(x as u64), None => None }) + self.encoded_from_typ()
    }

    /// The encoding of field `typ` and of every field written after it.
    pub open spec fn encoded_from_typ(self) -> Seq<u8> {
        opt_varint_field_bytes(5, match self.typ { Some(x) => Some(int32_varint(x.spec_value())), None => None }) + self.encoded_from_device_state()
    }

    /// The encoding of field `device_state` and of every field written after it.
    pub open spec fn encoded_from_device_state(self) -> Seq<u8> {
        opt_length_delimited_field_bytes(7, match self.device_state { Some(m) => Some(m.to_bytes()), None => None }) + self.encoded_from_goodbye()
    }

    /// The encoding of field `goodbye` and of every field written after it.
    pub open spec fn encoded_from_goodbye(self) -> Seq<u8> {
        opt_length_delimited_field_bytes(11, match self.goodbye { Some(m) => Some(m.to_bytes()), None => None }) + self.encoded_from_state()
    }

    /// The encoding of field `state` and of every field written after it.
    pub open spec fn encoded_from_state(self) -> Seq<u8> {
        opt_length_delimited_field_bytes(12, match self.state { Some(m) => Some(m.to_bytes()), None => None }) + self.encoded_from_position()
    }

    /// The encoding of field `position` and of every field written after it.
    pub open spec fn encoded_from_position(self) -> Seq<u8> {
        opt_varint_field_bytes(13, match self.position { Some(x) => Some(x as u64), None => None }) + self.encoded_from_volume()
    }

    /// The encoding of field `volume` and of every field written after it.
    pub open spec fn encoded_from_volume(self) -> Seq<u8> {
        opt_varint_field_bytes(14, match self.volume { Some(x) => Some(x as u64), None => None }) + self.encoded_from_state_update_id()
    }

    /// The encoding of field `state_update_id` and of every field written after it.
    pub open spec fn encoded_from_state_update_id(self) -> Seq<u8> {
        opt_varint_field_bytes(17, match self.state_update_id { Some(x) => Some(x as u64), None => None }) + self.encoded_from_recipient()
    }

    /// The encoding of field `recipient` and of every field written after it.
    pub open spec fn encoded_from_recipient(self) -> Seq<u8> {
        length_delimited_list_bytes(18, utf8_encodings(self.recipient)) + self.encoded_from_context_player_state()
    }

    /// The encoding of field `context_player_state` and of every field written after it.
    pub open spec fn encoded_from_context_player_state(self) -> Seq<u8> {
        opt_length_delimited_field_bytes(19, self.context_player_state) + self.encoded_from_new_name()
    }

    /// The encoding of field `new_name` and of every field written after it.
    pub open spec fn encoded_from_new_name(self) -> Seq<u8> {
        opt_length_delimited_field_bytes(20, match self.new_name { Some(c) => Some(encode_utf8(c)), None => None }) + self.encoded_from_unknown_fields()
    }

    /// The encoding of the fields of unknown numbers, written last.
    pub open spec fn encoded_from_unknown_fields(self) -> Seq<u8> {
        unknown_list_bytes(self.unknown_fields)
    }

    /// The encoding of the message: its set fields in order of declaration,
    /// each element of a repeated field in order, then the unknown fields.
    #[verifier::opaque]
    pub open spec fn to_bytes(self) -> Seq<u8> {
        self.encoded_from_version()
    }

    /// A model that can be written and read back: every length fits the
    /// 32-bit length prefix, nested messages can be written, and the unknown
    /// fields have valid numbers that this message does not know.
    #[verifier::opaque]
    pub open spec fn wf(self) -> bool {
        &&& (self.ident matches Some(c) ==> fits_u32(encode_utf8(c)))
        &&& (self.protocol_version matches Some(c) ==> fits_u32(encode_utf8(c)))
        &&& (self.device_state matches Some(m) ==> m.wf() && fits_u32(m.to_bytes()))
        &&& (self.goodbye matches Some(m) ==> m.wf() && fits_u32(m.to_bytes()))
        &&& (self.state matches Some(m) ==> m.wf() && fits_u32(m.to_bytes()))
        &&& crate::wire::all_fit_u32(utf8_encodings(self.recipient))
        &&& (self.context_player_state matches Some(b) ==> fits_u32(b))
        &&& (self.new_name matches Some(c) ==> fits_u32(encode_utf8(c)))
        &&& (forall|i: int| 0 <= i < self.unknown_fields.len() ==> unknown_field_wf(#[trigger] self.unknown_fields[i]) && !Self::is_known_field(self.unknown_fields[i].number))
        &&& unknown_grouped(self.unknown_fields)
    }

    /// The message with no field set can be written and read back.
    pub proof fn lemma_empty_wf()
        ensures
            Self::empty().wf(),
    {
        reveal_with_fuel(FrameModel::wf, 1);
        lemma_grouped_empty();
    }

    /// Merging a field's tag and value, whatever follows them.
    pub proof fn lemma_merge_step(acc: Self, f: u32, wt: u32, t: Seq<u8>, b: Seq<u8>, rest: Seq<u8>, acc2: Self, lim: nat)
        requires
            tag_parse(t + (b + rest)) == Some((f, wt, t.len())),
            t.len() > 0,
            acc.merge_field(f, wt, b + rest, lim) == Some((acc2, b.len())),
        ensures
            acc.merge(t + (b + rest), lim) == acc2.merge(rest, lim),
    {
        reveal_with_fuel(FrameModel::merge, 1);
        lemma_skip_chunk(t, b, rest);
    }

    /// Merging the encoding of field `version` sets it, whatever follows.
    pub proof fn lemma_merge_version(acc: Self, v: Option<u32>, rest: Seq<u8>, lim: nat)
        ensures
            acc.merge(opt_varint_field_bytes(1, match v { Some(x) => Some(x as u64), None => None }) + rest, lim) == (FrameModel { version: if v is Some { v } else { acc.version }, ..acc }).merge(rest, lim),
    {
        match v {
            None => {
                assert(opt_varint_field_bytes(1, match v { Some(x) => Some(x as u64), None => None }) + rest =~= rest);
                assert((FrameModel { version: acc.version, ..acc }) == acc);
            },
            Some(x) => {
                let t = tag_bytes(1, WIRE_VARINT);
                let b = varint_bytes(x as u64);
                assert(opt_varint_field_bytes(1, match v { Some(x) => Some(x as u64), None => None }) + rest =~= t + (b + rest));
                lemma_tag_roundtrip(1, WIRE_VARINT, b + rest);
                lemma_varint_roundtrip(x as u64, rest);
                    lemma_varint_casts(0, 0, x, false, 0);
                Self::lemma_merge_step(acc, 1, WIRE_VARINT, t, b, rest, FrameModel { version: v, ..acc }, lim);
            },
        }
    }

    /// Merging the encoding of field `ident` sets it, whatever follows.
    pub proof fn lemma_merge_ident(acc: Self, v: Option<Seq<char>>, rest: Seq<u8>, lim: nat)
        requires
            (v matches Some(c) ==> fits_u32(encode_utf8(c))),
        ensures
            acc.merge(opt_length_delimited_field_bytes(2, match v { Some(c) => Some(encode_utf8(c)), None => None }) + rest, lim) == (FrameModel { ident: if v is Some { v } else { acc.ident }, ..acc }).merge(rest, lim),
    {
        match v {
            None => {
                assert(opt_length_delimited_field_bytes(2, match v { Some(c) => Some(encode_utf8(c)), None => None }) + rest =~= rest);
                assert((FrameModel { ident: acc.ident, ..acc }) == acc);
            },
            Some(x) => {
                let t = tag_bytes(2, WIRE_LENGTH_DELIMITED);
                let b = bytes_value_bytes(encode_utf8(x));
                assert(opt_length_delimited_field_bytes(2, match v { Some(c) => Some(encode_utf8(c)), None => None }) + rest =~= t + (b + rest));
                lemma_tag_roundtrip(2, WIRE_LENGTH_DELIMITED, b + rest);
                lemma_string_roundtrip(x, rest);
                Self::lemma_merge_step(acc, 2, WIRE_LENGTH_DELIMITED, t, b, rest, FrameModel { ident: v, ..acc }, lim);
            },
        }
    }

    /// Merging the encoding of field `protocol_version` sets it, whatever follows.
    pub proof fn lemma_merge_protocol_version(acc: Self, v: Option<Seq<char>>, rest: Seq<u8>, lim: nat)
        requires
            (v matches Some(c) ==> fits_u32(encode_utf8(c))),
        ensures
            acc.merge(opt_length_delimited_field_bytes(3, match v { Some(c) => Some(encode_utf8(c)), None => None }) + rest, lim) == (FrameModel { protocol_version: if v is Some { v } else { acc.protocol_version }, ..acc }).merge(rest, lim),
    {
        match v {
            None => {
                assert(opt_length_delimited_field_bytes(3, match v { Some(c) => Some(encode_utf8(c)), None => None }) + rest =~= rest);
                assert((FrameModel { protocol_version: acc.protocol_version, ..acc }) == acc);
            },
            Some(x) => {
                let t = tag_bytes(3, WIRE_LENGTH_DELIMITED);
                let b = bytes_value_bytes(encode_utf8(x));
                assert(opt_length_delimited_field_bytes(3, match v { Some(c) => Some(encode_utf8(c)), None => None }) + rest =~= t + (b + rest));
                lemma_tag_roundtrip(3, WIRE_LENGTH_DELIMITED, b + rest);
                lemma_string_roundtrip(x, rest);
                Self::lemma_merge_step(acc, 3, WIRE_LENGTH_DELIMITED, t, b, rest, FrameModel { protocol_version: v, ..acc }, lim);
            },
        }
    }

    /// Merging the encoding of field `seq_nr` sets it, whatever follows.
    pub proof fn lemma_merge_seq_nr(acc: Self, v: Option<u32>, rest: Seq<u8>, lim: nat)
        ensures
            acc.merge(opt_varint_field_bytes(4, match v { Some(x) => Some(x as u64), None => None }) + rest, lim) == (FrameModel { seq_nr: if v is Some { v } else { acc.seq_nr }, ..acc }).merge(rest, lim),
    {
        match v {
            None => {
                assert(opt_varint_field_bytes(4, match v { Some(x) => Some(x as u64), None => None }) + rest =~= rest);
                assert((FrameModel { seq_nr: acc.seq_nr, ..acc }) == acc);
            },
            Some(x) => {
                let t = tag_bytes(4, WIRE_VARINT);
                let b = varint_bytes(x as u64);
                assert(opt_varint_field_bytes(4, match v { Some(x) => Some(x as u64), None => None }) + rest =~= t + (b + rest));
                lemma_tag_roundtrip(4, WIRE_VARINT, b + rest);
                lemma_varint_roundtrip(x as u64, rest);
                    lemma_varint_casts(0, 0, x, false, 0);
                Self::lemma_merge_step(acc, 4, WIRE_VARINT, t, b, rest, FrameModel { seq_nr: v, ..acc }, lim);
            },
        }
    }

    /// Merging the encoding of field `typ` sets it, whatever follows.
    pub proof fn lemma_merge_typ(acc: Self, v: Option<MessageType>, rest: Seq<u8>, lim: nat)
        ensures
            acc.merge(opt_varint_field_bytes(5, match v { Some(x) => Some(int32_varint(x.spec_value())), None => None }) + rest, lim) == (FrameModel { typ: if v is Some { v } else { acc.typ }, ..acc }).merge(rest, lim),
    {
        match v {
            None => {
                assert(opt_varint_field_bytes(5, match v { Some(x) => Some(int32_varint(x.spec_value())), None => None }) + rest =~= rest);
                assert((FrameModel { typ: acc.typ, ..acc }) == acc);
            },
            Some(x) => {
                let t = tag_bytes(5, WIRE_VARINT);
                let b = varint_bytes(int32_varint(x.spec_value()));
                assert(opt_varint_field_bytes(5, match v { Some(x) => Some(int32_varint(x.spec_value())), None => None }) + rest =~= t + (b + rest));
                lemma_tag_roundtrip(5, WIRE_VARINT, b + rest);
                lemma_varint_roundtrip(int32_varint(x.spec_value()), rest);
                    lemma_varint_casts(x.spec_value(), 0, 0, false, 0);
                    x.lemma_value_roundtrip();
                Self::lemma_merge_step(acc, 5, WIRE_VARINT, t, b, rest, FrameModel { typ: v, ..acc }, lim);
            },
        }
    }

    /// Merging the encoding of field `device_state` sets it, whatever follows.
    pub proof fn lemma_merge_device_state(acc: Self, v: Option<DeviceStateModel>, rest: Seq<u8>, lim: nat)
        requires
            (v matches Some(m) ==> m.wf() && fits_u32(m.to_bytes())),
        ensures
            acc.merge(opt_length_delimited_field_bytes(7, match v { Some(m) => Some(m.to_bytes()), None => None }) + rest, lim) == (FrameModel { device_state: if v is Some { v } else { acc.device_state }, ..acc }).merge(rest, lim),
    {
        match v {
            None => {
                assert(opt_length_delimited_field_bytes(7, match v { Some(m) => Some(m.to_bytes()), None => None }) + rest =~= rest);
                assert((FrameModel { device_state: acc.device_state, ..acc }) == acc);
            },
            Some(x) => {
                let t = tag_bytes(7, WIRE_LENGTH_DELIMITED);
                let b = bytes_value_bytes(x.to_bytes());
                assert(opt_length_delimited_field_bytes(7, match v { Some(m) => Some(m.to_bytes()), None => None }) + rest =~= t + (b + rest));
                lemma_tag_roundtrip(7, WIRE_LENGTH_DELIMITED, b + rest);
                lemma_message_window(x.to_bytes(), rest);
                    lemma_embedded_window(x.to_bytes(), rest, lim);
                    x.lemma_roundtrip(0);
                    lemma_varint_parse_len(bytes_value_bytes(x.to_bytes()) + rest);
                Self::lemma_merge_step(acc, 7, WIRE_LENGTH_DELIMITED, t, b, rest, FrameModel { device_state: v, ..acc }, lim);
            },
        }
    }

    /// Merging the encoding of field `goodbye` sets it, whatever follows.
    pub proof fn lemma_merge_goodbye(acc: Self, v: Option<GoodbyeModel>, rest: Seq<u8>, lim: nat)
        requires
            (v matches Some(m) ==> m.wf() && fits_u32(m.to_bytes())),
        ensures
            acc.merge(opt_length_delimited_field_bytes(11, match v { Some(m) => Some(m.to_bytes()), None => None }) + rest, lim) == (FrameModel { goodbye: if v is Some { v } else { acc.goodbye }, ..acc }).merge(rest, lim),
    {
        match v {
            None => {
                assert(opt_length_delimited_field_bytes(11, match v { Some(m) => Some(m.to_bytes()), None => None }) + rest =~= rest);
                assert((FrameModel { goodbye: acc.goodbye, ..acc }) == acc);
            },
            Some(x) => {
                let t = tag_bytes(11, WIRE_LENGTH_DELIMITED);
                let b = bytes_value_bytes(x.to_bytes());
                assert(opt_length_delimited_field_bytes(11, match v { Some(m) => Some(m.to_bytes()), None => None }) + rest =~= t + (b + rest));
                lemma_tag_roundtrip(11, WIRE_LENGTH_DELIMITED, b + rest);
                lemma_message_window(x.to_bytes(), rest);
                    lemma_embedded_window(x.to_bytes(), rest, lim);
                    x.lemma_roundtrip(0);
                    lemma_varint_parse_len(bytes_value_bytes(x.to_bytes()) + rest);
                Self::lemma_merge_step(acc, 11, WIRE_LENGTH_DELIMITED, t, b, rest, FrameModel { goodbye: v, ..acc }, lim);
            },
        }
    }

    /// Merging the encoding of field `state` sets it, whatever follows.
    pub proof fn lemma_merge_state(acc: Self, v: Option<StateModel>, rest: Seq<u8>, lim: nat)
        requires
            (v matches Some(m) ==> m.wf() && fits_u32(m.to_bytes())),
        ensures
            acc.merge(opt_length_delimited_field_bytes(12, match v { Some(m) => Some(m.to_bytes()), None => None }) + rest, lim) == (FrameModel { state: if v is Some { v } else { acc.state }, ..acc }).merge(rest, lim),
    {
        match v {
            None => {
                assert(opt_length_delimited_field_bytes(12, match v { Some(m) => Some(m.to_bytes()), None => None }) + rest =~= rest);
                assert((FrameModel { state: acc.state, ..acc }) == acc);
            },
            Some(x) => {
                let t = tag_bytes(12, WIRE_LENGTH_DELIMITED);
                let b = bytes_value_bytes(x.to_bytes());
                assert(opt_length_delimited_field_bytes(12, match v { Some(m) => Some(m.to_bytes()), None => None }) + rest =~= t + (b + rest));
                lemma_tag_roundtrip(12, WIRE_LENGTH_DELIMITED, b + rest);
                lemma_message_window(x.to_bytes(), rest);
                    lemma_embedded_window(x.to_bytes(), rest, lim);
                    x.lemma_roundtrip(0);
                    lemma_varint_parse_len(bytes_value_bytes(x.to_bytes()) + rest);
                Self::lemma_merge_step(acc, 12, WIRE_LENGTH_DELIMITED, t, b, rest, FrameModel { state: v, ..acc }, lim);
            },
        }
    }

    /// Merging the encoding of field `position` sets it, whatever follows.
    pub proof fn lemma_merge_position(acc: Self, v: Option<u32>, rest: Seq<u8>, lim: nat)
        ensures
            acc.merge(opt_varint_field_bytes(13, match v { Some(x) => Some(x as u64), None => None }) + rest, lim) == (FrameModel { position: if v is Some { v } else { acc.position }, ..acc }).merge(rest, lim),
    {
        match v {
            None => {
                assert(opt_varint_field_bytes(13, match v { Some(x) => Some(x as u64), None => None }) + rest =~= rest);
                assert((FrameModel { position: acc.position, ..acc }) == acc);
            },
            Some(x) => {
                let t = tag_bytes(13, WIRE_VARINT);
                let b = varint_bytes(x as u64);
                assert(opt_varint_field_bytes(13, match v { Some(x) => Some(x as u64), None => None }) + rest =~= t + (b + rest));
                lemma_tag_roundtrip(13, WIRE_VARINT, b + rest);
                lemma_varint_roundtrip(x as u64, rest);
                    lemma_varint_casts(0, 0, x, false, 0);
                Self::lemma_merge_step(acc, 13, WIRE_VARINT, t, b, rest, FrameModel { position: v, ..acc }, lim);
            },
        }
    }

    /// Merging the encoding of field `volume` sets it, whatever follows.
    pub proof fn lemma_merge_volume(acc: Self, v: Option<u32>, rest: Seq<u8>, lim: nat)
        ensures
            acc.merge(opt_varint_field_bytes(14, match v { Some(x) => Some(x as u64), None => None }) + rest, lim) == (FrameModel { volume: if v is Some { v } else { acc.volume }, ..acc }).merge(rest, lim),
    {
        match v {
            None => {
                assert(opt_varint_field_bytes(14, match v { Some(x) => Some(x as u64), None => None }) + rest =~= rest);
                assert((FrameModel { volume: acc.volume, ..acc }) == acc);
            },
            Some(x) => {
                let t = tag_bytes(14, WIRE_VARINT);
                let b = varint_bytes(x as u64);
                assert(opt_varint_field_bytes(14, match v { Some(x) => Some(x as u64), None => None }) + rest =~= t + (b + rest));
                lemma_tag_roundtrip(14, WIRE_VARINT, b + rest);
                lemma_varint_roundtrip(x as u64, rest);
                    lemma_varint_casts(0, 0, x, false, 0);
                Self::lemma_merge_step(acc, 14, WIRE_VARINT, t, b, rest, FrameModel { volume: v, ..acc }, lim);
            },
        }
    }

    /// Merging the encoding of field `state_update_id` sets it, whatever follows.
    pub proof fn lemma_merge_state_update_id(acc: Self, v: Option<i64>, rest: Seq<u8>, lim: nat)
        ensures
            acc.merge(opt_varint_field_bytes(17, match v { Some(x) => Some(x as u64), None => None }) + rest, lim) == (FrameModel { state_update_id: if v is Some { v } else { acc.state_update_id }, ..acc }).merge(rest, lim),
    {
        match v {
            None => {
                assert(opt_varint_field_bytes(17, match v { Some(x) => Some(x as u64), None => None }) + rest =~= rest);
                assert((FrameModel { state_update_id: acc.state_update_id, ..acc }) == acc);
            },
            Some(x) => {
                let t = tag_bytes(17, WIRE_VARINT);
                let b = varint_bytes(x as u64);
                assert(opt_varint_field_bytes(17, match v { Some(x) => Some(x as u64), None => None }) + rest =~= t + (b + rest));
                lemma_tag_roundtrip(17, WIRE_VARINT, b + rest);
                lemma_varint_roundtrip(x as u64, rest);
                    lemma_varint_casts(0, x, 0, false, 0);
                Self::lemma_merge_step(acc, 17, WIRE_VARINT, t, b, rest, FrameModel { state_update_id: v, ..acc }, lim);
            },
        }
    }

    /// Merging the encoding of the elements of field `recipient` appends them, whatever follows.
    #[verifier::rlimit(50)]
    pub proof fn lemma_merge_recipient(acc: Self, v: Seq<Seq<char>>, rest: Seq<u8>, lim: nat)
        requires
            crate::wire::all_fit_u32(utf8_encodings(v)),
        ensures
            acc.merge(length_delimited_list_bytes(18, utf8_encodings(v)) + rest, lim) == (FrameModel { recipient: acc.recipient + v, ..acc }).merge(rest, lim),
        decreases v.len(),
    {
        let w = utf8_encodings(v);
        if v.len() == 0 {
            assert(length_delimited_list_bytes(18, w) + rest =~= rest);
            assert(acc.recipient + v =~= acc.recipient);
            assert((FrameModel { recipient: acc.recipient + v, ..acc }) == acc);
        } else {
            lemma_length_delimited_list_cons(18, w);
            assert(fits_u32(w[0]));
            let t = tag_bytes(18, WIRE_LENGTH_DELIMITED);
            let b = bytes_value_bytes(w[0]);
            let tail = length_delimited_list_bytes(18, w.subrange(1, w.len() as int));
            assert(length_delimited_list_bytes(18, w) + rest =~= t + (b + (tail + rest)));
            lemma_tag_roundtrip(18, WIRE_LENGTH_DELIMITED, b + (tail + rest));
            lemma_string_roundtrip(v[0], tail + rest);
            let acc1 = FrameModel { recipient: acc.recipient.push(v[0]), ..acc };
            Self::lemma_merge_step(acc, 18, WIRE_LENGTH_DELIMITED, t, b, tail + rest, acc1, lim);
            assert(w.subrange(1, w.len() as int) =~= utf8_encodings(v.subrange(1, v.len() as int)));
            assert forall|j: int| 0 <= j < w.len() - 1 implies fits_u32(#[trigger] w.subrange(1, w.len() as int)[j]) by {
                assert(w.subrange(1, w.len() as int)[j] == w[j + 1]);
            }
            Self::lemma_merge_recipient(acc1, v.subrange(1, v.len() as int), rest, lim);
            assert(acc1.recipient + v.subrange(1, v.len() as int) =~= acc.recipient + v);
        }
    }

    /// Merging the encoding of field `context_player_state` sets it, whatever follows.
    pub proof fn lemma_merge_context_player_state(acc: Self, v: Option<Seq<u8>>, rest: Seq<u8>, lim: nat)
        requires
            (v matches Some(b) ==> fits_u32(b)),
        ensures
            acc.merge(opt_length_delimited_field_bytes(19, v) + rest, lim) == (FrameModel { context_player_state: if v is Some { v } else { acc.context_player_state }, ..acc }).merge(rest, lim),
    {
        match v {
            None => {
                assert(opt_length_delimited_field_bytes(19, v) + rest =~= rest);
                assert((FrameModel { context_player_state: acc.context_player_state, ..acc }) == acc);
            },
            Some(x) => {
                let t = tag_bytes(19, WIRE_LENGTH_DELIMITED);
                let b = bytes_value_bytes(x);
                assert(opt_length_delimited_field_bytes(19, v) + rest =~= t + (b + rest));
                lemma_tag_roundtrip(19, WIRE_LENGTH_DELIMITED, b + rest);
                lemma_bytes_roundtrip(x, rest);
                Self::lemma_merge_step(acc, 19, WIRE_LENGTH_DELIMITED, t, b, rest, FrameModel { context_player_state: v, ..acc }, lim);
            },
        }
    }

    /// Merging the encoding of field `new_name` sets it, whatever follows.
    pub proof fn lemma_merge_new_name(acc: Self, v: Option<Seq<char>>, rest: Seq<u8>, lim: nat)
        requires
            (v matches Some(c) ==> fits_u32(encode_utf8(c))),
        ensures
            acc.merge(opt_length_delimited_field_bytes(20, match v { Some(c) => Some(encode_utf8(c)), None => None }) + rest, lim) == (FrameModel { new_name: if v is Some { v } else { acc.new_name }, ..acc }).merge(rest, lim),
    {
        match v {
            None => {
                assert(opt_length_delimited_field_bytes(20, match v { Some(c) => Some(encode_utf8(c)), None => None }) + rest =~= rest);
                assert((FrameModel { new_name: acc.new_name, ..acc }) == acc);
            },
            Some(x) => {
                let t = tag_bytes(20, WIRE_LENGTH_DELIMITED);
                let b = bytes_value_bytes(encode_utf8(x));
                assert(opt_length_delimited_field_bytes(20, match v { Some(c) => Some(encode_utf8(c)), None => None }) + rest =~= t + (b + rest));
                lemma_tag_roundtrip(20, WIRE_LENGTH_DELIMITED, b + rest);
                lemma_string_roundtrip(x, rest);
                Self::lemma_merge_step(acc, 20, WIRE_LENGTH_DELIMITED, t, b, rest, FrameModel { new_name: v, ..acc }, lim);
            },
        }
    }

    /// Merging the encoding of fields of unknown numbers keeps them, whatever follows.
    #[verifier::rlimit(50)]
    pub proof fn lemma_merge_unknown_fields(acc: Self, v: Seq<UnknownFieldModel>, rest: Seq<u8>, lim: nat)
        requires
            forall|i: int| 0 <= i < v.len() ==> unknown_field_wf(#[trigger] v[i]) && !Self::is_known_field(v[i].number),
            unknown_grouped(acc.unknown_fields + v),
        ensures
            acc.merge(unknown_list_bytes(v) + rest, lim) == (FrameModel { unknown_fields: acc.unknown_fields + v, ..acc }).merge(rest, lim),
        decreases v.len(),
    {
        if v.len() == 0 {
            assert(unknown_list_bytes(v) + rest =~= rest);
            assert(acc.unknown_fields + v =~= acc.unknown_fields);
            assert((FrameModel { unknown_fields: acc.unknown_fields + v, ..acc }) == acc);
        } else {
            lemma_unknown_list_cons(v);
            let u = v[0];
            let wt = crate::wire::unknown_wire_type(u.value);
            let t = tag_bytes(u.number, wt);
            let b = crate::wire::unknown_value_bytes(u.value);
            let tail = unknown_list_bytes(v.subrange(1, v.len() as int));
            assert(unknown_list_bytes(v) + rest =~= t + (b + (tail + rest)));
            assert(unknown_field_bytes(u) + (tail + rest) =~= t + (b + (tail + rest)));
            lemma_unknown_roundtrip(u, tail + rest);
            assert((t + (b + (tail + rest))).skip(t.len() as int) =~= b + (tail + rest));
            crate::wire::lemma_tag_roundtrip(u.number, wt, b + (tail + rest));
            let acc1 = FrameModel { unknown_fields: acc.unknown_fields.push(u), ..acc };
            assert(acc.unknown_fields.push(u) =~= (acc.unknown_fields + v).take(acc.unknown_fields.len() + 1int));
            lemma_grouped_take(acc.unknown_fields + v, acc.unknown_fields.len() + 1int);
            lemma_grouped_insert_last(acc.unknown_fields, u);
            Self::lemma_merge_step(acc, u.number, wt, t, b, tail + rest, acc1, lim);
            assert(acc1.unknown_fields + v.subrange(1, v.len() as int) =~= acc.unknown_fields + v);
            Self::lemma_merge_unknown_fields(acc1, v.subrange(1, v.len() as int), rest, lim);
        }
    }

    /// Reading back the encoding of a model that can be written gives the model,
    /// whatever the limit past its end.
    #[verifier::spinoff_prover]
    #[verifier::rlimit(100)]
    pub proof fn lemma_roundtrip(self, lim: nat)
        requires
            self.wf(),
        ensures
            FrameModel::empty().merge(self.to_bytes(), lim) == Some(self),
    {
        reveal(FrameModel::to_bytes);
        reveal(FrameModel::wf);
        reveal_with_fuel(FrameModel::merge, 1);
        let a0 = FrameModel::empty();
        Self::lemma_merge_version(a0, self.version, self.encoded_from_ident(), lim);
        let a1 = FrameModel { version: if self.version is Some { self.version } else { a0.version }, ..a0 };
        assert((self.ident matches Some(c) ==> fits_u32(encode_utf8(c))));
        Self::lemma_merge_ident(a1, self.ident, self.encoded_from_protocol_version(), lim);
        let a2 = FrameModel { ident: if self.ident is Some { self.ident } else { a1.ident }, ..a1 };
        assert((self.protocol_version matches Some(c) ==> fits_u32(encode_utf8(c))));
        Self::lemma_merge_protocol_version(a2, self.protocol_version, self.encoded_from_seq_nr(), lim);
        let a3 = FrameModel { protocol_version: if self.protocol_version is Some { self.protocol_version } else { a2.protocol_version }, ..a2 };
        Self::lemma_merge_seq_nr(a3, self.seq_nr, self.encoded_from_typ(), lim);
        let a4 = FrameModel { seq_nr: if self.seq_nr is Some { self.seq_nr } else { a3.seq_nr }, ..a3 };
        Self::lemma_merge_typ(a4, self.typ, self.encoded_from_device_state(), lim);
        let a5 = FrameModel { typ: if self.typ is Some { self.typ } else { a4.typ }, ..a4 };
        assert((self.device_state matches Some(m) ==> m.wf() && fits_u32(m.to_bytes())));
        Self::lemma_merge_device_state(a5, self.device_state, self.encoded_from_goodbye(), lim);
        let a6 = FrameModel { device_state: if self.device_state is Some { self.device_state } else { a5.device_state }, ..a5 };
        assert((self.goodbye matches Some(m) ==> m.wf() && fits_u32(m.to_bytes())));
        Self::lemma_merge_goodbye(a6, self.goodbye, self.encoded_from_state(), lim);
        let a7 = FrameModel { goodbye: if self.goodbye is Some { self.goodbye } else { a6.goodbye }, ..a6 };
        assert((self.state matches Some(m) ==> m.wf() && fits_u32(m.to_bytes())));
        Self::lemma_merge_state(a7, self.state, self.encoded_from_position(), lim);
        let a8 = FrameModel { state: if self.state is Some { self.state } else { a7.state }, ..a7 };
        Self::lemma_merge_position(a8, self.position, self.encoded_from_volume(), lim);
        let a9 = FrameModel { position: if self.position is Some { self.position } else { a8.position }, ..a8 };
        Self::lemma_merge_volume(a9, self.volume, self.encoded_from_state_update_id(), lim);
        let a10 = FrameModel { volume: if self.volume is Some { self.volume } else { a9.volume }, ..a9 };
        Self::lemma_merge_state_update_id(a10, self.state_update_id, self.encoded_from_recipient(), lim);
        let a11 = FrameModel { state_update_id: if self.state_update_id is Some { self.state_update_id } else { a10.state_update_id }, ..a10 };
        assert(crate::wire::all_fit_u32(utf8_encodings(self.recipient)));
        Self::lemma_merge_recipient(a11, self.recipient, self.encoded_from_context_player_state(), lim);
        let a12 = FrameModel { recipient: a11.recipient + self.recipient, ..a11 };
        assert((self.context_player_state matches Some(b) ==> fits_u32(b)));
        Self::lemma_merge_context_player_state(a12, self.context_player_state, self.encoded_from_new_name(), lim);
        let a13 = FrameModel { context_player_state: if self.context_player_state is Some { self.context_player_state } else { a12.context_player_state }, ..a12 };
        assert((self.new_name matches Some(c) ==> fits_u32(encode_utf8(c))));
        Self::lemma_merge_new_name(a13, self.new_name, self.encoded_from_unknown_fields(), lim);
        let a14 = FrameModel { new_name: if self.new_name is Some { self.new_name } else { a13.new_name }, ..a13 };
        assert(a14.unknown_fields + self.unknown_fields =~= self.unknown_fields);
        Self::lemma_merge_unknown_fields(a14, self.unknown_fields, Seq::empty(), lim);
        assert(unknown_list_bytes(self.unknown_fields) + Seq::<u8>::empty() =~= unknown_list_bytes(self.unknown_fields));
        let last = FrameModel { unknown_fields: a14.unknown_fields + self.unknown_fields, ..a14 };
        assert(last.recipient =~= self.recipient);
        assert(last.unknown_fields =~= self.unknown_fields);
        assert(last == self);
    }
    /// A message whose only set field is `version` is written as field number 1 of the
    /// protocol's definition alone: the tag of that number with the wire type of the field,
    /// then the value.
    pub proof fn lemma_encoding_of_version(v: Option<u32>)
        ensures
            (FrameModel { version: v, ..FrameModel::empty() }).to_bytes() == opt_varint_field_bytes(1, match v { Some(x) => Some(x as u64), None => None }),
    {
        reveal(FrameModel::to_bytes);
        let m = FrameModel { version: v, ..FrameModel::empty() };
        assert(m.to_bytes() =~= opt_varint_field_bytes(1, match v { Some(x) => Some(x as u64), None => None }));
    }

    /// A message whose only set field is `ident` is written as field number 2 of the
    /// protocol's definition alone: the tag of that number with the wire type of the field,
    /// then the value.
    pub proof fn lemma_encoding_of_ident(v: Option<Seq<char>>)
        ensures
            (FrameModel { ident: v, ..FrameModel::empty() }).to_bytes() == opt_length_delimited_field_bytes(2, match v { Some(c) => Some(encode_utf8(c)), None => None }),
    {
        reveal(FrameModel::to_bytes);
        let m = FrameModel { ident: v, ..FrameModel::empty() };
        assert(m.to_bytes() =~= opt_length_delimited_field_bytes(2, match v { Some(c) => Some(encode_utf8(c)), None => None }));
    }

    /// A message whose only set field is `protocol_version` is written as field number 3 of the
    /// protocol's definition alone: the tag of that number with the wire type of the field,
    /// then the value.
    pub proof fn lemma_encoding_of_protocol_version(v: Option<Seq<char>>)
        ensures
            (FrameModel { protocol_version: v, ..FrameModel::empty() }).to_bytes() == opt_length_delimited_field_bytes(3, match v { Some(c) => Some(encode_utf8(c)), None => None }),
    {
        reveal(FrameModel::to_bytes);
        let m = FrameModel { protocol_version: v, ..FrameModel::empty() };
        assert(m.to_bytes() =~= opt_length_delimited_field_bytes(3, match v { Some(c) => Some(encode_utf8(c)), None => None }));
    }

    /// A message whose only set field is `seq_nr` is written as field number 4 of the
    /// protocol's definition alone: the tag of that number with the wire type of the field,
    /// then the value.
    pub proof fn lemma_encoding_of_seq_nr(v: Option<u32>)
        ensures
            (FrameModel { seq_nr: v, ..FrameModel::empty() }).to_bytes() == opt_varint_field_bytes(4, match v { Some(x) => Some(x as u64), None => None }),
    {
        reveal(FrameModel::to_bytes);
        let m = FrameModel { seq_nr: v, ..FrameModel::empty() };
        assert(m.to_bytes() =~= opt_varint_field_bytes(4, match v { Some(x) => Some(x as u64), None => None }));
    }

    /// A message whose only set field is `typ` is written as field number 5 of the
    /// protocol's definition alone: the tag of that number with the wire type of the field,
    /// then the value.
    pub proof fn lemma_encoding_of_typ(v: Option<MessageType>)
        ensures
            (FrameModel { typ: v, ..FrameModel::empty() }).to_bytes() == opt_varint_field_bytes(5, match v { Some(x) => Some(int32_varint(x.spec_value())), None => None }),
    {
        reveal(FrameModel::to_bytes);
        let m = FrameModel { typ: v, ..FrameModel::empty() };
        assert(m.to_bytes() =~= opt_varint_field_bytes(5, match v { Some(x) => Some(int32_varint(x.spec_value())), None => None }));
    }

    /// A message whose only set field is `device_state` is written as field number 7 of the
    /// protocol's definition alone: the tag of that number with the wire type of the field,
    /// then the value.
    pub proof fn lemma_encoding_of_device_state(v: Option<DeviceStateModel>)
        ensures
            (FrameModel { device_state: v, ..FrameModel::empty() }).to_bytes() == opt_length_delimited_field_bytes(7, match v { Some(m) => Some(m.to_bytes()), None => None }),
    {
        reveal(FrameModel::to_bytes);
        let m = FrameModel { device_state: v, ..FrameModel::empty() };
        assert(m.to_bytes() =~= opt_length_delimited_field_bytes(7, match v { Some(m) => Some(m.to_bytes()), None => None }));
    }

    /// A message whose only set field is `goodbye` is written as field number 11 of the
    /// protocol's definition alone: the tag of that number with the wire type of the field,
    /// then the value.
    pub proof fn lemma_encoding_of_goodbye(v: Option<GoodbyeModel>)
        ensures
            (FrameModel { goodbye: v, ..FrameModel::empty() }).to_bytes() == opt_length_delimited_field_bytes(11, match v { Some(m) => Some(m.to_bytes()), None => None }),
    {
        reveal(FrameModel::to_bytes);
        let m = FrameModel { goodbye: v, ..FrameModel::empty() };
        assert(m.to_bytes() =~= opt_length_delimited_field_bytes(11, match v { Some(m) => Some(m.to_bytes()), None => None }));
    }

    /// A message whose only set field is `state` is written as field number 12 of the
    /// protocol's definition alone: the tag of that number with the wire type of the field,
    /// then the value.
    pub proof fn lemma_encoding_of_state(v: Option<StateModel>)
        ensures
            (FrameModel { state: v, ..FrameModel::empty() }).to_bytes() == opt_length_delimited_field_bytes(12, match v { Some(m) => Some(m.to_bytes()), None => None }),
    {
        reveal(FrameModel::to_bytes);
        let m = FrameModel { state: v, ..FrameModel::empty() };
        assert(m.to_bytes() =~= opt_length_delimited_field_bytes(12, match v { Some(m) => Some(m.to_bytes()), None => None }));
    }

    /// A message whose only set field is `position` is written as field number 13 of the
    /// protocol's definition alone: the tag of that number with the wire type of the field,
    /// then the value.
    pub proof fn lemma_encoding_of_position(v: Option<u32>)
        ensures
            (FrameModel { position: v, ..FrameModel::empty() }).to_bytes() == opt_varint_field_bytes(13, match v { Some(x) => Some(x as u64), None => None }),
    {
        reveal(FrameModel::to_bytes);
        let m = FrameModel { position: v, ..FrameModel::empty() };
        assert(m.to_bytes() =~= opt_varint_field_bytes(13, match v { Some(x) => Some(x as u64), None => None }));
    }

    /// A message whose only set field is `volume` is written as field number 14 of the
    /// protocol's definition alone: the tag of that number with the wire type of the field,
    /// then the value.
    pub proof fn lemma_encoding_of_volume(v: Option<u32>)
        ensures
            (FrameModel { volume: v, ..FrameModel::empty() }).to_bytes() == opt_varint_field_bytes(14, match v { Some(x) => Some(x as u64), None => None }),
    {
        reveal(FrameModel::to_bytes);
        let m = FrameModel { volume: v, ..FrameModel::empty() };
        assert(m.to_bytes() =~= opt_varint_field_bytes(14, match v { Some(x) => Some(x as u64), None => None }));
    }

    /// A message whose only set field is `state_update_id` is written as field number 17 of the
    /// protocol's definition alone: the tag of that number with the wire type of the field,
    /// then the value.
    pub proof fn lemma_encoding_of_state_update_id(v: Option<i64>)
        ensures
            (FrameModel { state_update_id: v, ..FrameModel::empty() }).to_bytes() == opt_varint_field_bytes(17, match v { Some(x) => Some(x as u64), None => None }),
    {
        reveal(FrameModel::to_bytes);
        let m = FrameModel { state_update_id: v, ..FrameModel::empty() };
        assert(m.to_bytes() =~= opt_varint_field_bytes(17, match v { Some(x) => Some(x as u64), None => None }));
    }

    /// A message whose only set field is `recipient` is written as field number 18 of the
    /// protocol's definition alone: the tag of that number with the wire type of the field,
    /// then the value.
    pub proof fn lemma_encoding_of_recipient(v: Seq<Seq<char>>)
        ensures
            (FrameModel { recipient: v, ..FrameModel::empty() }).to_bytes() == length_delimited_list_bytes(18, utf8_encodings(v)),
    {
        reveal(FrameModel::to_bytes);
        let m = FrameModel { recipient: v, ..FrameModel::empty() };
        assert(m.to_bytes() =~= length_delimited_list_bytes(18, utf8_encodings(v)));
    }

    /// A message whose only set field is `context_player_state` is written as field number 19 of the
    /// protocol's definition alone: the tag of that number with the wire type of the field,
    /// then the value.
    pub proof fn lemma_encoding_of_context_player_state(v: Option<Seq<u8>>)
        ensures
            (FrameModel { context_player_state: v, ..FrameModel::empty() }).to_bytes() == opt_length_delimited_field_bytes(19, v),
    {
        reveal(FrameModel::to_bytes);
        let m = FrameModel { context_player_state: v, ..FrameModel::empty() };
        assert(m.to_bytes() =~= opt_length_delimited_field_bytes(19, v));
    }

    /// A message whose only set field is `new_name` is written as field number 20 of the
    /// protocol's definition alone: the tag of that number with the wire type of the field,
    /// then the value.
    pub proof fn lemma_encoding_of_new_name(v: Option<Seq<char>>)
        ensures
            (FrameModel { new_name: v, ..FrameModel::empty() }).to_bytes() == opt_length_delimited_field_bytes(20, match v { Some(c) => Some(encode_utf8(c)), None => None }),
    {
        reveal(FrameModel::to_bytes);
        let m = FrameModel { new_name: v, ..FrameModel::empty() };
        assert(m.to_bytes() =~= opt_length_delimited_field_bytes(20, match v { Some(c) => Some(encode_utf8(c)), None => None }));
    }

}

#[allow(non_snake_case)]
impl Frame {
    #[verifier::type_invariant]
    spec fn unset_fields_are_empty(self) -> bool {
        (!self.has_device_state ==> self.device_state@ == DeviceStateModel::empty())
        && (!self.has_goodbye ==> self.goodbye@ == GoodbyeModel::empty())
        && (!self.has_state ==> self.state@ == StateModel::empty())
    }

    /// The models of a list of messages.
    pub open spec fn seq_model(v: Seq<Frame>) -> Seq<FrameModel> {
        v.map_values(|m: Frame| m@)
    }

    /// A message with no field set.
    pub fn new() -> (r: Self)
        ensures
            r@ == FrameModel::empty(),
            r@.wf(),
    {
        let r = Frame {
            version: None,
            ident: None,
            protocol_version: None,
            seq_nr: None,
            typ: None,
            device_state: Box::new(DeviceState::new()),
            has_device_state: false,
            goodbye: Box::new(Goodbye::new()),
            has_goodbye: false,
            state: Box::new(State::new()),
            has_state: false,
            position: None,
            volume: None,
            state_update_id: None,
            recipient: Vec::new(),
            context_player_state: None,
            new_name: None,
            unknown_fields: Vec::new(),
        };
        assert(string_models(r.recipient@) =~= Seq::<Seq<char>>::empty());
        assert(unknown_models(r.unknown_fields@) =~= Seq::<UnknownFieldModel>::empty());
        proof {
            FrameModel::lemma_empty_wf();
        }
        r
    }

    /// Unsets field `version`.
    pub fn clear_version(&mut self)
        ensures
            final(self)@ == (FrameModel { version: None, ..old(self)@ }),
    {
        proof {
            use_type_invariant(&*self);
        }
        self.version = None;
    }

    /// Whether field `version` is set.
    pub fn has_version(&self) -> (r: bool)
        ensures
            r == self@.version is Some,
    {
        self.version.is_some()
    }

    /// Sets field `version` to `v`.
    pub fn set_version(&mut self, v: u32)
        ensures
            final(self)@ == (FrameModel { version: Some(v), ..old(self)@ }),
    {
        proof {
            use_type_invariant(&*self);
        }
        self.version = Some(v);
    }

    /// Field `version`, or `0` when unset.
    pub fn get_version(&self) -> (r: u32)
        ensures
            r == (match self@.version { Some(x) => x, None => 0u32 }),
    {
        match self.version {
            Some(x) => x,
            None => 0u32,
        }
    }

    /// Unsets field `ident`.
    pub fn clear_ident(&mut self)
        ensures
            final(self)@ == (FrameModel { ident: None, ..old(self)@ }),
    {
        proof {
            use_type_invariant(&*self);
        }
        self.ident = None;
    }

    /// Whether field `ident` is set.
    pub fn has_ident(&self) -> (r: bool)
        ensures
            r == self@.ident is Some,
    {
        self.ident.is_some()
    }

    /// Sets field `ident` to `v`.
    pub fn set_ident(&mut self, v: String)
        ensures
            final(self)@ == (FrameModel { ident: Some(v@), ..old(self)@ }),
    {
        proof {
            use_type_invariant(&*self);
        }
        self.ident = Some(v);
    }

    /// Field `ident`, to change in place; an unset field is first set to its default.
    pub fn mut_ident(&mut self) -> (r: &mut String)
        ensures
            r@ == chars_or_empty(old(self)@.ident),
            final(self)@ == (FrameModel { ident: Some(final(r)@), ..old(self)@ }),

    {
        proof {
            use_type_invariant(&*self);
        }
        if self.ident.is_none() {
            self.ident = Some(String::new());
        }
        opt_as_mut(&mut self.ident).unwrap()
    }

    /// Takes field `ident` (its default when unset), leaving it unset.
    pub fn take_ident(&mut self) -> (r: String)
        ensures
            r@ == chars_or_empty(old(self)@.ident),
            final(self)@ == (FrameModel { ident: None, ..old(self)@ }),
    {
        proof {
            use_type_invariant(&*self);
        }
        let mut t = None;
        std::mem::swap(&mut t, &mut self.ident);
        match t {
            Some(v) => v,
            None => String::new(),
        }
    }

    /// Field `ident`, or the empty string when unset.
    pub fn get_ident(&self) -> (r: &str)
        ensures
            r@ == chars_or_empty(self@.ident),
    {
        match &self.ident {
            Some(v) => v.as_str(),
            None => {
                proof {
                    reveal_strlit("");
                }
                ""
            },
        }
    }

    /// Unsets field `protocol_version`.
    pub fn clear_protocol_version(&mut self)
        ensures
            final(self)@ == (FrameModel { protocol_version: None, ..old(self)@ }),
    {
        proof {
            use_type_invariant(&*self);
        }
        self.protocol_version = None;
    }

    /// Whether field `protocol_version` is set.
    pub fn has_protocol_version(&self) -> (r: bool)
        ensures
            r == self@.protocol_version is Some,
    {
        self.protocol_version.is_some()
    }

    /// Sets field `protocol_version` to `v`.
    pub fn set_protocol_version(&mut self, v: String)
        ensures
            final(self)@ == (FrameModel { protocol_version: Some(v@), ..old(self)@ }),
    {
        proof {
            use_type_invariant(&*self);
        }
        self.protocol_version = Some(v);
    }

    /// Field `protocol_version`, to change in place; an unset field is first set to its default.
    pub fn mut_protocol_version(&mut self) -> (r: &mut String)
        ensures
            r@ == chars_or_empty(old(self)@.protocol_version),
            final(self)@ == (FrameModel { protocol_version: Some(final(r)@), ..old(self)@ }),

    {
        proof {
            use_type_invariant(&*self);
        }
        if self.protocol_version.is_none() {
            self.protocol_version = Some(String::new());
        }
        opt_as_mut(&mut self.protocol_version).unwrap()
    }

    /// Takes field `protocol_version` (its default when unset), leaving it unset.
    pub fn take_protocol_version(&mut self) -> (r: String)
        ensures
            r@ == chars_or_empty(old(self)@.protocol_version),
            final(self)@ == (FrameModel { protocol_version: None, ..old(self)@ }),
    {
        proof {
            use_type_invariant(&*self);
        }
        let mut t = None;
        std::mem::swap(&mut t, &mut self.protocol_version);
        match t {
            Some(v) => v,
            None => String::new(),
        }
    }

    /// Field `protocol_version`, or the empty string when unset.
    pub fn get_protocol_version(&self) -> (r: &str)
        ensures
            r@ == chars_or_empty(self@.protocol_version),
    {
        match &self.protocol_version {
            Some(v) => v.as_str(),
            None => {
                proof {
                    reveal_strlit("");
                }
                ""
            },
        }
    }

    /// Unsets field `seq_nr`.
    pub fn clear_seq_nr(&mut self)
        ensures
            final(self)@ == (FrameModel { seq_nr: None, ..old(self)@ }),
    {
        proof {
            use_type_invariant(&*self);
        }
        self.seq_nr = None;
    }

    /// Whether field `seq_nr` is set.
    pub fn has_seq_nr(&self) -> (r: bool)
        ensures
            r == self@.seq_nr is Some,
    {
        self.seq_nr.is_some()
    }

    /// Sets field `seq_nr` to `v`.
    pub fn set_seq_nr(&mut self, v: u32)
        ensures
            final(self)@ == (FrameModel { seq_nr: Some(v), ..old(self)@ }),
    {
        proof {
            use_type_invariant(&*self);
        }
        self.seq_nr = Some(v);
    }

    /// Field `seq_nr`, or `0` when unset.
    pub fn get_seq_nr(&self) -> (r: u32)
        ensures
            r == (match self@.seq_nr { Some(x) => x, None => 0u32 }),
    {
        match self.seq_nr {
            Some(x) => x,
            None => 0u32,
        }
    }

    /// Unsets field `typ`.
    pub fn clear_typ(&mut self)
        ensures
            final(self)@ == (FrameModel { typ: None, ..old(self)@ }),
    {
        proof {
            use_type_invariant(&*self);
        }
        self.typ = None;
    }

    /// Whether field `typ` is set.
    pub fn has_typ(&self) -> (r: bool)
        ensures
            r == self@.typ is Some,
    {
        self.typ.is_some()
    }

    /// Sets field `typ` to `v`.
    pub fn set_typ(&mut self, v: MessageType)
        ensures
            final(self)@ == (FrameModel { typ: Some(v), ..old(self)@ }),
    {
        proof {
            use_type_invariant(&*self);
        }
        self.typ = Some(v);
    }

    /// Field `typ`, or `MessageType::kMessageTypeHello` when unset.
    pub fn get_typ(&self) -> (r: MessageType)
        ensures
            r == (match self@.typ { Some(x) => x, None => MessageType::kMessageTypeHello }),
    {
        match self.typ {
            Some(x) => x,
            None => MessageType::kMessageTypeHello,
        }
    }

    /// Unsets field `device_state`.
    pub fn clear_device_state(&mut self)
        ensures
            final(self)@ == (FrameModel { device_state: None, ..old(self)@ }),
    {
        proof {
            use_type_invariant(&*self);
        }
        self.device_state = Box::new(DeviceState::new());
        self.has_device_state = false;
    }

    /// Whether field `device_state` is set.
    pub fn has_device_state(&self) -> (r: bool)
        ensures
            r == self@.device_state is Some,
    {
        self.has_device_state
    }

    /// Sets field `device_state` to `v`.
    pub fn set_device_state(&mut self, v: DeviceState)
        ensures
            final(self)@ == (FrameModel { device_state: Some(v@), ..old(self)@ }),
    {
        proof {
            use_type_invariant(&*self);
        }
        self.has_device_state = true;
        self.device_state = Box::new(v);
    }

    /// Field `device_state`, to change in place; an unset field is first set to its default.
    pub fn mut_device_state(&mut self) -> (r: &mut DeviceState)
        ensures
            r@ == (match old(self)@.device_state { Some(x) => x, None => DeviceStateModel::empty() }),
            final(self)@ == (FrameModel { device_state: Some(final(r)@), ..old(self)@ }),

        no_unwind
    {
        proof {
            use_type_invariant(&*self);
        }
        self.has_device_state = true;
        box_mut(&mut self.device_state)
    }

    /// Takes field `device_state` (its default when unset), leaving it unset.
    pub fn take_device_state(&mut self) -> (r: DeviceState)
        ensures
            r@ == (match old(self)@.device_state { Some(x) => x, None => DeviceStateModel::empty() }),
            final(self)@ == (FrameModel { device_state: None, ..old(self)@ }),
    {
        proof {
            use_type_invariant(&*self);
        }
        let mut b = Box::new(DeviceState::new());
        std::mem::swap(&mut b, &mut self.device_state);
        self.has_device_state = false;
        *b
    }

    /// Field `device_state`, or a message with no field set when unset.
    pub fn get_device_state(&self) -> (r: &DeviceState)
        ensures
            r@ == (match self@.device_state { Some(x) => x, None => DeviceStateModel::empty() }),
    {
        proof {
            use_type_invariant(self);
        }
        &self.device_state
    }

    /// Unsets field `goodbye`.
    pub fn clear_goodbye(&mut self)
        ensures
            final(self)@ == (FrameModel { goodbye: None, ..old(self)@ }),
    {
        proof {
            use_type_invariant(&*self);
        }
        self.goodbye = Box::new(Goodbye::new());
        self.has_goodbye = false;
    }

    /// Whether field `goodbye` is set.
    pub fn has_goodbye(&self) -> (r: bool)
        ensures
            r == self@.goodbye is Some,
    {
        self.has_goodbye
    }

    /// Sets field `goodbye` to `v`.
    pub fn set_goodbye(&mut self, v: Goodbye)
        ensures
            final(self)@ == (FrameModel { goodbye: Some(v@), ..old(self)@ }),
    {
        proof {
            use_type_invariant(&*self);
        }
        self.has_goodbye = true;
        self.goodbye = Box::new(v);
    }

    /// Field `goodbye`, to change in place; an unset field is first set to its default.
    pub fn mut_goodbye(&mut self) -> (r: &mut Goodbye)
        ensures
            r@ == (match old(self)@.goodbye { Some(x) => x, None => GoodbyeModel::empty() }),
            final(self)@ == (FrameModel { goodbye: Some(final(r)@), ..old(self)@ }),

        no_unwind
    {
        proof {
            use_type_invariant(&*self);
        }
        self.has_goodbye = true;
        box_mut(&mut self.goodbye)
    }

    /// Takes field `goodbye` (its default when unset), leaving it unset.
    pub fn take_goodbye(&mut self) -> (r: Goodbye)
        ensures
            r@ == (match old(self)@.goodbye { Some(x) => x, None => GoodbyeModel::empty() }),
            final(self)@ == (FrameModel { goodbye: None, ..old(self)@ }),
    {
        proof {
            use_type_invariant(&*self);
        }
        let mut b = Box::new(Goodbye::new());
        std::mem::swap(&mut b, &mut self.goodbye);
        self.has_goodbye = false;
        *b
    }

    /// Field `goodbye`, or a message with no field set when unset.
    pub fn get_goodbye(&self) -> (r: &Goodbye)
        ensures
            r@ == (match self@.goodbye { Some(x) => x, None => GoodbyeModel::empty() }),
    {
        proof {
            use_type_invariant(self);
        }
        &self.goodbye
    }

    /// Unsets field `state`.
    pub fn clear_state(&mut self)
        ensures
            final(self)@ == (FrameModel { state: None, ..old(self)@ }),
    {
        proof {
            use_type_invariant(&*self);
        }
        self.state = Box::new(State::new());
        self.has_state = false;
    }

    /// Whether field `state` is set.
    pub fn has_state(&self) -> (r: bool)
        ensures
            r == self@.state is Some,
    {
        self.has_state
    }

    /// Sets field `state` to `v`.
    pub fn set_state(&mut self, v: State)
        ensures
            final(self)@ == (FrameModel { state: Some(v@), ..old(self)@ }),
    {
        proof {
            use_type_invariant(&*self);
        }
        self.has_state = true;
        self.state = Box::new(v);
    }

    /// Field `state`, to change in place; an unset field is first set to its default.
    pub fn mut_state(&mut self) -> (r: &mut State)
        ensures
            r@ == (match old(self)@.state { Some(x) => x, None => StateModel::empty() }),
            final(self)@ == (FrameModel { state: Some(final(r)@), ..old(self)@ }),

        no_unwind
    {
        proof {
            use_type_invariant(&*self);
        }
        self.has_state = true;
        box_mut(&mut self.state)
    }

    /// Takes field `state` (its default when unset), leaving it unset.
    pub fn take_state(&mut self) -> (r: State)
        ensures
            r@ == (match old(self)@.state { Some(x) => x, None => StateModel::empty() }),
            final(self)@ == (FrameModel { state: None, ..old(self)@ }),
    {
        proof {
            use_type_invariant(&*self);
        }
        let mut b = Box::new(State::new());
        std::mem::swap(&mut b, &mut self.state);
        self.has_state = false;
        *b
    }

    /// Field `state`, or a message with no field set when unset.
    pub fn get_state(&self) -> (r: &State)
        ensures
            r@ == (match self@.state { Some(x) => x, None => StateModel::empty() }),
    {
        proof {
            use_type_invariant(self);
        }
        &self.state
    }

    /// Unsets field `position`.
    pub fn clear_position(&mut self)
        ensures
            final(self)@ == (FrameModel { position: None, ..old(self)@ }),
    {
        proof {
            use_type_invariant(&*self);
        }
        self.position = None;
    }

    /// Whether field `position` is set.
    pub fn has_position(&self) -> (r: bool)
        ensures
            r == self@.position is Some,
    {
        self.position.is_some()
    }

    /// Sets field `position` to `v`.
    pub fn set_position(&mut self, v: u32)
        ensures
            final(self)@ == (FrameModel { position: Some(v), ..old(self)@ }),
    {
        proof {
            use_type_invariant(&*self);
        }
        self.position = Some(v);
    }

    /// Field `position`, or `0` when unset.
    pub fn get_position(&self) -> (r: u32)
        ensures
            r == (match self@.position { Some(x) => x, None => 0u32 }),
    {
        match self.position {
            Some(x) => x,
            None => 0u32,
        }
    }

    /// Unsets field `volume`.
    pub fn clear_volume(&mut self)
        ensures
            final(self)@ == (FrameModel { volume: None, ..old(self)@ }),
    {
        proof {
            use_type_invariant(&*self);
        }
        self.volume = None;
    }

    /// Whether field `volume` is set.
    pub fn has_volume(&self) -> (r: bool)
        ensures
            r == self@.volume is Some,
    {
        self.volume.is_some()
    }

    /// Sets field `volume` to `v`.
    pub fn set_volume(&mut self, v: u32)
        ensures
            final(self)@ == (FrameModel { volume: Some(v), ..old(self)@ }),
    {
        proof {
            use_type_invariant(&*self);
        }
        self.volume = Some(v);
    }

    /// Field `volume`, or `0` when unset.
    pub fn get_volume(&self) -> (r: u32)
        ensures
            r == (match self@.volume { Some(x) => x, None => 0u32 }),
    {
        match self.volume {
            Some(x) => x,
            None => 0u32,
        }
    }

    /// Unsets field `state_update_id`.
    pub fn clear_state_update_id(&mut self)
        ensures
            final(self)@ == (FrameModel { state_update_id: None, ..old(self)@ }),
    {
        proof {
            use_type_invariant(&*self);
        }
        self.state_update_id = None;
    }

    /// Whether field `state_update_id` is set.
    pub fn has_state_update_id(&self) -> (r: bool)
        ensures
            r == self@.state_update_id is Some,
    {
        self.state_update_id.is_some()
    }

    /// Sets field `state_update_id` to `v`.
    pub fn set_state_update_id(&mut self, v: i64)
        ensures
            final(self)@ == (FrameModel { state_update_id: Some(v), ..old(self)@ }),
    {
        proof {
            use_type_invariant(&*self);
        }
        self.state_update_id = Some(v);
    }

    /// Field `state_update_id`, or `0` when unset.
    pub fn get_state_update_id(&self) -> (r: i64)
        ensures
            r == (match self@.state_update_id { Some(x) => x, None => 0i64 }),
    {
        match self.state_update_id {
            Some(x) => x,
            None => 0i64,
        }
    }

    /// Empties field `recipient`.
    pub fn clear_recipient(&mut self)
        ensures
            final(self)@ == (FrameModel { recipient: Seq::empty(), ..old(self)@ }),
    {
        proof {
            use_type_invariant(&*self);
        }
        self.recipient = Vec::new();
        assert(string_models(self.recipient@) =~= Seq::<Seq<char>>::empty());
    }

    /// Sets field `recipient` to the elements of `v`.
    pub fn set_recipient(&mut self, v: Vec<String>)
        ensures
            final(self)@ == (FrameModel { recipient: string_models(v@), ..old(self)@ }),
    {
        proof {
            use_type_invariant(&*self);
        }
        self.recipient = v;
    }

    /// The elements of field `recipient`, to change in place.
    pub fn mut_recipient(&mut self) -> (r: &mut Vec<String>)
        ensures
            string_models(r@) == old(self)@.recipient,
            final(self)@ == (FrameModel { recipient: string_models(final(r)@), ..old(self)@ }),
    {
        proof {
            use_type_invariant(&*self);
        }
        field_mut(&mut self.recipient)
    }

    /// Takes the elements of field `recipient`, leaving it empty.
    pub fn take_recipient(&mut self) -> (r: Vec<String>)
        ensures
            string_models(r@) == old(self)@.recipient,
            final(self)@ == (FrameModel { recipient: Seq::empty(), ..old(self)@ }),
    {
        proof {
            use_type_invariant(&*self);
        }
        let mut r = Vec::new();
        std::mem::swap(&mut r, &mut self.recipient);
        assert(string_models(self.recipient@) =~= Seq::<Seq<char>>::empty());
        r
    }

    /// The elements of field `recipient`.
    pub fn get_recipient(&self) -> (r: &[String])
        ensures
            string_models(r@) == self@.recipient,
    {
        self.recipient.as_slice()
    }

    /// Unsets field `context_player_state`.
    pub fn clear_context_player_state(&mut self)
        ensures
            final(self)@ == (FrameModel { context_player_state: None, ..old(self)@ }),
    {
        proof {
            use_type_invariant(&*self);
        }
        self.context_player_state = None;
    }

    /// Whether field `context_player_state` is set.
    pub fn has_context_player_state(&self) -> (r: bool)
        ensures
            r == self@.context_player_state is Some,
    {
        self.context_player_state.is_some()
    }

    /// Sets field `context_player_state` to `v`.
    pub fn set_context_player_state(&mut self, v: Vec<u8>)
        ensures
            final(self)@ == (FrameModel { context_player_state: Some(v@), ..old(self)@ }),
    {
        proof {
            use_type_invariant(&*self);
        }
        self.context_player_state = Some(v);
    }

    /// Field `context_player_state`, to change in place; an unset field is first set to its default.
    pub fn mut_context_player_state(&mut self) -> (r: &mut Vec<u8>)
        ensures
            r@ == bytes_or_empty(old(self)@.context_player_state),
            final(self)@ == (FrameModel { context_player_state: Some(final(r)@), ..old(self)@ }),

    {
        proof {
            use_type_invariant(&*self);
        }
        if self.context_player_state.is_none() {
            self.context_player_state = Some(Vec::new());
        }
        opt_as_mut(&mut self.context_player_state).unwrap()
    }

    /// Takes field `context_player_state` (its default when unset), leaving it unset.
    pub fn take_context_player_state(&mut self) -> (r: Vec<u8>)
        ensures
            r@ == bytes_or_empty(old(self)@.context_player_state),
            final(self)@ == (FrameModel { context_player_state: None, ..old(self)@ }),
    {
        proof {
            use_type_invariant(&*self);
        }
        let mut t = None;
        std::mem::swap(&mut t, &mut self.context_player_state);
        match t {
            Some(v) => v,
            None => Vec::new(),
        }
    }

    /// Field `context_player_state`, or no bytes when unset.
    pub fn get_context_player_state(&self) -> (r: &[u8])
        ensures
            r@ == bytes_or_empty(self@.context_player_state),
    {
        match &self.context_player_state {
            Some(v) => v.as_slice(),
            None => &[],
        }
    }

    /// Unsets field `new_name`.
    pub fn clear_new_name(&mut self)
        ensures
            final(self)@ == (FrameModel { new_name: None, ..old(self)@ }),
    {
        proof {
            use_type_invariant(&*self);
        }
        self.new_name = None;
    }

    /// Whether field `new_name` is set.
    pub fn has_new_name(&self) -> (r: bool)
        ensures
            r == self@.new_name is Some,
    {
        self.new_name.is_some()
    }

    /// Sets field `new_name` to `v`.
    pub fn set_new_name(&mut self, v: String)
        ensures
            final(self)@ == (FrameModel { new_name: Some(v@), ..old(self)@ }),
    {
        proof {
            use_type_invariant(&*self);
        }
        self.new_name = Some(v);
    }

    /// Field `new_name`, to change in place; an unset field is first set to its default.
    pub fn mut_new_name(&mut self) -> (r: &mut String)
        ensures
            r@ == chars_or_empty(old(self)@.new_name),
            final(self)@ == (FrameModel { new_name: Some(final(r)@), ..old(self)@ }),

    {
        proof {
            use_type_invariant(&*self);
        }
        if self.new_name.is_none() {
            self.new_name = Some(String::new());
        }
        opt_as_mut(&mut self.new_name).unwrap()
    }

    /// Takes field `new_name` (its default when unset), leaving it unset.
    pub fn take_new_name(&mut self) -> (r: String)
        ensures
            r@ == chars_or_empty(old(self)@.new_name),
            final(self)@ == (FrameModel { new_name: None, ..old(self)@ }),
    {
        proof {
            use_type_invariant(&*self);
        }
        let mut t = None;
        std::mem::swap(&mut t, &mut self.new_name);
        match t {
            Some(v) => v,
            None => String::new(),
        }
    }

    /// Field `new_name`, or the empty string when unset.
    pub fn get_new_name(&self) -> (r: &str)
        ensures
            r@ == chars_or_empty(self@.new_name),
    {
        match &self.new_name {
            Some(v) => v.as_str(),
            None => {
                proof {
                    reveal_strlit("");
                }
                ""
            },
        }
    }

    /// Merges one field whose tag (number `f`, wire type `wt`) has been read
    /// from the bytes `s` that follow the tag; returns the number of bytes the
    /// value took.
    fn merge_field(&mut self, f: u32, wt: u32, s: &[u8], lim: u64) -> (r: Option<usize>)
        ensures
            match old(self)@.merge_field(f, wt, s@, lim as nat) {
                Some((m, k)) => r == Some(k as usize) && final(self)@ == m,
                None => r is None && final(self)@ == old(self)@.merge_field_failed(f, wt, s@, lim as nat),
            },
    {
        proof {
            use_type_invariant(&*self);
        }
        if f == 1 {
            if wt != WIRE_VARINT {
                return None;
            }
            proof {
                lemma_varint_parse_len(s@);
            }
            match pb_read_raw_varint64(s) {
                Some((v, k)) => {
                    self.version = Some(v as u32);
                    Some(k)
                },
                None => None,
            }
        } else if f == 2 {
            if wt != WIRE_LENGTH_DELIMITED {
                return None;
            }
            match read_string(s) {
                Some((v, k)) => {
                    self.ident = Some(v);
                    Some(k)
                },
                None => {
                    self.ident = Some(String::new());
                    None
                },
            }
        } else if f == 3 {
            if wt != WIRE_LENGTH_DELIMITED {
                return None;
            }
            match read_string(s) {
                Some((v, k)) => {
                    self.protocol_version = Some(v);
                    Some(k)
                },
                None => {
                    self.protocol_version = Some(String::new());
                    None
                },
            }
        } else if f == 4 {
            if wt != WIRE_VARINT {
                return None;
            }
            proof {
                lemma_varint_parse_len(s@);
            }
            match pb_read_raw_varint64(s) {
                Some((v, k)) => {
                    self.seq_nr = Some(v as u32);
                    Some(k)
                },
                None => None,
            }
        } else if f == 5 {
            if wt != WIRE_VARINT {
                return None;
            }
            proof {
                lemma_varint_parse_len(s@);
            }
            match pb_read_raw_varint64(s) {
                Some((v, k)) => match MessageType::from_i32((v as u32) as i32) {
                    Some(e) => {
                        self.typ = Some(e);
                        Some(k)
                    },
                    None => None,
                },
                None => None,
            }
        } else if f == 7 {
            if wt != WIRE_LENGTH_DELIMITED {
                return None;
            }
            match read_embedded_window(s, lim) {
                Some((a, b, past)) => {
                    if a == 0 || a > b || b > s.len() {
                        let x = DeviceState::new();
                        self.has_device_state = true;
                        self.device_state = Box::new(x);
                        return None;
                    }
                    let sub = &s[a..b];
                    let mut x = DeviceState::new();
                    let ok = x.merge_from_slice(sub, past);
                    self.has_device_state = true;
                    self.device_state = Box::new(x);
                    if ok {
                        Some(b)
                    } else {
                        None
                    }
                },
                None => {
                    let x = DeviceState::new();
                    self.has_device_state = true;
                    self.device_state = Box::new(x);
                    None
                },
            }
        } else if f == 11 {
            if wt != WIRE_LENGTH_DELIMITED {
                return None;
            }
            match read_embedded_window(s, lim) {
                Some((a, b, past)) => {
                    if a == 0 || a > b || b > s.len() {
                        let x = Goodbye::new();
                        self.has_goodbye = true;
                        self.goodbye = Box::new(x);
                        return None;
                    }
                    let sub = &s[a..b];
                    let mut x = Goodbye::new();
                    let ok = x.merge_from_slice(sub, past);
                    self.has_goodbye = true;
                    self.goodbye = Box::new(x);
                    if ok {
                        Some(b)
                    } else {
                        None
                    }
                },
                None => {
                    let x = Goodbye::new();
                    self.has_goodbye = true;
                    self.goodbye = Box::new(x);
                    None
                },
            }
        } else if f == 12 {
            if wt != WIRE_LENGTH_DELIMITED {
                return None;
            }
            match read_embedded_window(s, lim) {
                Some((a, b, past)) => {
                    if a == 0 || a > b || b > s.len() {
                        let x = State::new();
                        self.has_state = true;
                        self.state = Box::new(x);
                        return None;
                    }
                    let sub = &s[a..b];
                    let mut x = State::new();
                    let ok = x.merge_from_slice(sub, past);
                    self.has_state = true;
                    self.state = Box::new(x);
                    if ok {
                        Some(b)
                    } else {
                        None
                    }
                },
                None => {
                    let x = State::new();
                    self.has_state = true;
                    self.state = Box::new(x);
                    None
                },
            }
        } else if f == 13 {
            if wt != WIRE_VARINT {
                return None;
            }
            proof {
                lemma_varint_parse_len(s@);
            }
            match pb_read_raw_varint64(s) {
                Some((v, k)) => {
                    self.position = Some(v as u32);
                    Some(k)
                },
                None => None,
            }
        } else if f == 14 {
            if wt != WIRE_VARINT {
                return None;
            }
            proof {
                lemma_varint_parse_len(s@);
            }
            match pb_read_raw_varint64(s) {
                Some((v, k)) => {
                    self.volume = Some(v as u32);
                    Some(k)
                },
                None => None,
            }
        } else if f == 17 {
            if wt != WIRE_VARINT {
                return None;
            }
            proof {
                lemma_varint_parse_len(s@);
            }
            match pb_read_raw_varint64(s) {
                Some((v, k)) => {
                    self.state_update_id = Some(v as i64);
                    Some(k)
                },
                None => None,
            }
        } else if f == 18 {
            if wt != WIRE_LENGTH_DELIMITED {
                return None;
            }
            match read_string(s) {
                Some((v, k)) => {
                    let ghost old_v = self.recipient@;
                    field_mut(&mut self.recipient).push(v);
                    assert(string_models(self.recipient@) =~= string_models(old_v).push(self.recipient@.last()@));
                    Some(k)
                },
                None => {
                    let ghost old_v = self.recipient@;
                    field_mut(&mut self.recipient).push(String::new());
                    assert(string_models(self.recipient@) =~= string_models(old_v).push(Seq::<char>::empty()));
                    None
                },
            }
        } else if f == 19 {
            if wt != WIRE_LENGTH_DELIMITED {
                return None;
            }
            match read_bytes(s) {
                Some((v, k)) => {
                    self.context_player_state = Some(v);
                    Some(k)
                },
                None => {
                    self.context_player_state = Some(Vec::new());
                    None
                },
            }
        } else if f == 20 {
            if wt != WIRE_LENGTH_DELIMITED {
                return None;
            }
            match read_string(s) {
                Some((v, k)) => {
                    self.new_name = Some(v);
                    Some(k)
                },
                None => {
                    self.new_name = Some(String::new());
                    None
                },
            }
        } else {
            match read_unknown(f, wt, s) {
                Some((Some(u), k)) => {
                    insert_unknown(field_mut(&mut self.unknown_fields), u);
                    Some(k)
                },
                Some((None, k)) => Some(k),
                None => None,
            }
        }
    }

    /// Merges all the fields that `s` holds, in order; `false` when the bytes
    /// are not a valid encoding (the message then holds what was merged so far).
    #[verifier::spinoff_prover]
    #[verifier::rlimit(50)]
    fn merge_from_slice(&mut self, s: &[u8], lim: u64) -> (ok: bool)
        ensures
            match old(self)@.merge(s@, lim as nat) {
                Some(m) => ok && final(self)@ == m,
                None => !ok && final(self)@ == old(self)@.merge_partial(s@, lim as nat),
            },
    {
        proof {
            reveal_with_fuel(FrameModel::merge, 1);
            reveal_with_fuel(FrameModel::merge_partial, 1);
        }
        let mut pos: usize = 0;
        assert(s@.skip(0) =~= s@);
        while pos < s.len()
            invariant
                pos <= s.len(),
                old(self)@.merge(s@, lim as nat) == self@.merge(s@.skip(pos as int), lim as nat),
                old(self)@.merge_partial(s@, lim as nat) == self@.merge_partial(s@.skip(pos as int), lim as nat),
            decreases s.len() - pos,
        {
            let rest = &s[pos..s.len()];
            assert(rest@ == s@.skip(pos as int));
            proof {
                reveal_with_fuel(FrameModel::merge, 1);
                reveal_with_fuel(FrameModel::merge_partial, 1);
                lemma_tag_parse_len(rest@);
            }
            match pb_read_tag_unpack(rest) {
                None => {
                    return false;
                },
                Some((f, wt, n)) => {
                    if n == 0 || n > rest.len() {
                        return false;
                    }
                    let rest2 = &rest[n..rest.len()];
                    assert(rest2@ == rest@.skip(n as int));
                    proof {
                        self@.lemma_merge_field_len(f, wt, rest2@, lim as nat);
                    }
                    match self.merge_field(f, wt, rest2, lim) {
                        None => {
                            return false;
                        },
                        Some(k) => {
                            if k > rest2.len() {
                                return false;
                            }
                            assert(rest@.skip((n + k) as int) =~= s@.skip((pos + n + k) as int));
                            pos = pos + n + k;
                        },
                    }
                },
            }
        }
        assert(s@.skip(pos as int) =~= Seq::<u8>::empty());
        proof {
            reveal_with_fuel(FrameModel::merge, 1);
        }
        true
    }

    /// The message that `s` encodes, if it is a valid encoding.
    fn parse_slice(s: &[u8], lim: u64) -> (r: Option<Self>)
        ensures
            match FrameModel::empty().merge(s@, lim as nat) {
                Some(m) => r matches Some(x) && x@ == m,
                None => r is None,
            },
    {
        let mut m = Frame::new();
        if m.merge_from_slice(s, lim) {
            Some(m)
        } else {
            None
        }
    }

    /// Merges the fields that `bytes` encodes into this message, in order: a set
    /// field is replaced, a repeated field grows. On an invalid encoding the
    /// error comes back, the fields merged before the first field that could not
    /// be read stay merged, and that field is left as `merge_field_failed` says.
    pub fn merge_from_bytes(&mut self, bytes: &[u8]) -> (r: Result<(), DecodeError>)
        ensures
            match old(self)@.merge(bytes@, top_limit(bytes@.len())) {
                Some(m) => r is Ok && final(self)@ == m,
                None => r is Err && final(self)@ == old(self)@.merge_partial(bytes@, top_limit(bytes@.len())),
            },
    {
        let lim: u64 = u64::MAX - bytes.len() as u64;
        if self.merge_from_slice(bytes, lim) {
            Ok(())
        } else {
            Err(DecodeError)
        }
    }

    /// Parses a message from its encoding.
    pub fn parse_from_bytes(bytes: &[u8]) -> (r: Result<Self, DecodeError>)
        ensures
            match FrameModel::empty().merge(bytes@, top_limit(bytes@.len())) {
                Some(m) => r matches Ok(x) && x@ == m,
                None => r is Err,
            },
    {
        let lim: u64 = u64::MAX - bytes.len() as u64;
        match Self::parse_slice(bytes, lim) {
            Some(m) => Ok(m),
            None => Err(DecodeError),
        }
    }

    /// Appends the encoding of field `version` to `out`.
    fn write_field_version(&self, out: &mut Vec<u8>)
        requires
            self@.wf(),
        ensures
            final(out)@ == old(out)@ + opt_varint_field_bytes(1, match self@.version { Some(x) => Some(x as u64), None => None }),
            final(out)@ + self@.encoded_from_ident() == old(out)@ + self@.encoded_from_version(),
    {
        proof {
            use_type_invariant(self);
        }
        proof {
            reveal(FrameModel::wf);
        }
        let ghost o = out@;
        let ghost m = self@;
        match self.version {
            Some(x) => {
                pb_write_tag(out, 1, WIRE_VARINT);
                pb_write_raw_varint64(out, x as u64);
                proof {
                    lemma_concat_assoc(o, tag_bytes(1, WIRE_VARINT), varint_bytes(x as u64));
                }
            },
            None => {
                assert(o + Seq::<u8>::empty() =~= o);
            },
        }
        proof {
            lemma_concat_assoc(o, opt_varint_field_bytes(1, match m.version { Some(x) => Some(x as u64), None => None }), m.encoded_from_ident());
        }
    }

    /// Appends the encoding of field `ident` to `out`.
    fn write_field_ident(&self, out: &mut Vec<u8>)
        requires
            self@.wf(),
        ensures
            final(out)@ == old(out)@ + opt_length_delimited_field_bytes(2, match self@.ident { Some(c) => Some(encode_utf8(c)), None => None }),
            final(out)@ + self@.encoded_from_protocol_version() == old(out)@ + self@.encoded_from_ident(),
    {
        proof {
            use_type_invariant(self);
        }
        proof {
            reveal(FrameModel::wf);
        }
        let ghost o = out@;
        let ghost m = self@;
        match &self.ident {
            Some(v) => {
                pb_write_tag(out, 2, WIRE_LENGTH_DELIMITED);
                write_string_value(out, v.as_str());
                proof {
                    lemma_concat_assoc(o, tag_bytes(2, WIRE_LENGTH_DELIMITED), bytes_value_bytes(encode_utf8(v@)));
                }
            },
            None => {
                assert(o + Seq::<u8>::empty() =~= o);
            },
        }
        proof {
            lemma_concat_assoc(o, opt_length_delimited_field_bytes(2, match m.ident { Some(c) => Some(encode_utf8(c)), None => None }), m.encoded_from_protocol_version());
        }
    }

    /// Appends the encoding of field `protocol_version` to `out`.
    fn write_field_protocol_version(&self, out: &mut Vec<u8>)
        requires
            self@.wf(),
        ensures
            final(out)@ == old(out)@ + opt_length_delimited_field_bytes(3, match self@.protocol_version { Some(c) => Some(encode_utf8(c)), None => None }),
            final(out)@ + self@.encoded_from_seq_nr() == old(out)@ + self@.encoded_from_protocol_version(),
    {
        proof {
            use_type_invariant(self);
        }
        proof {
            reveal(FrameModel::wf);
        }
        let ghost o = out@;
        let ghost m = self@;
        match &self.protocol_version {
            Some(v) => {
                pb_write_tag(out, 3, WIRE_LENGTH_DELIMITED);
                write_string_value(out, v.as_str());
                proof {
                    lemma_concat_assoc(o, tag_bytes(3, WIRE_LENGTH_DELIMITED), bytes_value_bytes(encode_utf8(v@)));
                }
            },
            None => {
                assert(o + Seq::<u8>::empty() =~= o);
            },
        }
        proof {
            lemma_concat_assoc(o, opt_length_delimited_field_bytes(3, match m.protocol_version { Some(c) => Some(encode_utf8(c)), None => None }), m.encoded_from_seq_nr());
        }
    }

    /// Appends the encoding of field `seq_nr` to `out`.
    fn write_field_seq_nr(&self, out: &mut Vec<u8>)
        requires
            self@.wf(),
        ensures
            final(out)@ == old(out)@ + opt_varint_field_bytes(4, match self@.seq_nr { Some(x) => Some(x as u64), None => None }),
            final(out)@ + self@.encoded_from_typ() == old(out)@ + self@.encoded_from_seq_nr(),
    {
        proof {
            use_type_invariant(self);
        }
        proof {
            reveal(FrameModel::wf);
        }
        let ghost o = out@;
        let ghost m = self@;
        match self.seq_nr {
            Some(x) => {
                pb_write_tag(out, 4, WIRE_VARINT);
                pb_write_raw_varint64(out, x as u64);
                proof {
                    lemma_concat_assoc(o, tag_bytes(4, WIRE_VARINT), varint_bytes(x as u64));
                }
            },
            None => {
                assert(o + Seq::<u8>::empty() =~= o);
            },
        }
        proof {
            lemma_concat_assoc(o, opt_varint_field_bytes(4, match m.seq_nr { Some(x) => Some(x as u64), None => None }), m.encoded_from_typ());
        }
    }

    /// Appends the encoding of field `typ` to `out`.
    fn write_field_typ(&self, out: &mut Vec<u8>)
        requires
            self@.wf(),
        ensures
            final(out)@ == old(out)@ + opt_varint_field_bytes(5, match self@.typ { Some(x) => Some(int32_varint(x.spec_value())), None => None }),
            final(out)@ + self@.encoded_from_device_state() == old(out)@ + self@.encoded_from_typ(),
    {
        proof {
            use_type_invariant(self);
        }
        proof {
            reveal(FrameModel::wf);
        }
        let ghost o = out@;
        let ghost m = self@;
        match self.typ {
            Some(x) => {
                pb_write_tag(out, 5, WIRE_VARINT);
                pb_write_raw_varint64(out, x.value() as u64);
                proof {
                    lemma_concat_assoc(o, tag_bytes(5, WIRE_VARINT), varint_bytes(int32_varint(x.spec_value())));
                }
            },
            None => {
                assert(o + Seq::<u8>::empty() =~= o);
            },
        }
        proof {
            lemma_concat_assoc(o, opt_varint_field_bytes(5, match m.typ { Some(x) => Some(int32_varint(x.spec_value())), None => None }), m.encoded_from_device_state());
        }
    }

    /// Appends the encoding of field `device_state` to `out`.
    fn write_field_device_state(&self, out: &mut Vec<u8>)
        requires
            self@.wf(),
        ensures
            final(out)@ == old(out)@ + opt_length_delimited_field_bytes(7, match self@.device_state { Some(m) => Some(m.to_bytes()), None => None }),
            final(out)@ + self@.encoded_from_goodbye() == old(out)@ + self@.encoded_from_device_state(),
    {
        proof {
            use_type_invariant(self);
        }
        proof {
            reveal(FrameModel::wf);
        }
        let ghost o = out@;
        let ghost m = self@;
        if self.has_device_state {
            let mut tmp: Vec<u8> = Vec::new();
            self.device_state.write_to(&mut tmp);
            assert(tmp@ =~= m.device_state.unwrap().to_bytes());
            pb_write_tag(out, 7, WIRE_LENGTH_DELIMITED);
            write_bytes_value(out, tmp.as_slice());
            proof {
                lemma_concat_assoc(o, tag_bytes(7, WIRE_LENGTH_DELIMITED), bytes_value_bytes(tmp@));
            }
        } else {
            assert(o + Seq::<u8>::empty() =~= o);
        }
        proof {
            lemma_concat_assoc(o, opt_length_delimited_field_bytes(7, match m.device_state { Some(m) => Some(m.to_bytes()), None => None }), m.encoded_from_goodbye());
        }
    }

    /// Appends the encoding of field `goodbye` to `out`.
    fn write_field_goodbye(&self, out: &mut Vec<u8>)
        requires
            self@.wf(),
        ensures
            final(out)@ == old(out)@ + opt_length_delimited_field_bytes(11, match self@.goodbye { Some(m) => Some(m.to_bytes()), None => None }),
            final(out)@ + self@.encoded_from_state() == old(out)@ + self@.encoded_from_goodbye(),
    {
        proof {
            use_type_invariant(self);
        }
        proof {
            reveal(FrameModel::wf);
        }
        let ghost o = out@;
        let ghost m = self@;
        if self.has_goodbye {
            let mut tmp: Vec<u8> = Vec::new();
            self.goodbye.write_to(&mut tmp);
            assert(tmp@ =~= m.goodbye.unwrap().to_bytes());
            pb_write_tag(out, 11, WIRE_LENGTH_DELIMITED);
            write_bytes_value(out, tmp.as_slice());
            proof {
                lemma_concat_assoc(o, tag_bytes(11, WIRE_LENGTH_DELIMITED), bytes_value_bytes(tmp@));
            }
        } else {
            assert(o + Seq::<u8>::empty() =~= o);
        }
        proof {
            lemma_concat_assoc(o, opt_length_delimited_field_bytes(11, match m.goodbye { Some(m) => Some(m.to_bytes()), None => None }), m.encoded_from_state());
        }
    }

    /// Appends the encoding of field `state` to `out`.
    fn write_field_state(&self, out: &mut Vec<u8>)
        requires
            self@.wf(),
        ensures
            final(out)@ == old(out)@ + opt_length_delimited_field_bytes(12, match self@.state { Some(m) => Some(m.to_bytes()), None => None }),
            final(out)@ + self@.encoded_from_position() == old(out)@ + self@.encoded_from_state(),
    {
        proof {
            use_type_invariant(self);
        }
        proof {
            reveal(FrameModel::wf);
        }
        let ghost o = out@;
        let ghost m = self@;
        if self.has_state {
            let mut tmp: Vec<u8> = Vec::new();
            self.state.write_to(&mut tmp);
            assert(tmp@ =~= m.state.unwrap().to_bytes());
            pb_write_tag(out, 12, WIRE_LENGTH_DELIMITED);
            write_bytes_value(out, tmp.as_slice());
            proof {
                lemma_concat_assoc(o, tag_bytes(12, WIRE_LENGTH_DELIMITED), bytes_value_bytes(tmp@));
            }
        } else {
            assert(o + Seq::<u8>::empty() =~= o);
        }
        proof {
            lemma_concat_assoc(o, opt_length_delimited_field_bytes(12, match m.state { Some(m) => Some(m.to_bytes()), None => None }), m.encoded_from_position());
        }
    }

    /// Appends the encoding of field `position` to `out`.
    fn write_field_position(&self, out: &mut Vec<u8>)
        requires
            self@.wf(),
        ensures
            final(out)@ == old(out)@ + opt_varint_field_bytes(13, match self@.position { Some(x) => Some(x as u64), None => None }),
            final(out)@ + self@.encoded_from_volume() == old(out)@ + self@.encoded_from_position(),
    {
        proof {
            use_type_invariant(self);
        }
        proof {
            reveal(FrameModel::wf);
        }
        let ghost o = out@;
        let ghost m = self@;
        match self.position {
            Some(x) => {
                pb_write_tag(out, 13, WIRE_VARINT);
                pb_write_raw_varint64(out, x as u64);
                proof {
                    lemma_concat_assoc(o, tag_bytes(13, WIRE_VARINT), varint_bytes(x as u64));
                }
            },
            None => {
                assert(o + Seq::<u8>::empty() =~= o);
            },
        }
        proof {
            lemma_concat_assoc(o, opt_varint_field_bytes(13, match m.position { Some(x) => Some(x as u64), None => None }), m.encoded_from_volume());
        }
    }

    /// Appends the encoding of field `volume` to `out`.
    fn write_field_volume(&self, out: &mut Vec<u8>)
        requires
            self@.wf(),
        ensures
            final(out)@ == old(out)@ + opt_varint_field_bytes(14, match self@.volume { Some(x) => Some(x as u64), None => None }),
            final(out)@ + self@.encoded_from_state_update_id() == old(out)@ + self@.encoded_from_volume(),
    {
        proof {
            use_type_invariant(self);
        }
        proof {
            reveal(FrameModel::wf);
        }
        let ghost o = out@;
        let ghost m = self@;
        match self.volume {
            Some(x) => {
                pb_write_tag(out, 14, WIRE_VARINT);
                pb_write_raw_varint64(out, x as u64);
                proof {
                    lemma_concat_assoc(o, tag_bytes(14, WIRE_VARINT), varint_bytes(x as u64));
                }
            },
            None => {
                assert(o + Seq::<u8>::empty() =~= o);
            },
        }
        proof {
            lemma_concat_assoc(o, opt_varint_field_bytes(14, match m.volume { Some(x) => Some(x as u64), None => None }), m.encoded_from_state_update_id());
        }
    }

    /// Appends the encoding of field `state_update_id` to `out`.
    fn write_field_state_update_id(&self, out: &mut Vec<u8>)
        requires
            self@.wf(),
        ensures
            final(out)@ == old(out)@ + opt_varint_field_bytes(17, match self@.state_update_id { Some(x) => Some(x as u64), None => None }),
            final(out)@ + self@.encoded_from_recipient() == old(out)@ + self@.encoded_from_state_update_id(),
    {
        proof {
            use_type_invariant(self);
        }
        proof {
            reveal(FrameModel::wf);
        }
        let ghost o = out@;
        let ghost m = self@;
        match self.state_update_id {
            Some(x) => {
                pb_write_tag(out, 17, WIRE_VARINT);
                pb_write_raw_varint64(out, x as u64);
                proof {
                    lemma_concat_assoc(o, tag_bytes(17, WIRE_VARINT), varint_bytes(x as u64));
                }
            },
            None => {
                assert(o + Seq::<u8>::empty() =~= o);
            },
        }
        proof {
            lemma_concat_assoc(o, opt_varint_field_bytes(17, match m.state_update_id { Some(x) => Some(x as u64), None => None }), m.encoded_from_recipient());
        }
    }

    /// Appends the encoding of field `recipient` to `out`.
    fn write_field_recipient(&self, out: &mut Vec<u8>)
        requires
            self@.wf(),
        ensures
            final(out)@ == old(out)@ + length_delimited_list_bytes(18, utf8_encodings(self@.recipient)),
            final(out)@ + self@.encoded_from_context_player_state() == old(out)@ + self@.encoded_from_recipient(),
    {
        proof {
            use_type_invariant(self);
        }
        proof {
            reveal(FrameModel::wf);
        }
        let ghost o = out@;
        let ghost m = self@;
        let ghost w = utf8_encodings(m.recipient);
        assert(w.subrange(0, w.len() as int) =~= w);
        assert(o + Seq::<u8>::empty() =~= o);
        let mut i: usize = 0;
        while i < self.recipient.len()
            invariant
                i <= self.recipient.len(),
                self@ == m,
                m.wf(),
                w.len() == self.recipient@.len(),
                w == utf8_encodings(m.recipient),
                o + length_delimited_list_bytes(18, w) == out@ + length_delimited_list_bytes(18, w.subrange(i as int, w.len() as int)),
            decreases self.recipient.len() - i,
        {
            proof {
                reveal(FrameModel::wf);
                lemma_length_delimited_list_cons(18, w.subrange(i as int, w.len() as int));
                assert(m.recipient[i as int] == self.recipient@[i as int]@);
                assert(fits_u32(w[i as int]));
                assert(w.subrange(i as int, w.len() as int)[0] == w[i as int]);
                assert(w.subrange(i as int, w.len() as int).subrange(1, w.len() - i) =~= w.subrange(i + 1, w.len() as int));
            }
            let ghost before = out@;
            pb_write_tag(out, 18, WIRE_LENGTH_DELIMITED);
            write_string_value(out, self.recipient[i].as_str());
            proof {
                lemma_write_list_step(before, tag_bytes(18, WIRE_LENGTH_DELIMITED), bytes_value_bytes(w[i as int]), length_delimited_list_bytes(18, w.subrange(i + 1, w.len() as int)), Seq::<u8>::empty());
                assert(length_delimited_list_bytes(18, w.subrange(i + 1, w.len() as int)) + Seq::<u8>::empty() =~= length_delimited_list_bytes(18, w.subrange(i + 1, w.len() as int)));
                assert(tag_bytes(18, WIRE_LENGTH_DELIMITED) + (bytes_value_bytes(w[i as int]) + length_delimited_list_bytes(18, w.subrange(i + 1, w.len() as int))) + Seq::<u8>::empty() =~= tag_bytes(18, WIRE_LENGTH_DELIMITED) + (bytes_value_bytes(w[i as int]) + length_delimited_list_bytes(18, w.subrange(i + 1, w.len() as int))));
            }
            i = i + 1;
        }
        assert(w.subrange(i as int, w.len() as int) =~= Seq::<Seq<u8>>::empty());
        assert(out@ + Seq::<u8>::empty() =~= out@);
        proof {
            lemma_concat_assoc(o, length_delimited_list_bytes(18, utf8_encodings(m.recipient)), m.encoded_from_context_player_state());
        }
    }

    /// Appends the encoding of field `context_player_state` to `out`.
    fn write_field_context_player_state(&self, out: &mut Vec<u8>)
        requires
            self@.wf(),
        ensures
            final(out)@ == old(out)@ + opt_length_delimited_field_bytes(19, self@.context_player_state),
            final(out)@ + self@.encoded_from_new_name() == old(out)@ + self@.encoded_from_context_player_state(),
    {
        proof {
            use_type_invariant(self);
        }
        proof {
            reveal(FrameModel::wf);
        }
        let ghost o = out@;
        let ghost m = self@;
        match &self.context_player_state {
            Some(v) => {
                pb_write_tag(out, 19, WIRE_LENGTH_DELIMITED);
                write_bytes_value(out, v.as_slice());
                proof {
                    lemma_concat_assoc(o, tag_bytes(19, WIRE_LENGTH_DELIMITED), bytes_value_bytes(v@));
                }
            },
            None => {
                assert(o + Seq::<u8>::empty() =~= o);
            },
        }
        proof {
            lemma_concat_assoc(o, opt_length_delimited_field_bytes(19, m.context_player_state), m.encoded_from_new_name());
        }
    }

    /// Appends the encoding of field `new_name` to `out`.
    fn write_field_new_name(&self, out: &mut Vec<u8>)
        requires
            self@.wf(),
        ensures
            final(out)@ == old(out)@ + opt_length_delimited_field_bytes(20, match self@.new_name { Some(c) => Some(encode_utf8(c)), None => None }),
            final(out)@ + self@.encoded_from_unknown_fields() == old(out)@ + self@.encoded_from_new_name(),
    {
        proof {
            use_type_invariant(self);
        }
        proof {
            reveal(FrameModel::wf);
        }
        let ghost o = out@;
        let ghost m = self@;
        match &self.new_name {
            Some(v) => {
                pb_write_tag(out, 20, WIRE_LENGTH_DELIMITED);
                write_string_value(out, v.as_str());
                proof {
                    lemma_concat_assoc(o, tag_bytes(20, WIRE_LENGTH_DELIMITED), bytes_value_bytes(encode_utf8(v@)));
                }
            },
            None => {
                assert(o + Seq::<u8>::empty() =~= o);
            },
        }
        proof {
            lemma_concat_assoc(o, opt_length_delimited_field_bytes(20, match m.new_name { Some(c) => Some(encode_utf8(c)), None => None }), m.encoded_from_unknown_fields());
        }
    }

    /// Appends the fields of unknown numbers to `out`.
    fn write_unknown_fields(&self, out: &mut Vec<u8>)
        requires
            self@.wf(),
        ensures
            final(out)@ == old(out)@ + unknown_list_bytes(self@.unknown_fields),
    {
        proof {
            reveal(FrameModel::wf);
        }
        let ghost o = out@;
        let ghost m = self@;
        let mut j: usize = 0;
        assert(m.unknown_fields.subrange(0, m.unknown_fields.len() as int) =~= m.unknown_fields);
        assert(o + Seq::<u8>::empty() =~= o);
        while j < self.unknown_fields.len()
            invariant
                j <= self.unknown_fields.len(),
                self@ == m,
                m.wf(),
                o + unknown_list_bytes(m.unknown_fields) == out@ + unknown_list_bytes(m.unknown_fields.subrange(j as int, m.unknown_fields.len() as int)),
            decreases self.unknown_fields.len() - j,
        {
            proof {
                reveal(FrameModel::wf);
                lemma_unknown_list_cons(m.unknown_fields.subrange(j as int, m.unknown_fields.len() as int));
                assert(m.unknown_fields[j as int] == self.unknown_fields@[j as int]@);
                assert(m.unknown_fields.subrange(j as int, m.unknown_fields.len() as int)[0] == m.unknown_fields[j as int]);
                assert(m.unknown_fields.subrange(j as int, m.unknown_fields.len() as int).subrange(1, m.unknown_fields.len() - j) =~= m.unknown_fields.subrange(j + 1, m.unknown_fields.len() as int));
            }
            let ghost before = out@;
            write_unknown(out, &self.unknown_fields[j]);
            proof {
                lemma_concat_assoc(before, unknown_field_bytes(m.unknown_fields[j as int]), unknown_list_bytes(m.unknown_fields.subrange(j + 1, m.unknown_fields.len() as int)));
            }
            j = j + 1;
        }
        assert(m.unknown_fields.subrange(j as int, m.unknown_fields.len() as int) =~= Seq::<UnknownFieldModel>::empty());
        assert(out@ =~= o + unknown_list_bytes(m.unknown_fields));
    }

    /// Appends the encoding of the message to `out`.
    fn write_to(&self, out: &mut Vec<u8>)
        requires
            self@.wf(),
        ensures
            final(out)@ == old(out)@ + self@.to_bytes(),
    {
        proof {
            reveal(FrameModel::to_bytes);
        }
        let ghost o = out@;
        let ghost m = self@;
        assert(o + m.to_bytes() == out@ + m.encoded_from_version());
        self.write_field_version(out);
        self.write_field_ident(out);
        self.write_field_protocol_version(out);
        self.write_field_seq_nr(out);
        self.write_field_typ(out);
        self.write_field_device_state(out);
        self.write_field_goodbye(out);
        self.write_field_state(out);
        self.write_field_position(out);
        self.write_field_volume(out);
        self.write_field_state_update_id(out);
        self.write_field_recipient(out);
        self.write_field_context_player_state(out);
        self.write_field_new_name(out);
        self.write_unknown_fields(out);
    }

    /// The encoding of the message.
    pub fn write_to_bytes(&self) -> (r: Vec<u8>)
        requires
            self@.wf(),
        ensures
            r@ == self@.to_bytes(),
    {
        let mut out: Vec<u8> = Vec::new();
        self.write_to(&mut out);
        assert(out@ =~= self@.to_bytes());
        out
    }

    /// The length of the encoding of the message.
    pub fn compute_size(&self) -> (r: u32)
        requires
            self@.wf(),
            self@.to_bytes().len() <= u32::MAX,
        ensures
            r == self@.to_bytes().len(),
    {
        let v = self.write_to_bytes();
        v.len() as u32
    }
    /// A copy of the message.
    pub fn clone_message(&self) -> (r: Self)
        ensures
            r@ == self@,
    {
        proof {
            use_type_invariant(self);
        }
        let version = self.version;
        let ident = clone_opt_string(&self.ident);
        let protocol_version = clone_opt_string(&self.protocol_version);
        let seq_nr = self.seq_nr;
        let typ = self.typ;
        let device_state = Box::new(self.device_state.clone_message());
        let has_device_state = self.has_device_state;
        let goodbye = Box::new(self.goodbye.clone_message());
        let has_goodbye = self.has_goodbye;
        let state = Box::new(self.state.clone_message());
        let has_state = self.has_state;
        let position = self.position;
        let volume = self.volume;
        let state_update_id = self.state_update_id;
        let recipient = clone_strings(&self.recipient);
        let context_player_state = clone_opt_bytes(&self.context_player_state);
        let new_name = clone_opt_string(&self.new_name);
        let unknown_fields = clone_unknown_fields(&self.unknown_fields);
        Frame { version, ident, protocol_version, seq_nr, typ, has_device_state, device_state, has_goodbye, goodbye, has_state, state, position, volume, state_update_id, recipient, context_player_state, new_name, unknown_fields }
    }

}

impl Clone for Frame {
    fn clone(&self) -> (r: Self)
        ensures
            r@ == self@,
    {
        self.clone_message()
    }
}

impl Default for Frame {
    fn default() -> (r: Self)
        ensures
            r@ == FrameModel::empty(),
    {
        Frame::new()
    }
}

/// The `DeviceState` message.
#[allow(non_snake_case)]
#[derive(Debug, PartialEq)]
pub struct DeviceState {
    sw_version: Option<String>,
    is_active: Option<bool>,
    can_play: Option<bool>,
    volume: Option<u32>,
    name: Option<String>,
    error_code: Option<u32>,
    became_active_at: Option<i64>,
    error_message: Option<String>,
    capabilities: Vec<Capability>,
    unknown_fields: Vec<UnknownField>,
}

/// The model of a `DeviceState`: each field's value, `None` or empty when unset,
/// and the fields of unknown numbers, in the order they were read.
#[allow(non_snake_case)]
pub struct DeviceStateModel {
    pub sw_version: Option<Seq<char>>,
    pub is_active: Option<bool>,
    pub can_play: Option<bool>,
    pub volume: Option<u32>,
    pub name: Option<Seq<char>>,
    pub error_code: Option<u32>,
    pub became_active_at: Option<i64>,
    pub error_message: Option<Seq<char>>,
    pub capabilities: Seq<CapabilityModel>,
    pub unknown_fields: Seq<UnknownFieldModel>,
}

impl View for DeviceState {
    type V = DeviceStateModel;

    closed spec fn view(&self) -> DeviceStateModel {
        DeviceStateModel {
            sw_version: opt_view(self.sw_version),
            is_active: self.is_active,
            can_play: self.can_play,
            volume: self.volume,
            name: opt_view(self.name),
            error_code: self.error_code,
            became_active_at: self.became_active_at,
            error_message: opt_view(self.error_message),
            capabilities: Capability::seq_model(self.capabilities@),
            unknown_fields: unknown_models(self.unknown_fields@),
        }
    }
}

#[allow(non_snake_case)]
impl DeviceStateModel {
    /// The model of a message with no field set.
    pub open spec fn empty() -> Self {
        DeviceStateModel {
            sw_version: None,
            is_active: None,
            can_play: None,
            volume: None,
            name: None,
            error_code: None,
            became_active_at: None,
            error_message: None,
            capabilities: Seq::empty(),
            unknown_fields: Seq::empty(),
        }
    }

    /// The encodings of a list of messages.
    pub open spec fn encodings(v: Seq<DeviceStateModel>) -> Seq<Seq<u8>> {
        v.map_values(|m: DeviceStateModel| m.to_bytes())
    }

    /// Every message of a list can be written, and its encoding fits a 32-bit length.
    pub open spec fn all_writable(v: Seq<DeviceStateModel>) -> bool {
        forall|i: int| 0 <= i < v.len() ==> #[trigger] v[i].wf() && fits_u32(v[i].to_bytes())
    }

    /// The field numbers that this message knows.
    pub open spec fn is_known_field(f: u32) -> bool {
        f == 1 || f == 10 || f == 11 || f == 12 || f == 13 || f == 14 || f == 15 || f == 16 || f == 17
    }

    /// Merging one field whose tag (number `f`, wire type `wt`) has been read;
    /// `s` holds the bytes after the tag. The result is the merged model and
    /// the number of bytes the value took; a set field is replaced, a repeated
    /// field grows, a field of unknown number is kept or, if a group, skipped.
    pub open spec fn merge_field(self, f: u32, wt: u32, s: Seq<u8>, lim: nat) -> Option<(Self, nat)> {
        if f == 1 {
            if wt != WIRE_LENGTH_DELIMITED {
                None
            } else {
                match string_parse(s) {
                    Some((c, k)) => Some((DeviceStateModel { sw_version: Some(c), ..self }, k)),
                    None => None,
                }
            }
        } else if f == 10 {
            if wt != WIRE_VARINT {
                None
            } else {
                match varint_parse(s) {
                    Some((v, k)) => Some((DeviceStateModel { is_active: Some(varint_bool(v)), ..self }, k)),
                    None => None,
                }
            }
        } else if f == 11 {
            if wt != WIRE_VARINT {
                None
            } else {
                match varint_parse(s) {
                    Some((v, k)) => Some((DeviceStateModel { can_play: Some(varint_bool(v)), ..self }, k)),
                    None => None,
                }
            }
        } else if f == 12 {
            if wt != WIRE_VARINT {
                None
            } else {
                match varint_parse(s) {
                    Some((v, k)) => Some((DeviceStateModel { volume: Some(v as u32), ..self }, k)),
                    None => None,
                }
            }
        } else if f == 13 {
            if wt != WIRE_LENGTH_DELIMITED {
                None
            } else {
                match string_parse(s) {
                    Some((c, k)) => Some((DeviceStateModel { name: Some(c), ..self }, k)),
                    None => None,
                }
            }
        } else if f == 14 {
            if wt != WIRE_VARINT {
                None
            } else {
                match varint_parse(s) {
                    Some((v, k)) => Some((DeviceStateModel { error_code: Some(v as u32), ..self }, k)),
                    None => None,
                }
            }
        } else if f == 15 {
            if wt != WIRE_VARINT {
                None
            } else {
                match varint_parse(s) {
                    Some((v, k)) => Some((DeviceStateModel { became_active_at: Some(v as i64), ..self }, k)),
                    None => None,
                }
            }
        } else if f == 16 {
            if wt != WIRE_LENGTH_DELIMITED {
                None
            } else {
                match string_parse(s) {
                    Some((c, k)) => Some((DeviceStateModel { error_message: Some(c), ..self }, k)),
                    None => None,
                }
            }
        } else if f == 17 {
            if wt != WIRE_LENGTH_DELIMITED {
                None
            } else {
                match embedded_window(s, lim) {
                    Some((a, b, x)) => if 0 < a <= b <= s.len() {
                        match CapabilityModel::empty().merge(s.subrange(a as int, b as int), x) {
                            Some(x) => Some((DeviceStateModel { capabilities: self.capabilities.push(x), ..self }, b)),
                            None => None,
                        }
                    } else {
                        None
                    },
                    None => None,
                }
            }
        } else {
            match unknown_parse(f, wt, s) {
                Some((Some(u), k)) => Some((DeviceStateModel { unknown_fields: grouped_insert(self.unknown_fields, u), ..self }, k)),
                Some((None, k)) => Some((self, k)),
                None => None,
            }
        }
    }

    /// What is left of the model when merging one field (number `f`, wire type
    /// `wt`, value at the front of `s`) fails: a string, bytes or message field
    /// of the right wire type is first set to its empty value (a repeated one
    /// gets an empty element) and an embedded message keeps the fields merged
    /// into it before the failure; packed values read before the failure stay.
    pub open spec fn merge_field_failed(self, f: u32, wt: u32, s: Seq<u8>, lim: nat) -> Self {
        if f == 1 {
            if wt != WIRE_LENGTH_DELIMITED {
                self
            } else {
                DeviceStateModel { sw_version: Some(Seq::<char>::empty()), ..self }
            }
        } else if f == 13 {
            if wt != WIRE_LENGTH_DELIMITED {
                self
            } else {
                DeviceStateModel { name: Some(Seq::<char>::empty()), ..self }
            }
        } else if f == 16 {
            if wt != WIRE_LENGTH_DELIMITED {
                self
            } else {
                DeviceStateModel { error_message: Some(Seq::<char>::empty()), ..self }
            }
        } else if f == 17 {
            if wt != WIRE_LENGTH_DELIMITED {
                self
            } else {
                match embedded_window(s, lim) {
                    Some((a, b, x)) => if 0 < a <= b <= s.len() {
                        DeviceStateModel { capabilities: self.capabilities.push(CapabilityModel::empty().merge_partial(s.subrange(a as int, b as int), x)), ..self }
                    } else {
                        DeviceStateModel { capabilities: self.capabilities.push(CapabilityModel::empty()), ..self }
                    },
                    None => DeviceStateModel { capabilities: self.capabilities.push(CapabilityModel::empty()), ..self },
                }
            }
        } else {
            self
        }
    }

    /// The value of a merged field takes no more than the bytes after its tag.
    pub proof fn lemma_merge_field_len(self, f: u32, wt: u32, s: Seq<u8>, lim: nat)
        ensures
            self.merge_field(f, wt, s, lim) matches Some((_m, k)) ==> k <= s.len(),
    {
        lemma_varint_parse_len(s);
        crate::wire::lemma_unknown_parse_len(f, wt, s);
    }

    /// Merging all the fields that `s` holds, in order, where the length of an
    /// embedded message may reach `lim` bytes past the end of `s` (such a message
    /// is read up to the end of `s`).
    #[verifier::opaque]
    pub open spec fn merge(self, s: Seq<u8>, lim: nat) -> Option<Self>
        decreases s.len(),
    {
        if s.len() == 0 {
            Some(self)
        } else {
            match tag_parse(s) {
                Some((f, wt, n)) => if 0 < n <= s.len() {
                    match self.merge_field(f, wt, s.skip(n as int), lim) {
                        Some((m, k)) => if n + k <= s.len() {
                            m.merge(s.skip((n + k) as int), lim)
                        } else {
                            None
                        },
                        None => None,
                    }
                } else {
                    None
                },
                None => None,
            }
        }
    }

    /// What merging `s` leaves: the fields merged in order up to the first one
    /// whose tag or value cannot be read, then what `merge_field_failed` leaves of
    /// that one; all of `s` where it is a valid encoding.
    #[verifier::opaque]
    pub open spec fn merge_partial(self, s: Seq<u8>, lim: nat) -> Self
        decreases s.len(),
    {
        if s.len() == 0 {
            self
        } else {
            match tag_parse(s) {
                Some((f, wt, n)) => if 0 < n <= s.len() {
                    match self.merge_field(f, wt, s.skip(n as int), lim) {
                        Some((m, k)) => if n + k <= s.len() {
                            m.merge_partial(s.skip((n + k) as int), lim)
                        } else {
                            m
                        },
                        None => self.merge_field_failed(f, wt, s.skip(n as int), lim),
                    }
                } else {
                    self
                },
                None => self,
            }
        }
    }

    /// The encoding of field `sw_version` and of every field written after it.
    pub open spec fn encoded_from_sw_version(self) -> Seq<u8> {
        opt_length_delimited_field_bytes(1, match self.sw_version { Some(c) => Some(encode_utf8(c)), None => None }) + self.encoded_from_is_active()
    }

    /// The encoding of field `is_active` and of every field written after it.
    pub open spec fn encoded_from_is_active(self) -> Seq<u8> {
        opt_varint_field_bytes(10, match self.is_active { Some(x) => Some(bool_varint(x)), None => None }) + self.encoded_from_can_play()
    }

    /// The encoding of field `can_play` and of every field written after it.
    pub open spec fn encoded_from_can_play(self) -> Seq<u8> {
        opt_varint_field_bytes(11, match self.can_play { Some(x) => Some(bool_varint(x)), None => None }) + self.encoded_from_volume()
    }

    /// The encoding of field `volume` and of every field written after it.
    pub open spec fn encoded_from_volume(self) -> Seq<u8> {
        opt_varint_field_bytes(12, match self.volume { Some(x) => Some(x as u64), None => None }) + self.encoded_from_name()
    }

    /// The encoding of field `name` and of every field written after it.
    pub open spec fn encoded_from_name(self) -> Seq<u8> {
        opt_length_delimited_field_bytes(13, match self.name { Some(c) => Some(encode_utf8(c)), None => None }) + self.encoded_from_error_code()
    }

    /// The encoding of field `error_code` and of every field written after it.
    pub open spec fn encoded_from_error_code(self) -> Seq<u8> {
        opt_varint_field_bytes(14, match self.error_code { Some(x) => Some(x as u64), None => None }) + self.encoded_from_became_active_at()
    }

    /// The encoding of field `became_active_at` and of every field written after it.
    pub open spec fn encoded_from_became_active_at(self) -> Seq<u8> {
        opt_varint_field_bytes(15, match self.became_active_at { Some(x) => Some(x as u64), None => None }) + self.encoded_from_error_message()
    }

    /// The encoding of field `error_message` and of every field written after it.
    pub open spec fn encoded_from_error_message(self) -> Seq<u8> {
        opt_length_delimited_field_bytes(16, match self.error_message { Some(c) => Some(encode_utf8(c)), None => None }) + self.encoded_from_capabilities()
    }

    /// The encoding of field `capabilities` and of every field written after it.
    pub open spec fn encoded_from_capabilities(self) -> Seq<u8> {
        length_delimited_list_bytes(17, CapabilityModel::encodings(self.capabilities)) + self.encoded_from_unknown_fields()
    }

    /// The encoding of the fields of unknown numbers, written last.
    pub open spec fn encoded_from_unknown_fields(self) -> Seq<u8> {
        unknown_list_bytes(self.unknown_fields)
    }

    /// The encoding of the message: its set fields in order of declaration,
    /// each element of a repeated field in order, then the unknown fields.
    #[verifier::opaque]
    pub open spec fn to_bytes(self) -> Seq<u8> {
        self.encoded_from_sw_version()
    }

    /// A model that can be written and read back: every length fits the
    /// 32-bit length prefix, nested messages can be written, and the unknown
    /// fields have valid numbers that this message does not know.
    #[verifier::opaque]
    pub open spec fn wf(self) -> bool {
        &&& (self.sw_version matches Some(c) ==> fits_u32(encode_utf8(c)))
        &&& (self.name matches Some(c) ==> fits_u32(encode_utf8(c)))
        &&& (self.error_message matches Some(c) ==> fits_u32(encode_utf8(c)))
        &&& CapabilityModel::all_writable(self.capabilities)
        &&& (forall|i: int| 0 <= i < self.unknown_fields.len() ==> unknown_field_wf(#[trigger] self.unknown_fields[i]) && !Self::is_known_field(self.unknown_fields[i].number))
        &&& unknown_grouped(self.unknown_fields)
    }

    /// The message with no field set can be written and read back.
    pub proof fn lemma_empty_wf()
        ensures
            Self::empty().wf(),
    {
        reveal_with_fuel(DeviceStateModel::wf, 1);
        lemma_grouped_empty();
    }

    /// Merging a field's tag and value, whatever follows them.
    pub proof fn lemma_merge_step(acc: Self, f: u32, wt: u32, t: Seq<u8>, b: Seq<u8>, rest: Seq<u8>, acc2: Self, lim: nat)
        requires
            tag_parse(t + (b + rest)) == Some((f, wt, t.len())),
            t.len() > 0,
            acc.merge_field(f, wt, b + rest, lim) == Some((acc2, b.len())),
        ensures
            acc.merge(t + (b + rest), lim) == acc2.merge(rest, lim),
    {
        reveal_with_fuel(DeviceStateModel::merge, 1);
        lemma_skip_chunk(t, b, rest);
    }

    /// Merging the encoding of field `sw_version` sets it, whatever follows.
    pub proof fn lemma_merge_sw_version(acc: Self, v: Option<Seq<char>>, rest: Seq<u8>, lim: nat)
        requires
            (v matches Some(c) ==> fits_u32(encode_utf8(c))),
        ensures
            acc.merge(opt_length_delimited_field_bytes(1, match v { Some(c) => Some(encode_utf8(c)), None => None }) + rest, lim) == (DeviceStateModel { sw_version: if v is Some { v } else { acc.sw_version }, ..acc }).merge(rest, lim),
    {
        match v {
            None => {
                assert(opt_length_delimited_field_bytes(1, match v { Some(c) => Some(encode_utf8(c)), None => None }) + rest =~= rest);
                assert((DeviceStateModel { sw_version: acc.sw_version, ..acc }) == acc);
            },
            Some(x) => {
                let t = tag_bytes(1, WIRE_LENGTH_DELIMITED);
                let b = bytes_value_bytes(encode_utf8(x));
                assert(opt_length_delimited_field_bytes(1, match v { Some(c) => Some(encode_utf8(c)), None => None }) + rest =~= t + (b + rest));
                lemma_tag_roundtrip(1, WIRE_LENGTH_DELIMITED, b + rest);
                lemma_string_roundtrip(x, rest);
                Self::lemma_merge_step(acc, 1, WIRE_LENGTH_DELIMITED, t, b, rest, DeviceStateModel { sw_version: v, ..acc }, lim);
            },
        }
    }

    /// Merging the encoding of field `is_active` sets it, whatever follows.
    pub proof fn lemma_merge_is_active(acc: Self, v: Option<bool>, rest: Seq<u8>, lim: nat)
        ensures
            acc.merge(opt_varint_field_bytes(10, match v { Some(x) => Some(bool_varint(x)), None => None }) + rest, lim) == (DeviceStateModel { is_active: if v is Some { v } else { acc.is_active }, ..acc }).merge(rest, lim),
    {
        match v {
            None => {
                assert(opt_varint_field_bytes(10, match v { Some(x) => Some(bool_varint(x)), None => None }) + rest =~= rest);
                assert((DeviceStateModel { is_active: acc.is_active, ..acc }) == acc);
            },
            Some(x) => {
                let t = tag_bytes(10, WIRE_VARINT);
                let b = varint_bytes(bool_varint(x));
                assert(opt_varint_field_bytes(10, match v { Some(x) => Some(bool_varint(x)), None => None }) + rest =~= t + (b + rest));
                lemma_tag_roundtrip(10, WIRE_VARINT, b + rest);
                lemma_varint_roundtrip(bool_varint(x), rest);
                    lemma_varint_casts(0, 0, 0, x, 0);
                Self::lemma_merge_step(acc, 10, WIRE_VARINT, t, b, rest, DeviceStateModel { is_active: v, ..acc }, lim);
            },
        }
    }

    /// Merging the encoding of field `can_play` sets it, whatever follows.
    pub proof fn lemma_merge_can_play(acc: Self, v: Option<bool>, rest: Seq<u8>, lim: nat)
        ensures
            acc.merge(opt_varint_field_bytes(11, match v { Some(x) => Some(bool_varint(x)), None => None }) + rest, lim) == (DeviceStateModel { can_play: if v is Some { v } else { acc.can_play }, ..acc }).merge(rest, lim),
    {
        match v {
            None => {
                assert(opt_varint_field_bytes(11, match v { Some(x) => Some(bool_varint(x)), None => None }) + rest =~= rest);
                assert((DeviceStateModel { can_play: acc.can_play, ..acc }) == acc);
            },
            Some(x) => {
                let t = tag_bytes(11, WIRE_VARINT);
                let b = varint_bytes(bool_varint(x));
                assert(opt_varint_field_bytes(11, match v { Some(x) => Some(bool_varint(x)), None => None }) + rest =~= t + (b + rest));
                lemma_tag_roundtrip(11, WIRE_VARINT, b + rest);
                lemma_varint_roundtrip(bool_varint(x), rest);
                    lemma_varint_casts(0, 0, 0, x, 0);
                Self::lemma_merge_step(acc, 11, WIRE_VARINT, t, b, rest, DeviceStateModel { can_play: v, ..acc }, lim);
            },
        }
    }

    /// Merging the encoding of field `volume` sets it, whatever follows.
    pub proof fn lemma_merge_volume(acc: Self, v: Option<u32>, rest: Seq<u8>, lim: nat)
        ensures
            acc.merge(opt_varint_field_bytes(12, match v { Some(x) => Some(x as u64), None => None }) + rest, lim) == (DeviceStateModel { volume: if v is Some { v } else { acc.volume }, ..acc }).merge(rest, lim),
    {
        match v {
            None => {
                assert(opt_varint_field_bytes(12, match v { Some(x) => Some(x as u64), None => None }) + rest =~= rest);
                assert((DeviceStateModel { volume: acc.volume, ..acc }) == acc);
            },
            Some(x) => {
                let t = tag_bytes(12, WIRE_VARINT);
                let b = varint_bytes(x as u64);
                assert(opt_varint_field_bytes(12, match v { Some(x) => Some(x as u64), None => None }) + rest =~= t + (b + rest));
                lemma_tag_roundtrip(12, WIRE_VARINT, b + rest);
                lemma_varint_roundtrip(x as u64, rest);
                    lemma_varint_casts(0, 0, x, false, 0);
                Self::lemma_merge_step(acc, 12, WIRE_VARINT, t, b, rest, DeviceStateModel { volume: v, ..acc }, lim);
            },
        }
    }

    /// Merging the encoding of field `name` sets it, whatever follows.
    pub proof fn lemma_merge_name(acc: Self, v: Option<Seq<char>>, rest: Seq<u8>, lim: nat)
        requires
            (v matches Some(c) ==> fits_u32(encode_utf8(c))),
        ensures
            acc.merge(opt_length_delimited_field_bytes(13, match v { Some(c) => Some(encode_utf8(c)), None => None }) + rest, lim) == (DeviceStateModel { name: if v is Some { v } else { acc.name }, ..acc }).merge(rest, lim),
    {
        match v {
            None => {
                assert(opt_length_delimited_field_bytes(13, match v { Some(c) => Some(encode_utf8(c)), None => None }) + rest =~= rest);
                assert((DeviceStateModel { name: acc.name, ..acc }) == acc);
            },
            Some(x) => {
                let t = tag_bytes(13, WIRE_LENGTH_DELIMITED);
                let b = bytes_value_bytes(encode_utf8(x));
                assert(opt_length_delimited_field_bytes(13, match v { Some(c) => Some(encode_utf8(c)), None => None }) + rest =~= t + (b + rest));
                lemma_tag_roundtrip(13, WIRE_LENGTH_DELIMITED, b + rest);
                lemma_string_roundtrip(x, rest);
                Self::lemma_merge_step(acc, 13, WIRE_LENGTH_DELIMITED, t, b, rest, DeviceStateModel { name: v, ..acc }, lim);
            },
        }
    }

    /// Merging the encoding of field `error_code` sets it, whatever follows.
    pub proof fn lemma_merge_error_code(acc: Self, v: Option<u32>, rest: Seq<u8>, lim: nat)
        ensures
            acc.merge(opt_varint_field_bytes(14, match v { Some(x) => Some(x as u64), None => None }) + rest, lim) == (DeviceStateModel { error_code: if v is Some { v } else { acc.error_code }, ..acc }).merge(rest, lim),
    {
        match v {
            None => {
                assert(opt_varint_field_bytes(14, match v { Some(x) => Some(x as u64), None => None }) + rest =~= rest);
                assert((DeviceStateModel { error_code: acc.error_code, ..acc }) == acc);
            },
            Some(x) => {
                let t = tag_bytes(14, WIRE_VARINT);
                let b = varint_bytes(x as u64);
                assert(opt_varint_field_bytes(14, match v { Some(x) => Some(x as u64), None => None }) + rest =~= t + (b + rest));
                lemma_tag_roundtrip(14, WIRE_VARINT, b + rest);
                lemma_varint_roundtrip(x as u64, rest);
                    lemma_varint_casts(0, 0, x, false, 0);
                Self::lemma_merge_step(acc, 14, WIRE_VARINT, t, b, rest, DeviceStateModel { error_code: v, ..acc }, lim);
            },
        }
    }

    /// Merging the encoding of field `became_active_at` sets it, whatever follows.
    pub proof fn lemma_merge_became_active_at(acc: Self, v: Option<i64>, rest: Seq<u8>, lim: nat)
        ensures
            acc.merge(opt_varint_field_bytes(15, match v { Some(x) => Some(x as u64), None => None }) + rest, lim) == (DeviceStateModel { became_active_at: if v is Some { v } else { acc.became_active_at }, ..acc }).merge(rest, lim),
    {
        match v {
            None => {
                assert(opt_varint_field_bytes(15, match v { Some(x) => Some(x as u64), None => None }) + rest =~= rest);
                assert((DeviceStateModel { became_active_at: acc.became_active_at, ..acc }) == acc);
            },
            Some(x) => {
                let t = tag_bytes(15, WIRE_VARINT);
                let b = varint_bytes(x as u64);
                assert(opt_varint_field_bytes(15, match v { Some(x) => Some(x as u64), None => None }) + rest =~= t + (b + rest));
                lemma_tag_roundtrip(15, WIRE_VARINT, b + rest);
                lemma_varint_roundtrip(x as u64, rest);
                    lemma_varint_casts(0, x, 0, false, 0);
                Self::lemma_merge_step(acc, 15, WIRE_VARINT, t, b, rest, DeviceStateModel { became_active_at: v, ..acc }, lim);
            },
        }
    }

    /// Merging the encoding of field `error_message` sets it, whatever follows.
    pub proof fn lemma_merge_error_message(acc: Self, v: Option<Seq<char>>, rest: Seq<u8>, lim: nat)
        requires
            (v matches Some(c) ==> fits_u32(encode_utf8(c))),
        ensures
            acc.merge(opt_length_delimited_field_bytes(16, match v { Some(c) => Some(encode_utf8(c)), None => None }) + rest, lim) == (DeviceStateModel { error_message: if v is Some { v } else { acc.error_message }, ..acc }).merge(rest, lim),
    {
        match v {
            None => {
                assert(opt_length_delimited_field_bytes(16, match v { Some(c) => Some(encode_utf8(c)), None => None }) + rest =~= rest);
                assert((DeviceStateModel { error_message: acc.error_message, ..acc }) == acc);
            },
            Some(x) => {
                let t = tag_bytes(16, WIRE_LENGTH_DELIMITED);
                let b = bytes_value_bytes(encode_utf8(x));
                assert(opt_length_delimited_field_bytes(16, match v { Some(c) => Some(encode_utf8(c)), None => None }) + rest =~= t + (b + rest));
                lemma_tag_roundtrip(16, WIRE_LENGTH_DELIMITED, b + rest);
                lemma_string_roundtrip(x, rest);
                Self::lemma_merge_step(acc, 16, WIRE_LENGTH_DELIMITED, t, b, rest, DeviceStateModel { error_message: v, ..acc }, lim);
            },
        }
    }

    /// Merging the encoding of the elements of field `capabilities` appends them, whatever follows.
    #[verifier::rlimit(50)]
    pub proof fn lemma_merge_capabilities(acc: Self, v: Seq<CapabilityModel>, rest: Seq<u8>, lim: nat)
        requires
            CapabilityModel::all_writable(v),
        ensures
            acc.merge(length_delimited_list_bytes(17, CapabilityModel::encodings(v)) + rest, lim) == (DeviceStateModel { capabilities: acc.capabilities + v, ..acc }).merge(rest, lim),
        decreases v.len(),
    {
        let w = CapabilityModel::encodings(v);
        if v.len() == 0 {
            assert(length_delimited_list_bytes(17, w) + rest =~= rest);
            assert(acc.capabilities + v =~= acc.capabilities);
            assert((DeviceStateModel { capabilities: acc.capabilities + v, ..acc }) == acc);
        } else {
            lemma_length_delimited_list_cons(17, w);
            assert(v[0].wf() && fits_u32(v[0].to_bytes()));
            let t = tag_bytes(17, WIRE_LENGTH_DELIMITED);
            let b = bytes_value_bytes(w[0]);
            let tail = length_delimited_list_bytes(17, w.subrange(1, w.len() as int));
            assert(length_delimited_list_bytes(17, w) + rest =~= t + (b + (tail + rest)));
            lemma_tag_roundtrip(17, WIRE_LENGTH_DELIMITED, b + (tail + rest));
            lemma_message_window(v[0].to_bytes(), tail + rest);
            lemma_embedded_window(v[0].to_bytes(), tail + rest, lim);
            v[0].lemma_roundtrip(0);
            lemma_varint_parse_len(b + (tail + rest));
            let acc1 = DeviceStateModel { capabilities: acc.capabilities.push(v[0]), ..acc };
            Self::lemma_merge_step(acc, 17, WIRE_LENGTH_DELIMITED, t, b, tail + rest, acc1, lim);
            assert(w.subrange(1, w.len() as int) =~= CapabilityModel::encodings(v.subrange(1, v.len() as int)));
            assert forall|j: int| 0 <= j < v.len() - 1 implies #[trigger] v.subrange(1, v.len() as int)[j].wf() && fits_u32(v.subrange(1, v.len() as int)[j].to_bytes()) by {
                assert(v.subrange(1, v.len() as int)[j] == v[j + 1]);
            }
            Self::lemma_merge_capabilities(acc1, v.subrange(1, v.len() as int), rest, lim);
            assert(acc1.capabilities + v.subrange(1, v.len() as int) =~= acc.capabilities + v);
        }
    }

    /// Merging the encoding of fields of unknown numbers keeps them, whatever follows.
    #[verifier::rlimit(50)]
    pub proof fn lemma_merge_unknown_fields(acc: Self, v: Seq<UnknownFieldModel>, rest: Seq<u8>, lim: nat)
        requires
            forall|i: int| 0 <= i < v.len() ==> unknown_field_wf(#[trigger] v[i]) && !Self::is_known_field(v[i].number),
            unknown_grouped(acc.unknown_fields + v),
        ensures
            acc.merge(unknown_list_bytes(v) + rest, lim) == (DeviceStateModel { unknown_fields: acc.unknown_fields + v, ..acc }).merge(rest, lim),
        decreases v.len(),
    {
        if v.len() == 0 {
            assert(unknown_list_bytes(v) + rest =~= rest);
            assert(acc.unknown_fields + v =~= acc.unknown_fields);
            assert((DeviceStateModel { unknown_fields: acc.unknown_fields + v, ..acc }) == acc);
        } else {
            lemma_unknown_list_cons(v);
            let u = v[0];
            let wt = crate::wire::unknown_wire_type(u.value);
            let t = tag_bytes(u.number, wt);
            let b = crate::wire::unknown_value_bytes(u.value);
            let tail = unknown_list_bytes(v.subrange(1, v.len() as int));
            assert(unknown_list_bytes(v) + rest =~= t + (b + (tail + rest)));
            assert(unknown_field_bytes(u) + (tail + rest) =~= t + (b + (tail + rest)));
            lemma_unknown_roundtrip(u, tail + rest);
            assert((t + (b + (tail + rest))).skip(t.len() as int) =~= b + (tail + rest));
            crate::wire::lemma_tag_roundtrip(u.number, wt, b + (tail + rest));
            let acc1 = DeviceStateModel { unknown_fields: acc.unknown_fields.push(u), ..acc };
            assert(acc.unknown_fields.push(u) =~= (acc.unknown_fields + v).take(acc.unknown_fields.len() + 1int));
            lemma_grouped_take(acc.unknown_fields + v, acc.unknown_fields.len() + 1int);
            lemma_grouped_insert_last(acc.unknown_fields, u);
            Self::lemma_merge_step(acc, u.number, wt, t, b, tail + rest, acc1, lim);
            assert(acc1.unknown_fields + v.subrange(1, v.len() as int) =~= acc.unknown_fields + v);
            Self::lemma_merge_unknown_fields(acc1, v.subrange(1, v.len() as int), rest, lim);
        }
    }

    /// Reading back the encoding of a model that can be written gives the model,
    /// whatever the limit past its end.
    #[verifier::spinoff_prover]
    #[verifier::rlimit(100)]
    pub proof fn lemma_roundtrip(self, lim: nat)
        requires
            self.wf(),
        ensures
            DeviceStateModel::empty().merge(self.to_bytes(), lim) == Some(self),
    {
        reveal(DeviceStateModel::to_bytes);
        reveal(DeviceStateModel::wf);
        reveal_with_fuel(DeviceStateModel::merge, 1);
        let a0 = DeviceStateModel::empty();
        assert((self.sw_version matches Some(c) ==> fits_u32(encode_utf8(c))));
        Self::lemma_merge_sw_version(a0, self.sw_version, self.encoded_from_is_active(), lim);
        let a1 = DeviceStateModel { sw_version: if self.sw_version is Some { self.sw_version } else { a0.sw_version }, ..a0 };
        Self::lemma_merge_is_active(a1, self.is_active, self.encoded_from_can_play(), lim);
        let a2 = DeviceStateModel { is_active: if self.is_active is Some { self.is_active } else { a1.is_active }, ..a1 };
        Self::lemma_merge_can_play(a2, self.can_play, self.encoded_from_volume(), lim);
        let a3 = DeviceStateModel { can_play: if self.can_play is Some { self.can_play } else { a2.can_play }, ..a2 };
        Self::lemma_merge_volume(a3, self.volume, self.encoded_from_name(), lim);
        let a4 = DeviceStateModel { volume: if self.volume is Some { self.volume } else { a3.volume }, ..a3 };
        assert((self.name matches Some(c) ==> fits_u32(encode_utf8(c))));
        Self::lemma_merge_name(a4, self.name, self.encoded_from_error_code(), lim);
        let a5 = DeviceStateModel { name: if self.name is Some { self.name } else { a4.name }, ..a4 };
        Self::lemma_merge_error_code(a5, self.error_code, self.encoded_from_became_active_at(), lim);
        let a6 = DeviceStateModel { error_code: if self.error_code is Some { self.error_code } else { a5.error_code }, ..a5 };
        Self::lemma_merge_became_active_at(a6, self.became_active_at, self.encoded_from_error_message(), lim);
        let a7 = DeviceStateModel { became_active_at: if self.became_active_at is Some { self.became_active_at } else { a6.became_active_at }, ..a6 };
        assert((self.error_message matches Some(c) ==> fits_u32(encode_utf8(c))));
        Self::lemma_merge_error_message(a7, self.error_message, self.encoded_from_capabilities(), lim);
        let a8 = DeviceStateModel { error_message: if self.error_message is Some { self.error_message } else { a7.error_message }, ..a7 };
        assert(CapabilityModel::all_writable(self.capabilities));
        Self::lemma_merge_capabilities(a8, self.capabilities, self.encoded_from_unknown_fields(), lim);
        let a9 = DeviceStateModel { capabilities: a8.capabilities + self.capabilities, ..a8 };
        assert(a9.unknown_fields + self.unknown_fields =~= self.unknown_fields);
        Self::lemma_merge_unknown_fields(a9, self.unknown_fields, Seq::empty(), lim);
        assert(unknown_list_bytes(self.unknown_fields) + Seq::<u8>::empty() =~= unknown_list_bytes(self.unknown_fields));
        let last = DeviceStateModel { unknown_fields: a9.unknown_fields + self.unknown_fields, ..a9 };
        assert(last.capabilities =~= self.capabilities);
        assert(last.unknown_fields =~= self.unknown_fields);
        assert(last == self);
    }
    /// A message whose only set field is `sw_version` is written as field number 1 of the
    /// protocol's definition alone: the tag of that number with the wire type of the field,
    /// then the value.
    pub proof fn lemma_encoding_of_sw_version(v: Option<Seq<char>>)
        ensures
            (DeviceStateModel { sw_version: v, ..DeviceStateModel::empty() }).to_bytes() == opt_length_delimited_field_bytes(1, match v { Some(c) => Some(encode_utf8(c)), None => None }),
    {
        reveal(DeviceStateModel::to_bytes);
        let m = DeviceStateModel { sw_version: v, ..DeviceStateModel::empty() };
        assert(m.to_bytes() =~= opt_length_delimited_field_bytes(1, match v { Some(c) => Some(encode_utf8(c)), None => None }));
    }

    /// A message whose only set field is `is_active` is written as field number 10 of the
    /// protocol's definition alone: the tag of that number with the wire type of the field,
    /// then the value.
    pub proof fn lemma_encoding_of_is_active(v: Option<bool>)
        ensures
            (DeviceStateModel { is_active: v, ..DeviceStateModel::empty() }).to_bytes() == opt_varint_field_bytes(10, match v { Some(x) => Some(bool_varint(x)), None => None }),
    {
        reveal(DeviceStateModel::to_bytes);
        let m = DeviceStateModel { is_active: v, ..DeviceStateModel::empty() };
        assert(m.to_bytes() =~= opt_varint_field_bytes(10, match v { Some(x) => Some(bool_varint(x)), None => None }));
    }

    /// A message whose only set field is `can_play` is written as field number 11 of the
    /// protocol's definition alone: the tag of that number with the wire type of the field,
    /// then the value.
    pub proof fn lemma_encoding_of_can_play(v: Option<bool>)
        ensures
            (DeviceStateModel { can_play: v, ..DeviceStateModel::empty() }).to_bytes() == opt_varint_field_bytes(11, match v { Some(x) => Some(bool_varint(x)), None => None }),
    {
        reveal(DeviceStateModel::to_bytes);
        let m = DeviceStateModel { can_play: v, ..DeviceStateModel::empty() };
        assert(m.to_bytes() =~= opt_varint_field_bytes(11, match v { Some(x) => Some(bool_varint(x)), None => None }));
    }

    /// A message whose only set field is `volume` is written as field number 12 of the
    /// protocol's definition alone: the tag of that number with the wire type of the field,
    /// then the value.
    pub proof fn lemma_encoding_of_volume(v: Option<u32>)
        ensures
            (DeviceStateModel { volume: v, ..DeviceStateModel::empty() }).to_bytes() == opt_varint_field_bytes(12, match v { Some(x) => Some(x as u64), None => None }),
    {
        reveal(DeviceStateModel::to_bytes);
        let m = DeviceStateModel { volume: v, ..DeviceStateModel::empty() };
        assert(m.to_bytes() =~= opt_varint_field_bytes(12, match v { Some(x) => Some(x as u64), None => None }));
    }

    /// A message whose only set field is `name` is written as field number 13 of the
    /// protocol's definition alone: the tag of that number with the wire type of the field,
    /// then the value.
    pub proof fn lemma_encoding_of_name(v: Option<Seq<char>>)
        ensures
            (DeviceStateModel { name: v, ..DeviceStateModel::empty() }).to_bytes() == opt_length_delimited_field_bytes(13, match v { Some(c) => Some(encode_utf8(c)), None => None }),
    {
        reveal(DeviceStateModel::to_bytes);
        let m = DeviceStateModel { name: v, ..DeviceStateModel::empty() };
        assert(m.to_bytes() =~= opt_length_delimited_field_bytes(13, match v { Some(c) => Some(encode_utf8(c)), None => None }));
    }

    /// A message whose only set field is `error_code` is written as field number 14 of the
    /// protocol's definition alone: the tag of that number with the wire type of the field,
    /// then the value.
    pub proof fn lemma_encoding_of_error_code(v: Option<u32>)
        ensures
            (DeviceStateModel { error_code: v, ..DeviceStateModel::empty() }).to_bytes() == opt_varint_field_bytes(14, match v { Some(x) => Some(x as u64), None => None }),
    {
        reveal(DeviceStateModel::to_bytes);
        let m = DeviceStateModel { error_code: v, ..DeviceStateModel::empty() };
        assert(m.to_bytes() =~= opt_varint_field_bytes(14, match v { Some(x) => Some(x as u64), None => None }));
    }

    /// A message whose only set field is `became_active_at` is written as field number 15 of the
    /// protocol's definition alone: the tag of that number with the wire type of the field,
    /// then the value.
    pub proof fn lemma_encoding_of_became_active_at(v: Option<i64>)
        ensures
            (DeviceStateModel { became_active_at: v, ..DeviceStateModel::empty() }).to_bytes() == opt_varint_field_bytes(15, match v { Some(x) => Some(x as u64), None => None }),
    {
        reveal(DeviceStateModel::to_bytes);
        let m = DeviceStateModel { became_active_at: v, ..DeviceStateModel::empty() };
        assert(m.to_bytes() =~= opt_varint_field_bytes(15, match v { Some(x) => Some(x as u64), None => None }));
    }

    /// A message whose only set field is `error_message` is written as field number 16 of the
    /// protocol's definition alone: the tag of that number with the wire type of the field,
    /// then the value.
    pub proof fn lemma_encoding_of_error_message(v: Option<Seq<char>>)
        ensures
            (DeviceStateModel { error_message: v, ..DeviceStateModel::empty() }).to_bytes() == opt_length_delimited_field_bytes(16, match v { Some(c) => Some(encode_utf8(c)), None => None }),
    {
        reveal(DeviceStateModel::to_bytes);
        let m = DeviceStateModel { error_message: v, ..DeviceStateModel::empty() };
        assert(m.to_bytes() =~= opt_length_delimited_field_bytes(16, match v { Some(c) => Some(encode_utf8(c)), None => None }));
    }

    /// A message whose only set field is `capabilities` is written as field number 17 of the
    /// protocol's definition alone: the tag of that number with the wire type of the field,
    /// then the value.
    pub proof fn lemma_encoding_of_capabilities(v: Seq<CapabilityModel>)
        ensures
            (DeviceStateModel { capabilities: v, ..DeviceStateModel::empty() }).to_bytes() == length_delimited_list_bytes(17, CapabilityModel::encodings(v)),
    {
        reveal(DeviceStateModel::to_bytes);
        let m = DeviceStateModel { capabilities: v, ..DeviceStateModel::empty() };
        assert(m.to_bytes() =~= length_delimited_list_bytes(17, CapabilityModel::encodings(v)));
    }

}

#[allow(non_snake_case)]
impl DeviceState {
    /// The models of a list of messages.
    pub open spec fn seq_model(v: Seq<DeviceState>) -> Seq<DeviceStateModel> {
        v.map_values(|m: DeviceState| m@)
    }

    /// A message with no field set.
    pub fn new() -> (r: Self)
        ensures
            r@ == DeviceStateModel::empty(),
            r@.wf(),
    {
        let r = DeviceState {
            sw_version: None,
            is_active: None,
            can_play: None,
            volume: None,
            name: None,
            error_code: None,
            became_active_at: None,
            error_message: None,
            capabilities: Vec::new(),
            unknown_fields: Vec::new(),
        };
        assert(Capability::seq_model(r.capabilities@) =~= Seq::<CapabilityModel>::empty());
        assert(unknown_models(r.unknown_fields@) =~= Seq::<UnknownFieldModel>::empty());
        proof {
            DeviceStateModel::lemma_empty_wf();
        }
        r
    }

    /// Unsets field `sw_version`.
    pub fn clear_sw_version(&mut self)
        ensures
            final(self)@ == (DeviceStateModel { sw_version: None, ..old(self)@ }),
    {
        self.sw_version = None;
    }

    /// Whether field `sw_version` is set.
    pub fn has_sw_version(&self) -> (r: bool)
        ensures
            r == self@.sw_version is Some,
    {
        self.sw_version.is_some()
    }

    /// Sets field `sw_version` to `v`.
    pub fn set_sw_version(&mut self, v: String)
        ensures
            final(self)@ == (DeviceStateModel { sw_version: Some(v@), ..old(self)@ }),
    {
        self.sw_version = Some(v);
    }

    /// Field `sw_version`, to change in place; an unset field is first set to its default.
    pub fn mut_sw_version(&mut self) -> (r: &mut String)
        ensures
            r@ == chars_or_empty(old(self)@.sw_version),
            final(self)@ == (DeviceStateModel { sw_version: Some(final(r)@), ..old(self)@ }),

    {
        if self.sw_version.is_none() {
            self.sw_version = Some(String::new());
        }
        opt_as_mut(&mut self.sw_version).unwrap()
    }

    /// Takes field `sw_version` (its default when unset), leaving it unset.
    pub fn take_sw_version(&mut self) -> (r: String)
        ensures
            r@ == chars_or_empty(old(self)@.sw_version),
            final(self)@ == (DeviceStateModel { sw_version: None, ..old(self)@ }),
    {
        let mut t = None;
        std::mem::swap(&mut t, &mut self.sw_version);
        match t {
            Some(v) => v,
            None => String::new(),
        }
    }

    /// Field `sw_version`, or the empty string when unset.
    pub fn get_sw_version(&self) -> (r: &str)
        ensures
            r@ == chars_or_empty(self@.sw_version),
    {
        match &self.sw_version {
            Some(v) => v.as_str(),
            None => {
                proof {
                    reveal_strlit("");
                }
                ""
            },
        }
    }

    /// Unsets field `is_active`.
    pub fn clear_is_active(&mut self)
        ensures
            final(self)@ == (DeviceStateModel { is_active: None, ..old(self)@ }),
    {
        self.is_active = None;
    }

    /// Whether field `is_active` is set.
    pub fn has_is_active(&self) -> (r: bool)
        ensures
            r == self@.is_active is Some,
    {
        self.is_active.is_some()
    }

    /// Sets field `is_active` to `v`.
    pub fn set_is_active(&mut self, v: bool)
        ensures
            final(self)@ == (DeviceStateModel { is_active: Some(v), ..old(self)@ }),
    {
        self.is_active = Some(v);
    }

    /// Field `is_active`, or `false` when unset.
    pub fn get_is_active(&self) -> (r: bool)
        ensures
            r == (match self@.is_active { Some(x) => x, None => false }),
    {
        match self.is_active {
            Some(x) => x,
            None => false,
        }
    }

    /// Unsets field `can_play`.
    pub fn clear_can_play(&mut self)
        ensures
            final(self)@ == (DeviceStateModel { can_play: None, ..old(self)@ }),
    {
        self.can_play = None;
    }

    /// Whether field `can_play` is set.
    pub fn has_can_play(&self) -> (r: bool)
        ensures
            r == self@.can_play is Some,
    {
        self.can_play.is_some()
    }

    /// Sets field `can_play` to `v`.
    pub fn set_can_play(&mut self, v: bool)
        ensures
            final(self)@ == (DeviceStateModel { can_play: Some(v), ..old(self)@ }),
    {
        self.can_play = Some(v);
    }

    /// Field `can_play`, or `false` when unset.
    pub fn get_can_play(&self) -> (r: bool)
        ensures
            r == (match self@.can_play { Some(x) => x, None => false }),
    {
        match self.can_play {
            Some(x) => x,
            None => false,
        }
    }

    /// Unsets field `volume`.
    pub fn clear_volume(&mut self)
        ensures
            final(self)@ == (DeviceStateModel { volume: None, ..old(self)@ }),
    {
        self.volume = None;
    }

    /// Whether field `volume` is set.
    pub fn has_volume(&self) -> (r: bool)
        ensures
            r == self@.volume is Some,
    {
        self.volume.is_some()
    }

    /// Sets field `volume` to `v`.
    pub fn set_volume(&mut self, v: u32)
        ensures
            final(self)@ == (DeviceStateModel { volume: Some(v), ..old(self)@ }),
    {
        self.volume = Some(v);
    }

    /// Field `volume`, or `0` when unset.
    pub fn get_volume(&self) -> (r: u32)
        ensures
            r == (match self@.volume { Some(x) => x, None => 0u32 }),
    {
        match self.volume {
            Some(x) => x,
            None => 0u32,
        }
    }

    /// Unsets field `name`.
    pub fn clear_name(&mut self)
        ensures
            final(self)@ == (DeviceStateModel { name: None, ..old(self)@ }),
    {
        self.name = None;
    }

    /// Whether field `name` is set.
    pub fn has_name(&self) -> (r: bool)
        ensures
            r == self@.name is Some,
    {
        self.name.is_some()
    }

    /// Sets field `name` to `v`.
    pub fn set_name(&mut self, v: String)
        ensures
            final(self)@ == (DeviceStateModel { name: Some(v@), ..old(self)@ }),
    {
        self.name = Some(v);
    }

    /// Field `name`, to change in place; an unset field is first set to its default.
    pub fn mut_name(&mut self) -> (r: &mut String)
        ensures
            r@ == chars_or_empty(old(self)@.name),
            final(self)@ == (DeviceStateModel { name: Some(final(r)@), ..old(self)@ }),

    {
        if self.name.is_none() {
            self.name = Some(String::new());
        }
        opt_as_mut(&mut self.name).unwrap()
    }

    /// Takes field `name` (its default when unset), leaving it unset.
    pub fn take_name(&mut self) -> (r: String)
        ensures
            r@ == chars_or_empty(old(self)@.name),
            final(self)@ == (DeviceStateModel { name: None, ..old(self)@ }),
    {
        let mut t = None;
        std::mem::swap(&mut t, &mut self.name);
        match t {
            Some(v) => v,
            None => String::new(),
        }
    }

    /// Field `name`, or the empty string when unset.
    pub fn get_name(&self) -> (r: &str)
        ensures
            r@ == chars_or_empty(self@.name),
    {
        match &self.name {
            Some(v) => v.as_str(),
            None => {
                proof {
                    reveal_strlit("");
                }
                ""
            },
        }
    }

    /// Unsets field `error_code`.
    pub fn clear_error_code(&mut self)
        ensures
            final(self)@ == (DeviceStateModel { error_code: None, ..old(self)@ }),
    {
        self.error_code = None;
    }

    /// Whether field `error_code` is set.
    pub fn has_error_code(&self) -> (r: bool)
        ensures
            r == self@.error_code is Some,
    {
        self.error_code.is_some()
    }

    /// Sets field `error_code` to `v`.
    pub fn set_error_code(&mut self, v: u32)
        ensures
            final(self)@ == (DeviceStateModel { error_code: Some(v), ..old(self)@ }),
    {
        self.error_code = Some(v);
    }

    /// Field `error_code`, or `0` when unset.
    pub fn get_error_code(&self) -> (r: u32)
        ensures
            r == (match self@.error_code { Some(x) => x, None => 0u32 }),
    {
        match self.error_code {
            Some(x) => x,
            None => 0u32,
        }
    }

    /// Unsets field `became_active_at`.
    pub fn clear_became_active_at(&mut self)
        ensures
            final(self)@ == (DeviceStateModel { became_active_at: None, ..old(self)@ }),
    {
        self.became_active_at = None;
    }

    /// Whether field `became_active_at` is set.
    pub fn has_became_active_at(&self) -> (r: bool)
        ensures
            r == self@.became_active_at is Some,
    {
        self.became_active_at.is_some()
    }

    /// Sets field `became_active_at` to `v`.
    pub fn set_became_active_at(&mut self, v: i64)
        ensures
            final(self)@ == (DeviceStateModel { became_active_at: Some(v), ..old(self)@ }),
    {
        self.became_active_at = Some(v);
    }

    /// Field `became_active_at`, or `0` when unset.
    pub fn get_became_active_at(&self) -> (r: i64)
        ensures
            r == (match self@.became_active_at { Some(x) => x, None => 0i64 }),
    {
        match self.became_active_at {
            Some(x) => x,
            None => 0i64,
        }
    }

    /// Unsets field `error_message`.
    pub fn clear_error_message(&mut self)
        ensures
            final(self)@ == (DeviceStateModel { error_message: None, ..old(self)@ }),
    {
        self.error_message = None;
    }

    /// Whether field `error_message` is set.
    pub fn has_error_message(&self) -> (r: bool)
        ensures
            r == self@.error_message is Some,
    {
        self.error_message.is_some()
    }

    /// Sets field `error_message` to `v`.
    pub fn set_error_message(&mut self, v: String)
        ensures
            final(self)@ == (DeviceStateModel { error_message: Some(v@), ..old(self)@ }),
    {
        self.error_message = Some(v);
    }

    /// Field `error_message`, to change in place; an unset field is first set to its default.
    pub fn mut_error_message(&mut self) -> (r: &mut String)
        ensures
            r@ == chars_or_empty(old(self)@.error_message),
            final(self)@ == (DeviceStateModel { error_message: Some(final(r)@), ..old(self)@ }),

    {
        if self.error_message.is_none() {
            self.error_message = Some(String::new());
        }
        opt_as_mut(&mut self.error_message).unwrap()
    }

    /// Takes field `error_message` (its default when unset), leaving it unset.
    pub fn take_error_message(&mut self) -> (r: String)
        ensures
            r@ == chars_or_empty(old(self)@.error_message),
            final(self)@ == (DeviceStateModel { error_message: None, ..old(self)@ }),
    {
        let mut t = None;
        std::mem::swap(&mut t, &mut self.error_message);
        match t {
            Some(v) => v,
            None => String::new(),
        }
    }

    /// Field `error_message`, or the empty string when unset.
    pub fn get_error_message(&self) -> (r: &str)
        ensures
            r@ == chars_or_empty(self@.error_message),
    {
        match &self.error_message {
            Some(v) => v.as_str(),
            None => {
                proof {
                    reveal_strlit("");
                }
                ""
            },
        }
    }

    /// Empties field `capabilities`.
    pub fn clear_capabilities(&mut self)
        ensures
            final(self)@ == (DeviceStateModel { capabilities: Seq::empty(), ..old(self)@ }),
    {
        self.capabilities = Vec::new();
        assert(Capability::seq_model(self.capabilities@) =~= Seq::<CapabilityModel>::empty());
    }

    /// Sets field `capabilities` to the elements of `v`.
    pub fn set_capabilities(&mut self, v: Vec<Capability>)
        ensures
            final(self)@ == (DeviceStateModel { capabilities: Capability::seq_model(v@), ..old(self)@ }),
    {
        self.capabilities = v;
    }

    /// The elements of field `capabilities`, to change in place.
    pub fn mut_capabilities(&mut self) -> (r: &mut Vec<Capability>)
        ensures
            Capability::seq_model(r@) == old(self)@.capabilities,
            final(self)@ == (DeviceStateModel { capabilities: Capability::seq_model(final(r)@), ..old(self)@ }),
    {
        field_mut(&mut self.capabilities)
    }

    /// Takes the elements of field `capabilities`, leaving it empty.
    pub fn take_capabilities(&mut self) -> (r: Vec<Capability>)
        ensures
            Capability::seq_model(r@) == old(self)@.capabilities,
            final(self)@ == (DeviceStateModel { capabilities: Seq::empty(), ..old(self)@ }),
    {
        let mut r = Vec::new();
        std::mem::swap(&mut r, &mut self.capabilities);
        assert(Capability::seq_model(self.capabilities@) =~= Seq::<CapabilityModel>::empty());
        r
    }

    /// The elements of field `capabilities`.
    pub fn get_capabilities(&self) -> (r: &[Capability])
        ensures
            Capability::seq_model(r@) == self@.capabilities,
    {
        self.capabilities.as_slice()
    }

    /// Merges one field whose tag (number `f`, wire type `wt`) has been read
    /// from the bytes `s` that follow the tag; returns the number of bytes the
    /// value took.
    fn merge_field(&mut self, f: u32, wt: u32, s: &[u8], lim: u64) -> (r: Option<usize>)
        ensures
            match old(self)@.merge_field(f, wt, s@, lim as nat) {
                Some((m, k)) => r == Some(k as usize) && final(self)@ == m,
                None => r is None && final(self)@ == old(self)@.merge_field_failed(f, wt, s@, lim as nat),
            },
    {

        if f == 1 {
            if wt != WIRE_LENGTH_DELIMITED {
                return None;
            }
            match read_string(s) {
                Some((v, k)) => {
                    self.sw_version = Some(v);
                    Some(k)
                },
                None => {
                    self.sw_version = Some(String::new());
                    None
                },
            }
        } else if f == 10 {
            if wt != WIRE_VARINT {
                return None;
            }
            proof {
                lemma_varint_parse_len(s@);
            }
            match pb_read_raw_varint64(s) {
                Some((v, k)) => {
                    self.is_active = Some((v as u32) != 0);
                    Some(k)
                },
                None => None,
            }
        } else if f == 11 {
            if wt != WIRE_VARINT {
                return None;
            }
            proof {
                lemma_varint_parse_len(s@);
            }
            match pb_read_raw_varint64(s) {
                Some((v, k)) => {
                    self.can_play = Some((v as u32) != 0);
                    Some(k)
                },
                None => None,
            }
        } else if f == 12 {
            if wt != WIRE_VARINT {
                return None;
            }
            proof {
                lemma_varint_parse_len(s@);
            }
            match pb_read_raw_varint64(s) {
                Some((v, k)) => {
                    self.volume = Some(v as u32);
                    Some(k)
                },
                None => None,
            }
        } else if f == 13 {
            if wt != WIRE_LENGTH_DELIMITED {
                return None;
            }
            match read_string(s) {
                Some((v, k)) => {
                    self.name = Some(v);
                    Some(k)
                },
                None => {
                    self.name = Some(String::new());
                    None
                },
            }
        } else if f == 14 {
            if wt != WIRE_VARINT {
                return None;
            }
            proof {
                lemma_varint_parse_len(s@);
            }
            match pb_read_raw_varint64(s) {
                Some((v, k)) => {
                    self.error_code = Some(v as u32);
                    Some(k)
                },
                None => None,
            }
        } else if f == 15 {
            if wt != WIRE_VARINT {
                return None;
            }
            proof {
                lemma_varint_parse_len(s@);
            }
            match pb_read_raw_varint64(s) {
                Some((v, k)) => {
                    self.became_active_at = Some(v as i64);
                    Some(k)
                },
                None => None,
            }
        } else if f == 16 {
            if wt != WIRE_LENGTH_DELIMITED {
                return None;
            }
            match read_string(s) {
                Some((v, k)) => {
                    self.error_message = Some(v);
                    Some(k)
                },
                None => {
                    self.error_message = Some(String::new());
                    None
                },
            }
        } else if f == 17 {
            if wt != WIRE_LENGTH_DELIMITED {
                return None;
            }
            match read_embedded_window(s, lim) {
                Some((a, b, past)) => {
                    if a == 0 || a > b || b > s.len() {
                        let x = Capability::new();
                        let ghost old_v = self.capabilities@;
                        field_mut(&mut self.capabilities).push(x);
                        assert(Capability::seq_model(self.capabilities@) =~= Capability::seq_model(old_v).push(self.capabilities@.last()@));
                        return None;
                    }
                    let sub = &s[a..b];
                    let mut x = Capability::new();
                    let ok = x.merge_from_slice(sub, past);
                    let ghost old_v = self.capabilities@;
                    field_mut(&mut self.capabilities).push(x);
                    assert(Capability::seq_model(self.capabilities@) =~= Capability::seq_model(old_v).push(self.capabilities@.last()@));
                    if ok {
                        Some(b)
                    } else {
                        None
                    }
                },
                None => {
                    let x = Capability::new();
                    let ghost old_v = self.capabilities@;
                    field_mut(&mut self.capabilities).push(x);
                    assert(Capability::seq_model(self.capabilities@) =~= Capability::seq_model(old_v).push(self.capabilities@.last()@));
                    None
                },
            }
        } else {
            match read_unknown(f, wt, s) {
                Some((Some(u), k)) => {
                    insert_unknown(field_mut(&mut self.unknown_fields), u);
                    Some(k)
                },
                Some((None, k)) => Some(k),
                None => None,
            }
        }
    }

    /// Merges all the fields that `s` holds, in order; `false` when the bytes
    /// are not a valid encoding (the message then holds what was merged so far).
    #[verifier::spinoff_prover]
    #[verifier::rlimit(50)]
    fn merge_from_slice(&mut self, s: &[u8], lim: u64) -> (ok: bool)
        ensures
            match old(self)@.merge(s@, lim as nat) {
                Some(m) => ok && final(self)@ == m,
                None => !ok && final(self)@ == old(self)@.merge_partial(s@, lim as nat),
            },
    {
        proof {
            reveal_with_fuel(DeviceStateModel::merge, 1);
            reveal_with_fuel(DeviceStateModel::merge_partial, 1);
        }
        let mut pos: usize = 0;
        assert(s@.skip(0) =~= s@);
        while pos < s.len()
            invariant
                pos <= s.len(),
                old(self)@.merge(s@, lim as nat) == self@.merge(s@.skip(pos as int), lim as nat),
                old(self)@.merge_partial(s@, lim as nat) == self@.merge_partial(s@.skip(pos as int), lim as nat),
            decreases s.len() - pos,
        {
            let rest = &s[pos..s.len()];
            assert(rest@ == s@.skip(pos as int));
            proof {
                reveal_with_fuel(DeviceStateModel::merge, 1);
                reveal_with_fuel(DeviceStateModel::merge_partial, 1);
                lemma_tag_parse_len(rest@);
            }
            match pb_read_tag_unpack(rest) {
                None => {
                    return false;
                },
                Some((f, wt, n)) => {
                    if n == 0 || n > rest.len() {
                        return false;
                    }
                    let rest2 = &rest[n..rest.len()];
                    assert(rest2@ == rest@.skip(n as int));
                    proof {
                        self@.lemma_merge_field_len(f, wt, rest2@, lim as nat);
                    }
                    match self.merge_field(f, wt, rest2, lim) {
                        None => {
                            return false;
                        },
                        Some(k) => {
                            if k > rest2.len() {
                                return false;
                            }
                            assert(rest@.skip((n + k) as int) =~= s@.skip((pos + n + k) as int));
                            pos = pos + n + k;
                        },
                    }
                },
            }
        }
        assert(s@.skip(pos as int) =~= Seq::<u8>::empty());
        proof {
            reveal_with_fuel(DeviceStateModel::merge, 1);
        }
        true
    }

    /// The message that `s` encodes, if it is a valid encoding.
    fn parse_slice(s: &[u8], lim: u64) -> (r: Option<Self>)
        ensures
            match DeviceStateModel::empty().merge(s@, lim as nat) {
                Some(m) => r matches Some(x) && x@ == m,
                None => r is None,
            },
    {
        let mut m = DeviceState::new();
        if m.merge_from_slice(s, lim) {
            Some(m)
        } else {
            None
        }
    }

    /// Merges the fields that `bytes` encodes into this message, in order: a set
    /// field is replaced, a repeated field grows. On an invalid encoding the
    /// error comes back, the fields merged before the first field that could not
    /// be read stay merged, and that field is left as `merge_field_failed` says.
    pub fn merge_from_bytes(&mut self, bytes: &[u8]) -> (r: Result<(), DecodeError>)
        ensures
            match old(self)@.merge(bytes@, top_limit(bytes@.len())) {
                Some(m) => r is Ok && final(self)@ == m,
                None => r is Err && final(self)@ == old(self)@.merge_partial(bytes@, top_limit(bytes@.len())),
            },
    {
        let lim: u64 = u64::MAX - bytes.len() as u64;
        if self.merge_from_slice(bytes, lim) {
            Ok(())
        } else {
            Err(DecodeError)
        }
    }

    /// Parses a message from its encoding.
    pub fn parse_from_bytes(bytes: &[u8]) -> (r: Result<Self, DecodeError>)
        ensures
            match DeviceStateModel::empty().merge(bytes@, top_limit(bytes@.len())) {
                Some(m) => r matches Ok(x) && x@ == m,
                None => r is Err,
            },
    {
        let lim: u64 = u64::MAX - bytes.len() as u64;
        match Self::parse_slice(bytes, lim) {
            Some(m) => Ok(m),
            None => Err(DecodeError),
        }
    }

    /// Appends the encoding of field `sw_version` to `out`.
    fn write_field_sw_version(&self, out: &mut Vec<u8>)
        requires
            self@.wf(),
        ensures
            final(out)@ == old(out)@ + opt_length_delimited_field_bytes(1, match self@.sw_version { Some(c) => Some(encode_utf8(c)), None => None }),
            final(out)@ + self@.encoded_from_is_active() == old(out)@ + self@.encoded_from_sw_version(),
    {
        proof {
            reveal(DeviceStateModel::wf);
        }
        let ghost o = out@;
        let ghost m = self@;
        match &self.sw_version {
            Some(v) => {
                pb_write_tag(out, 1, WIRE_LENGTH_DELIMITED);
                write_string_value(out, v.as_str());
                proof {
                    lemma_concat_assoc(o, tag_bytes(1, WIRE_LENGTH_DELIMITED), bytes_value_bytes(encode_utf8(v@)));
                }
            },
            None => {
                assert(o + Seq::<u8>::empty() =~= o);
            },
        }
        proof {
            lemma_concat_assoc(o, opt_length_delimited_field_bytes(1, match m.sw_version { Some(c) => Some(encode_utf8(c)), None => None }), m.encoded_from_is_active());
        }
    }

    /// Appends the encoding of field `is_active` to `out`.
    fn write_field_is_active(&self, out: &mut Vec<u8>)
        requires
            self@.wf(),
        ensures
            final(out)@ == old(out)@ + opt_varint_field_bytes(10, match self@.is_active { Some(x) => Some(bool_varint(x)), None => None }),
            final(out)@ + self@.encoded_from_can_play() == old(out)@ + self@.encoded_from_is_active(),
    {
        proof {
            reveal(DeviceStateModel::wf);
        }
        let ghost o = out@;
        let ghost m = self@;
        match self.is_active {
            Some(x) => {
                pb_write_tag(out, 10, WIRE_VARINT);
                pb_write_raw_varint64(out, if x {
                    1
                } else {
                    0
                });
                proof {
                    lemma_concat_assoc(o, tag_bytes(10, WIRE_VARINT), varint_bytes(bool_varint(x)));
                }
            },
            None => {
                assert(o + Seq::<u8>::empty() =~= o);
            },
        }
        proof {
            lemma_concat_assoc(o, opt_varint_field_bytes(10, match m.is_active { Some(x) => Some(bool_varint(x)), None => None }), m.encoded_from_can_play());
        }
    }

    /// Appends the encoding of field `can_play` to `out`.
    fn write_field_can_play(&self, out: &mut Vec<u8>)
        requires
            self@.wf(),
        ensures
            final(out)@ == old(out)@ + opt_varint_field_bytes(11, match self@.can_play { Some(x) => Some(bool_varint(x)), None => None }),
            final(out)@ + self@.encoded_from_volume() == old(out)@ + self@.encoded_from_can_play(),
    {
        proof {
            reveal(DeviceStateModel::wf);
        }
        let ghost o = out@;
        let ghost m = self@;
        match self.can_play {
            Some(x) => {
                pb_write_tag(out, 11, WIRE_VARINT);
                pb_write_raw_varint64(out, if x {
                    1
                } else {
                    0
                });
                proof {
                    lemma_concat_assoc(o, tag_bytes(11, WIRE_VARINT), varint_bytes(bool_varint(x)));
                }
            },
            None => {
                assert(o + Seq::<u8>::empty() =~= o);
            },
        }
        proof {
            lemma_concat_assoc(o, opt_varint_field_bytes(11, match m.can_play { Some(x) => Some(bool_varint(x)), None => None }), m.encoded_from_volume());
        }
    }

    /// Appends the encoding of field `volume` to `out`.
    fn write_field_volume(&self, out: &mut Vec<u8>)
        requires
            self@.wf(),
        ensures
            final(out)@ == old(out)@ + opt_varint_field_bytes(12, match self@.volume { Some(x) => Some(x as u64), None => None }),
            final(out)@ + self@.encoded_from_name() == old(out)@ + self@.encoded_from_volume(),
    {
        proof {
            reveal(DeviceStateModel::wf);
        }
        let ghost o = out@;
        let ghost m = self@;
        match self.volume {
            Some(x) => {
                pb_write_tag(out, 12, WIRE_VARINT);
                pb_write_raw_varint64(out, x as u64);
                proof {
                    lemma_concat_assoc(o, tag_bytes(12, WIRE_VARINT), varint_bytes(x as u64));
                }
            },
            None => {
                assert(o + Seq::<u8>::empty() =~= o);
            },
        }
        proof {
            lemma_concat_assoc(o, opt_varint_field_bytes(12, match m.volume { Some(x) => Some(x as u64), None => None }), m.encoded_from_name());
        }
    }

    /// Appends the encoding of field `name` to `out`.
    fn write_field_name(&self, out: &mut Vec<u8>)
        requires
            self@.wf(),
        ensures
            final(out)@ == old(out)@ + opt_length_delimited_field_bytes(13, match self@.name { Some(c) => Some(encode_utf8(c)), None => None }),
            final(out)@ + self@.encoded_from_error_code() == old(out)@ + self@.encoded_from_name(),
    {
        proof {
            reveal(DeviceStateModel::wf);
        }
        let ghost o = out@;
        let ghost m = self@;
        match &self.name {
            Some(v) => {
                pb_write_tag(out, 13, WIRE_LENGTH_DELIMITED);
                write_string_value(out, v.as_str());
                proof {
                    lemma_concat_assoc(o, tag_bytes(13, WIRE_LENGTH_DELIMITED), bytes_value_bytes(encode_utf8(v@)));
                }
            },
            None => {
                assert(o + Seq::<u8>::empty() =~= o);
            },
        }
        proof {
            lemma_concat_assoc(o, opt_length_delimited_field_bytes(13, match m.name { Some(c) => Some(encode_utf8(c)), None => None }), m.encoded_from_error_code());
        }
    }

    /// Appends the encoding of field `error_code` to `out`.
    fn write_field_error_code(&self, out: &mut Vec<u8>)
        requires
            self@.wf(),
        ensures
            final(out)@ == old(out)@ + opt_varint_field_bytes(14, match self@.error_code { Some(x) => Some(x as u64), None => None }),
            final(out)@ + self@.encoded_from_became_active_at() == old(out)@ + self@.encoded_from_error_code(),
    {
        proof {
            reveal(DeviceStateModel::wf);
        }
        let ghost o = out@;
        let ghost m = self@;
        match self.error_code {
            Some(x) => {
                pb_write_tag(out, 14, WIRE_VARINT);
                pb_write_raw_varint64(out, x as u64);
                proof {
                    lemma_concat_assoc(o, tag_bytes(14, WIRE_VARINT), varint_bytes(x as u64));
                }
            },
            None => {
                assert(o + Seq::<u8>::empty() =~= o);
            },
        }
        proof {
            lemma_concat_assoc(o, opt_varint_field_bytes(14, match m.error_code { Some(x) => Some(x as u64), None => None }), m.encoded_from_became_active_at());
        }
    }

    /// Appends the encoding of field `became_active_at` to `out`.
    fn write_field_became_active_at(&self, out: &mut Vec<u8>)
        requires
            self@.wf(),
        ensures
            final(out)@ == old(out)@ + opt_varint_field_bytes(15, match self@.became_active_at { Some(x) => Some(x as u64), None => None }),
            final(out)@ + self@.encoded_from_error_message() == old(out)@ + self@.encoded_from_became_active_at(),
    {
        proof {
            reveal(DeviceStateModel::wf);
        }
        let ghost o = out@;
        let ghost m = self@;
        match self.became_active_at {
            Some(x) => {
                pb_write_tag(out, 15, WIRE_VARINT);
                pb_write_raw_varint64(out, x as u64);
                proof {
                    lemma_concat_assoc(o, tag_bytes(15, WIRE_VARINT), varint_bytes(x as u64));
                }
            },
            None => {
                assert(o + Seq::<u8>::empty() =~= o);
            },
        }
        proof {
            lemma_concat_assoc(o, opt_varint_field_bytes(15, match m.became_active_at { Some(x) => Some(x as u64), None => None }), m.encoded_from_error_message());
        }
    }

    /// Appends the encoding of field `error_message` to `out`.
    fn write_field_error_message(&self, out: &mut Vec<u8>)
        requires
            self@.wf(),
        ensures
            final(out)@ == old(out)@ + opt_length_delimited_field_bytes(16, match self@.error_message { Some(c) => Some(encode_utf8(c)), None => None }),
            final(out)@ + self@.encoded_from_capabilities() == old(out)@ + self@.encoded_from_error_message(),
    {
        proof {
            reveal(DeviceStateModel::wf);
        }
        let ghost o = out@;
        let ghost m = self@;
        match &self.error_message {
            Some(v) => {
                pb_write_tag(out, 16, WIRE_LENGTH_DELIMITED);
                write_string_value(out, v.as_str());
                proof {
                    lemma_concat_assoc(o, tag_bytes(16, WIRE_LENGTH_DELIMITED), bytes_value_bytes(encode_utf8(v@)));
                }
            },
            None => {
                assert(o + Seq::<u8>::empty() =~= o);
            },
        }
        proof {
            lemma_concat_assoc(o, opt_length_delimited_field_bytes(16, match m.error_message { Some(c) => Some(encode_utf8(c)), None => None }), m.encoded_from_capabilities());
        }
    }

    /// Appends the encoding of field `capabilities` to `out`.
    fn write_field_capabilities(&self, out: &mut Vec<u8>)
        requires
            self@.wf(),
        ensures
            final(out)@ == old(out)@ + length_delimited_list_bytes(17, CapabilityModel::encodings(self@.capabilities)),
            final(out)@ + self@.encoded_from_unknown_fields() == old(out)@ + self@.encoded_from_capabilities(),
    {
        proof {
            reveal(DeviceStateModel::wf);
        }
        let ghost o = out@;
        let ghost m = self@;
        let ghost w = CapabilityModel::encodings(m.capabilities);
        assert(w.subrange(0, w.len() as int) =~= w);
        assert(o + Seq::<u8>::empty() =~= o);
        let mut i: usize = 0;
        while i < self.capabilities.len()
            invariant
                i <= self.capabilities.len(),
                self@ == m,
                m.wf(),
                w.len() == self.capabilities@.len(),
                w == CapabilityModel::encodings(m.capabilities),
                o + length_delimited_list_bytes(17, w) == out@ + length_delimited_list_bytes(17, w.subrange(i as int, w.len() as int)),
            decreases self.capabilities.len() - i,
        {
            proof {
                reveal(DeviceStateModel::wf);
                lemma_length_delimited_list_cons(17, w.subrange(i as int, w.len() as int));
                assert(m.capabilities[i as int] == self.capabilities@[i as int]@);
                assert(m.capabilities[i as int].wf());
                assert(w.subrange(i as int, w.len() as int)[0] == w[i as int]);
                assert(w.subrange(i as int, w.len() as int).subrange(1, w.len() - i) =~= w.subrange(i + 1, w.len() as int));
            }
            let ghost before = out@;
            let mut tmp: Vec<u8> = Vec::new();
            self.capabilities[i].write_to(&mut tmp);
            assert(tmp@ =~= w[i as int]);
            pb_write_tag(out, 17, WIRE_LENGTH_DELIMITED);
            write_bytes_value(out, tmp.as_slice());
            proof {
                lemma_write_list_step(before, tag_bytes(17, WIRE_LENGTH_DELIMITED), bytes_value_bytes(w[i as int]), length_delimited_list_bytes(17, w.subrange(i + 1, w.len() as int)), Seq::<u8>::empty());
                assert(length_delimited_list_bytes(17, w.subrange(i + 1, w.len() as int)) + Seq::<u8>::empty() =~= length_delimited_list_bytes(17, w.subrange(i + 1, w.len() as int)));
                assert(tag_bytes(17, WIRE_LENGTH_DELIMITED) + (bytes_value_bytes(w[i as int]) + length_delimited_list_bytes(17, w.subrange(i + 1, w.len() as int))) + Seq::<u8>::empty() =~= tag_bytes(17, WIRE_LENGTH_DELIMITED) + (bytes_value_bytes(w[i as int]) + length_delimited_list_bytes(17, w.subrange(i + 1, w.len() as int))));
            }
            i = i + 1;
        }
        assert(w.subrange(i as int, w.len() as int) =~= Seq::<Seq<u8>>::empty());
        assert(out@ + Seq::<u8>::empty() =~= out@);
        proof {
            lemma_concat_assoc(o, length_delimited_list_bytes(17, CapabilityModel::encodings(m.capabilities)), m.encoded_from_unknown_fields());
        }
    }

    /// Appends the fields of unknown numbers to `out`.
    fn write_unknown_fields(&self, out: &mut Vec<u8>)
        requires
            self@.wf(),
        ensures
            final(out)@ == old(out)@ + unknown_list_bytes(self@.unknown_fields),
    {
        proof {
            reveal(DeviceStateModel::wf);
        }
        let ghost o = out@;
        let ghost m = self@;
        let mut j: usize = 0;
        assert(m.unknown_fields.subrange(0, m.unknown_fields.len() as int) =~= m.unknown_fields);
        assert(o + Seq::<u8>::empty() =~= o);
        while j < self.unknown_fields.len()
            invariant
                j <= self.unknown_fields.len(),
                self@ == m,
                m.wf(),
                o + unknown_list_bytes(m.unknown_fields) == out@ + unknown_list_bytes(m.unknown_fields.subrange(j as int, m.unknown_fields.len() as int)),
            decreases self.unknown_fields.len() - j,
        {
            proof {
                reveal(DeviceStateModel::wf);
                lemma_unknown_list_cons(m.unknown_fields.subrange(j as int, m.unknown_fields.len() as int));
                assert(m.unknown_fields[j as int] == self.unknown_fields@[j as int]@);
                assert(m.unknown_fields.subrange(j as int, m.unknown_fields.len() as int)[0] == m.unknown_fields[j as int]);
                assert(m.unknown_fields.subrange(j as int, m.unknown_fields.len() as int).subrange(1, m.unknown_fields.len() - j) =~= m.unknown_fields.subrange(j + 1, m.unknown_fields.len() as int));
            }
            let ghost before = out@;
            write_unknown(out, &self.unknown_fields[j]);
            proof {
                lemma_concat_assoc(before, unknown_field_bytes(m.unknown_fields[j as int]), unknown_list_bytes(m.unknown_fields.subrange(j + 1, m.unknown_fields.len() as int)));
            }
            j = j + 1;
        }
        assert(m.unknown_fields.subrange(j as int, m.unknown_fields.len() as int) =~= Seq::<UnknownFieldModel>::empty());
        assert(out@ =~= o + unknown_list_bytes(m.unknown_fields));
    }

    /// Appends the encoding of the message to `out`.
    fn write_to(&self, out: &mut Vec<u8>)
        requires
            self@.wf(),
        ensures
            final(out)@ == old(out)@ + self@.to_bytes(),
    {
        proof {
            reveal(DeviceStateModel::to_bytes);
        }
        let ghost o = out@;
        let ghost m = self@;
        assert(o + m.to_bytes() == out@ + m.encoded_from_sw_version());
        self.write_field_sw_version(out);
        self.write_field_is_active(out);
        self.write_field_can_play(out);
        self.write_field_volume(out);
        self.write_field_name(out);
        self.write_field_error_code(out);
        self.write_field_became_active_at(out);
        self.write_field_error_message(out);
        self.write_field_capabilities(out);
        self.write_unknown_fields(out);
    }

    /// The encoding of the message.
    pub fn write_to_bytes(&self) -> (r: Vec<u8>)
        requires
            self@.wf(),
        ensures
            r@ == self@.to_bytes(),
    {
        let mut out: Vec<u8> = Vec::new();
        self.write_to(&mut out);
        assert(out@ =~= self@.to_bytes());
        out
    }

    /// The length of the encoding of the message.
    pub fn compute_size(&self) -> (r: u32)
        requires
            self@.wf(),
            self@.to_bytes().len() <= u32::MAX,
        ensures
            r == self@.to_bytes().len(),
    {
        let v = self.write_to_bytes();
        v.len() as u32
    }
    /// A copy of the message.
    pub fn clone_message(&self) -> (r: Self)
        ensures
            r@ == self@,
    {
        let sw_version = clone_opt_string(&self.sw_version);
        let is_active = self.is_active;
        let can_play = self.can_play;
        let volume = self.volume;
        let name = clone_opt_string(&self.name);
        let error_code = self.error_code;
        let became_active_at = self.became_active_at;
        let error_message = clone_opt_string(&self.error_message);
        let mut capabilities: Vec<Capability> = Vec::new();
        let mut i: usize = 0;
        while i < self.capabilities.len()
            invariant
                i <= self.capabilities@.len(),
                capabilities@.len() == i,
                forall|j: int| 0 <= j < i ==> #[trigger] capabilities@[j]@ == self.capabilities@[j]@,
            decreases self.capabilities@.len() - i,
        {
            capabilities.push(self.capabilities[i].clone_message());
            i = i + 1;
        }
        assert(Capability::seq_model(capabilities@) =~= Capability::seq_model(self.capabilities@));
        let unknown_fields = clone_unknown_fields(&self.unknown_fields);
        DeviceState { sw_version, is_active, can_play, volume, name, error_code, became_active_at, error_message, capabilities, unknown_fields }
    }

}

impl Clone for DeviceState {
    fn clone(&self) -> (r: Self)
        ensures
            r@ == self@,
    {
        self.clone_message()
    }
}

impl Default for DeviceState {
    fn default() -> (r: Self)
        ensures
            r@ == DeviceStateModel::empty(),
    {
        DeviceState::new()
    }
}

/// The `Capability` message.
#[allow(non_snake_case)]
#[derive(Debug, PartialEq)]
pub struct Capability {
    typ: Option<CapabilityType>,
    intValue: Vec<i64>,
    stringValue: Vec<String>,
    unknown_fields: Vec<UnknownField>,
}

/// The model of a `Capability`: each field's value, `None` or empty when unset,
/// and the fields of unknown numbers, in the order they were read.
#[allow(non_snake_case)]
pub struct CapabilityModel {
    pub typ: Option<CapabilityType>,
    pub intValue: Seq<i64>,
    pub stringValue: Seq<Seq<char>>,
    pub unknown_fields: Seq<UnknownFieldModel>,
}

impl View for Capability {
    type V = CapabilityModel;

    closed spec fn view(&self) -> CapabilityModel {
        CapabilityModel {
            typ: self.typ,
            intValue: self.intValue@,
            stringValue: string_models(self.stringValue@),
            unknown_fields: unknown_models(self.unknown_fields@),
        }
    }
}

#[allow(non_snake_case)]
impl CapabilityModel {
    /// The model of a message with no field set.
    pub open spec fn empty() -> Self {
        CapabilityModel {
            typ: None,
            intValue: Seq::empty(),
            stringValue: Seq::empty(),
            unknown_fields: Seq::empty(),
        }
    }

    /// The encodings of a list of messages.
    pub open spec fn encodings(v: Seq<CapabilityModel>) -> Seq<Seq<u8>> {
        v.map_values(|m: CapabilityModel| m.to_bytes())
    }

    /// Every message of a list can be written, and its encoding fits a 32-bit length.
    pub open spec fn all_writable(v: Seq<CapabilityModel>) -> bool {
        forall|i: int| 0 <= i < v.len() ==> #[trigger] v[i].wf() && fits_u32(v[i].to_bytes())
    }

    /// The field numbers that this message knows.
    pub open spec fn is_known_field(f: u32) -> bool {
        f == 1 || f == 2 || f == 3
    }

    /// Merging one field whose tag (number `f`, wire type `wt`) has been read;
    /// `s` holds the bytes after the tag. The result is the merged model and
    /// the number of bytes the value took; a set field is replaced, a repeated
    /// field grows, a field of unknown number is kept or, if a group, skipped.
    pub open spec fn merge_field(self, f: u32, wt: u32, s: Seq<u8>, lim: nat) -> Option<(Self, nat)> {
        if f == 1 {
            if wt != WIRE_VARINT {
                None
            } else {
                match varint_parse(s) {
                    Some((v, k)) => match CapabilityType::spec_from_i32(varint_int32(v)) {
                        Some(e) => Some((CapabilityModel { typ: Some(e), ..self }, k)),
                        None => None,
                    },
                    None => None,
                }
            }
        } else if f == 2 {
            if wt == WIRE_VARINT {
                match varint_parse(s) {
                    Some((v, k)) => Some((CapabilityModel { intValue: self.intValue.push(v as i64), ..self }, k)),
                    None => None,
                }
            } else if wt == WIRE_LENGTH_DELIMITED {
                match embedded_window(s, lim) {
                    Some((a, b, _x)) => if 0 < a <= b <= s.len() {
                        match packed_int64_parse(s.subrange(a as int, b as int)) {
                            Some(xs) => Some((CapabilityModel { intValue: self.intValue + xs, ..self }, b)),
                            None => None,
                        }
                    } else {
                        None
                    },
                    None => None,
                }
            } else {
                None
            }
        } else if f == 3 {
            if wt != WIRE_LENGTH_DELIMITED {
                None
            } else {
                match string_parse(s) {
                    Some((c, k)) => Some((CapabilityModel { stringValue: self.stringValue.push(c), ..self }, k)),
                    None => None,
                }
            }
        } else {
            match unknown_parse(f, wt, s) {
                Some((Some(u), k)) => Some((CapabilityModel { unknown_fields: grouped_insert(self.unknown_fields, u), ..self }, k)),
                Some((None, k)) => Some((self, k)),
                None => None,
            }
        }
    }

    /// What is left of the model when merging one field (number `f`, wire type
    /// `wt`, value at the front of `s`) fails: a string, bytes or message field
    /// of the right wire type is first set to its empty value (a repeated one
    /// gets an empty element) and an embedded message keeps the fields merged
    /// into it before the failure; packed values read before the failure stay.
    pub open spec fn merge_field_failed(self, f: u32, wt: u32, s: Seq<u8>, lim: nat) -> Self {
        if f == 2 {
            if wt != WIRE_LENGTH_DELIMITED {
                self
            } else {
                match embedded_window(s, lim) {
                    Some((a, b, _x)) => if 0 < a <= b <= s.len() {
                        CapabilityModel { intValue: self.intValue + packed_int64_partial(s.subrange(a as int, b as int)), ..self }
                    } else {
                        self
                    },
                    None => self,
                }
            }
        } else if f == 3 {
            if wt != WIRE_LENGTH_DELIMITED {
                self
            } else {
                CapabilityModel { stringValue: self.stringValue.push(Seq::<char>::empty()), ..self }
            }
        } else {
            self
        }
    }

    /// The value of a merged field takes no more than the bytes after its tag.
    pub proof fn lemma_merge_field_len(self, f: u32, wt: u32, s: Seq<u8>, lim: nat)
        ensures
            self.merge_field(f, wt, s, lim) matches Some((_m, k)) ==> k <= s.len(),
    {
        lemma_varint_parse_len(s);
        crate::wire::lemma_unknown_parse_len(f, wt, s);
    }

    /// Merging all the fields that `s` holds, in order, where the length of an
    /// embedded message may reach `lim` bytes past the end of `s` (such a message
    /// is read up to the end of `s`).
    #[verifier::opaque]
    pub open spec fn merge(self, s: Seq<u8>, lim: nat) -> Option<Self>
        decreases s.len(),
    {
        if s.len() == 0 {
            Some(self)
        } else {
            match tag_parse(s) {
                Some((f, wt, n)) => if 0 < n <= s.len() {
                    match self.merge_field(f, wt, s.skip(n as int), lim) {
                        Some((m, k)) => if n + k <= s.len() {
                            m.merge(s.skip((n + k) as int), lim)
                        } else {
                            None
                        },
                        None => None,
                    }
                } else {
                    None
                },
                None => None,
            }
        }
    }

    /// What merging `s` leaves: the fields merged in order up to the first one
    /// whose tag or value cannot be read, then what `merge_field_failed` leaves of
    /// that one; all of `s` where it is a valid encoding.
    #[verifier::opaque]
    pub open spec fn merge_partial(self, s: Seq<u8>, lim: nat) -> Self
        decreases s.len(),
    {
        if s.len() == 0 {
            self
        } else {
            match tag_parse(s) {
                Some((f, wt, n)) => if 0 < n <= s.len() {
                    match self.merge_field(f, wt, s.skip(n as int), lim) {
                        Some((m, k)) => if n + k <= s.len() {
                            m.merge_partial(s.skip((n + k) as int), lim)
                        } else {
                            m
                        },
                        None => self.merge_field_failed(f, wt, s.skip(n as int), lim),
                    }
                } else {
                    self
                },
                None => self,
            }
        }
    }

    /// The encoding of field `typ` and of every field written after it.
    pub open spec fn encoded_from_typ(self) -> Seq<u8> {
        opt_varint_field_bytes(1, match self.typ { Some(x) => Some(int32_varint(x.spec_value())), None => None }) + self.encoded_from_intValue()
    }

    /// The encoding of field `intValue` and of every field written after it.
    pub open spec fn encoded_from_intValue(self) -> Seq<u8> {
        varint_list_bytes(2, int64_varints(self.intValue)) + self.encoded_from_stringValue()
    }

    /// The encoding of field `stringValue` and of every field written after it.
    pub open spec fn encoded_from_stringValue(self) -> Seq<u8> {
        length_delimited_list_bytes(3, utf8_encodings(self.stringValue)) + self.encoded_from_unknown_fields()
    }

    /// The encoding of the fields of unknown numbers, written last.
    pub open spec fn encoded_from_unknown_fields(self) -> Seq<u8> {
        unknown_list_bytes(self.unknown_fields)
    }

    /// The encoding of the message: its set fields in order of declaration,
    /// each element of a repeated field in order, then the unknown fields.
    #[verifier::opaque]
    pub open spec fn to_bytes(self) -> Seq<u8> {
        self.encoded_from_typ()
    }

    /// A model that can be written and read back: every length fits the
    /// 32-bit length prefix, nested messages can be written, and the unknown
    /// fields have valid numbers that this message does not know.
    #[verifier::opaque]
    pub open spec fn wf(self) -> bool {
        &&& crate::wire::all_fit_u32(utf8_encodings(self.stringValue))
        &&& (forall|i: int| 0 <= i < self.unknown_fields.len() ==> unknown_field_wf(#[trigger] self.unknown_fields[i]) && !Self::is_known_field(self.unknown_fields[i].number))
        &&& unknown_grouped(self.unknown_fields)
    }

    /// The message with no field set can be written and read back.
    pub proof fn lemma_empty_wf()
        ensures
            Self::empty().wf(),
    {
        reveal_with_fuel(CapabilityModel::wf, 1);
        lemma_grouped_empty();
    }

    /// Merging a field's tag and value, whatever follows them.
    pub proof fn lemma_merge_step(acc: Self, f: u32, wt: u32, t: Seq<u8>, b: Seq<u8>, rest: Seq<u8>, acc2: Self, lim: nat)
        requires
            tag_parse(t + (b + rest)) == Some((f, wt, t.len())),
            t.len() > 0,
            acc.merge_field(f, wt, b + rest, lim) == Some((acc2, b.len())),
        ensures
            acc.merge(t + (b + rest), lim) == acc2.merge(rest, lim),
    {
        reveal_with_fuel(CapabilityModel::merge, 1);
        lemma_skip_chunk(t, b, rest);
    }

    /// Merging the encoding of field `typ` sets it, whatever follows.
    pub proof fn lemma_merge_typ(acc: Self, v: Option<CapabilityType>, rest: Seq<u8>, lim: nat)
        ensures
            acc.merge(opt_varint_field_bytes(1, match v { Some(x) => Some(int32_varint(x.spec_value())), None => None }) + rest, lim) == (CapabilityModel { typ: if v is Some { v } else { acc.typ }, ..acc }).merge(rest, lim),
    {
        match v {
            None => {
                assert(opt_varint_field_bytes(1, match v { Some(x) => Some(int32_varint(x.spec_value())), None => None }) + rest =~= rest);
                assert((CapabilityModel { typ: acc.typ, ..acc }) == acc);
            },
            Some(x) => {
                let t = tag_bytes(1, WIRE_VARINT);
                let b = varint_bytes(int32_varint(x.spec_value()));
                assert(opt_varint_field_bytes(1, match v { Some(x) => Some(int32_varint(x.spec_value())), None => None }) + rest =~= t + (b + rest));
                lemma_tag_roundtrip(1, WIRE_VARINT, b + rest);
                lemma_varint_roundtrip(int32_varint(x.spec_value()), rest);
                    lemma_varint_casts(x.spec_value(), 0, 0, false, 0);
                    x.lemma_value_roundtrip();
                Self::lemma_merge_step(acc, 1, WIRE_VARINT, t, b, rest, CapabilityModel { typ: v, ..acc }, lim);
            },
        }
    }

    /// Merging the encoding of the elements of field `intValue` appends them, whatever follows.
    #[verifier::rlimit(50)]
    pub proof fn lemma_merge_intValue(acc: Self, v: Seq<i64>, rest: Seq<u8>, lim: nat)
        ensures
            acc.merge(varint_list_bytes(2, int64_varints(v)) + rest, lim) == (CapabilityModel { intValue: acc.intValue + v, ..acc }).merge(rest, lim),
        decreases v.len(),
    {
        let w = int64_varints(v);
        if v.len() == 0 {
            assert(varint_list_bytes(2, w) + rest =~= rest);
            assert(acc.intValue + v =~= acc.intValue);
            assert((CapabilityModel { intValue: acc.intValue + v, ..acc }) == acc);
        } else {
            lemma_varint_list_cons(2, w);
            let t = tag_bytes(2, WIRE_VARINT);
            let b = varint_bytes(w[0]);
            let tail = varint_list_bytes(2, w.subrange(1, w.len() as int));
            assert(varint_list_bytes(2, w) + rest =~= t + (b + (tail + rest)));
            lemma_tag_roundtrip(2, WIRE_VARINT, b + (tail + rest));
            lemma_varint_roundtrip(w[0], tail + rest);
            lemma_varint_casts(0, v[0], 0, false, 0);
            let acc1 = CapabilityModel { intValue: acc.intValue.push(v[0]), ..acc };
            Self::lemma_merge_step(acc, 2, WIRE_VARINT, t, b, tail + rest, acc1, lim);
            assert(w.subrange(1, w.len() as int) =~= int64_varints(v.subrange(1, v.len() as int)));
            Self::lemma_merge_intValue(acc1, v.subrange(1, v.len() as int), rest, lim);
            assert(acc1.intValue + v.subrange(1, v.len() as int) =~= acc.intValue + v);
        }
    }

    /// Merging the encoding of the elements of field `stringValue` appends them, whatever follows.
    #[verifier::rlimit(50)]
    pub proof fn lemma_merge_stringValue(acc: Self, v: Seq<Seq<char>>, rest: Seq<u8>, lim: nat)
        requires
            crate::wire::all_fit_u32(utf8_encodings(v)),
        ensures
            acc.merge(length_delimited_list_bytes(3, utf8_encodings(v)) + rest, lim) == (CapabilityModel { stringValue: acc.stringValue + v, ..acc }).merge(rest, lim),
        decreases v.len(),
    {
        let w = utf8_encodings(v);
        if v.len() == 0 {
            assert(length_delimited_list_bytes(3, w) + rest =~= rest);
            assert(acc.stringValue + v =~= acc.stringValue);
            assert((CapabilityModel { stringValue: acc.stringValue + v, ..acc }) == acc);
        } else {
            lemma_length_delimited_list_cons(3, w);
            assert(fits_u32(w[0]));
            let t = tag_bytes(3, WIRE_LENGTH_DELIMITED);
            let b = bytes_value_bytes(w[0]);
            let tail = length_delimited_list_bytes(3, w.subrange(1, w.len() as int));
            assert(length_delimited_list_bytes(3, w) + rest =~= t + (b + (tail + rest)));
            lemma_tag_roundtrip(3, WIRE_LENGTH_DELIMITED, b + (tail + rest));
            lemma_string_roundtrip(v[0], tail + rest);
            let acc1 = CapabilityModel { stringValue: acc.stringValue.push(v[0]), ..acc };
            Self::lemma_merge_step(acc, 3, WIRE_LENGTH_DELIMITED, t, b, tail + rest, acc1, lim);
            assert(w.subrange(1, w.len() as int) =~= utf8_encodings(v.subrange(1, v.len() as int)));
            assert forall|j: int| 0 <= j < w.len() - 1 implies fits_u32(#[trigger] w.subrange(1, w.len() as int)[j]) by {
                assert(w.subrange(1, w.len() as int)[j] == w[j + 1]);
            }
            Self::lemma_merge_stringValue(acc1, v.subrange(1, v.len() as int), rest, lim);
            assert(acc1.stringValue + v.subrange(1, v.len() as int) =~= acc.stringValue + v);
        }
    }

    /// Merging the encoding of fields of unknown numbers keeps them, whatever follows.
    #[verifier::rlimit(50)]
    pub proof fn lemma_merge_unknown_fields(acc: Self, v: Seq<UnknownFieldModel>, rest: Seq<u8>, lim: nat)
        requires
            forall|i: int| 0 <= i < v.len() ==> unknown_field_wf(#[trigger] v[i]) && !Self::is_known_field(v[i].number),
            unknown_grouped(acc.unknown_fields + v),
        ensures
            acc.merge(unknown_list_bytes(v) + rest, lim) == (CapabilityModel { unknown_fields: acc.unknown_fields + v, ..acc }).merge(rest, lim),
        decreases v.len(),
    {
        if v.len() == 0 {
            assert(unknown_list_bytes(v) + rest =~= rest);
            assert(acc.unknown_fields + v =~= acc.unknown_fields);
            assert((CapabilityModel { unknown_fields: acc.unknown_fields + v, ..acc }) == acc);
        } else {
            lemma_unknown_list_cons(v);
            let u = v[0];
            let wt = crate::wire::unknown_wire_type(u.value);
            let t = tag_bytes(u.number, wt);
            let b = crate::wire::unknown_value_bytes(u.value);
            let tail = unknown_list_bytes(v.subrange(1, v.len() as int));
            assert(unknown_list_bytes(v) + rest =~= t + (b + (tail + rest)));
            assert(unknown_field_bytes(u) + (tail + rest) =~= t + (b + (tail + rest)));
            lemma_unknown_roundtrip(u, tail + rest);
            assert((t + (b + (tail + rest))).skip(t.len() as int) =~= b + (tail + rest));
            crate::wire::lemma_tag_roundtrip(u.number, wt, b + (tail + rest));
            let acc1 = CapabilityModel { unknown_fields: acc.unknown_fields.push(u), ..acc };
            assert(acc.unknown_fields.push(u) =~= (acc.unknown_fields + v).take(acc.unknown_fields.len() + 1int));
            lemma_grouped_take(acc.unknown_fields + v, acc.unknown_fields.len() + 1int);
            lemma_grouped_insert_last(acc.unknown_fields, u);
            Self::lemma_merge_step(acc, u.number, wt, t, b, tail + rest, acc1, lim);
            assert(acc1.unknown_fields + v.subrange(1, v.len() as int) =~= acc.unknown_fields + v);
            Self::lemma_merge_unknown_fields(acc1, v.subrange(1, v.len() as int), rest, lim);
        }
    }

    /// Reading back the encoding of a model that can be written gives the model,
    /// whatever the limit past its end.
    #[verifier::spinoff_prover]
    #[verifier::rlimit(100)]
    pub proof fn lemma_roundtrip(self, lim: nat)
        requires
            self.wf(),
        ensures
            CapabilityModel::empty().merge(self.to_bytes(), lim) == Some(self),
    {
        reveal(CapabilityModel::to_bytes);
        reveal(CapabilityModel::wf);
        reveal_with_fuel(CapabilityModel::merge, 1);
        let a0 = CapabilityModel::empty();
        Self::lemma_merge_typ(a0, self.typ, self.encoded_from_intValue(), lim);
        let a1 = CapabilityModel { typ: if self.typ is Some { self.typ } else { a0.typ }, ..a0 };
        Self::lemma_merge_intValue(a1, self.intValue, self.encoded_from_stringValue(), lim);
        let a2 = CapabilityModel { intValue: a1.intValue + self.intValue, ..a1 };
        assert(crate::wire::all_fit_u32(utf8_encodings(self.stringValue)));
        Self::lemma_merge_stringValue(a2, self.stringValue, self.encoded_from_unknown_fields(), lim);
        let a3 = CapabilityModel { stringValue: a2.stringValue + self.stringValue, ..a2 };
        assert(a3.unknown_fields + self.unknown_fields =~= self.unknown_fields);
        Self::lemma_merge_unknown_fields(a3, self.unknown_fields, Seq::empty(), lim);
        assert(unknown_list_bytes(self.unknown_fields) + Seq::<u8>::empty() =~= unknown_list_bytes(self.unknown_fields));
        let last = CapabilityModel { unknown_fields: a3.unknown_fields + self.unknown_fields, ..a3 };
        assert(last.intValue =~= self.intValue);
        assert(last.stringValue =~= self.stringValue);
        assert(last.unknown_fields =~= self.unknown_fields);
        assert(last == self);
    }
    /// A message whose only set field is `typ` is written as field number 1 of the
    /// protocol's definition alone: the tag of that number with the wire type of the field,
    /// then the value.
    pub proof fn lemma_encoding_of_typ(v: Option<CapabilityType>)
        ensures
            (CapabilityModel { typ: v, ..CapabilityModel::empty() }).to_bytes() == opt_varint_field_bytes(1, match v { Some(x) => Some(int32_varint(x.spec_value())), None => None }),
    {
        reveal(CapabilityModel::to_bytes);
        let m = CapabilityModel { typ: v, ..CapabilityModel::empty() };
        assert(m.to_bytes() =~= opt_varint_field_bytes(1, match v { Some(x) => Some(int32_varint(x.spec_value())), None => None }));
    }

    /// A message whose only set field is `intValue` is written as field number 2 of the
    /// protocol's definition alone: the tag of that number with the wire type of the field,
    /// then the value.
    pub proof fn lemma_encoding_of_intValue(v: Seq<i64>)
        ensures
            (CapabilityModel { intValue: v, ..CapabilityModel::empty() }).to_bytes() == varint_list_bytes(2, int64_varints(v)),
    {
        reveal(CapabilityModel::to_bytes);
        let m = CapabilityModel { intValue: v, ..CapabilityModel::empty() };
        assert(m.to_bytes() =~= varint_list_bytes(2, int64_varints(v)));
    }

    /// A message whose only set field is `stringValue` is written as field number 3 of the
    /// protocol's definition alone: the tag of that number with the wire type of the field,
    /// then the value.
    pub proof fn lemma_encoding_of_stringValue(v: Seq<Seq<char>>)
        ensures
            (CapabilityModel { stringValue: v, ..CapabilityModel::empty() }).to_bytes() == length_delimited_list_bytes(3, utf8_encodings(v)),
    {
        reveal(CapabilityModel::to_bytes);
        let m = CapabilityModel { stringValue: v, ..CapabilityModel::empty() };
        assert(m.to_bytes() =~= length_delimited_list_bytes(3, utf8_encodings(v)));
    }

}

#[allow(non_snake_case)]
impl Capability {
    /// The models of a list of messages.
    pub open spec fn seq_model(v: Seq<Capability>) -> Seq<CapabilityModel> {
        v.map_values(|m: Capability| m@)
    }

    /// A message with no field set.
    pub fn new() -> (r: Self)
        ensures
            r@ == CapabilityModel::empty(),
            r@.wf(),
    {
        let r = Capability {
            typ: None,
            intValue: Vec::new(),
            stringValue: Vec::new(),
            unknown_fields: Vec::new(),
        };
        assert(r.intValue@ =~= Seq::<i64>::empty());
        assert(string_models(r.stringValue@) =~= Seq::<Seq<char>>::empty());
        assert(unknown_models(r.unknown_fields@) =~= Seq::<UnknownFieldModel>::empty());
        proof {
            CapabilityModel::lemma_empty_wf();
        }
        r
    }

    /// Unsets field `typ`.
    pub fn clear_typ(&mut self)
        ensures
            final(self)@ == (CapabilityModel { typ: None, ..old(self)@ }),
    {
        self.typ = None;
    }

    /// Whether field `typ` is set.
    pub fn has_typ(&self) -> (r: bool)
        ensures
            r == self@.typ is Some,
    {
        self.typ.is_some()
    }

    /// Sets field `typ` to `v`.
    pub fn set_typ(&mut self, v: CapabilityType)
        ensures
            final(self)@ == (CapabilityModel { typ: Some(v), ..old(self)@ }),
    {
        self.typ = Some(v);
    }

    /// Field `typ`, or `CapabilityType::kSupportedContexts` when unset.
    pub fn get_typ(&self) -> (r: CapabilityType)
        ensures
            r == (match self@.typ { Some(x) => x, None => CapabilityType::kSupportedContexts }),
    {
        match self.typ {
            Some(x) => x,
            None => CapabilityType::kSupportedContexts,
        }
    }

    /// Empties field `intValue`.
    pub fn clear_intValue(&mut self)
        ensures
            final(self)@ == (CapabilityModel { intValue: Seq::empty(), ..old(self)@ }),
    {
        self.intValue = Vec::new();
        assert(self.intValue@ =~= Seq::<i64>::empty());
    }

    /// Sets field `intValue` to the elements of `v`.
    pub fn set_intValue(&mut self, v: Vec<i64>)
        ensures
            final(self)@ == (CapabilityModel { intValue: v@, ..old(self)@ }),
    {
        self.intValue = v;
    }

    /// The elements of field `intValue`, to change in place.
    pub fn mut_intValue(&mut self) -> (r: &mut Vec<i64>)
        ensures
            r@ == old(self)@.intValue,
            final(self)@ == (CapabilityModel { intValue: final(r)@, ..old(self)@ }),
    {
        field_mut(&mut self.intValue)
    }

    /// Takes the elements of field `intValue`, leaving it empty.
    pub fn take_intValue(&mut self) -> (r: Vec<i64>)
        ensures
            r@ == old(self)@.intValue,
            final(self)@ == (CapabilityModel { intValue: Seq::empty(), ..old(self)@ }),
    {
        let mut r = Vec::new();
        std::mem::swap(&mut r, &mut self.intValue);
        assert(self.intValue@ =~= Seq::<i64>::empty());
        r
    }

    /// The elements of field `intValue`.
    pub fn get_intValue(&self) -> (r: &[i64])
        ensures
            r@ == self@.intValue,
    {
        self.intValue.as_slice()
    }

    /// Empties field `stringValue`.
    pub fn clear_stringValue(&mut self)
        ensures
            final(self)@ == (CapabilityModel { stringValue: Seq::empty(), ..old(self)@ }),
    {
        self.stringValue = Vec::new();
        assert(string_models(self.stringValue@) =~= Seq::<Seq<char>>::empty());
    }

    /// Sets field `stringValue` to the elements of `v`.
    pub fn set_stringValue(&mut self, v: Vec<String>)
        ensures
            final(self)@ == (CapabilityModel { stringValue: string_models(v@), ..old(self)@ }),
    {
        self.stringValue = v;
    }

    /// The elements of field `stringValue`, to change in place.
    pub fn mut_stringValue(&mut self) -> (r: &mut Vec<String>)
        ensures
            string_models(r@) == old(self)@.stringValue,
            final(self)@ == (CapabilityModel { stringValue: string_models(final(r)@), ..old(self)@ }),
    {
        field_mut(&mut self.stringValue)
    }

    /// Takes the elements of field `stringValue`, leaving it empty.
    pub fn take_stringValue(&mut self) -> (r: Vec<String>)
        ensures
            string_models(r@) == old(self)@.stringValue,
            final(self)@ == (CapabilityModel { stringValue: Seq::empty(), ..old(self)@ }),
    {
        let mut r = Vec::new();
        std::mem::swap(&mut r, &mut self.stringValue);
        assert(string_models(self.stringValue@) =~= Seq::<Seq<char>>::empty());
        r
    }

    /// The elements of field `stringValue`.
    pub fn get_stringValue(&self) -> (r: &[String])
        ensures
            string_models(r@) == self@.stringValue,
    {
        self.stringValue.as_slice()
    }

    /// Merges one field whose tag (number `f`, wire type `wt`) has been read
    /// from the bytes `s` that follow the tag; returns the number of bytes the
    /// value took.
    fn merge_field(&mut self, f: u32, wt: u32, s: &[u8], lim: u64) -> (r: Option<usize>)
        ensures
            match old(self)@.merge_field(f, wt, s@, lim as nat) {
                Some((m, k)) => r == Some(k as usize) && final(self)@ == m,
                None => r is None && final(self)@ == old(self)@.merge_field_failed(f, wt, s@, lim as nat),
            },
    {

        if f == 1 {
            if wt != WIRE_VARINT {
                return None;
            }
            proof {
                lemma_varint_parse_len(s@);
            }
            match pb_read_raw_varint64(s) {
                Some((v, k)) => match CapabilityType::from_i32((v as u32) as i32) {
                    Some(e) => {
                        self.typ = Some(e);
                        Some(k)
                    },
                    None => None,
                },
                None => None,
            }
        } else if f == 2 {
            if wt == WIRE_VARINT {
                proof {
                    lemma_varint_parse_len(s@);
                }
                match pb_read_raw_varint64(s) {
                    Some((v, k)) => {
                        field_mut(&mut self.intValue).push(v as i64);
                        Some(k)
                    },
                    None => None,
                }
            } else if wt == WIRE_LENGTH_DELIMITED {
                match read_embedded_window(s, lim) {
                    Some((a, b, _past)) => {
                        if a == 0 || a > b || b > s.len() {
                            return None;
                        }
                        let sub = &s[a..b];
                        let (mut xs, ok) = read_packed_int64(sub);
                        field_mut(&mut self.intValue).append(&mut xs);
                        if ok {
                            Some(b)
                        } else {
                            None
                        }
                    },
                    None => None,
                }
            } else {
                None
            }
        } else if f == 3 {
            if wt != WIRE_LENGTH_DELIMITED {
                return None;
            }
            match read_string(s) {
                Some((v, k)) => {
                    let ghost old_v = self.stringValue@;
                    field_mut(&mut self.stringValue).push(v);
                    assert(string_models(self.stringValue@) =~= string_models(old_v).push(self.stringValue@.last()@));
                    Some(k)
                },
                None => {
                    let ghost old_v = self.stringValue@;
                    field_mut(&mut self.stringValue).push(String::new());
                    assert(string_models(self.stringValue@) =~= string_models(old_v).push(Seq::<char>::empty()));
                    None
                },
            }
        } else {
            match read_unknown(f, wt, s) {
                Some((Some(u), k)) => {
                    insert_unknown(field_mut(&mut self.unknown_fields), u);
                    Some(k)
                },
                Some((None, k)) => Some(k),
                None => None,
            }
        }
    }

    /// Merges all the fields that `s` holds, in order; `false` when the bytes
    /// are not a valid encoding (the message then holds what was merged so far).
    #[verifier::spinoff_prover]
    #[verifier::rlimit(50)]
    fn merge_from_slice(&mut self, s: &[u8], lim: u64) -> (ok: bool)
        ensures
            match old(self)@.merge(s@, lim as nat) {
                Some(m) => ok && final(self)@ == m,
                None => !ok && final(self)@ == old(self)@.merge_partial(s@, lim as nat),
            },
    {
        proof {
            reveal_with_fuel(CapabilityModel::merge, 1);
            reveal_with_fuel(CapabilityModel::merge_partial, 1);
        }
        let mut pos: usize = 0;
        assert(s@.skip(0) =~= s@);
        while pos < s.len()
            invariant
                pos <= s.len(),
                old(self)@.merge(s@, lim as nat) == self@.merge(s@.skip(pos as int), lim as nat),
                old(self)@.merge_partial(s@, lim as nat) == self@.merge_partial(s@.skip(pos as int), lim as nat),
            decreases s.len() - pos,
        {
            let rest = &s[pos..s.len()];
            assert(rest@ == s@.skip(pos as int));
            proof {
                reveal_with_fuel(CapabilityModel::merge, 1);
                reveal_with_fuel(CapabilityModel::merge_partial, 1);
                lemma_tag_parse_len(rest@);
            }
            match pb_read_tag_unpack(rest) {
                None => {
                    return false;
                },
                Some((f, wt, n)) => {
                    if n == 0 || n > rest.len() {
                        return false;
                    }
                    let rest2 = &rest[n..rest.len()];
                    assert(rest2@ == rest@.skip(n as int));
                    proof {
                        self@.lemma_merge_field_len(f, wt, rest2@, lim as nat);
                    }
                    match self.merge_field(f, wt, rest2, lim) {
                        None => {
                            return false;
                        },
                        Some(k) => {
                            if k > rest2.len() {
                                return false;
                            }
                            assert(rest@.skip((n + k) as int) =~= s@.skip((pos + n + k) as int));
                            pos = pos + n + k;
                        },
                    }
                },
            }
        }
        assert(s@.skip(pos as int) =~= Seq::<u8>::empty());
        proof {
            reveal_with_fuel(CapabilityModel::merge, 1);
        }
        true
    }

    /// The message that `s` encodes, if it is a valid encoding.
    fn parse_slice(s: &[u8], lim: u64) -> (r: Option<Self>)
        ensures
            match CapabilityModel::empty().merge(s@, lim as nat) {
                Some(m) => r matches Some(x) && x@ == m,
                None => r is None,
            },
    {
        let mut m = Capability::new();
        if m.merge_from_slice(s, lim) {
            Some(m)
        } else {
            None
        }
    }

    /// Merges the fields that `bytes` encodes into this message, in order: a set
    /// field is replaced, a repeated field grows. On an invalid encoding the
    /// error comes back, the fields merged before the first field that could not
    /// be read stay merged, and that field is left as `merge_field_failed` says.
    pub fn merge_from_bytes(&mut self, bytes: &[u8]) -> (r: Result<(), DecodeError>)
        ensures
            match old(self)@.merge(bytes@, top_limit(bytes@.len())) {
                Some(m) => r is Ok && final(self)@ == m,
                None => r is Err && final(self)@ == old(self)@.merge_partial(bytes@, top_limit(bytes@.len())),
            },
    {
        let lim: u64 = u64::MAX - bytes.len() as u64;
        if self.merge_from_slice(bytes, lim) {
            Ok(())
        } else {
            Err(DecodeError)
        }
    }

    /// Parses a message from its encoding.
    pub fn parse_from_bytes(bytes: &[u8]) -> (r: Result<Self, DecodeError>)
        ensures
            match CapabilityModel::empty().merge(bytes@, top_limit(bytes@.len())) {
                Some(m) => r matches Ok(x) && x@ == m,
                None => r is Err,
            },
    {
        let lim: u64 = u64::MAX - bytes.len() as u64;
        match Self::parse_slice(bytes, lim) {
            Some(m) => Ok(m),
            None => Err(DecodeError),
        }
    }

    /// Appends the encoding of field `typ` to `out`.
    fn write_field_typ(&self, out: &mut Vec<u8>)
        requires
            self@.wf(),
        ensures
            final(out)@ == old(out)@ + opt_varint_field_bytes(1, match self@.typ { Some(x) => Some(int32_varint(x.spec_value())), None => None }),
            final(out)@ + self@.encoded_from_intValue() == old(out)@ + self@.encoded_from_typ(),
    {
        proof {
            reveal(CapabilityModel::wf);
        }
        let ghost o = out@;
        let ghost m = self@;
        match self.typ {
            Some(x) => {
                pb_write_tag(out, 1, WIRE_VARINT);
                pb_write_raw_varint64(out, x.value() as u64);
                proof {
                    lemma_concat_assoc(o, tag_bytes(1, WIRE_VARINT), varint_bytes(int32_varint(x.spec_value())));
                }
            },
            None => {
                assert(o + Seq::<u8>::empty() =~= o);
            },
        }
        proof {
            lemma_concat_assoc(o, opt_varint_field_bytes(1, match m.typ { Some(x) => Some(int32_varint(x.spec_value())), None => None }), m.encoded_from_intValue());
        }
    }

    /// Appends the encoding of field `intValue` to `out`.
    fn write_field_intValue(&self, out: &mut Vec<u8>)
        requires
            self@.wf(),
        ensures
            final(out)@ == old(out)@ + varint_list_bytes(2, int64_varints(self@.intValue)),
            final(out)@ + self@.encoded_from_stringValue() == old(out)@ + self@.encoded_from_intValue(),
    {
        proof {
            reveal(CapabilityModel::wf);
        }
        let ghost o = out@;
        let ghost m = self@;
        let ghost w = int64_varints(m.intValue);
        assert(w.subrange(0, w.len() as int) =~= w);
        assert(o + Seq::<u8>::empty() =~= o);
        let mut i: usize = 0;
        while i < self.intValue.len()
            invariant
                i <= self.intValue.len(),
                self@ == m,
                m.wf(),
                w.len() == self.intValue@.len(),
                w == int64_varints(m.intValue),
                o + varint_list_bytes(2, w) == out@ + varint_list_bytes(2, w.subrange(i as int, w.len() as int)),
            decreases self.intValue.len() - i,
        {
            proof {
                reveal(CapabilityModel::wf);
                lemma_varint_list_cons(2, w.subrange(i as int, w.len() as int));
                assert(m.intValue[i as int] == self.intValue@[i as int]);
                assert(w.subrange(i as int, w.len() as int)[0] == w[i as int]);
                assert(w.subrange(i as int, w.len() as int).subrange(1, w.len() - i) =~= w.subrange(i + 1, w.len() as int));
            }
            let ghost before = out@;
            pb_write_tag(out, 2, WIRE_VARINT);
            pb_write_raw_varint64(out, self.intValue[i] as u64);
            proof {
                lemma_write_list_step(before, tag_bytes(2, WIRE_VARINT), varint_bytes(w[i as int]), varint_list_bytes(2, w.subrange(i + 1, w.len() as int)), Seq::<u8>::empty());
                assert(varint_list_bytes(2, w.subrange(i + 1, w.len() as int)) + Seq::<u8>::empty() =~= varint_list_bytes(2, w.subrange(i + 1, w.len() as int)));
                assert(tag_bytes(2, WIRE_VARINT) + (varint_bytes(w[i as int]) + varint_list_bytes(2, w.subrange(i + 1, w.len() as int))) + Seq::<u8>::empty() =~= tag_bytes(2, WIRE_VARINT) + (varint_bytes(w[i as int]) + varint_list_bytes(2, w.subrange(i + 1, w.len() as int))));
            }
            i = i + 1;
        }
        assert(w.subrange(i as int, w.len() as int) =~= Seq::<u64>::empty());
        assert(out@ + Seq::<u8>::empty() =~= out@);
        proof {
            lemma_concat_assoc(o, varint_list_bytes(2, int64_varints(m.intValue)), m.encoded_from_stringValue());
        }
    }

    /// Appends the encoding of field `stringValue` to `out`.
    fn write_field_stringValue(&self, out: &mut Vec<u8>)
        requires
            self@.wf(),
        ensures
            final(out)@ == old(out)@ + length_delimited_list_bytes(3, utf8_encodings(self@.stringValue)),
            final(out)@ + self@.encoded_from_unknown_fields() == old(out)@ + self@.encoded_from_stringValue(),
    {
        proof {
            reveal(CapabilityModel::wf);
        }
        let ghost o = out@;
        let ghost m = self@;
        let ghost w = utf8_encodings(m.stringValue);
        assert(w.subrange(0, w.len() as int) =~= w);
        assert(o + Seq::<u8>::empty() =~= o);
        let mut i: usize = 0;
        while i < self.stringValue.len()
            invariant
                i <= self.stringValue.len(),
                self@ == m,
                m.wf(),
                w.len() == self.stringValue@.len(),
                w == utf8_encodings(m.stringValue),
                o + length_delimited_list_bytes(3, w) == out@ + length_delimited_list_bytes(3, w.subrange(i as int, w.len() as int)),
            decreases self.stringValue.len() - i,
        {
            proof {
                reveal(CapabilityModel::wf);
                lemma_length_delimited_list_cons(3, w.subrange(i as int, w.len() as int));
                assert(m.stringValue[i as int] == self.stringValue@[i as int]@);
                assert(fits_u32(w[i as int]));
                assert(w.subrange(i as int, w.len() as int)[0] == w[i as int]);
                assert(w.subrange(i as int, w.len() as int).subrange(1, w.len() - i) =~= w.subrange(i + 1, w.len() as int));
            }
            let ghost before = out@;
            pb_write_tag(out, 3, WIRE_LENGTH_DELIMITED);
            write_string_value(out, self.stringValue[i].as_str());
            proof {
                lemma_write_list_step(before, tag_bytes(3, WIRE_LENGTH_DELIMITED), bytes_value_bytes(w[i as int]), length_delimited_list_bytes(3, w.subrange(i + 1, w.len() as int)), Seq::<u8>::empty());
                assert(length_delimited_list_bytes(3, w.subrange(i + 1, w.len() as int)) + Seq::<u8>::empty() =~= length_delimited_list_bytes(3, w.subrange(i + 1, w.len() as int)));
                assert(tag_bytes(3, WIRE_LENGTH_DELIMITED) + (bytes_value_bytes(w[i as int]) + length_delimited_list_bytes(3, w.subrange(i + 1, w.len() as int))) + Seq::<u8>::empty() =~= tag_bytes(3, WIRE_LENGTH_DELIMITED) + (bytes_value_bytes(w[i as int]) + length_delimited_list_bytes(3, w.subrange(i + 1, w.len() as int))));
            }
            i = i + 1;
        }
        assert(w.subrange(i as int, w.len() as int) =~= Seq::<Seq<u8>>::empty());
        assert(out@ + Seq::<u8>::empty() =~= out@);
        proof {
            lemma_concat_assoc(o, length_delimited_list_bytes(3, utf8_encodings(m.stringValue)), m.encoded_from_unknown_fields());
        }
    }

    /// Appends the fields of unknown numbers to `out`.
    fn write_unknown_fields(&self, out: &mut Vec<u8>)
        requires
            self@.wf(),
        ensures
            final(out)@ == old(out)@ + unknown_list_bytes(self@.unknown_fields),
    {
        proof {
            reveal(CapabilityModel::wf);
        }
        let ghost o = out@;
        let ghost m = self@;
        let mut j: usize = 0;
        assert(m.unknown_fields.subrange(0, m.unknown_fields.len() as int) =~= m.unknown_fields);
        assert(o + Seq::<u8>::empty() =~= o);
        while j < self.unknown_fields.len()
            invariant
                j <= self.unknown_fields.len(),
                self@ == m,
                m.wf(),
                o + unknown_list_bytes(m.unknown_fields) == out@ + unknown_list_bytes(m.unknown_fields.subrange(j as int, m.unknown_fields.len() as int)),
            decreases self.unknown_fields.len() - j,
        {
            proof {
                reveal(CapabilityModel::wf);
                lemma_unknown_list_cons(m.unknown_fields.subrange(j as int, m.unknown_fields.len() as int));
                assert(m.unknown_fields[j as int] == self.unknown_fields@[j as int]@);
                assert(m.unknown_fields.subrange(j as int, m.unknown_fields.len() as int)[0] == m.unknown_fields[j as int]);
                assert(m.unknown_fields.subrange(j as int, m.unknown_fields.len() as int).subrange(1, m.unknown_fields.len() - j) =~= m.unknown_fields.subrange(j + 1, m.unknown_fields.len() as int));
            }
            let ghost before = out@;
            write_unknown(out, &self.unknown_fields[j]);
            proof {
                lemma_concat_assoc(before, unknown_field_bytes(m.unknown_fields[j as int]), unknown_list_bytes(m.unknown_fields.subrange(j + 1, m.unknown_fields.len() as int)));
            }
            j = j + 1;
        }
        assert(m.unknown_fields.subrange(j as int, m.unknown_fields.len() as int) =~= Seq::<UnknownFieldModel>::empty());
        assert(out@ =~= o + unknown_list_bytes(m.unknown_fields));
    }

    /// Appends the encoding of the message to `out`.
    fn write_to(&self, out: &mut Vec<u8>)
        requires
            self@.wf(),
        ensures
            final(out)@ == old(out)@ + self@.to_bytes(),
    {
        proof {
            reveal(CapabilityModel::to_bytes);
        }
        let ghost o = out@;
        let ghost m = self@;
        assert(o + m.to_bytes() == out@ + m.encoded_from_typ());
        self.write_field_typ(out);
        self.write_field_intValue(out);
        self.write_field_stringValue(out);
        self.write_unknown_fields(out);
    }

    /// The encoding of the message.
    pub fn write_to_bytes(&self) -> (r: Vec<u8>)
        requires
            self@.wf(),
        ensures
            r@ == self@.to_bytes(),
    {
        let mut out: Vec<u8> = Vec::new();
        self.write_to(&mut out);
        assert(out@ =~= self@.to_bytes());
        out
    }

    /// The length of the encoding of the message.
    pub fn compute_size(&self) -> (r: u32)
        requires
            self@.wf(),
            self@.to_bytes().len() <= u32::MAX,
        ensures
            r == self@.to_bytes().len(),
    {
        let v = self.write_to_bytes();
        v.len() as u32
    }
    /// A copy of the message.
    pub fn clone_message(&self) -> (r: Self)
        ensures
            r@ == self@,
    {
        let typ = self.typ;
        let intValue = vstd::slice::slice_to_vec(self.intValue.as_slice());
        let stringValue = clone_strings(&self.stringValue);
        let unknown_fields = clone_unknown_fields(&self.unknown_fields);
        Capability { typ, intValue, stringValue, unknown_fields }
    }

}

impl Clone for Capability {
    fn clone(&self) -> (r: Self)
        ensures
            r@ == self@,
    {
        self.clone_message()
    }
}

impl Default for Capability {
    fn default() -> (r: Self)
        ensures
            r@ == CapabilityModel::empty(),
    {
        Capability::new()
    }
}

/// The `Goodbye` message.
#[allow(non_snake_case)]
#[derive(Debug, PartialEq)]
pub struct Goodbye {
    reason: Option<String>,
    unknown_fields: Vec<UnknownField>,
}

/// The model of a `Goodbye`: each field's value, `None` or empty when unset,
/// and the fields of unknown numbers, in the order they were read.
#[allow(non_snake_case)]
pub struct GoodbyeModel {
    pub reason: Option<Seq<char>>,
    pub unknown_fields: Seq<UnknownFieldModel>,
}

impl View for Goodbye {
    type V = GoodbyeModel;

    closed spec fn view(&self) -> GoodbyeModel {
        GoodbyeModel {
            reason: opt_view(self.reason),
            unknown_fields: unknown_models(self.unknown_fields@),
        }
    }
}

#[allow(non_snake_case)]
impl GoodbyeModel {
    /// The model of a message with no field set.
    pub open spec fn empty() -> Self {
        GoodbyeModel {
            reason: None,
            unknown_fields: Seq::empty(),
        }
    }

    /// The encodings of a list of messages.
    pub open spec fn encodings(v: Seq<GoodbyeModel>) -> Seq<Seq<u8>> {
        v.map_values(|m: GoodbyeModel| m.to_bytes())
    }

    /// Every message of a list can be written, and its encoding fits a 32-bit length.
    pub open spec fn all_writable(v: Seq<GoodbyeModel>) -> bool {
        forall|i: int| 0 <= i < v.len() ==> #[trigger] v[i].wf() && fits_u32(v[i].to_bytes())
    }

    /// The field numbers that this message knows.
    pub open spec fn is_known_field(f: u32) -> bool {
        f == 1
    }

    /// Merging one field whose tag (number `f`, wire type `wt`) has been read;
    /// `s` holds the bytes after the tag. The result is the merged model and
    /// the number of bytes the value took; a set field is replaced, a repeated
    /// field grows, a field of unknown number is kept or, if a group, skipped.
    pub open spec fn merge_field(self, f: u32, wt: u32, s: Seq<u8>, lim: nat) -> Option<(Self, nat)> {
        if f == 1 {
            if wt != WIRE_LENGTH_DELIMITED {
                None
            } else {
                match string_parse(s) {
                    Some((c, k)) => Some((GoodbyeModel { reason: Some(c), ..self }, k)),
                    None => None,
                }
            }
        } else {
            match unknown_parse(f, wt, s) {
                Some((Some(u), k)) => Some((GoodbyeModel { unknown_fields: grouped_insert(self.unknown_fields, u), ..self }, k)),
                Some((None, k)) => Some((self, k)),
                None => None,
            }
        }
    }

    /// What is left of the model when merging one field (number `f`, wire type
    /// `wt`, value at the front of `s`) fails: a string, bytes or message field
    /// of the right wire type is first set to its empty value (a repeated one
    /// gets an empty element) and an embedded message keeps the fields merged
    /// into it before the failure; packed values read before the failure stay.
    pub open spec fn merge_field_failed(self, f: u32, wt: u32, s: Seq<u8>, lim: nat) -> Self {
        if f == 1 {
            if wt != WIRE_LENGTH_DELIMITED {
                self
            } else {
                GoodbyeModel { reason: Some(Seq::<char>::empty()), ..self }
            }
        } else {
            self
        }
    }

    /// The value of a merged field takes no more than the bytes after its tag.
    pub proof fn lemma_merge_field_len(self, f: u32, wt: u32, s: Seq<u8>, lim: nat)
        ensures
            self.merge_field(f, wt, s, lim) matches Some((_m, k)) ==> k <= s.len(),
    {
        lemma_varint_parse_len(s);
        crate::wire::lemma_unknown_parse_len(f, wt, s);
    }

    /// Merging all the fields that `s` holds, in order, where the length of an
    /// embedded message may reach `lim` bytes past the end of `s` (such a message
    /// is read up to the end of `s`).
    #[verifier::opaque]
    pub open spec fn merge(self, s: Seq<u8>, lim: nat) -> Option<Self>
        decreases s.len(),
    {
        if s.len() == 0 {
            Some(self)
        } else {
            match tag_parse(s) {
                Some((f, wt, n)) => if 0 < n <= s.len() {
                    match self.merge_field(f, wt, s.skip(n as int), lim) {
                        Some((m, k)) => if n + k <= s.len() {
                            m.merge(s.skip((n + k) as int), lim)
                        } else {
                            None
                        },
                        None => None,
                    }
                } else {
                    None
                },
                None => None,
            }
        }
    }

    /// What merging `s` leaves: the fields merged in order up to the first one
    /// whose tag or value cannot be read, then what `merge_field_failed` leaves of
    /// that one; all of `s` where it is a valid encoding.
    #[verifier::opaque]
    pub open spec fn merge_partial(self, s: Seq<u8>, lim: nat) -> Self
        decreases s.len(),
    {
        if s.len() == 0 {
            self
        } else {
            match tag_parse(s) {
                Some((f, wt, n)) => if 0 < n <= s.len() {
                    match self.merge_field(f, wt, s.skip(n as int), lim) {
                        Some((m, k)) => if n + k <= s.len() {
                            m.merge_partial(s.skip((n + k) as int), lim)
                        } else {
                            m
                        },
                        None => self.merge_field_failed(f, wt, s.skip(n as int), lim),
                    }
                } else {
                    self
                },
                None => self,
            }
        }
    }

    /// The encoding of field `reason` and of every field written after it.
    pub open spec fn encoded_from_reason(self) -> Seq<u8> {
        opt_length_delimited_field_bytes(1, match self.reason { Some(c) => Some(encode_utf8(c)), None => None }) + self.encoded_from_unknown_fields()
    }

    /// The encoding of the fields of unknown numbers, written last.
    pub open spec fn encoded_from_unknown_fields(self) -> Seq<u8> {
        unknown_list_bytes(self.unknown_fields)
    }

    /// The encoding of the message: its set fields in order of declaration,
    /// each element of a repeated field in order, then the unknown fields.
    #[verifier::opaque]
    pub open spec fn to_bytes(self) -> Seq<u8> {
        self.encoded_from_reason()
    }

    /// A model that can be written and read back: every length fits the
    /// 32-bit length prefix, nested messages can be written, and the unknown
    /// fields have valid numbers that this message does not know.
    #[verifier::opaque]
    pub open spec fn wf(self) -> bool {
        &&& (self.reason matches Some(c) ==> fits_u32(encode_utf8(c)))
        &&& (forall|i: int| 0 <= i < self.unknown_fields.len() ==> unknown_field_wf(#[trigger] self.unknown_fields[i]) && !Self::is_known_field(self.unknown_fields[i].number))
        &&& unknown_grouped(self.unknown_fields)
    }

    /// The message with no field set can be written and read back.
    pub proof fn lemma_empty_wf()
        ensures
            Self::empty().wf(),
    {
        reveal_with_fuel(GoodbyeModel::wf, 1);
        lemma_grouped_empty();
    }

    /// Merging a field's tag and value, whatever follows them.
    pub proof fn lemma_merge_step(acc: Self, f: u32, wt: u32, t: Seq<u8>, b: Seq<u8>, rest: Seq<u8>, acc2: Self, lim: nat)
        requires
            tag_parse(t + (b + rest)) == Some((f, wt, t.len())),
            t.len() > 0,
            acc.merge_field(f, wt, b + rest, lim) == Some((acc2, b.len())),
        ensures
            acc.merge(t + (b + rest), lim) == acc2.merge(rest, lim),
    {
        reveal_with_fuel(GoodbyeModel::merge, 1);
        lemma_skip_chunk(t, b, rest);
    }

    /// Merging the encoding of field `reason` sets it, whatever follows.
    pub proof fn lemma_merge_reason(acc: Self, v: Option<Seq<char>>, rest: Seq<u8>, lim: nat)
        requires
            (v matches Some(c) ==> fits_u32(encode_utf8(c))),
        ensures
            acc.merge(opt_length_delimited_field_bytes(1, match v { Some(c) => Some(encode_utf8(c)), None => None }) + rest, lim) == (GoodbyeModel { reason: if v is Some { v } else { acc.reason }, ..acc }).merge(rest, lim),
    {
        match v {
            None => {
                assert(opt_length_delimited_field_bytes(1, match v { Some(c) => Some(encode_utf8(c)), None => None }) + rest =~= rest);
                assert((GoodbyeModel { reason: acc.reason, ..acc }) == acc);
            },
            Some(x) => {
                let t = tag_bytes(1, WIRE_LENGTH_DELIMITED);
                let b = bytes_value_bytes(encode_utf8(x));
                assert(opt_length_delimited_field_bytes(1, match v { Some(c) => Some(encode_utf8(c)), None => None }) + rest =~= t + (b + rest));
                lemma_tag_roundtrip(1, WIRE_LENGTH_DELIMITED, b + rest);
                lemma_string_roundtrip(x, rest);
                Self::lemma_merge_step(acc, 1, WIRE_LENGTH_DELIMITED, t, b, rest, GoodbyeModel { reason: v, ..acc }, lim);
            },
        }
    }

    /// Merging the encoding of fields of unknown numbers keeps them, whatever follows.
    #[verifier::rlimit(50)]
    pub proof fn lemma_merge_unknown_fields(acc: Self, v: Seq<UnknownFieldModel>, rest: Seq<u8>, lim: nat)
        requires
            forall|i: int| 0 <= i < v.len() ==> unknown_field_wf(#[trigger] v[i]) && !Self::is_known_field(v[i].number),
            unknown_grouped(acc.unknown_fields + v),
        ensures
            acc.merge(unknown_list_bytes(v) + rest, lim) == (GoodbyeModel { unknown_fields: acc.unknown_fields + v, ..acc }).merge(rest, lim),
        decreases v.len(),
    {
        if v.len() == 0 {
            assert(unknown_list_bytes(v) + rest =~= rest);
            assert(acc.unknown_fields + v =~= acc.unknown_fields);
            assert((GoodbyeModel { unknown_fields: acc.unknown_fields + v, ..acc }) == acc);
        } else {
            lemma_unknown_list_cons(v);
            let u = v[0];
            let wt = crate::wire::unknown_wire_type(u.value);
            let t = tag_bytes(u.number, wt);
            let b = crate::wire::unknown_value_bytes(u.value);
            let tail = unknown_list_bytes(v.subrange(1, v.len() as int));
            assert(unknown_list_bytes(v) + rest =~= t + (b + (tail + rest)));
            assert(unknown_field_bytes(u) + (tail + rest) =~= t + (b + (tail + rest)));
            lemma_unknown_roundtrip(u, tail + rest);
            assert((t + (b + (tail + rest))).skip(t.len() as int) =~= b + (tail + rest));
            crate::wire::lemma_tag_roundtrip(u.number, wt, b + (tail + rest));
            let acc1 = GoodbyeModel { unknown_fields: acc.unknown_fields.push(u), ..acc };
            assert(acc.unknown_fields.push(u) =~= (acc.unknown_fields + v).take(acc.unknown_fields.len() + 1int));
            lemma_grouped_take(acc.unknown_fields + v, acc.unknown_fields.len() + 1int);
            lemma_grouped_insert_last(acc.unknown_fields, u);
            Self::lemma_merge_step(acc, u.number, wt, t, b, tail + rest, acc1, lim);
            assert(acc1.unknown_fields + v.subrange(1, v.len() as int) =~= acc.unknown_fields + v);
            Self::lemma_merge_unknown_fields(acc1, v.subrange(1, v.len() as int), rest, lim);
        }
    }

    /// Reading back the encoding of a model that can be written gives the model,
    /// whatever the limit past its end.
    #[verifier::spinoff_prover]
    #[verifier::rlimit(100)]
    pub proof fn lemma_roundtrip(self, lim: nat)
        requires
            self.wf(),
        ensures
            GoodbyeModel::empty().merge(self.to_bytes(), lim) == Some(self),
    {
        reveal(GoodbyeModel::to_bytes);
        reveal(GoodbyeModel::wf);
        reveal_with_fuel(GoodbyeModel::merge, 1);
        let a0 = GoodbyeModel::empty();
        assert((self.reason matches Some(c) ==> fits_u32(encode_utf8(c))));
        Self::lemma_merge_reason(a0, self.reason, self.encoded_from_unknown_fields(), lim);
        let a1 = GoodbyeModel { reason: if self.reason is Some { self.reason } else { a0.reason }, ..a0 };
        assert(a1.unknown_fields + self.unknown_fields =~= self.unknown_fields);
        Self::lemma_merge_unknown_fields(a1, self.unknown_fields, Seq::empty(), lim);
        assert(unknown_list_bytes(self.unknown_fields) + Seq::<u8>::empty() =~= unknown_list_bytes(self.unknown_fields));
        let last = GoodbyeModel { unknown_fields: a1.unknown_fields + self.unknown_fields, ..a1 };
        assert(last.unknown_fields =~= self.unknown_fields);
        assert(last == self);
    }
    /// A message whose only set field is `reason` is written as field number 1 of the
    /// protocol's definition alone: the tag of that number with the wire type of the field,
    /// then the value.
    pub proof fn lemma_encoding_of_reason(v: Option<Seq<char>>)
        ensures
            (GoodbyeModel { reason: v, ..GoodbyeModel::empty() }).to_bytes() == opt_length_delimited_field_bytes(1, match v { Some(c) => Some(encode_utf8(c)), None => None }),
    {
        reveal(GoodbyeModel::to_bytes);
        let m = GoodbyeModel { reason: v, ..GoodbyeModel::empty() };
        assert(m.to_bytes() =~= opt_length_delimited_field_bytes(1, match v { Some(c) => Some(encode_utf8(c)), None => None }));
    }

}

#[allow(non_snake_case)]
impl Goodbye {
    /// The models of a list of messages.
    pub open spec fn seq_model(v: Seq<Goodbye>) -> Seq<GoodbyeModel> {
        v.map_values(|m: Goodbye| m@)
    }

    /// A message with no field set.
    pub fn new() -> (r: Self)
        ensures
            r@ == GoodbyeModel::empty(),
            r@.wf(),
    {
        let r = Goodbye {
            reason: None,
            unknown_fields: Vec::new(),
        };
        assert(unknown_models(r.unknown_fields@) =~= Seq::<UnknownFieldModel>::empty());
        proof {
            GoodbyeModel::lemma_empty_wf();
        }
        r
    }

    /// Unsets field `reason`.
    pub fn clear_reason(&mut self)
        ensures
            final(self)@ == (GoodbyeModel { reason: None, ..old(self)@ }),
    {
        self.reason = None;
    }

    /// Whether field `reason` is set.
    pub fn has_reason(&self) -> (r: bool)
        ensures
            r == self@.reason is Some,
    {
        self.reason.is_some()
    }

    /// Sets field `reason` to `v`.
    pub fn set_reason(&mut self, v: String)
        ensures
            final(self)@ == (GoodbyeModel { reason: Some(v@), ..old(self)@ }),
    {
        self.reason = Some(v);
    }

    /// Field `reason`, to change in place; an unset field is first set to its default.
    pub fn mut_reason(&mut self) -> (r: &mut String)
        ensures
            r@ == chars_or_empty(old(self)@.reason),
            final(self)@ == (GoodbyeModel { reason: Some(final(r)@), ..old(self)@ }),

    {
        if self.reason.is_none() {
            self.reason = Some(String::new());
        }
        opt_as_mut(&mut self.reason).unwrap()
    }

    /// Takes field `reason` (its default when unset), leaving it unset.
    pub fn take_reason(&mut self) -> (r: String)
        ensures
            r@ == chars_or_empty(old(self)@.reason),
            final(self)@ == (GoodbyeModel { reason: None, ..old(self)@ }),
    {
        let mut t = None;
        std::mem::swap(&mut t, &mut self.reason);
        match t {
            Some(v) => v,
            None => String::new(),
        }
    }

    /// Field `reason`, or the empty string when unset.
    pub fn get_reason(&self) -> (r: &str)
        ensures
            r@ == chars_or_empty(self@.reason),
    {
        match &self.reason {
            Some(v) => v.as_str(),
            None => {
                proof {
                    reveal_strlit("");
                }
                ""
            },
        }
    }

    /// Merges one field whose tag (number `f`, wire type `wt`) has been read
    /// from the bytes `s` that follow the tag; returns the number of bytes the
    /// value took.
    fn merge_field(&mut self, f: u32, wt: u32, s: &[u8], lim: u64) -> (r: Option<usize>)
        ensures
            match old(self)@.merge_field(f, wt, s@, lim as nat) {
                Some((m, k)) => r == Some(k as usize) && final(self)@ == m,
                None => r is None && final(self)@ == old(self)@.merge_field_failed(f, wt, s@, lim as nat),
            },
    {

        if f == 1 {
            if wt != WIRE_LENGTH_DELIMITED {
                return None;
            }
            match read_string(s) {
                Some((v, k)) => {
                    self.reason = Some(v);
                    Some(k)
                },
                None => {
                    self.reason = Some(String::new());
                    None
                },
            }
        } else {
            match read_unknown(f, wt, s) {
                Some((Some(u), k)) => {
                    insert_unknown(field_mut(&mut self.unknown_fields), u);
                    Some(k)
                },
                Some((None, k)) => Some(k),
                None => None,
            }
        }
    }

    /// Merges all the fields that `s` holds, in order; `false` when the bytes
    /// are not a valid encoding (the message then holds what was merged so far).
    #[verifier::spinoff_prover]
    #[verifier::rlimit(50)]
    fn merge_from_slice(&mut self, s: &[u8], lim: u64) -> (ok: bool)
        ensures
            match old(self)@.merge(s@, lim as nat) {
                Some(m) => ok && final(self)@ == m,
                None => !ok && final(self)@ == old(self)@.merge_partial(s@, lim as nat),
            },
    {
        proof {
            reveal_with_fuel(GoodbyeModel::merge, 1);
            reveal_with_fuel(GoodbyeModel::merge_partial, 1);
        }
        let mut pos: usize = 0;
        assert(s@.skip(0) =~= s@);
        while pos < s.len()
            invariant
                pos <= s.len(),
                old(self)@.merge(s@, lim as nat) == self@.merge(s@.skip(pos as int), lim as nat),
                old(self)@.merge_partial(s@, lim as nat) == self@.merge_partial(s@.skip(pos as int), lim as nat),
            decreases s.len() - pos,
        {
            let rest = &s[pos..s.len()];
            assert(rest@ == s@.skip(pos as int));
            proof {
                reveal_with_fuel(GoodbyeModel::merge, 1);
                reveal_with_fuel(GoodbyeModel::merge_partial, 1);
                lemma_tag_parse_len(rest@);
            }
            match pb_read_tag_unpack(rest) {
                None => {
                    return false;
                },
                Some((f, wt, n)) => {
                    if n == 0 || n > rest.len() {
                        return false;
                    }
                    let rest2 = &rest[n..rest.len()];
                    assert(rest2@ == rest@.skip(n as int));
                    proof {
                        self@.lemma_merge_field_len(f, wt, rest2@, lim as nat);
                    }
                    match self.merge_field(f, wt, rest2, lim) {
                        None => {
                            return false;
                        },
                        Some(k) => {
                            if k > rest2.len() {
                                return false;
                            }
                            assert(rest@.skip((n + k) as int) =~= s@.skip((pos + n + k) as int));
                            pos = pos + n + k;
                        },
                    }
                },
            }
        }
        assert(s@.skip(pos as int) =~= Seq::<u8>::empty());
        proof {
            reveal_with_fuel(GoodbyeModel::merge, 1);
        }
        true
    }

    /// The message that `s` encodes, if it is a valid encoding.
    fn parse_slice(s: &[u8], lim: u64) -> (r: Option<Self>)
        ensures
            match GoodbyeModel::empty().merge(s@, lim as nat) {
                Some(m) => r matches Some(x) && x@ == m,
                None => r is None,
            },
    {
        let mut m = Goodbye::new();
        if m.merge_from_slice(s, lim) {
            Some(m)
        } else {
            None
        }
    }

    /// Merges the fields that `bytes` encodes into this message, in order: a set
    /// field is replaced, a repeated field grows. On an invalid encoding the
    /// error comes back, the fields merged before the first field that could not
    /// be read stay merged, and that field is left as `merge_field_failed` says.
    pub fn merge_from_bytes(&mut self, bytes: &[u8]) -> (r: Result<(), DecodeError>)
        ensures
            match old(self)@.merge(bytes@, top_limit(bytes@.len())) {
                Some(m) => r is Ok && final(self)@ == m,
                None => r is Err && final(self)@ == old(self)@.merge_partial(bytes@, top_limit(bytes@.len())),
            },
    {
        let lim: u64 = u64::MAX - bytes.len() as u64;
        if self.merge_from_slice(bytes, lim) {
            Ok(())
        } else {
            Err(DecodeError)
        }
    }

    /// Parses a message from its encoding.
    pub fn parse_from_bytes(bytes: &[u8]) -> (r: Result<Self, DecodeError>)
        ensures
            match GoodbyeModel::empty().merge(bytes@, top_limit(bytes@.len())) {
                Some(m) => r matches Ok(x) && x@ == m,
                None => r is Err,
            },
    {
        let lim: u64 = u64::MAX - bytes.len() as u64;
        match Self::parse_slice(bytes, lim) {
            Some(m) => Ok(m),
            None => Err(DecodeError),
        }
    }

    /// Appends the encoding of field `reason` to `out`.
    fn write_field_reason(&self, out: &mut Vec<u8>)
        requires
            self@.wf(),
        ensures
            final(out)@ == old(out)@ + opt_length_delimited_field_bytes(1, match self@.reason { Some(c) => Some(encode_utf8(c)), None => None }),
            final(out)@ + self@.encoded_from_unknown_fields() == old(out)@ + self@.encoded_from_reason(),
    {
        proof {
            reveal(GoodbyeModel::wf);
        }
        let ghost o = out@;
        let ghost m = self@;
        match &self.reason {
            Some(v) => {
                pb_write_tag(out, 1, WIRE_LENGTH_DELIMITED);
                write_string_value(out, v.as_str());
                proof {
                    lemma_concat_assoc(o, tag_bytes(1, WIRE_LENGTH_DELIMITED), bytes_value_bytes(encode_utf8(v@)));
                }
            },
            None => {
                assert(o + Seq::<u8>::empty() =~= o);
            },
        }
        proof {
            lemma_concat_assoc(o, opt_length_delimited_field_bytes(1, match m.reason { Some(c) => Some(encode_utf8(c)), None => None }), m.encoded_from_unknown_fields());
        }
    }

    /// Appends the fields of unknown numbers to `out`.
    fn write_unknown_fields(&self, out: &mut Vec<u8>)
        requires
            self@.wf(),
        ensures
            final(out)@ == old(out)@ + unknown_list_bytes(self@.unknown_fields),
    {
        proof {
            reveal(GoodbyeModel::wf);
        }
        let ghost o = out@;
        let ghost m = self@;
        let mut j: usize = 0;
        assert(m.unknown_fields.subrange(0, m.unknown_fields.len() as int) =~= m.unknown_fields);
        assert(o + Seq::<u8>::empty() =~= o);
        while j < self.unknown_fields.len()
            invariant
                j <= self.unknown_fields.len(),
                self@ == m,
                m.wf(),
                o + unknown_list_bytes(m.unknown_fields) == out@ + unknown_list_bytes(m.unknown_fields.subrange(j as int, m.unknown_fields.len() as int)),
            decreases self.unknown_fields.len() - j,
        {
            proof {
                reveal(GoodbyeModel::wf);
                lemma_unknown_list_cons(m.unknown_fields.subrange(j as int, m.unknown_fields.len() as int));
                assert(m.unknown_fields[j as int] == self.unknown_fields@[j as int]@);
                assert(m.unknown_fields.subrange(j as int, m.unknown_fields.len() as int)[0] == m.unknown_fields[j as int]);
                assert(m.unknown_fields.subrange(j as int, m.unknown_fields.len() as int).subrange(1, m.unknown_fields.len() - j) =~= m.unknown_fields.subrange(j + 1, m.unknown_fields.len() as int));
            }
            let ghost before = out@;
            write_unknown(out, &self.unknown_fields[j]);
            proof {
                lemma_concat_assoc(before, unknown_field_bytes(m.unknown_fields[j as int]), unknown_list_bytes(m.unknown_fields.subrange(j + 1, m.unknown_fields.len() as int)));
            }
            j = j + 1;
        }
        assert(m.unknown_fields.subrange(j as int, m.unknown_fields.len() as int) =~= Seq::<UnknownFieldModel>::empty());
        assert(out@ =~= o + unknown_list_bytes(m.unknown_fields));
    }

    /// Appends the encoding of the message to `out`.
    fn write_to(&self, out: &mut Vec<u8>)
        requires
            self@.wf(),
        ensures
            final(out)@ == old(out)@ + self@.to_bytes(),
    {
        proof {
            reveal(GoodbyeModel::to_bytes);
        }
        let ghost o = out@;
        let ghost m = self@;
        assert(o + m.to_bytes() == out@ + m.encoded_from_reason());
        self.write_field_reason(out);
        self.write_unknown_fields(out);
    }

    /// The encoding of the message.
    pub fn write_to_bytes(&self) -> (r: Vec<u8>)
        requires
            self@.wf(),
        ensures
            r@ == self@.to_bytes(),
    {
        let mut out: Vec<u8> = Vec::new();
        self.write_to(&mut out);
        assert(out@ =~= self@.to_bytes());
        out
    }

    /// The length of the encoding of the message.
    pub fn compute_size(&self) -> (r: u32)
        requires
            self@.wf(),
            self@.to_bytes().len() <= u32::MAX,
        ensures
            r == self@.to_bytes().len(),
    {
        let v = self.write_to_bytes();
        v.len() as u32
    }
    /// A copy of the message.
    pub fn clone_message(&self) -> (r: Self)
        ensures
            r@ == self@,
    {
        let reason = clone_opt_string(&self.reason);
        let unknown_fields = clone_unknown_fields(&self.unknown_fields);
        Goodbye { reason, unknown_fields }
    }

}

impl Clone for Goodbye {
    fn clone(&self) -> (r: Self)
        ensures
            r@ == self@,
    {
        self.clone_message()
    }
}

impl Default for Goodbye {
    fn default() -> (r: Self)
        ensures
            r@ == GoodbyeModel::empty(),
    {
        Goodbye::new()
    }
}

/// The `State` message.
#[allow(non_snake_case)]
#[derive(Debug, PartialEq)]
pub struct State {
    context_uri: Option<String>,
    index: Option<u32>,
    position_ms: Option<u32>,
    status: Option<PlayStatus>,
    position_measured_at: Option<u64>,
    context_description: Option<String>,
    shuffle: Option<bool>,
    repeat: Option<bool>,
    last_command_ident: Option<String>,
    last_command_msgid: Option<u32>,
    playing_from_fallback: Option<bool>,
    row: Option<u32>,
    playing_track_index: Option<u32>,
    track: Vec<TrackRef>,
    ad: Box<Ad>,
    has_ad: bool,
    unknown_fields: Vec<UnknownField>,
}

/// The model of a `State`: each field's value, `None` or empty when unset,
/// and the fields of unknown numbers, in the order they were read.
#[allow(non_snake_case)]
pub struct StateModel {
    pub context_uri: Option<Seq<char>>,
    pub index: Option<u32>,
    pub position_ms: Option<u32>,
    pub status: Option<PlayStatus>,
    pub position_measured_at: Option<u64>,
    pub context_description: Option<Seq<char>>,
    pub shuffle: Option<bool>,
    pub repeat: Option<bool>,
    pub last_command_ident: Option<Seq<char>>,
    pub last_command_msgid: Option<u32>,
    pub playing_from_fallback: Option<bool>,
    pub row: Option<u32>,
    pub playing_track_index: Option<u32>,
    pub track: Seq<TrackRefModel>,
    pub ad: Option<AdModel>,
    pub unknown_fields: Seq<UnknownFieldModel>,
}

impl View for State {
    type V = StateModel;

    closed spec fn view(&self) -> StateModel {
        StateModel {
            context_uri: opt_view(self.context_uri),
            index: self.index,
            position_ms: self.position_ms,
            status: self.status,
            position_measured_at: self.position_measured_at,
            context_description: opt_view(self.context_description),
            shuffle: self.shuffle,
            repeat: self.repeat,
            last_command_ident: opt_view(self.last_command_ident),
            last_command_msgid: self.last_command_msgid,
            playing_from_fallback: self.playing_from_fallback,
            row: self.row,
            playing_track_index: self.playing_track_index,
            track: TrackRef::seq_model(self.track@),
            ad: if self.has_ad {
                Some(self.ad@)
            } else {
                None
            },
            unknown_fields: unknown_models(self.unknown_fields@),
        }
    }
}

#[allow(non_snake_case)]
impl StateModel {
    /// The model of a message with no field set.
    pub open spec fn empty() -> Self {
        StateModel {
            context_uri: None,
            index: None,
            position_ms: None,
            status: None,
            position_measured_at: None,
            context_description: None,
            shuffle: None,
            repeat: None,
            last_command_ident: None,
            last_command_msgid: None,
            playing_from_fallback: None,
            row: None,
            playing_track_index: None,
            track: Seq::empty(),
            ad: None,
            unknown_fields: Seq::empty(),
        }
    }

    /// The encodings of a list of messages.
    pub open spec fn encodings(v: Seq<StateModel>) -> Seq<Seq<u8>> {
        v.map_values(|m: StateModel| m.to_bytes())
    }

    /// Every message of a list can be written, and its encoding fits a 32-bit length.
    pub open spec fn all_writable(v: Seq<StateModel>) -> bool {
        forall|i: int| 0 <= i < v.len() ==> #[trigger] v[i].wf() && fits_u32(v[i].to_bytes())
    }

    /// The field numbers that this message knows.
    pub open spec fn is_known_field(f: u32) -> bool {
        f == 2 || f == 3 || f == 4 || f == 5 || f == 7 || f == 8 || f == 13 || f == 14 || f == 20 || f == 21 || f == 24 || f == 25 || f == 26 || f == 27 || f == 28
    }

    /// Merging one field whose tag (number `f`, wire type `wt`) has been read;
    /// `s` holds the bytes after the tag. The result is the merged model and
    /// the number of bytes the value took; a set field is replaced, a repeated
    /// field grows, a field of unknown number is kept or, if a group, skipped.
    pub open spec fn merge_field(self, f: u32, wt: u32, s: Seq<u8>, lim: nat) -> Option<(Self, nat)> {
        if f == 2 {
            if wt != WIRE_LENGTH_DELIMITED {
                None
            } else {
                match string_parse(s) {
                    Some((c, k)) => Some((StateModel { context_uri: Some(c), ..self }, k)),
                    None => None,
                }
            }
        } else if f == 3 {
            if wt != WIRE_VARINT {
                None
            } else {
                match varint_parse(s) {
                    Some((v, k)) => Some((StateModel { index: Some(v as u32), ..self }, k)),
                    None => None,
                }
            }
        } else if f == 4 {
            if wt != WIRE_VARINT {
                None
            } else {
                match varint_parse(s) {
                    Some((v, k)) => Some((StateModel { position_ms: Some(v as u32), ..self }, k)),
                    None => None,
                }
            }
        } else if f == 5 {
            if wt != WIRE_VARINT {
                None
            } else {
                match varint_parse(s) {
                    Some((v, k)) => match PlayStatus::spec_from_i32(varint_int32(v)) {
                        Some(e) => Some((StateModel { status: Some(e), ..self }, k)),
                        None => None,
                    },
                    None => None,
                }
            }
        } else if f == 7 {
            if wt != WIRE_VARINT {
                None
            } else {
                match varint_parse(s) {
                    Some((v, k)) => Some((StateModel { position_measured_at: Some(v), ..self }, k)),
                    None => None,
                }
            }
        } else if f == 8 {
            if wt != WIRE_LENGTH_DELIMITED {
                None
            } else {
                match string_parse(s) {
                    Some((c, k)) => Some((StateModel { context_description: Some(c), ..self }, k)),
                    None => None,
                }
            }
        } else if f == 13 {
            if wt != WIRE_VARINT {
                None
            } else {
                match varint_parse(s) {
                    Some((v, k)) => Some((StateModel { shuffle: Some(varint_bool(v)), ..self }, k)),
                    None => None,
                }
            }
        } else if f == 14 {
            if wt != WIRE_VARINT {
                None
            } else {
                match varint_parse(s) {
                    Some((v, k)) => Some((StateModel { repeat: Some(varint_bool(v)), ..self }, k)),
                    None => None,
                }
            }
        } else if f == 20 {
            if wt != WIRE_LENGTH_DELIMITED {
                None
            } else {
                match string_parse(s) {
                    Some((c, k)) => Some((StateModel { last_command_ident: Some(c), ..self }, k)),
                    None => None,
                }
            }
        } else if f == 21 {
            if wt != WIRE_VARINT {
                None
            } else {
                match varint_parse(s) {
                    Some((v, k)) => Some((StateModel { last_command_msgid: Some(v as u32), ..self }, k)),
                    None => None,
                }
            }
        } else if f == 24 {
            if wt != WIRE_VARINT {
                None
            } else {
                match varint_parse(s) {
                    Some((v, k)) => Some((StateModel { playing_from_fallback: Some(varint_bool(v)), ..self }, k)),
                    None => None,
                }
            }
        } else if f == 25 {
            if wt != WIRE_VARINT {
                None
            } else {
                match varint_parse(s) {
                    Some((v, k)) => Some((StateModel { row: Some(v as u32), ..self }, k)),
                    None => None,
                }
            }
        } else if f == 26 {
            if wt != WIRE_VARINT {
                None
            } else {
                match varint_parse(s) {
                    Some((v, k)) => Some((StateModel { playing_track_index: Some(v as u32), ..self }, k)),
                    None => None,
                }
            }
        } else if f == 27 {
            if wt != WIRE_LENGTH_DELIMITED {
                None
            } else {
                match embedded_window(s, lim) {
                    Some((a, b, x)) => if 0 < a <= b <= s.len() {
                        match TrackRefModel::empty().merge(s.subrange(a as int, b as int), x) {
                            Some(x) => Some((StateModel { track: self.track.push(x), ..self }, b)),
                            None => None,
                        }
                    } else {
                        None
                    },
                    None => None,
                }
            }
        } else if f == 28 {
            if wt != WIRE_LENGTH_DELIMITED {
                None
            } else {
                match embedded_window(s, lim) {
                    Some((a, b, x)) => if 0 < a <= b <= s.len() {
                        match AdModel::empty().merge(s.subrange(a as int, b as int), x) {
                            Some(x) => Some((StateModel { ad: Some(x), ..self }, b)),
                            None => None,
                        }
                    } else {
                        None
                    },
                    None => None,
                }
            }
        } else {
            match unknown_parse(f, wt, s) {
                Some((Some(u), k)) => Some((StateModel { unknown_fields: grouped_insert(self.unknown_fields, u), ..self }, k)),
                Some((None, k)) => Some((self, k)),
                None => None,
            }
        }
    }

    /// What is left of the model when merging one field (number `f`, wire type
    /// `wt`, value at the front of `s`) fails: a string, bytes or message field
    /// of the right wire type is first set to its empty value (a repeated one
    /// gets an empty element) and an embedded message keeps the fields merged
    /// into it before the failure; packed values read before the failure stay.
    pub open spec fn merge_field_failed(self, f: u32, wt: u32, s: Seq<u8>, lim: nat) -> Self {
        if f == 2 {
            if wt != WIRE_LENGTH_DELIMITED {
                self
            } else {
                StateModel { context_uri: Some(Seq::<char>::empty()), ..self }
            }
        } else if f == 8 {
            if wt != WIRE_LENGTH_DELIMITED {
                self
            } else {
                StateModel { context_description: Some(Seq::<char>::empty()), ..self }
            }
        } else if f == 20 {
            if wt != WIRE_LENGTH_DELIMITED {
                self
            } else {
                StateModel { last_command_ident: Some(Seq::<char>::empty()), ..self }
            }
        } else if f == 27 {
            if wt != WIRE_LENGTH_DELIMITED {
                self
            } else {
                match embedded_window(s, lim) {
                    Some((a, b, x)) => if 0 < a <= b <= s.len() {
                        StateModel { track: self.track.push(TrackRefModel::empty().merge_partial(s.subrange(a as int, b as int), x)), ..self }
                    } else {
                        StateModel { track: self.track.push(TrackRefModel::empty()), ..self }
                    },
                    None => StateModel { track: self.track.push(TrackRefModel::empty()), ..self },
                }
            }
        } else if f == 28 {
            if wt != WIRE_LENGTH_DELIMITED {
                self
            } else {
                match embedded_window(s, lim) {
                    Some((a, b, x)) => if 0 < a <= b <= s.len() {
                        StateModel { ad: Some(AdModel::empty().merge_partial(s.subrange(a as int, b as int), x)), ..self }
                    } else {
                        StateModel { ad: Some(AdModel::empty()), ..self }
                    },
                    None => StateModel { ad: Some(AdModel::empty()), ..self },
                }
            }
        } else {
            self
        }
    }

    /// The value of a merged field takes no more than the bytes after its tag.
    pub proof fn lemma_merge_field_len(self, f: u32, wt: u32, s: Seq<u8>, lim: nat)
        ensures
            self.merge_field(f, wt, s, lim) matches Some((_m, k)) ==> k <= s.len(),
    {
        lemma_varint_parse_len(s);
        crate::wire::lemma_unknown_parse_len(f, wt, s);
    }

    /// Merging all the fields that `s` holds, in order, where the length of an
    /// embedded message may reach `lim` bytes past the end of `s` (such a message
    /// is read up to the end of `s`).
    #[verifier::opaque]
    pub open spec fn merge(self, s: Seq<u8>, lim: nat) -> Option<Self>
        decreases s.len(),
    {
        if s.len() == 0 {
            Some(self)
        } else {
            match tag_parse(s) {
                Some((f, wt, n)) => if 0 < n <= s.len() {
                    match self.merge_field(f, wt, s.skip(n as int), lim) {
                        Some((m, k)) => if n + k <= s.len() {
                            m.merge(s.skip((n + k) as int), lim)
                        } else {
                            None
                        },
                        None => None,
                    }
                } else {
                    None
                },
                None => None,
            }
        }
    }

    /// What merging `s` leaves: the fields merged in order up to the first one
    /// whose tag or value cannot be read, then what `merge_field_failed` leaves of
    /// that one; all of `s` where it is a valid encoding.
    #[verifier::opaque]
    pub open spec fn merge_partial(self, s: Seq<u8>, lim: nat) -> Self
        decreases s.len(),
    {
        if s.len() == 0 {
            self
        } else {
            match tag_parse(s) {
                Some((f, wt, n)) => if 0 < n <= s.len() {
                    match self.merge_field(f, wt, s.skip(n as int), lim) {
                        Some((m, k)) => if n + k <= s.len() {
                            m.merge_partial(s.skip((n + k) as int), lim)
                        } else {
                            m
                        },
                        None => self.merge_field_failed(f, wt, s.skip(n as int), lim),
                    }
                } else {
                    self
                },
                None => self,
            }
        }
    }

    /// The encoding of field `context_uri` and of every field written after it.
    pub open spec fn encoded_from_context_uri(self) -> Seq<u8> {
        opt_length_delimited_field_bytes(2, match self.context_uri { Some(c) => Some(encode_utf8(c)), None => None }) + self.encoded_from_index()
    }

    /// The encoding of field `index` and of every field written after it.
    pub open spec fn encoded_from_index(self) -> Seq<u8> {
        opt_varint_field_bytes(3, match self.index { Some(x) => Some(x as u64), None => None }) + self.encoded_from_position_ms()
    }

    /// The encoding of field `position_ms` and of every field written after it.
    pub open spec fn encoded_from_position_ms(self) -> Seq<u8> {
        opt_varint_field_bytes(4, match self.position_ms { Some(x) => Some(x as u64), None => None }) + self.encoded_from_status()
    }

    /// The encoding of field `status` and of every field written after it.
    pub open spec fn encoded_from_status(self) -> Seq<u8> {
        opt_varint_field_bytes(5, match self.status { Some(x) => Some(int32_varint(x.spec_value())), None => None }) + self.encoded_from_position_measured_at()
    }

    /// The encoding of field `position_measured_at` and of every field written after it.
    pub open spec fn encoded_from_position_measured_at(self) -> Seq<u8> {
        opt_varint_field_bytes(7, match self.position_measured_at { Some(x) => Some(x), None => None }) + self.encoded_from_context_description()
    }

    /// The encoding of field `context_description` and of every field written after it.
    pub open spec fn encoded_from_context_description(self) -> Seq<u8> {
        opt_length_delimited_field_bytes(8, match self.context_description { Some(c) => Some(encode_utf8(c)), None => None }) + self.encoded_from_shuffle()
    }

    /// The encoding of field `shuffle` and of every field written after it.
    pub open spec fn encoded_from_shuffle(self) -> Seq<u8> {
        opt_varint_field_bytes(13, match self.shuffle { Some(x) => Some(bool_varint(x)), None => None }) + self.encoded_from_repeat()
    }

    /// The encoding of field `repeat` and of every field written after it.
    pub open spec fn encoded_from_repeat(self) -> Seq<u8> {
        opt_varint_field_bytes(14, match self.repeat { Some(x) => Some(bool_varint(x)), None => None }) + self.encoded_from_last_command_ident()
    }

    /// The encoding of field `last_command_ident` and of every field written after it.
    pub open spec fn encoded_from_last_command_ident(self) -> Seq<u8> {
        opt_length_delimited_field_bytes(20, match self.last_command_ident { Some(c) => Some(encode_utf8(c)), None => None }) + self.encoded_from_last_command_msgid()
    }

    /// The encoding of field `last_command_msgid` and of every field written after it.
    pub open spec fn encoded_from_last_command_msgid(self) -> Seq<u8> {
        opt_varint_field_bytes(21, match self.last_command_msgid { Some(x) => Some(x as u64), None => None }) + self.encoded_from_playing_from_fallback()
    }

    /// The encoding of field `playing_from_fallback` and of every field written after it.
    pub open spec fn encoded_from_playing_from_fallback(self) -> Seq<u8> {
        opt_varint_field_bytes(24, match self.playing_from_fallback { Some(x) => Some(bool_varint(x)), None => None }) + self.encoded_from_row()
    }

    /// The encoding of field `row` and of every field written after it.
    pub open spec fn encoded_from_row(self) -> Seq<u8> {
        opt_varint_field_bytes(25, match self.row { Some(x) => Some(x as u64), None => None }) + self.encoded_from_playing_track_index()
    }

    /// The encoding of field `playing_track_index` and of every field written after it.
    pub open spec fn encoded_from_playing_track_index(self) -> Seq<u8> {
        opt_varint_field_bytes(26, match self.playing_track_index { Some(x) => Some(x as u64), None => None }) + self.encoded_from_track()
    }

    /// The encoding of field `track` and of every field written after it.
    pub open spec fn encoded_from_track(self) -> Seq<u8> {
        length_delimited_list_bytes(27, TrackRefModel::encodings(self.track)) + self.encoded_from_ad()
    }

    /// The encoding of field `ad` and of every field written after it.
    pub open spec fn encoded_from_ad(self) -> Seq<u8> {
        opt_length_delimited_field_bytes(28, match self.ad { Some(m) => Some(m.to_bytes()), None => None }) + self.encoded_from_unknown_fields()
    }

    /// The encoding of the fields of unknown numbers, written last.
    pub open spec fn encoded_from_unknown_fields(self) -> Seq<u8> {
        unknown_list_bytes(self.unknown_fields)
    }

    /// The encoding of the message: its set fields in order of declaration,
    /// each element of a repeated field in order, then the unknown fields.
    #[verifier::opaque]
    pub open spec fn to_bytes(self) -> Seq<u8> {
        self.encoded_from_context_uri()
    }

    /// A model that can be written and read back: every length fits the
    /// 32-bit length prefix, nested messages can be written, and the unknown
    /// fields have valid numbers that this message does not know.
    #[verifier::opaque]
    pub open spec fn wf(self) -> bool {
        &&& (self.context_uri matches Some(c) ==> fits_u32(encode_utf8(c)))
        &&& (self.context_description matches Some(c) ==> fits_u32(encode_utf8(c)))
        &&& (self.last_command_ident matches Some(c) ==> fits_u32(encode_utf8(c)))
        &&& TrackRefModel::all_writable(self.track)
        &&& (self.ad matches Some(m) ==> m.wf() && fits_u32(m.to_bytes()))
        &&& (forall|i: int| 0 <= i < self.unknown_fields.len() ==> unknown_field_wf(#[trigger] self.unknown_fields[i]) && !Self::is_known_field(self.unknown_fields[i].number))
        &&& unknown_grouped(self.unknown_fields)
    }

    /// The message with no field set can be written and read back.
    pub proof fn lemma_empty_wf()
        ensures
            Self::empty().wf(),
    {
        reveal_with_fuel(StateModel::wf, 1);
        lemma_grouped_empty();
    }

    /// Merging a field's tag and value, whatever follows them.
    pub proof fn lemma_merge_step(acc: Self, f: u32, wt: u32, t: Seq<u8>, b: Seq<u8>, rest: Seq<u8>, acc2: Self, lim: nat)
        requires
            tag_parse(t + (b + rest)) == Some((f, wt, t.len())),
            t.len() > 0,
            acc.merge_field(f, wt, b + rest, lim) == Some((acc2, b.len())),
        ensures
            acc.merge(t + (b + rest), lim) == acc2.merge(rest, lim),
    {
        reveal_with_fuel(StateModel::merge, 1);
        lemma_skip_chunk(t, b, rest);
    }

    /// Merging the encoding of field `context_uri` sets it, whatever follows.
    pub proof fn lemma_merge_context_uri(acc: Self, v: Option<Seq<char>>, rest: Seq<u8>, lim: nat)
        requires
            (v matches Some(c) ==> fits_u32(encode_utf8(c))),
        ensures
            acc.merge(opt_length_delimited_field_bytes(2, match v { Some(c) => Some(encode_utf8(c)), None => None }) + rest, lim) == (StateModel { context_uri: if v is Some { v } else { acc.context_uri }, ..acc }).merge(rest, lim),
    {
        match v {
            None => {
                assert(opt_length_delimited_field_bytes(2, match v { Some(c) => Some(encode_utf8(c)), None => None }) + rest =~= rest);
                assert((StateModel { context_uri: acc.context_uri, ..acc }) == acc);
            },
            Some(x) => {
                let t = tag_bytes(2, WIRE_LENGTH_DELIMITED);
                let b = bytes_value_bytes(encode_utf8(x));
                assert(opt_length_delimited_field_bytes(2, match v { Some(c) => Some(encode_utf8(c)), None => None }) + rest =~= t + (b + rest));
                lemma_tag_roundtrip(2, WIRE_LENGTH_DELIMITED, b + rest);
                lemma_string_roundtrip(x, rest);
                Self::lemma_merge_step(acc, 2, WIRE_LENGTH_DELIMITED, t, b, rest, StateModel { context_uri: v, ..acc }, lim);
            },
        }
    }

    /// Merging the encoding of field `index` sets it, whatever follows.
    pub proof fn lemma_merge_index(acc: Self, v: Option<u32>, rest: Seq<u8>, lim: nat)
        ensures
            acc.merge(opt_varint_field_bytes(3, match v { Some(x) => Some(x as u64), None => None }) + rest, lim) == (StateModel { index: if v is Some { v } else { acc.index }, ..acc }).merge(rest, lim),
    {
        match v {
            None => {
                assert(opt_varint_field_bytes(3, match v { Some(x) => Some(x as u64), None => None }) + rest =~= rest);
                assert((StateModel { index: acc.index, ..acc }) == acc);
            },
            Some(x) => {
                let t = tag_bytes(3, WIRE_VARINT);
                let b = varint_bytes(x as u64);
                assert(opt_varint_field_bytes(3, match v { Some(x) => Some(x as u64), None => None }) + rest =~= t + (b + rest));
                lemma_tag_roundtrip(3, WIRE_VARINT, b + rest);
                lemma_varint_roundtrip(x as u64, rest);
                    lemma_varint_casts(0, 0, x, false, 0);
                Self::lemma_merge_step(acc, 3, WIRE_VARINT, t, b, rest, StateModel { index: v, ..acc }, lim);
            },
        }
    }

    /// Merging the encoding of field `position_ms` sets it, whatever follows.
    pub proof fn lemma_merge_position_ms(acc: Self, v: Option<u32>, rest: Seq<u8>, lim: nat)
        ensures
            acc.merge(opt_varint_field_bytes(4, match v { Some(x) => Some(x as u64), None => None }) + rest, lim) == (StateModel { position_ms: if v is Some { v } else { acc.position_ms }, ..acc }).merge(rest, lim),
    {
        match v {
            None => {
                assert(opt_varint_field_bytes(4, match v { Some(x) => Some(x as u64), None => None }) + rest =~= rest);
                assert((StateModel { position_ms: acc.position_ms, ..acc }) == acc);
            },
            Some(x) => {
                let t = tag_bytes(4, WIRE_VARINT);
                let b = varint_bytes(x as u64);
                assert(opt_varint_field_bytes(4, match v { Some(x) => Some(x as u64), None => None }) + rest =~= t + (b + rest));
                lemma_tag_roundtrip(4, WIRE_VARINT, b + rest);
                lemma_varint_roundtrip(x as u64, rest);
                    lemma_varint_casts(0, 0, x, false, 0);
                Self::lemma_merge_step(acc, 4, WIRE_VARINT, t, b, rest, StateModel { position_ms: v, ..acc }, lim);
            },
        }
    }

    /// Merging the encoding of field `status` sets it, whatever follows.
    pub proof fn lemma_merge_status(acc: Self, v: Option<PlayStatus>, rest: Seq<u8>, lim: nat)
        ensures
            acc.merge(opt_varint_field_bytes(5, match v { Some(x) => Some(int32_varint(x.spec_value())), None => None }) + rest, lim) == (StateModel { status: if v is Some { v } else { acc.status }, ..acc }).merge(rest, lim),
    {
        match v {
            None => {
                assert(opt_varint_field_bytes(5, match v { Some(x) => Some(int32_varint(x.spec_value())), None => None }) + rest =~= rest);
                assert((StateModel { status: acc.status, ..acc }) == acc);
            },
            Some(x) => {
                let t = tag_bytes(5, WIRE_VARINT);
                let b = varint_bytes(int32_varint(x.spec_value()));
                assert(opt_varint_field_bytes(5, match v { Some(x) => Some(int32_varint(x.spec_value())), None => None }) + rest =~= t + (b + rest));
                lemma_tag_roundtrip(5, WIRE_VARINT, b + rest);
                lemma_varint_roundtrip(int32_varint(x.spec_value()), rest);
                    lemma_varint_casts(x.spec_value(), 0, 0, false, 0);
                    x.lemma_value_roundtrip();
                Self::lemma_merge_step(acc, 5, WIRE_VARINT, t, b, rest, StateModel { status: v, ..acc }, lim);
            },
        }
    }

    /// Merging the encoding of field `position_measured_at` sets it, whatever follows.
    pub proof fn lemma_merge_position_measured_at(acc: Self, v: Option<u64>, rest: Seq<u8>, lim: nat)
        ensures
            acc.merge(opt_varint_field_bytes(7, match v { Some(x) => Some(x), None => None }) + rest, lim) == (StateModel { position_measured_at: if v is Some { v } else { acc.position_measured_at }, ..acc }).merge(rest, lim),
    {
        match v {
            None => {
                assert(opt_varint_field_bytes(7, match v { Some(x) => Some(x), None => None }) + rest =~= rest);
                assert((StateModel { position_measured_at: acc.position_measured_at, ..acc }) == acc);
            },
            Some(x) => {
                let t = tag_bytes(7, WIRE_VARINT);
                let b = varint_bytes(x);
                assert(opt_varint_field_bytes(7, match v { Some(x) => Some(x), None => None }) + rest =~= t + (b + rest));
                lemma_tag_roundtrip(7, WIRE_VARINT, b + rest);
                lemma_varint_roundtrip(x, rest);
                Self::lemma_merge_step(acc, 7, WIRE_VARINT, t, b, rest, StateModel { position_measured_at: v, ..acc }, lim);
            },
        }
    }

    /// Merging the encoding of field `context_description` sets it, whatever follows.
    pub proof fn lemma_merge_context_description(acc: Self, v: Option<Seq<char>>, rest: Seq<u8>, lim: nat)
        requires
            (v matches Some(c) ==> fits_u32(encode_utf8(c))),
        ensures
            acc.merge(opt_length_delimited_field_bytes(8, match v { Some(c) => Some(encode_utf8(c)), None => None }) + rest, lim) == (StateModel { context_description: if v is Some { v } else { acc.context_description }, ..acc }).merge(rest, lim),
    {
        match v {
            None => {
                assert(opt_length_delimited_field_bytes(8, match v { Some(c) => Some(encode_utf8(c)), None => None }) + rest =~= rest);
                assert((StateModel { context_description: acc.context_description, ..acc }) == acc);
            },
            Some(x) => {
                let t = tag_bytes(8, WIRE_LENGTH_DELIMITED);
                let b = bytes_value_bytes(encode_utf8(x));
                assert(opt_length_delimited_field_bytes(8, match v { Some(c) => Some(encode_utf8(c)), None => None }) + rest =~= t + (b + rest));
                lemma_tag_roundtrip(8, WIRE_LENGTH_DELIMITED, b + rest);
                lemma_string_roundtrip(x, rest);
                Self::lemma_merge_step(acc, 8, WIRE_LENGTH_DELIMITED, t, b, rest, StateModel { context_description: v, ..acc }, lim);
            },
        }
    }

    /// Merging the encoding of field `shuffle` sets it, whatever follows.
    pub proof fn lemma_merge_shuffle(acc: Self, v: Option<bool>, rest: Seq<u8>, lim: nat)
        ensures
            acc.merge(opt_varint_field_bytes(13, match v { Some(x) => Some(bool_varint(x)), None => None }) + rest, lim) == (StateModel { shuffle: if v is Some { v } else { acc.shuffle }, ..acc }).merge(rest, lim),
    {
        match v {
            None => {
                assert(opt_varint_field_bytes(13, match v { Some(x) => Some(bool_varint(x)), None => None }) + rest =~= rest);
                assert((StateModel { shuffle: acc.shuffle, ..acc }) == acc);
            },
            Some(x) => {
                let t = tag_bytes(13, WIRE_VARINT);
                let b = varint_bytes(bool_varint(x));
                assert(opt_varint_field_bytes(13, match v { Some(x) => Some(bool_varint(x)), None => None }) + rest =~= t + (b + rest));
                lemma_tag_roundtrip(13, WIRE_VARINT, b + rest);
                lemma_varint_roundtrip(bool_varint(x), rest);
                    lemma_varint_casts(0, 0, 0, x, 0);
                Self::lemma_merge_step(acc, 13, WIRE_VARINT, t, b, rest, StateModel { shuffle: v, ..acc }, lim);
            },
        }
    }

    /// Merging the encoding of field `repeat` sets it, whatever follows.
    pub proof fn lemma_merge_repeat(acc: Self, v: Option<bool>, rest: Seq<u8>, lim: nat)
        ensures
            acc.merge(opt_varint_field_bytes(14, match v { Some(x) => Some(bool_varint(x)), None => None }) + rest, lim) == (StateModel { repeat: if v is Some { v } else { acc.repeat }, ..acc }).merge(rest, lim),
    {
        match v {
            None => {
                assert(opt_varint_field_bytes(14, match v { Some(x) => Some(bool_varint(x)), None => None }) + rest =~= rest);
                assert((StateModel { repeat: acc.repeat, ..acc }) == acc);
            },
            Some(x) => {
                let t = tag_bytes(14, WIRE_VARINT);
                let b = varint_bytes(bool_varint(x));
                assert(opt_varint_field_bytes(14, match v { Some(x) => Some(bool_varint(x)), None => None }) + rest =~= t + (b + rest));
                lemma_tag_roundtrip(14, WIRE_VARINT, b + rest);
                lemma_varint_roundtrip(bool_varint(x), rest);
                    lemma_varint_casts(0, 0, 0, x, 0);
                Self::lemma_merge_step(acc, 14, WIRE_VARINT, t, b, rest, StateModel { repeat: v, ..acc }, lim);
            },
        }
    }

    /// Merging the encoding of field `last_command_ident` sets it, whatever follows.
    pub proof fn lemma_merge_last_command_ident(acc: Self, v: Option<Seq<char>>, rest: Seq<u8>, lim: nat)
        requires
            (v matches Some(c) ==> fits_u32(encode_utf8(c))),
        ensures
            acc.merge(opt_length_delimited_field_bytes(20, match v { Some(c) => Some(encode_utf8(c)), None => None }) + rest, lim) == (StateModel { last_command_ident: if v is Some { v } else { acc.last_command_ident }, ..acc }).merge(rest, lim),
    {
        match v {
            None => {
                assert(opt_length_delimited_field_bytes(20, match v { Some(c) => Some(encode_utf8(c)), None => None }) + rest =~= rest);
                assert((StateModel { last_command_ident: acc.last_command_ident, ..acc }) == acc);
            },
            Some(x) => {
                let t = tag_bytes(20, WIRE_LENGTH_DELIMITED);
                let b = bytes_value_bytes(encode_utf8(x));
                assert(opt_length_delimited_field_bytes(20, match v { Some(c) => Some(encode_utf8(c)), None => None }) + rest =~= t + (b + rest));
                lemma_tag_roundtrip(20, WIRE_LENGTH_DELIMITED, b + rest);
                lemma_string_roundtrip(x, rest);
                Self::lemma_merge_step(acc, 20, WIRE_LENGTH_DELIMITED, t, b, rest, StateModel { last_command_ident: v, ..acc }, lim);
            },
        }
    }

    /// Merging the encoding of field `last_command_msgid` sets it, whatever follows.
    pub proof fn lemma_merge_last_command_msgid(acc: Self, v: Option<u32>, rest: Seq<u8>, lim: nat)
        ensures
            acc.merge(opt_varint_field_bytes(21, match v { Some(x) => Some(x as u64), None => None }) + rest, lim) == (StateModel { last_command_msgid: if v is Some { v } else { acc.last_command_msgid }, ..acc }).merge(rest, lim),
    {
        match v {
            None => {
                assert(opt_varint_field_bytes(21, match v { Some(x) => Some(x as u64), None => None }) + rest =~= rest);
                assert((StateModel { last_command_msgid: acc.last_command_msgid, ..acc }) == acc);
            },
            Some(x) => {
                let t = tag_bytes(21, WIRE_VARINT);
                let b = varint_bytes(x as u64);
                assert(opt_varint_field_bytes(21, match v { Some(x) => Some(x as u64), None => None }) + rest =~= t + (b + rest));
                lemma_tag_roundtrip(21, WIRE_VARINT, b + rest);
                lemma_varint_roundtrip(x as u64, rest);
                    lemma_varint_casts(0, 0, x, false, 0);
                Self::lemma_merge_step(acc, 21, WIRE_VARINT, t, b, rest, StateModel { last_command_msgid: v, ..acc }, lim);
            },
        }
    }

    /// Merging the encoding of field `playing_from_fallback` sets it, whatever follows.
    pub proof fn lemma_merge_playing_from_fallback(acc: Self, v: Option<bool>, rest: Seq<u8>, lim: nat)
        ensures
            acc.merge(opt_varint_field_bytes(24, match v { Some(x) => Some(bool_varint(x)), None => None }) + rest, lim) == (StateModel { playing_from_fallback: if v is Some { v } else { acc.playing_from_fallback }, ..acc }).merge(rest, lim),
    {
        match v {
            None => {
                assert(opt_varint_field_bytes(24, match v { Some(x) => Some(bool_varint(x)), None => None }) + rest =~= rest);
                assert((StateModel { playing_from_fallback: acc.playing_from_fallback, ..acc }) == acc);
            },
            Some(x) => {
                let t = tag_bytes(24, WIRE_VARINT);
                let b = varint_bytes(bool_varint(x));
                assert(opt_varint_field_bytes(24, match v { Some(x) => Some(bool_varint(x)), None => None }) + rest =~= t + (b + rest));
                lemma_tag_roundtrip(24, WIRE_VARINT, b + rest);
                lemma_varint_roundtrip(bool_varint(x), rest);
                    lemma_varint_casts(0, 0, 0, x, 0);
                Self::lemma_merge_step(acc, 24, WIRE_VARINT, t, b, rest, StateModel { playing_from_fallback: v, ..acc }, lim);
            },
        }
    }

    /// Merging the encoding of field `row` sets it, whatever follows.
    pub proof fn lemma_merge_row(acc: Self, v: Option<u32>, rest: Seq<u8>, lim: nat)
        ensures
            acc.merge(opt_varint_field_bytes(25, match v { Some(x) => Some(x as u64), None => None }) + rest, lim) == (StateModel { row: if v is Some { v } else { acc.row }, ..acc }).merge(rest, lim),
    {
        match v {
            None => {
                assert(opt_varint_field_bytes(25, match v { Some(x) => Some(x as u64), None => None }) + rest =~= rest);
                assert((StateModel { row: acc.row, ..acc }) == acc);
            },
            Some(x) => {
                let t = tag_bytes(25, WIRE_VARINT);
                let b = varint_bytes(x as u64);
                assert(opt_varint_field_bytes(25, match v { Some(x) => Some(x as u64), None => None }) + rest =~= t + (b + rest));
                lemma_tag_roundtrip(25, WIRE_VARINT, b + rest);
                lemma_varint_roundtrip(x as u64, rest);
                    lemma_varint_casts(0, 0, x, false, 0);
                Self::lemma_merge_step(acc, 25, WIRE_VARINT, t, b, rest, StateModel { row: v, ..acc }, lim);
            },
        }
    }

    /// Merging the encoding of field `playing_track_index` sets it, whatever follows.
    pub proof fn lemma_merge_playing_track_index(acc: Self, v: Option<u32>, rest: Seq<u8>, lim: nat)
        ensures
            acc.merge(opt_varint_field_bytes(26, match v { Some(x) => Some(x as u64), None => None }) + rest, lim) == (StateModel { playing_track_index: if v is Some { v } else { acc.playing_track_index }, ..acc }).merge(rest, lim),
    {
        match v {
            None => {
                assert(opt_varint_field_bytes(26, match v { Some(x) => Some(x as u64), None => None }) + rest =~= rest);
                assert((StateModel { playing_track_index: acc.playing_track_index, ..acc }) == acc);
            },
            Some(x) => {
                let t = tag_bytes(26, WIRE_VARINT);
                let b = varint_bytes(x as u64);
                assert(opt_varint_field_bytes(26, match v { Some(x) => Some(x as u64), None => None }) + rest =~= t + (b + rest));
                lemma_tag_roundtrip(26, WIRE_VARINT, b + rest);
                lemma_varint_roundtrip(x as u64, rest);
                    lemma_varint_casts(0, 0, x, false, 0);
                Self::lemma_merge_step(acc, 26, WIRE_VARINT, t, b, rest, StateModel { playing_track_index: v, ..acc }, lim);
            },
        }
    }

    /// Merging the encoding of the elements of field `track` appends them, whatever follows.
    #[verifier::rlimit(50)]
    pub proof fn lemma_merge_track(acc: Self, v: Seq<TrackRefModel>, rest: Seq<u8>, lim: nat)
        requires
            TrackRefModel::all_writable(v),
        ensures
            acc.merge(length_delimited_list_bytes(27, TrackRefModel::encodings(v)) + rest, lim) == (StateModel { track: acc.track + v, ..acc }).merge(rest, lim),
        decreases v.len(),
    {
        let w = TrackRefModel::encodings(v);
        if v.len() == 0 {
            assert(length_delimited_list_bytes(27, w) + rest =~= rest);
            assert(acc.track + v =~= acc.track);
            assert((StateModel { track: acc.track + v, ..acc }) == acc);
        } else {
            lemma_length_delimited_list_cons(27, w);
            assert(v[0].wf() && fits_u32(v[0].to_bytes()));
            let t = tag_bytes(27, WIRE_LENGTH_DELIMITED);
            let b = bytes_value_bytes(w[0]);
            let tail = length_delimited_list_bytes(27, w.subrange(1, w.len() as int));
            assert(length_delimited_list_bytes(27, w) + rest =~= t + (b + (tail + rest)));
            lemma_tag_roundtrip(27, WIRE_LENGTH_DELIMITED, b + (tail + rest));
            lemma_message_window(v[0].to_bytes(), tail + rest);
            lemma_embedded_window(v[0].to_bytes(), tail + rest, lim);
            v[0].lemma_roundtrip(0);
            lemma_varint_parse_len(b + (tail + rest));
            let acc1 = StateModel { track: acc.track.push(v[0]), ..acc };
            Self::lemma_merge_step(acc, 27, WIRE_LENGTH_DELIMITED, t, b, tail + rest, acc1, lim);
            assert(w.subrange(1, w.len() as int) =~= TrackRefModel::encodings(v.subrange(1, v.len() as int)));
            assert forall|j: int| 0 <= j < v.len() - 1 implies #[trigger] v.subrange(1, v.len() as int)[j].wf() && fits_u32(v.subrange(1, v.len() as int)[j].to_bytes()) by {
                assert(v.subrange(1, v.len() as int)[j] == v[j + 1]);
            }
            Self::lemma_merge_track(acc1, v.subrange(1, v.len() as int), rest, lim);
            assert(acc1.track + v.subrange(1, v.len() as int) =~= acc.track + v);
        }
    }

    /// Merging the encoding of field `ad` sets it, whatever follows.
    pub proof fn lemma_merge_ad(acc: Self, v: Option<AdModel>, rest: Seq<u8>, lim: nat)
        requires
            (v matches Some(m) ==> m.wf() && fits_u32(m.to_bytes())),
        ensures
            acc.merge(opt_length_delimited_field_bytes(28, match v { Some(m) => Some(m.to_bytes()), None => None }) + rest, lim) == (StateModel { ad: if v is Some { v } else { acc.ad }, ..acc }).merge(rest, lim),
    {
        match v {
            None => {
                assert(opt_length_delimited_field_bytes(28, match v { Some(m) => Some(m.to_bytes()), None => None }) + rest =~= rest);
                assert((StateModel { ad: acc.ad, ..acc }) == acc);
            },
            Some(x) => {
                let t = tag_bytes(28, WIRE_LENGTH_DELIMITED);
                let b = bytes_value_bytes(x.to_bytes());
                assert(opt_length_delimited_field_bytes(28, match v { Some(m) => Some(m.to_bytes()), None => None }) + rest =~= t + (b + rest));
                lemma_tag_roundtrip(28, WIRE_LENGTH_DELIMITED, b + rest);
                lemma_message_window(x.to_bytes(), rest);
                    lemma_embedded_window(x.to_bytes(), rest, lim);
                    x.lemma_roundtrip(0);
                    lemma_varint_parse_len(bytes_value_bytes(x.to_bytes()) + rest);
                Self::lemma_merge_step(acc, 28, WIRE_LENGTH_DELIMITED, t, b, rest, StateModel { ad: v, ..acc }, lim);
            },
        }
    }

    /// Merging the encoding of fields of unknown numbers keeps them, whatever follows.
    #[verifier::rlimit(50)]
    pub proof fn lemma_merge_unknown_fields(acc: Self, v: Seq<UnknownFieldModel>, rest: Seq<u8>, lim: nat)
        requires
            forall|i: int| 0 <= i < v.len() ==> unknown_field_wf(#[trigger] v[i]) && !Self::is_known_field(v[i].number),
            unknown_grouped(acc.unknown_fields + v),
        ensures
            acc.merge(unknown_list_bytes(v) + rest, lim) == (StateModel { unknown_fields: acc.unknown_fields + v, ..acc }).merge(rest, lim),
        decreases v.len(),
    {
        if v.len() == 0 {
            assert(unknown_list_bytes(v) + rest =~= rest);
            assert(acc.unknown_fields + v =~= acc.unknown_fields);
            assert((StateModel { unknown_fields: acc.unknown_fields + v, ..acc }) == acc);
        } else {
            lemma_unknown_list_cons(v);
            let u = v[0];
            let wt = crate::wire::unknown_wire_type(u.value);
            let t = tag_bytes(u.number, wt);
            let b = crate::wire::unknown_value_bytes(u.value);
            let tail = unknown_list_bytes(v.subrange(1, v.len() as int));
            assert(unknown_list_bytes(v) + rest =~= t + (b + (tail + rest)));
            assert(unknown_field_bytes(u) + (tail + rest) =~= t + (b + (tail + rest)));
            lemma_unknown_roundtrip(u, tail + rest);
            assert((t + (b + (tail + rest))).skip(t.len() as int) =~= b + (tail + rest));
            crate::wire::lemma_tag_roundtrip(u.number, wt, b + (tail + rest));
            let acc1 = StateModel { unknown_fields: acc.unknown_fields.push(u), ..acc };
            assert(acc.unknown_fields.push(u) =~= (acc.unknown_fields + v).take(acc.unknown_fields.len() + 1int));
            lemma_grouped_take(acc.unknown_fields + v, acc.unknown_fields.len() + 1int);
            lemma_grouped_insert_last(acc.unknown_fields, u);
            Self::lemma_merge_step(acc, u.number, wt, t, b, tail + rest, acc1, lim);
            assert(acc1.unknown_fields + v.subrange(1, v.len() as int) =~= acc.unknown_fields + v);
            Self::lemma_merge_unknown_fields(acc1, v.subrange(1, v.len() as int), rest, lim);
        }
    }

    /// Reading back the encoding of a model that can be written gives the model,
    /// whatever the limit past its end.
    #[verifier::spinoff_prover]
    #[verifier::rlimit(100)]
    pub proof fn lemma_roundtrip(self, lim: nat)
        requires
            self.wf(),
        ensures
            StateModel::empty().merge(self.to_bytes(), lim) == Some(self),
    {
        reveal(StateModel::to_bytes);
        reveal(StateModel::wf);
        reveal_with_fuel(StateModel::merge, 1);
        let a0 = StateModel::empty();
        assert((self.context_uri matches Some(c) ==> fits_u32(encode_utf8(c))));
        Self::lemma_merge_context_uri(a0, self.context_uri, self.encoded_from_index(), lim);
        let a1 = StateModel { context_uri: if self.context_uri is Some { self.context_uri } else { a0.context_uri }, ..a0 };
        Self::lemma_merge_index(a1, self.index, self.encoded_from_position_ms(), lim);
        let a2 = StateModel { index: if self.index is Some { self.index } else { a1.index }, ..a1 };
        Self::lemma_merge_position_ms(a2, self.position_ms, self.encoded_from_status(), lim);
        let a3 = StateModel { position_ms: if self.position_ms is Some { self.position_ms } else { a2.position_ms }, ..a2 };
        Self::lemma_merge_status(a3, self.status, self.encoded_from_position_measured_at(), lim);
        let a4 = StateModel { status: if self.status is Some { self.status } else { a3.status }, ..a3 };
        Self::lemma_merge_position_measured_at(a4, self.position_measured_at, self.encoded_from_context_description(), lim);
        let a5 = StateModel { position_measured_at: if self.position_measured_at is Some { self.position_measured_at } else { a4.position_measured_at }, ..a4 };
        assert((self.context_description matches Some(c) ==> fits_u32(encode_utf8(c))));
        Self::lemma_merge_context_description(a5, self.context_description, self.encoded_from_shuffle(), lim);
        let a6 = StateModel { context_description: if self.context_description is Some { self.context_description } else { a5.context_description }, ..a5 };
        Self::lemma_merge_shuffle(a6, self.shuffle, self.encoded_from_repeat(), lim);
        let a7 = StateModel { shuffle: if self.shuffle is Some { self.shuffle } else { a6.shuffle }, ..a6 };
        Self::lemma_merge_repeat(a7, self.repeat, self.encoded_from_last_command_ident(), lim);
        let a8 = StateModel { repeat: if self.repeat is Some { self.repeat } else { a7.repeat }, ..a7 };
        assert((self.last_command_ident matches Some(c) ==> fits_u32(encode_utf8(c))));
        Self::lemma_merge_last_command_ident(a8, self.last_command_ident, self.encoded_from_last_command_msgid(), lim);
        let a9 = StateModel { last_command_ident: if self.last_command_ident is Some { self.last_command_ident } else { a8.last_command_ident }, ..a8 };
        Self::lemma_merge_last_command_msgid(a9, self.last_command_msgid, self.encoded_from_playing_from_fallback(), lim);
        let a10 = StateModel { last_command_msgid: if self.last_command_msgid is Some { self.last_command_msgid } else { a9.last_command_msgid }, ..a9 };
        Self::lemma_merge_playing_from_fallback(a10, self.playing_from_fallback, self.encoded_from_row(), lim);
        let a11 = StateModel { playing_from_fallback: if self.playing_from_fallback is Some { self.playing_from_fallback } else { a10.playing_from_fallback }, ..a10 };
        Self::lemma_merge_row(a11, self.row, self.encoded_from_playing_track_index(), lim);
        let a12 = StateModel { row: if self.row is Some { self.row } else { a11.row }, ..a11 };
        Self::lemma_merge_playing_track_index(a12, self.playing_track_index, self.encoded_from_track(), lim);
        let a13 = StateModel { playing_track_index: if self.playing_track_index is Some { self.playing_track_index } else { a12.playing_track_index }, ..a12 };
        assert(TrackRefModel::all_writable(self.track));
        Self::lemma_merge_track(a13, self.track, self.encoded_from_ad(), lim);
        let a14 = StateModel { track: a13.track + self.track, ..a13 };
        assert((self.ad matches Some(m) ==> m.wf() && fits_u32(m.to_bytes())));
        Self::lemma_merge_ad(a14, self.ad, self.encoded_from_unknown_fields(), lim);
        let a15 = StateModel { ad: if self.ad is Some { self.ad } else { a14.ad }, ..a14 };
        assert(a15.unknown_fields + self.unknown_fields =~= self.unknown_fields);
        Self::lemma_merge_unknown_fields(a15, self.unknown_fields, Seq::empty(), lim);
        assert(unknown_list_bytes(self.unknown_fields) + Seq::<u8>::empty() =~= unknown_list_bytes(self.unknown_fields));
        let last = StateModel { unknown_fields: a15.unknown_fields + self.unknown_fields, ..a15 };
        assert(last.track =~= self.track);
        assert(last.unknown_fields =~= self.unknown_fields);
        assert(last == self);
    }
    /// A message whose only set field is `context_uri` is written as field number 2 of the
    /// protocol's definition alone: the tag of that number with the wire type of the field,
    /// then the value.
    pub proof fn lemma_encoding_of_context_uri(v: Option<Seq<char>>)
        ensures
            (StateModel { context_uri: v, ..StateModel::empty() }).to_bytes() == opt_length_delimited_field_bytes(2, match v { Some(c) => Some(encode_utf8(c)), None => None }),
    {
        reveal(StateModel::to_bytes);
        let m = StateModel { context_uri: v, ..StateModel::empty() };
        assert(m.to_bytes() =~= opt_length_delimited_field_bytes(2, match v { Some(c) => Some(encode_utf8(c)), None => None }));
    }

    /// A message whose only set field is `index` is written as field number 3 of the
    /// protocol's definition alone: the tag of that number with the wire type of the field,
    /// then the value.
    pub proof fn lemma_encoding_of_index(v: Option<u32>)
        ensures
            (StateModel { index: v, ..StateModel::empty() }).to_bytes() == opt_varint_field_bytes(3, match v { Some(x) => Some(x as u64), None => None }),
    {
        reveal(StateModel::to_bytes);
        let m = StateModel { index: v, ..StateModel::empty() };
        assert(m.to_bytes() =~= opt_varint_field_bytes(3, match v { Some(x) => Some(x as u64), None => None }));
    }

    /// A message whose only set field is `position_ms` is written as field number 4 of the
    /// protocol's definition alone: the tag of that number with the wire type of the field,
    /// then the value.
    pub proof fn lemma_encoding_of_position_ms(v: Option<u32>)
        ensures
            (StateModel { position_ms: v, ..StateModel::empty() }).to_bytes() == opt_varint_field_bytes(4, match v { Some(x) => Some(x as u64), None => None }),
    {
        reveal(StateModel::to_bytes);
        let m = StateModel { position_ms: v, ..StateModel::empty() };
        assert(m.to_bytes() =~= opt_varint_field_bytes(4, match v { Some(x) => Some(x as u64), None => None }));
    }

    /// A message whose only set field is `status` is written as field number 5 of the
    /// protocol's definition alone: the tag of that number with the wire type of the field,
    /// then the value.
    pub proof fn lemma_encoding_of_status(v: Option<PlayStatus>)
        ensures
            (StateModel { status: v, ..StateModel::empty() }).to_bytes() == opt_varint_field_bytes(5, match v { Some(x) => Some(int32_varint(x.spec_value())), None => None }),
    {
        reveal(StateModel::to_bytes);
        let m = StateModel { status: v, ..StateModel::empty() };
        assert(m.to_bytes() =~= opt_varint_field_bytes(5, match v { Some(x) => Some(int32_varint(x.spec_value())), None => None }));
    }

    /// A message whose only set field is `position_measured_at` is written as field number 7 of the
    /// protocol's definition alone: the tag of that number with the wire type of the field,
    /// then the value.
    pub proof fn lemma_encoding_of_position_measured_at(v: Option<u64>)
        ensures
            (StateModel { position_measured_at: v, ..StateModel::empty() }).to_bytes() == opt_varint_field_bytes(7, match v { Some(x) => Some(x), None => None }),
    {
        reveal(StateModel::to_bytes);
        let m = StateModel { position_measured_at: v, ..StateModel::empty() };
        assert(m.to_bytes() =~= opt_varint_field_bytes(7, match v { Some(x) => Some(x), None => None }));
    }

    /// A message whose only set field is `context_description` is written as field number 8 of the
    /// protocol's definition alone: the tag of that number with the wire type of the field,
    /// then the value.
    pub proof fn lemma_encoding_of_context_description(v: Option<Seq<char>>)
        ensures
            (StateModel { context_description: v, ..StateModel::empty() }).to_bytes() == opt_length_delimited_field_bytes(8, match v { Some(c) => Some(encode_utf8(c)), None => None }),
    {
        reveal(StateModel::to_bytes);
        let m = StateModel { context_description: v, ..StateModel::empty() };
        assert(m.to_bytes() =~= opt_length_delimited_field_bytes(8, match v { Some(c) => Some(encode_utf8(c)), None => None }));
    }

    /// A message whose only set field is `shuffle` is written as field number 13 of the
    /// protocol's definition alone: the tag of that number with the wire type of the field,
    /// then the value.
    pub proof fn lemma_encoding_of_shuffle(v: Option<bool>)
        ensures
            (StateModel { shuffle: v, ..StateModel::empty() }).to_bytes() == opt_varint_field_bytes(13, match v { Some(x) => Some(bool_varint(x)), None => None }),
    {
        reveal(StateModel::to_bytes);
        let m = StateModel { shuffle: v, ..StateModel::empty() };
        assert(m.to_bytes() =~= opt_varint_field_bytes(13, match v { Some(x) => Some(bool_varint(x)), None => None }));
    }

    /// A message whose only set field is `repeat` is written as field number 14 of the
    /// protocol's definition alone: the tag of that number with the wire type of the field,
    /// then the value.
    pub proof fn lemma_encoding_of_repeat(v: Option<bool>)
        ensures
            (StateModel { repeat: v, ..StateModel::empty() }).to_bytes() == opt_varint_field_bytes(14, match v { Some(x) => Some(bool_varint(x)), None => None }),
    {
        reveal(StateModel::to_bytes);
        let m = StateModel { repeat: v, ..StateModel::empty() };
        assert(m.to_bytes() =~= opt_varint_field_bytes(14, match v { Some(x) => Some(bool_varint(x)), None => None }));
    }

    /// A message whose only set field is `last_command_ident` is written as field number 20 of the
    /// protocol's definition alone: the tag of that number with the wire type of the field,
    /// then the value.
    pub proof fn lemma_encoding_of_last_command_ident(v: Option<Seq<char>>)
        ensures
            (StateModel { last_command_ident: v, ..StateModel::empty() }).to_bytes() == opt_length_delimited_field_bytes(20, match v { Some(c) => Some(encode_utf8(c)), None => None }),
    {
        reveal(StateModel::to_bytes);
        let m = StateModel { last_command_ident: v, ..StateModel::empty() };
        assert(m.to_bytes() =~= opt_length_delimited_field_bytes(20, match v { Some(c) => Some(encode_utf8(c)), None => None }));
    }

    /// A message whose only set field is `last_command_msgid` is written as field number 21 of the
    /// protocol's definition alone: the tag of that number with the wire type of the field,
    /// then the value.
    pub proof fn lemma_encoding_of_last_command_msgid(v: Option<u32>)
        ensures
            (StateModel { last_command_msgid: v, ..StateModel::empty() }).to_bytes() == opt_varint_field_bytes(21, match v { Some(x) => Some(x as u64), None => None }),
    {
        reveal(StateModel::to_bytes);
        let m = StateModel { last_command_msgid: v, ..StateModel::empty() };
        assert(m.to_bytes() =~= opt_varint_field_bytes(21, match v { Some(x) => Some(x as u64), None => None }));
    }

    /// A message whose only set field is `playing_from_fallback` is written as field number 24 of the
    /// protocol's definition alone: the tag of that number with the wire type of the field,
    /// then the value.
    pub proof fn lemma_encoding_of_playing_from_fallback(v: Option<bool>)
        ensures
            (StateModel { playing_from_fallback: v, ..StateModel::empty() }).to_bytes() == opt_varint_field_bytes(24, match v { Some(x) => Some(bool_varint(x)), None => None }),
    {
        reveal(StateModel::to_bytes);
        let m = StateModel { playing_from_fallback: v, ..StateModel::empty() };
        assert(m.to_bytes() =~= opt_varint_field_bytes(24, match v { Some(x) => Some(bool_varint(x)), None => None }));
    }

    /// A message whose only set field is `row` is written as field number 25 of the
    /// protocol's definition alone: the tag of that number with the wire type of the field,
    /// then the value.
    pub proof fn lemma_encoding_of_row(v: Option<u32>)
        ensures
            (StateModel { row: v, ..StateModel::empty() }).to_bytes() == opt_varint_field_bytes(25, match v { Some(x) => Some(x as u64), None => None }),
    {
        reveal(StateModel::to_bytes);
        let m = StateModel { row: v, ..StateModel::empty() };
        assert(m.to_bytes() =~= opt_varint_field_bytes(25, match v { Some(x) => Some(x as u64), None => None }));
    }

    /// A message whose only set field is `playing_track_index` is written as field number 26 of the
    /// protocol's definition alone: the tag of that number with the wire type of the field,
    /// then the value.
    pub proof fn lemma_encoding_of_playing_track_index(v: Option<u32>)
        ensures
            (StateModel { playing_track_index: v, ..StateModel::empty() }).to_bytes() == opt_varint_field_bytes(26, match v { Some(x) => Some(x as u64), None => None }),
    {
        reveal(StateModel::to_bytes);
        let m = StateModel { playing_track_index: v, ..StateModel::empty() };
        assert(m.to_bytes() =~= opt_varint_field_bytes(26, match v { Some(x) => Some(x as u64), None => None }));
    }

    /// A message whose only set field is `track` is written as field number 27 of the
    /// protocol's definition alone: the tag of that number with the wire type of the field,
    /// then the value.
    pub proof fn lemma_encoding_of_track(v: Seq<TrackRefModel>)
        ensures
            (StateModel { track: v, ..StateModel::empty() }).to_bytes() == length_delimited_list_bytes(27, TrackRefModel::encodings(v)),
    {
        reveal(StateModel::to_bytes);
        let m = StateModel { track: v, ..StateModel::empty() };
        assert(m.to_bytes() =~= length_delimited_list_bytes(27, TrackRefModel::encodings(v)));
    }

    /// A message whose only set field is `ad` is written as field number 28 of the
    /// protocol's definition alone: the tag of that number with the wire type of the field,
    /// then the value.
    pub proof fn lemma_encoding_of_ad(v: Option<AdModel>)
        ensures
            (StateModel { ad: v, ..StateModel::empty() }).to_bytes() == opt_length_delimited_field_bytes(28, match v { Some(m) => Some(m.to_bytes()), None => None }),
    {
        reveal(StateModel::to_bytes);
        let m = StateModel { ad: v, ..StateModel::empty() };
        assert(m.to_bytes() =~= opt_length_delimited_field_bytes(28, match v { Some(m) => Some(m.to_bytes()), None => None }));
    }

}

#[allow(non_snake_case)]
impl State {
    #[verifier::type_invariant]
    spec fn unset_fields_are_empty(self) -> bool {
        (!self.has_ad ==> self.ad@ == AdModel::empty())
    }

    /// The models of a list of messages.
    pub open spec fn seq_model(v: Seq<State>) -> Seq<StateModel> {
        v.map_values(|m: State| m@)
    }

    /// A message with no field set.
    pub fn new() -> (r: Self)
        ensures
            r@ == StateModel::empty(),
            r@.wf(),
    {
        let r = State {
            context_uri: None,
            index: None,
            position_ms: None,
            status: None,
            position_measured_at: None,
            context_description: None,
            shuffle: None,
            repeat: None,
            last_command_ident: None,
            last_command_msgid: None,
            playing_from_fallback: None,
            row: None,
            playing_track_index: None,
            track: Vec::new(),
            ad: Box::new(Ad::new()),
            has_ad: false,
            unknown_fields: Vec::new(),
        };
        assert(TrackRef::seq_model(r.track@) =~= Seq::<TrackRefModel>::empty());
        assert(unknown_models(r.unknown_fields@) =~= Seq::<UnknownFieldModel>::empty());
        proof {
            StateModel::lemma_empty_wf();
        }
        r
    }

    /// Unsets field `context_uri`.
    pub fn clear_context_uri(&mut self)
        ensures
            final(self)@ == (StateModel { context_uri: None, ..old(self)@ }),
    {
        proof {
            use_type_invariant(&*self);
        }
        self.context_uri = None;
    }

    /// Whether field `context_uri` is set.
    pub fn has_context_uri(&self) -> (r: bool)
        ensures
            r == self@.context_uri is Some,
    {
        self.context_uri.is_some()
    }

    /// Sets field `context_uri` to `v`.
    pub fn set_context_uri(&mut self, v: String)
        ensures
            final(self)@ == (StateModel { context_uri: Some(v@), ..old(self)@ }),
    {
        proof {
            use_type_invariant(&*self);
        }
        self.context_uri = Some(v);
    }

    /// Field `context_uri`, to change in place; an unset field is first set to its default.
    pub fn mut_context_uri(&mut self) -> (r: &mut String)
        ensures
            r@ == chars_or_empty(old(self)@.context_uri),
            final(self)@ == (StateModel { context_uri: Some(final(r)@), ..old(self)@ }),

    {
        proof {
            use_type_invariant(&*self);
        }
        if self.context_uri.is_none() {
            self.context_uri = Some(String::new());
        }
        opt_as_mut(&mut self.context_uri).unwrap()
    }

    /// Takes field `context_uri` (its default when unset), leaving it unset.
    pub fn take_context_uri(&mut self) -> (r: String)
        ensures
            r@ == chars_or_empty(old(self)@.context_uri),
            final(self)@ == (StateModel { context_uri: None, ..old(self)@ }),
    {
        proof {
            use_type_invariant(&*self);
        }
        let mut t = None;
        std::mem::swap(&mut t, &mut self.context_uri);
        match t {
            Some(v) => v,
            None => String::new(),
        }
    }

    /// Field `context_uri`, or the empty string when unset.
    pub fn get_context_uri(&self) -> (r: &str)
        ensures
            r@ == chars_or_empty(self@.context_uri),
    {
        match &self.context_uri {
            Some(v) => v.as_str(),
            None => {
                proof {
                    reveal_strlit("");
                }
                ""
            },
        }
    }

    /// Unsets field `index`.
    pub fn clear_index(&mut self)
        ensures
            final(self)@ == (StateModel { index: None, ..old(self)@ }),
    {
        proof {
            use_type_invariant(&*self);
        }
        self.index = None;
    }

    /// Whether field `index` is set.
    pub fn has_index(&self) -> (r: bool)
        ensures
            r == self@.index is Some,
    {
        self.index.is_some()
    }

    /// Sets field `index` to `v`.
    pub fn set_index(&mut self, v: u32)
        ensures
            final(self)@ == (StateModel { index: Some(v), ..old(self)@ }),
    {
        proof {
            use_type_invariant(&*self);
        }
        self.index = Some(v);
    }

    /// Field `index`, or `0` when unset.
    pub fn get_index(&self) -> (r: u32)
        ensures
            r == (match self@.index { Some(x) => x, None => 0u32 }),
    {
        match self.index {
            Some(x) => x,
            None => 0u32,
        }
    }

    /// Unsets field `position_ms`.
    pub fn clear_position_ms(&mut self)
        ensures
            final(self)@ == (StateModel { position_ms: None, ..old(self)@ }),
    {
        proof {
            use_type_invariant(&*self);
        }
        self.position_ms = None;
    }

    /// Whether field `position_ms` is set.
    pub fn has_position_ms(&self) -> (r: bool)
        ensures
            r == self@.position_ms is Some,
    {
        self.position_ms.is_some()
    }

    /// Sets field `position_ms` to `v`.
    pub fn set_position_ms(&mut self, v: u32)
        ensures
            final(self)@ == (StateModel { position_ms: Some(v), ..old(self)@ }),
    {
        proof {
            use_type_invariant(&*self);
        }
        self.position_ms = Some(v);
    }

    /// Field `position_ms`, or `0` when unset.
    pub fn get_position_ms(&self) -> (r: u32)
        ensures
            r == (match self@.position_ms { Some(x) => x, None => 0u32 }),
    {
        match self.position_ms {
            Some(x) => x,
            None => 0u32,
        }
    }

    /// Unsets field `status`.
    pub fn clear_status(&mut self)
        ensures
            final(self)@ == (StateModel { status: None, ..old(self)@ }),
    {
        proof {
            use_type_invariant(&*self);
        }
        self.status = None;
    }

    /// Whether field `status` is set.
    pub fn has_status(&self) -> (r: bool)
        ensures
            r == self@.status is Some,
    {
        self.status.is_some()
    }

    /// Sets field `status` to `v`.
    pub fn set_status(&mut self, v: PlayStatus)
        ensures
            final(self)@ == (StateModel { status: Some(v), ..old(self)@ }),
    {
        proof {
            use_type_invariant(&*self);
        }
        self.status = Some(v);
    }

    /// Field `status`, or `PlayStatus::kPlayStatusStop` when unset.
    pub fn get_status(&self) -> (r: PlayStatus)
        ensures
            r == (match self@.status { Some(x) => x, None => PlayStatus::kPlayStatusStop }),
    {
        match self.status {
            Some(x) => x,
            None => PlayStatus::kPlayStatusStop,
        }
    }

    /// Unsets field `position_measured_at`.
    pub fn clear_position_measured_at(&mut self)
        ensures
            final(self)@ == (StateModel { position_measured_at: None, ..old(self)@ }),
    {
        proof {
            use_type_invariant(&*self);
        }
        self.position_measured_at = None;
    }

    /// Whether field `position_measured_at` is set.
    pub fn has_position_measured_at(&self) -> (r: bool)
        ensures
            r == self@.position_measured_at is Some,
    {
        self.position_measured_at.is_some()
    }

    /// Sets field `position_measured_at` to `v`.
    pub fn set_position_measured_at(&mut self, v: u64)
        ensures
            final(self)@ == (StateModel { position_measured_at: Some(v), ..old(self)@ }),
    {
        proof {
            use_type_invariant(&*self);
        }
        self.position_measured_at = Some(v);
    }

    /// Field `position_measured_at`, or `0` when unset.
    pub fn get_position_measured_at(&self) -> (r: u64)
        ensures
            r == (match self@.position_measured_at { Some(x) => x, None => 0u64 }),
    {
        match self.position_measured_at {
            Some(x) => x,
            None => 0u64,
        }
    }

    /// Unsets field `context_description`.
    pub fn clear_context_description(&mut self)
        ensures
            final(self)@ == (StateModel { context_description: None, ..old(self)@ }),
    {
        proof {
            use_type_invariant(&*self);
        }
        self.context_description = None;
    }

    /// Whether field `context_description` is set.
    pub fn has_context_description(&self) -> (r: bool)
        ensures
            r == self@.context_description is Some,
    {
        self.context_description.is_some()
    }

    /// Sets field `context_description` to `v`.
    pub fn set_context_description(&mut self, v: String)
        ensures
            final(self)@ == (StateModel { context_description: Some(v@), ..old(self)@ }),
    {
        proof {
            use_type_invariant(&*self);
        }
        self.context_description = Some(v);
    }

    /// Field `context_description`, to change in place; an unset field is first set to its default.
    pub fn mut_context_description(&mut self) -> (r: &mut String)
        ensures
            r@ == chars_or_empty(old(self)@.context_description),
            final(self)@ == (StateModel { context_description: Some(final(r)@), ..old(self)@ }),

    {
        proof {
            use_type_invariant(&*self);
        }
        if self.context_description.is_none() {
            self.context_description = Some(String::new());
        }
        opt_as_mut(&mut self.context_description).unwrap()
    }

    /// Takes field `context_description` (its default when unset), leaving it unset.
    pub fn take_context_description(&mut self) -> (r: String)
        ensures
            r@ == chars_or_empty(old(self)@.context_description),
            final(self)@ == (StateModel { context_description: None, ..old(self)@ }),
    {
        proof {
            use_type_invariant(&*self);
        }
        let mut t = None;
        std::mem::swap(&mut t, &mut self.context_description);
        match t {
            Some(v) => v,
            None => String::new(),
        }
    }

    /// Field `context_description`, or the empty string when unset.
    pub fn get_context_description(&self) -> (r: &str)
        ensures
            r@ == chars_or_empty(self@.context_description),
    {
        match &self.context_description {
            Some(v) => v.as_str(),
            None => {
                proof {
                    reveal_strlit("");
                }
                ""
            },
        }
    }

    /// Unsets field `shuffle`.
    pub fn clear_shuffle(&mut self)
        ensures
            final(self)@ == (StateModel { shuffle: None, ..old(self)@ }),
    {
        proof {
            use_type_invariant(&*self);
        }
        self.shuffle = None;
    }

    /// Whether field `shuffle` is set.
    pub fn has_shuffle(&self) -> (r: bool)
        ensures
            r == self@.shuffle is Some,
    {
        self.shuffle.is_some()
    }

    /// Sets field `shuffle` to `v`.
    pub fn set_shuffle(&mut self, v: bool)
        ensures
            final(self)@ == (StateModel { shuffle: Some(v), ..old(self)@ }),
    {
        proof {
            use_type_invariant(&*self);
        }
        self.shuffle = Some(v);
    }

    /// Field `shuffle`, or `false` when unset.
    pub fn get_shuffle(&self) -> (r: bool)
        ensures
            r == (match self@.shuffle { Some(x) => x, None => false }),
    {
        match self.shuffle {
            Some(x) => x,
            None => false,
        }
    }

    /// Unsets field `repeat`.
    pub fn clear_repeat(&mut self)
        ensures
            final(self)@ == (StateModel { repeat: None, ..old(self)@ }),
    {
        proof {
            use_type_invariant(&*self);
        }
        self.repeat = None;
    }

    /// Whether field `repeat` is set.
    pub fn has_repeat(&self) -> (r: bool)
        ensures
            r == self@.repeat is Some,
    {
        self.repeat.is_some()
    }

    /// Sets field `repeat` to `v`.
    pub fn set_repeat(&mut self, v: bool)
        ensures
            final(self)@ == (StateModel { repeat: Some(v), ..old(self)@ }),
    {
        proof {
            use_type_invariant(&*self);
        }
        self.repeat = Some(v);
    }

    /// Field `repeat`, or `false` when unset.
    pub fn get_repeat(&self) -> (r: bool)
        ensures
            r == (match self@.repeat { Some(x) => x, None => false }),
    {
        match self.repeat {
            Some(x) => x,
            None => false,
        }
    }

    /// Unsets field `last_command_ident`.
    pub fn clear_last_command_ident(&mut self)
        ensures
            final(self)@ == (StateModel { last_command_ident: None, ..old(self)@ }),
    {
        proof {
            use_type_invariant(&*self);
        }
        self.last_command_ident = None;
    }

    /// Whether field `last_command_ident` is set.
    pub fn has_last_command_ident(&self) -> (r: bool)
        ensures
            r == self@.last_command_ident is Some,
    {
        self.last_command_ident.is_some()
    }

    /// Sets field `last_command_ident` to `v`.
    pub fn set_last_command_ident(&mut self, v: String)
        ensures
            final(self)@ == (StateModel { last_command_ident: Some(v@), ..old(self)@ }),
    {
        proof {
            use_type_invariant(&*self);
        }
        self.last_command_ident = Some(v);
    }

    /// Field `last_command_ident`, to change in place; an unset field is first set to its default.
    pub fn mut_last_command_ident(&mut self) -> (r: &mut String)
        ensures
            r@ == chars_or_empty(old(self)@.last_command_ident),
            final(self)@ == (StateModel { last_command_ident: Some(final(r)@), ..old(self)@ }),

    {
        proof {
            use_type_invariant(&*self);
        }
        if self.last_command_ident.is_none() {
            self.last_command_ident = Some(String::new());
        }
        opt_as_mut(&mut self.last_command_ident).unwrap()
    }

    /// Takes field `last_command_ident` (its default when unset), leaving it unset.
    pub fn take_last_command_ident(&mut self) -> (r: String)
        ensures
            r@ == chars_or_empty(old(self)@.last_command_ident),
            final(self)@ == (StateModel { last_command_ident: None, ..old(self)@ }),
    {
        proof {
            use_type_invariant(&*self);
        }
        let mut t = None;
        std::mem::swap(&mut t, &mut self.last_command_ident);
        match t {
            Some(v) => v,
            None => String::new(),
        }
    }

    /// Field `last_command_ident`, or the empty string when unset.
    pub fn get_last_command_ident(&self) -> (r: &str)
        ensures
            r@ == chars_or_empty(self@.last_command_ident),
    {
        match &self.last_command_ident {
            Some(v) => v.as_str(),
            None => {
                proof {
                    reveal_strlit("");
                }
                ""
            },
        }
    }

    /// Unsets field `last_command_msgid`.
    pub fn clear_last_command_msgid(&mut self)
        ensures
            final(self)@ == (StateModel { last_command_msgid: None, ..old(self)@ }),
    {
        proof {
            use_type_invariant(&*self);
        }
        self.last_command_msgid = None;
    }

    /// Whether field `last_command_msgid` is set.
    pub fn has_last_command_msgid(&self) -> (r: bool)
        ensures
            r == self@.last_command_msgid is Some,
    {
        self.last_command_msgid.is_some()
    }

    /// Sets field `last_command_msgid` to `v`.
    pub fn set_last_command_msgid(&mut self, v: u32)
        ensures
            final(self)@ == (StateModel { last_command_msgid: Some(v), ..old(self)@ }),
    {
        proof {
            use_type_invariant(&*self);
        }
        self.last_command_msgid = Some(v);
    }

    /// Field `last_command_msgid`, or `0` when unset.
    pub fn get_last_command_msgid(&self) -> (r: u32)
        ensures
            r == (match self@.last_command_msgid { Some(x) => x, None => 0u32 }),
    {
        match self.last_command_msgid {
            Some(x) => x,
            None => 0u32,
        }
    }

    /// Unsets field `playing_from_fallback`.
    pub fn clear_playing_from_fallback(&mut self)
        ensures
            final(self)@ == (StateModel { playing_from_fallback: None, ..old(self)@ }),
    {
        proof {
            use_type_invariant(&*self);
        }
        self.playing_from_fallback = None;
    }

    /// Whether field `playing_from_fallback` is set.
    pub fn has_playing_from_fallback(&self) -> (r: bool)
        ensures
            r == self@.playing_from_fallback is Some,
    {
        self.playing_from_fallback.is_some()
    }

    /// Sets field `playing_from_fallback` to `v`.
    pub fn set_playing_from_fallback(&mut self, v: bool)
        ensures
            final(self)@ == (StateModel { playing_from_fallback: Some(v), ..old(self)@ }),
    {
        proof {
            use_type_invariant(&*self);
        }
        self.playing_from_fallback = Some(v);
    }

    /// Field `playing_from_fallback`, or `false` when unset.
    pub fn get_playing_from_fallback(&self) -> (r: bool)
        ensures
            r == (match self@.playing_from_fallback { Some(x) => x, None => false }),
    {
        match self.playing_from_fallback {
            Some(x) => x,
            None => false,
        }
    }

    /// Unsets field `row`.
    pub fn clear_row(&mut self)
        ensures
            final(self)@ == (StateModel { row: None, ..old(self)@ }),
    {
        proof {
            use_type_invariant(&*self);
        }
        self.row = None;
    }

    /// Whether field `row` is set.
    pub fn has_row(&self) -> (r: bool)
        ensures
            r == self@.row is Some,
    {
        self.row.is_some()
    }

    /// Sets field `row` to `v`.
    pub fn set_row(&mut self, v: u32)
        ensures
            final(self)@ == (StateModel { row: Some(v), ..old(self)@ }),
    {
        proof {
            use_type_invariant(&*self);
        }
        self.row = Some(v);
    }

    /// Field `row`, or `0` when unset.
    pub fn get_row(&self) -> (r: u32)
        ensures
            r == (match self@.row { Some(x) => x, None => 0u32 }),
    {
        match self.row {
            Some(x) => x,
            None => 0u32,
        }
    }

    /// Unsets field `playing_track_index`.
    pub fn clear_playing_track_index(&mut self)
        ensures
            final(self)@ == (StateModel { playing_track_index: None, ..old(self)@ }),
    {
        proof {
            use_type_invariant(&*self);
        }
        self.playing_track_index = None;
    }

    /// Whether field `playing_track_index` is set.
    pub fn has_playing_track_index(&self) -> (r: bool)
        ensures
            r == self@.playing_track_index is Some,
    {
        self.playing_track_index.is_some()
    }

    /// Sets field `playing_track_index` to `v`.
    pub fn set_playing_track_index(&mut self, v: u32)
        ensures
            final(self)@ == (StateModel { playing_track_index: Some(v), ..old(self)@ }),
    {
        proof {
            use_type_invariant(&*self);
        }
        self.playing_track_index = Some(v);
    }

    /// Field `playing_track_index`, or `0` when unset.
    pub fn get_playing_track_index(&self) -> (r: u32)
        ensures
            r == (match self@.playing_track_index { Some(x) => x, None => 0u32 }),
    {
        match self.playing_track_index {
            Some(x) => x,
            None => 0u32,
        }
    }

    /// Empties field `track`.
    pub fn clear_track(&mut self)
        ensures
            final(self)@ == (StateModel { track: Seq::empty(), ..old(self)@ }),
    {
        proof {
            use_type_invariant(&*self);
        }
        self.track = Vec::new();
        assert(TrackRef::seq_model(self.track@) =~= Seq::<TrackRefModel>::empty());
    }

    /// Sets field `track` to the elements of `v`.
    pub fn set_track(&mut self, v: Vec<TrackRef>)
        ensures
            final(self)@ == (StateModel { track: TrackRef::seq_model(v@), ..old(self)@ }),
    {
        proof {
            use_type_invariant(&*self);
        }
        self.track = v;
    }

    /// The elements of field `track`, to change in place.
    pub fn mut_track(&mut self) -> (r: &mut Vec<TrackRef>)
        ensures
            TrackRef::seq_model(r@) == old(self)@.track,
            final(self)@ == (StateModel { track: TrackRef::seq_model(final(r)@), ..old(self)@ }),
    {
        proof {
            use_type_invariant(&*self);
        }
        field_mut(&mut self.track)
    }

    /// Takes the elements of field `track`, leaving it empty.
    pub fn take_track(&mut self) -> (r: Vec<TrackRef>)
        ensures
            TrackRef::seq_model(r@) == old(self)@.track,
            final(self)@ == (StateModel { track: Seq::empty(), ..old(self)@ }),
    {
        proof {
            use_type_invariant(&*self);
        }
        let mut r = Vec::new();
        std::mem::swap(&mut r, &mut self.track);
        assert(TrackRef::seq_model(self.track@) =~= Seq::<TrackRefModel>::empty());
        r
    }

    /// The elements of field `track`.
    pub fn get_track(&self) -> (r: &[TrackRef])
        ensures
            TrackRef::seq_model(r@) == self@.track,
    {
        self.track.as_slice()
    }

    /// Unsets field `ad`.
    pub fn clear_ad(&mut self)
        ensures
            final(self)@ == (StateModel { ad: None, ..old(self)@ }),
    {
        proof {
            use_type_invariant(&*self);
        }
        self.ad = Box::new(Ad::new());
        self.has_ad = false;
    }

    /// Whether field `ad` is set.
    pub fn has_ad(&self) -> (r: bool)
        ensures
            r == self@.ad is Some,
    {
        self.has_ad
    }

    /// Sets field `ad` to `v`.
    pub fn set_ad(&mut self, v: Ad)
        ensures
            final(self)@ == (StateModel { ad: Some(v@), ..old(self)@ }),
    {
        proof {
            use_type_invariant(&*self);
        }
        self.has_ad = true;
        self.ad = Box::new(v);
    }

    /// Field `ad`, to change in place; an unset field is first set to its default.
    pub fn mut_ad(&mut self) -> (r: &mut Ad)
        ensures
            r@ == (match old(self)@.ad { Some(x) => x, None => AdModel::empty() }),
            final(self)@ == (StateModel { ad: Some(final(r)@), ..old(self)@ }),

        no_unwind
    {
        proof {
            use_type_invariant(&*self);
        }
        self.has_ad = true;
        box_mut(&mut self.ad)
    }

    /// Takes field `ad` (its default when unset), leaving it unset.
    pub fn take_ad(&mut self) -> (r: Ad)
        ensures
            r@ == (match old(self)@.ad { Some(x) => x, None => AdModel::empty() }),
            final(self)@ == (StateModel { ad: None, ..old(self)@ }),
    {
        proof {
            use_type_invariant(&*self);
        }
        let mut b = Box::new(Ad::new());
        std::mem::swap(&mut b, &mut self.ad);
        self.has_ad = false;
        *b
    }

    /// Field `ad`, or a message with no field set when unset.
    pub fn get_ad(&self) -> (r: &Ad)
        ensures
            r@ == (match self@.ad { Some(x) => x, None => AdModel::empty() }),
    {
        proof {
            use_type_invariant(self);
        }
        &self.ad
    }

    /// Merges one field whose tag (number `f`, wire type `wt`) has been read
    /// from the bytes `s` that follow the tag; returns the number of bytes the
    /// value took.
    fn merge_field(&mut self, f: u32, wt: u32, s: &[u8], lim: u64) -> (r: Option<usize>)
        ensures
            match old(self)@.merge_field(f, wt, s@, lim as nat) {
                Some((m, k)) => r == Some(k as usize) && final(self)@ == m,
                None => r is None && final(self)@ == old(self)@.merge_field_failed(f, wt, s@, lim as nat),
            },
    {
        proof {
            use_type_invariant(&*self);
        }
        if f == 2 {
            if wt != WIRE_LENGTH_DELIMITED {
                return None;
            }
            match read_string(s) {
                Some((v, k)) => {
                    self.context_uri = Some(v);
                    Some(k)
                },
                None => {
                    self.context_uri = Some(String::new());
                    None
                },
            }
        } else if f == 3 {
            if wt != WIRE_VARINT {
                return None;
            }
            proof {
                lemma_varint_parse_len(s@);
            }
            match pb_read_raw_varint64(s) {
                Some((v, k)) => {
                    self.index = Some(v as u32);
                    Some(k)
                },
                None => None,
            }
        } else if f == 4 {
            if wt != WIRE_VARINT {
                return None;
            }
            proof {
                lemma_varint_parse_len(s@);
            }
            match pb_read_raw_varint64(s) {
                Some((v, k)) => {
                    self.position_ms = Some(v as u32);
                    Some(k)
                },
                None => None,
            }
        } else if f == 5 {
            if wt != WIRE_VARINT {
                return None;
            }
            proof {
                lemma_varint_parse_len(s@);
            }
            match pb_read_raw_varint64(s) {
                Some((v, k)) => match PlayStatus::from_i32((v as u32) as i32) {
                    Some(e) => {
                        self.status = Some(e);
                        Some(k)
                    },
                    None => None,
                },
                None => None,
            }
        } else if f == 7 {
            if wt != WIRE_VARINT {
                return None;
            }
            proof {
                lemma_varint_parse_len(s@);
            }
            match pb_read_raw_varint64(s) {
                Some((v, k)) => {
                    self.position_measured_at = Some(v);
                    Some(k)
                },
                None => None,
            }
        } else if f == 8 {
            if wt != WIRE_LENGTH_DELIMITED {
                return None;
            }
            match read_string(s) {
                Some((v, k)) => {
                    self.context_description = Some(v);
                    Some(k)
                },
                None => {
                    self.context_description = Some(String::new());
                    None
                },
            }
        } else if f == 13 {
            if wt != WIRE_VARINT {
                return None;
            }
            proof {
                lemma_varint_parse_len(s@);
            }
            match pb_read_raw_varint64(s) {
                Some((v, k)) => {
                    self.shuffle = Some((v as u32) != 0);
                    Some(k)
                },
                None => None,
            }
        } else if f == 14 {
            if wt != WIRE_VARINT {
                return None;
            }
            proof {
                lemma_varint_parse_len(s@);
            }
            match pb_read_raw_varint64(s) {
                Some((v, k)) => {
                    self.repeat = Some((v as u32) != 0);
                    Some(k)
                },
                None => None,
            }
        } else if f == 20 {
            if wt != WIRE_LENGTH_DELIMITED {
                return None;
            }
            match read_string(s) {
                Some((v, k)) => {
                    self.last_command_ident = Some(v);
                    Some(k)
                },
                None => {
                    self.last_command_ident = Some(String::new());
                    None
                },
            }
        } else if f == 21 {
            if wt != WIRE_VARINT {
                return None;
            }
            proof {
                lemma_varint_parse_len(s@);
            }
            match pb_read_raw_varint64(s) {
                Some((v, k)) => {
                    self.last_command_msgid = Some(v as u32);
                    Some(k)
                },
                None => None,
            }
        } else if f == 24 {
            if wt != WIRE_VARINT {
                return None;
            }
            proof {
                lemma_varint_parse_len(s@);
            }
            match pb_read_raw_varint64(s) {
                Some((v, k)) => {
                    self.playing_from_fallback = Some((v as u32) != 0);
                    Some(k)
                },
                None => None,
            }
        } else if f == 25 {
            if wt != WIRE_VARINT {
                return None;
            }
            proof {
                lemma_varint_parse_len(s@);
            }
            match pb_read_raw_varint64(s) {
                Some((v, k)) => {
                    self.row = Some(v as u32);
                    Some(k)
                },
                None => None,
            }
        } else if f == 26 {
            if wt != WIRE_VARINT {
                return None;
            }
            proof {
                lemma_varint_parse_len(s@);
            }
            match pb_read_raw_varint64(s) {
                Some((v, k)) => {
                    self.playing_track_index = Some(v as u32);
                    Some(k)
                },
                None => None,
            }
        } else if f == 27 {
            if wt != WIRE_LENGTH_DELIMITED {
                return None;
            }
            match read_embedded_window(s, lim) {
                Some((a, b, past)) => {
                    if a == 0 || a > b || b > s.len() {
                        let x = TrackRef::new();
                        let ghost old_v = self.track@;
                        field_mut(&mut self.track).push(x);
                        assert(TrackRef::seq_model(self.track@) =~= TrackRef::seq_model(old_v).push(self.track@.last()@));
                        return None;
                    }
                    let sub = &s[a..b];
                    let mut x = TrackRef::new();
                    let ok = x.merge_from_slice(sub, past);
                    let ghost old_v = self.track@;
                    field_mut(&mut self.track).push(x);
                    assert(TrackRef::seq_model(self.track@) =~= TrackRef::seq_model(old_v).push(self.track@.last()@));
                    if ok {
                        Some(b)
                    } else {
                        None
                    }
                },
                None => {
                    let x = TrackRef::new();
                    let ghost old_v = self.track@;
                    field_mut(&mut self.track).push(x);
                    assert(TrackRef::seq_model(self.track@) =~= TrackRef::seq_model(old_v).push(self.track@.last()@));
                    None
                },
            }
        } else if f == 28 {
            if wt != WIRE_LENGTH_DELIMITED {
                return None;
            }
            match read_embedded_window(s, lim) {
                Some((a, b, past)) => {
                    if a == 0 || a > b || b > s.len() {
                        let x = Ad::new();
                        self.has_ad = true;
                        self.ad = Box::new(x);
                        return None;
                    }
                    let sub = &s[a..b];
                    let mut x = Ad::new();
                    let ok = x.merge_from_slice(sub, past);
                    self.has_ad = true;
                    self.ad = Box::new(x);
                    if ok {
                        Some(b)
                    } else {
                        None
                    }
                },
                None => {
                    let x = Ad::new();
                    self.has_ad = true;
                    self.ad = Box::new(x);
                    None
                },
            }
        } else {
            match read_unknown(f, wt, s) {
                Some((Some(u), k)) => {
                    insert_unknown(field_mut(&mut self.unknown_fields), u);
                    Some(k)
                },
                Some((None, k)) => Some(k),
                None => None,
            }
        }
    }

    /// Merges all the fields that `s` holds, in order; `false` when the bytes
    /// are not a valid encoding (the message then holds what was merged so far).
    #[verifier::spinoff_prover]
    #[verifier::rlimit(50)]
    fn merge_from_slice(&mut self, s: &[u8], lim: u64) -> (ok: bool)
        ensures
            match old(self)@.merge(s@, lim as nat) {
                Some(m) => ok && final(self)@ == m,
                None => !ok && final(self)@ == old(self)@.merge_partial(s@, lim as nat),
            },
    {
        proof {
            reveal_with_fuel(StateModel::merge, 1);
            reveal_with_fuel(StateModel::merge_partial, 1);
        }
        let mut pos: usize = 0;
        assert(s@.skip(0) =~= s@);
        while pos < s.len()
            invariant
                pos <= s.len(),
                old(self)@.merge(s@, lim as nat) == self@.merge(s@.skip(pos as int), lim as nat),
                old(self)@.merge_partial(s@, lim as nat) == self@.merge_partial(s@.skip(pos as int), lim as nat),
            decreases s.len() - pos,
        {
            let rest = &s[pos..s.len()];
            assert(rest@ == s@.skip(pos as int));
            proof {
                reveal_with_fuel(StateModel::merge, 1);
                reveal_with_fuel(StateModel::merge_partial, 1);
                lemma_tag_parse_len(rest@);
            }
            match pb_read_tag_unpack(rest) {
                None => {
                    return false;
                },
                Some((f, wt, n)) => {
                    if n == 0 || n > rest.len() {
                        return false;
                    }
                    let rest2 = &rest[n..rest.len()];
                    assert(rest2@ == rest@.skip(n as int));
                    proof {
                        self@.lemma_merge_field_len(f, wt, rest2@, lim as nat);
                    }
                    match self.merge_field(f, wt, rest2, lim) {
                        None => {
                            return false;
                        },
                        Some(k) => {
                            if k > rest2.len() {
                                return false;
                            }
                            assert(rest@.skip((n + k) as int) =~= s@.skip((pos + n + k) as int));
                            pos = pos + n + k;
                        },
                    }
                },
            }
        }
        assert(s@.skip(pos as int) =~= Seq::<u8>::empty());
        proof {
            reveal_with_fuel(StateModel::merge, 1);
        }
        true
    }

    /// The message that `s` encodes, if it is a valid encoding.
    fn parse_slice(s: &[u8], lim: u64) -> (r: Option<Self>)
        ensures
            match StateModel::empty().merge(s@, lim as nat) {
                Some(m) => r matches Some(x) && x@ == m,
                None => r is None,
            },
    {
        let mut m = State::new();
        if m.merge_from_slice(s, lim) {
            Some(m)
        } else {
            None
        }
    }

    /// Merges the fields that `bytes` encodes into this message, in order: a set
    /// field is replaced, a repeated field grows. On an invalid encoding the
    /// error comes back, the fields merged before the first field that could not
    /// be read stay merged, and that field is left as `merge_field_failed` says.
    pub fn merge_from_bytes(&mut self, bytes: &[u8]) -> (r: Result<(), DecodeError>)
        ensures
            match old(self)@.merge(bytes@, top_limit(bytes@.len())) {
                Some(m) => r is Ok && final(self)@ == m,
                None => r is Err && final(self)@ == old(self)@.merge_partial(bytes@, top_limit(bytes@.len())),
            },
    {
        let lim: u64 = u64::MAX - bytes.len() as u64;
        if self.merge_from_slice(bytes, lim) {
            Ok(())
        } else {
            Err(DecodeError)
        }
    }

    /// Parses a message from its encoding.
    pub fn parse_from_bytes(bytes: &[u8]) -> (r: Result<Self, DecodeError>)
        ensures
            match StateModel::empty().merge(bytes@, top_limit(bytes@.len())) {
                Some(m) => r matches Ok(x) && x@ == m,
                None => r is Err,
            },
    {
        let lim: u64 = u64::MAX - bytes.len() as u64;
        match Self::parse_slice(bytes, lim) {
            Some(m) => Ok(m),
            None => Err(DecodeError),
        }
    }

    /// Appends the encoding of field `context_uri` to `out`.
    fn write_field_context_uri(&self, out: &mut Vec<u8>)
        requires
            self@.wf(),
        ensures
            final(out)@ == old(out)@ + opt_length_delimited_field_bytes(2, match self@.context_uri { Some(c) => Some(encode_utf8(c)), None => None }),
            final(out)@ + self@.encoded_from_index() == old(out)@ + self@.encoded_from_context_uri(),
    {
        proof {
            use_type_invariant(self);
        }
        proof {
            reveal(StateModel::wf);
        }
        let ghost o = out@;
        let ghost m = self@;
        match &self.context_uri {
            Some(v) => {
                pb_write_tag(out, 2, WIRE_LENGTH_DELIMITED);
                write_string_value(out, v.as_str());
                proof {
                    lemma_concat_assoc(o, tag_bytes(2, WIRE_LENGTH_DELIMITED), bytes_value_bytes(encode_utf8(v@)));
                }
            },
            None => {
                assert(o + Seq::<u8>::empty() =~= o);
            },
        }
        proof {
            lemma_concat_assoc(o, opt_length_delimited_field_bytes(2, match m.context_uri { Some(c) => Some(encode_utf8(c)), None => None }), m.encoded_from_index());
        }
    }

    /// Appends the encoding of field `index` to `out`.
    fn write_field_index(&self, out: &mut Vec<u8>)
        requires
            self@.wf(),
        ensures
            final(out)@ == old(out)@ + opt_varint_field_bytes(3, match self@.index { Some(x) => Some(x as u64), None => None }),
            final(out)@ + self@.encoded_from_position_ms() == old(out)@ + self@.encoded_from_index(),
    {
        proof {
            use_type_invariant(self);
        }
        proof {
            reveal(StateModel::wf);
        }
        let ghost o = out@;
        let ghost m = self@;
        match self.index {
            Some(x) => {
                pb_write_tag(out, 3, WIRE_VARINT);
                pb_write_raw_varint64(out, x as u64);
                proof {
                    lemma_concat_assoc(o, tag_bytes(3, WIRE_VARINT), varint_bytes(x as u64));
                }
            },
            None => {
                assert(o + Seq::<u8>::empty() =~= o);
            },
        }
        proof {
            lemma_concat_assoc(o, opt_varint_field_bytes(3, match m.index { Some(x) => Some(x as u64), None => None }), m.encoded_from_position_ms());
        }
    }

    /// Appends the encoding of field `position_ms` to `out`.
    fn write_field_position_ms(&self, out: &mut Vec<u8>)
        requires
            self@.wf(),
        ensures
            final(out)@ == old(out)@ + opt_varint_field_bytes(4, match self@.position_ms { Some(x) => Some(x as u64), None => None }),
            final(out)@ + self@.encoded_from_status() == old(out)@ + self@.encoded_from_position_ms(),
    {
        proof {
            use_type_invariant(self);
        }
        proof {
            reveal(StateModel::wf);
        }
        let ghost o = out@;
        let ghost m = self@;
        match self.position_ms {
            Some(x) => {
                pb_write_tag(out, 4, WIRE_VARINT);
                pb_write_raw_varint64(out, x as u64);
                proof {
                    lemma_concat_assoc(o, tag_bytes(4, WIRE_VARINT), varint_bytes(x as u64));
                }
            },
            None => {
                assert(o + Seq::<u8>::empty() =~= o);
            },
        }
        proof {
            lemma_concat_assoc(o, opt_varint_field_bytes(4, match m.position_ms { Some(x) => Some(x as u64), None => None }), m.encoded_from_status());
        }
    }

    /// Appends the encoding of field `status` to `out`.
    fn write_field_status(&self, out: &mut Vec<u8>)
        requires
            self@.wf(),
        ensures
            final(out)@ == old(out)@ + opt_varint_field_bytes(5, match self@.status { Some(x) => Some(int32_varint(x.spec_value())), None => None }),
            final(out)@ + self@.encoded_from_position_measured_at() == old(out)@ + self@.encoded_from_status(),
    {
        proof {
            use_type_invariant(self);
        }
        proof {
            reveal(StateModel::wf);
        }
        let ghost o = out@;
        let ghost m = self@;
        match self.status {
            Some(x) => {
                pb_write_tag(out, 5, WIRE_VARINT);
                pb_write_raw_varint64(out, x.value() as u64);
                proof {
                    lemma_concat_assoc(o, tag_bytes(5, WIRE_VARINT), varint_bytes(int32_varint(x.spec_value())));
                }
            },
            None => {
                assert(o + Seq::<u8>::empty() =~= o);
            },
        }
        proof {
            lemma_concat_assoc(o, opt_varint_field_bytes(5, match m.status { Some(x) => Some(int32_varint(x.spec_value())), None => None }), m.encoded_from_position_measured_at());
        }
    }

    /// Appends the encoding of field `position_measured_at` to `out`.
    fn write_field_position_measured_at(&self, out: &mut Vec<u8>)
        requires
            self@.wf(),
        ensures
            final(out)@ == old(out)@ + opt_varint_field_bytes(7, match self@.position_measured_at { Some(x) => Some(x), None => None }),
            final(out)@ + self@.encoded_from_context_description() == old(out)@ + self@.encoded_from_position_measured_at(),
    {
        proof {
            use_type_invariant(self);
        }
        proof {
            reveal(StateModel::wf);
        }
        let ghost o = out@;
        let ghost m = self@;
        match self.position_measured_at {
            Some(x) => {
                pb_write_tag(out, 7, WIRE_VARINT);
                pb_write_raw_varint64(out, x);
                proof {
                    lemma_concat_assoc(o, tag_bytes(7, WIRE_VARINT), varint_bytes(x));
                }
            },
            None => {
                assert(o + Seq::<u8>::empty() =~= o);
            },
        }
        proof {
            lemma_concat_assoc(o, opt_varint_field_bytes(7, match m.position_measured_at { Some(x) => Some(x), None => None }), m.encoded_from_context_description());
        }
    }

    /// Appends the encoding of field `context_description` to `out`.
    fn write_field_context_description(&self, out: &mut Vec<u8>)
        requires
            self@.wf(),
        ensures
            final(out)@ == old(out)@ + opt_length_delimited_field_bytes(8, match self@.context_description { Some(c) => Some(encode_utf8(c)), None => None }),
            final(out)@ + self@.encoded_from_shuffle() == old(out)@ + self@.encoded_from_context_description(),
    {
        proof {
            use_type_invariant(self);
        }
        proof {
            reveal(StateModel::wf);
        }
        let ghost o = out@;
        let ghost m = self@;
        match &self.context_description {
            Some(v) => {
                pb_write_tag(out, 8, WIRE_LENGTH_DELIMITED);
                write_string_value(out, v.as_str());
                proof {
                    lemma_concat_assoc(o, tag_bytes(8, WIRE_LENGTH_DELIMITED), bytes_value_bytes(encode_utf8(v@)));
                }
            },
            None => {
                assert(o + Seq::<u8>::empty() =~= o);
            },
        }
        proof {
            lemma_concat_assoc(o, opt_length_delimited_field_bytes(8, match m.context_description { Some(c) => Some(encode_utf8(c)), None => None }), m.encoded_from_shuffle());
        }
    }

    /// Appends the encoding of field `shuffle` to `out`.
    fn write_field_shuffle(&self, out: &mut Vec<u8>)
        requires
            self@.wf(),
        ensures
            final(out)@ == old(out)@ + opt_varint_field_bytes(13, match self@.shuffle { Some(x) => Some(bool_varint(x)), None => None }),
            final(out)@ + self@.encoded_from_repeat() == old(out)@ + self@.encoded_from_shuffle(),
    {
        proof {
            use_type_invariant(self);
        }
        proof {
            reveal(StateModel::wf);
        }
        let ghost o = out@;
        let ghost m = self@;
        match self.shuffle {
            Some(x) => {
                pb_write_tag(out, 13, WIRE_VARINT);
                pb_write_raw_varint64(out, if x {
                    1
                } else {
                    0
                });
                proof {
                    lemma_concat_assoc(o, tag_bytes(13, WIRE_VARINT), varint_bytes(bool_varint(x)));
                }
            },
            None => {
                assert(o + Seq::<u8>::empty() =~= o);
            },
        }
        proof {
            lemma_concat_assoc(o, opt_varint_field_bytes(13, match m.shuffle { Some(x) => Some(bool_varint(x)), None => None }), m.encoded_from_repeat());
        }
    }

    /// Appends the encoding of field `repeat` to `out`.
    fn write_field_repeat(&self, out: &mut Vec<u8>)
        requires
            self@.wf(),
        ensures
            final(out)@ == old(out)@ + opt_varint_field_bytes(14, match self@.repeat { Some(x) => Some(bool_varint(x)), None => None }),
            final(out)@ + self@.encoded_from_last_command_ident() == old(out)@ + self@.encoded_from_repeat(),
    {
        proof {
            use_type_invariant(self);
        }
        proof {
            reveal(StateModel::wf);
        }
        let ghost o = out@;
        let ghost m = self@;
        match self.repeat {
            Some(x) => {
                pb_write_tag(out, 14, WIRE_VARINT);
                pb_write_raw_varint64(out, if x {
                    1
                } else {
                    0
                });
                proof {
                    lemma_concat_assoc(o, tag_bytes(14, WIRE_VARINT), varint_bytes(bool_varint(x)));
                }
            },
            None => {
                assert(o + Seq::<u8>::empty() =~= o);
            },
        }
        proof {
            lemma_concat_assoc(o, opt_varint_field_bytes(14, match m.repeat { Some(x) => Some(bool_varint(x)), None => None }), m.encoded_from_last_command_ident());
        }
    }

    /// Appends the encoding of field `last_command_ident` to `out`.
    fn write_field_last_command_ident(&self, out: &mut Vec<u8>)
        requires
            self@.wf(),
        ensures
            final(out)@ == old(out)@ + opt_length_delimited_field_bytes(20, match self@.last_command_ident { Some(c) => Some(encode_utf8(c)), None => None }),
            final(out)@ + self@.encoded_from_last_command_msgid() == old(out)@ + self@.encoded_from_last_command_ident(),
    {
        proof {
            use_type_invariant(self);
        }
        proof {
            reveal(StateModel::wf);
        }
        let ghost o = out@;
        let ghost m = self@;
        match &self.last_command_ident {
            Some(v) => {
                pb_write_tag(out, 20, WIRE_LENGTH_DELIMITED);
                write_string_value(out, v.as_str());
                proof {
                    lemma_concat_assoc(o, tag_bytes(20, WIRE_LENGTH_DELIMITED), bytes_value_bytes(encode_utf8(v@)));
                }
            },
            None => {
                assert(o + Seq::<u8>::empty() =~= o);
            },
        }
        proof {
            lemma_concat_assoc(o, opt_length_delimited_field_bytes(20, match m.last_command_ident { Some(c) => Some(encode_utf8(c)), None => None }), m.encoded_from_last_command_msgid());
        }
    }

    /// Appends the encoding of field `last_command_msgid` to `out`.
    fn write_field_last_command_msgid(&self, out: &mut Vec<u8>)
        requires
            self@.wf(),
        ensures
            final(out)@ == old(out)@ + opt_varint_field_bytes(21, match self@.last_command_msgid { Some(x) => Some(x as u64), None => None }),
            final(out)@ + self@.encoded_from_playing_from_fallback() == old(out)@ + self@.encoded_from_last_command_msgid(),
    {
        proof {
            use_type_invariant(self);
        }
        proof {
            reveal(StateModel::wf);
        }
        let ghost o = out@;
        let ghost m = self@;
        match self.last_command_msgid {
            Some(x) => {
                pb_write_tag(out, 21, WIRE_VARINT);
                pb_write_raw_varint64(out, x as u64);
                proof {
                    lemma_concat_assoc(o, tag_bytes(21, WIRE_VARINT), varint_bytes(x as u64));
                }
            },
            None => {
                assert(o + Seq::<u8>::empty() =~= o);
            },
        }
        proof {
            lemma_concat_assoc(o, opt_varint_field_bytes(21, match m.last_command_msgid { Some(x) => Some(x as u64), None => None }), m.encoded_from_playing_from_fallback());
        }
    }

    /// Appends the encoding of field `playing_from_fallback` to `out`.
    fn write_field_playing_from_fallback(&self, out: &mut Vec<u8>)
        requires
            self@.wf(),
        ensures
            final(out)@ == old(out)@ + opt_varint_field_bytes(24, match self@.playing_from_fallback { Some(x) => Some(bool_varint(x)), None => None }),
            final(out)@ + self@.encoded_from_row() == old(out)@ + self@.encoded_from_playing_from_fallback(),
    {
        proof {
            use_type_invariant(self);
        }
        proof {
            reveal(StateModel::wf);
        }
        let ghost o = out@;
        let ghost m = self@;
        match self.playing_from_fallback {
            Some(x) => {
                pb_write_tag(out, 24, WIRE_VARINT);
                pb_write_raw_varint64(out, if x {
                    1
                } else {
                    0
                });
                proof {
                    lemma_concat_assoc(o, tag_bytes(24, WIRE_VARINT), varint_bytes(bool_varint(x)));
                }
            },
            None => {
                assert(o + Seq::<u8>::empty() =~= o);
            },
        }
        proof {
            lemma_concat_assoc(o, opt_varint_field_bytes(24, match m.playing_from_fallback { Some(x) => Some(bool_varint(x)), None => None }), m.encoded_from_row());
        }
    }

    /// Appends the encoding of field `row` to `out`.
    fn write_field_row(&self, out: &mut Vec<u8>)
        requires
            self@.wf(),
        ensures
            final(out)@ == old(out)@ + opt_varint_field_bytes(25, match self@.row { Some(x) => Some(x as u64), None => None }),
            final(out)@ + self@.encoded_from_playing_track_index() == old(out)@ + self@.encoded_from_row(),
    {
        proof {
            use_type_invariant(self);
        }
        proof {
            reveal(StateModel::wf);
        }
        let ghost o = out@;
        let ghost m = self@;
        match self.row {
            Some(x) => {
                pb_write_tag(out, 25, WIRE_VARINT);
                pb_write_raw_varint64(out, x as u64);
                proof {
                    lemma_concat_assoc(o, tag_bytes(25, WIRE_VARINT), varint_bytes(x as u64));
                }
            },
            None => {
                assert(o + Seq::<u8>::empty() =~= o);
            },
        }
        proof {
            lemma_concat_assoc(o, opt_varint_field_bytes(25, match m.row { Some(x) => Some(x as u64), None => None }), m.encoded_from_playing_track_index());
        }
    }

    /// Appends the encoding of field `playing_track_index` to `out`.
    fn write_field_playing_track_index(&self, out: &mut Vec<u8>)
        requires
            self@.wf(),
        ensures
            final(out)@ == old(out)@ + opt_varint_field_bytes(26, match self@.playing_track_index { Some(x) => Some(x as u64), None => None }),
            final(out)@ + self@.encoded_from_track() == old(out)@ + self@.encoded_from_playing_track_index(),
    {
        proof {
            use_type_invariant(self);
        }
        proof {
            reveal(StateModel::wf);
        }
        let ghost o = out@;
        let ghost m = self@;
        match self.playing_track_index {
            Some(x) => {
                pb_write_tag(out, 26, WIRE_VARINT);
                pb_write_raw_varint64(out, x as u64);
                proof {
                    lemma_concat_assoc(o, tag_bytes(26, WIRE_VARINT), varint_bytes(x as u64));
                }
            },
            None => {
                assert(o + Seq::<u8>::empty() =~= o);
            },
        }
        proof {
            lemma_concat_assoc(o, opt_varint_field_bytes(26, match m.playing_track_index { Some(x) => Some(x as u64), None => None }), m.encoded_from_track());
        }
    }

    /// Appends the encoding of field `track` to `out`.
    fn write_field_track(&self, out: &mut Vec<u8>)
        requires
            self@.wf(),
        ensures
            final(out)@ == old(out)@ + length_delimited_list_bytes(27, TrackRefModel::encodings(self@.track)),
            final(out)@ + self@.encoded_from_ad() == old(out)@ + self@.encoded_from_track(),
    {
        proof {
            use_type_invariant(self);
        }
        proof {
            reveal(StateModel::wf);
        }
        let ghost o = out@;
        let ghost m = self@;
        let ghost w = TrackRefModel::encodings(m.track);
        assert(w.subrange(0, w.len() as int) =~= w);
        assert(o + Seq::<u8>::empty() =~= o);
        let mut i: usize = 0;
        while i < self.track.len()
            invariant
                i <= self.track.len(),
                self@ == m,
                m.wf(),
                w.len() == self.track@.len(),
                w == TrackRefModel::encodings(m.track),
                o + length_delimited_list_bytes(27, w) == out@ + length_delimited_list_bytes(27, w.subrange(i as int, w.len() as int)),
            decreases self.track.len() - i,
        {
            proof {
                reveal(StateModel::wf);
                lemma_length_delimited_list_cons(27, w.subrange(i as int, w.len() as int));
                assert(m.track[i as int] == self.track@[i as int]@);
                assert(m.track[i as int].wf());
                assert(w.subrange(i as int, w.len() as int)[0] == w[i as int]);
                assert(w.subrange(i as int, w.len() as int).subrange(1, w.len() - i) =~= w.subrange(i + 1, w.len() as int));
            }
            let ghost before = out@;
            let mut tmp: Vec<u8> = Vec::new();
            self.track[i].write_to(&mut tmp);
            assert(tmp@ =~= w[i as int]);
            pb_write_tag(out, 27, WIRE_LENGTH_DELIMITED);
            write_bytes_value(out, tmp.as_slice());
            proof {
                lemma_write_list_step(before, tag_bytes(27, WIRE_LENGTH_DELIMITED), bytes_value_bytes(w[i as int]), length_delimited_list_bytes(27, w.subrange(i + 1, w.len() as int)), Seq::<u8>::empty());
                assert(length_delimited_list_bytes(27, w.subrange(i + 1, w.len() as int)) + Seq::<u8>::empty() =~= length_delimited_list_bytes(27, w.subrange(i + 1, w.len() as int)));
                assert(tag_bytes(27, WIRE_LENGTH_DELIMITED) + (bytes_value_bytes(w[i as int]) + length_delimited_list_bytes(27, w.subrange(i + 1, w.len() as int))) + Seq::<u8>::empty() =~= tag_bytes(27, WIRE_LENGTH_DELIMITED) + (bytes_value_bytes(w[i as int]) + length_delimited_list_bytes(27, w.subrange(i + 1, w.len() as int))));
            }
            i = i + 1;
        }
        assert(w.subrange(i as int, w.len() as int) =~= Seq::<Seq<u8>>::empty());
        assert(out@ + Seq::<u8>::empty() =~= out@);
        proof {
            lemma_concat_assoc(o, length_delimited_list_bytes(27, TrackRefModel::encodings(m.track)), m.encoded_from_ad());
        }
    }

    /// Appends the encoding of field `ad` to `out`.
    fn write_field_ad(&self, out: &mut Vec<u8>)
        requires
            self@.wf(),
        ensures
            final(out)@ == old(out)@ + opt_length_delimited_field_bytes(28, match self@.ad { Some(m) => Some(m.to_bytes()), None => None }),
            final(out)@ + self@.encoded_from_unknown_fields() == old(out)@ + self@.encoded_from_ad(),
    {
        proof {
            use_type_invariant(self);
        }
        proof {
            reveal(StateModel::wf);
        }
        let ghost o = out@;
        let ghost m = self@;
        if self.has_ad {
            let mut tmp: Vec<u8> = Vec::new();
            self.ad.write_to(&mut tmp);
            assert(tmp@ =~= m.ad.unwrap().to_bytes());
            pb_write_tag(out, 28, WIRE_LENGTH_DELIMITED);
            write_bytes_value(out, tmp.as_slice());
            proof {
                lemma_concat_assoc(o, tag_bytes(28, WIRE_LENGTH_DELIMITED), bytes_value_bytes(tmp@));
            }
        } else {
            assert(o + Seq::<u8>::empty() =~= o);
        }
        proof {
            lemma_concat_assoc(o, opt_length_delimited_field_bytes(28, match m.ad { Some(m) => Some(m.to_bytes()), None => None }), m.encoded_from_unknown_fields());
        }
    }

    /// Appends the fields of unknown numbers to `out`.
    fn write_unknown_fields(&self, out: &mut Vec<u8>)
        requires
            self@.wf(),
        ensures
            final(out)@ == old(out)@ + unknown_list_bytes(self@.unknown_fields),
    {
        proof {
            reveal(StateModel::wf);
        }
        let ghost o = out@;
        let ghost m = self@;
        let mut j: usize = 0;
        assert(m.unknown_fields.subrange(0, m.unknown_fields.len() as int) =~= m.unknown_fields);
        assert(o + Seq::<u8>::empty() =~= o);
        while j < self.unknown_fields.len()
            invariant
                j <= self.unknown_fields.len(),
                self@ == m,
                m.wf(),
                o + unknown_list_bytes(m.unknown_fields) == out@ + unknown_list_bytes(m.unknown_fields.subrange(j as int, m.unknown_fields.len() as int)),
            decreases self.unknown_fields.len() - j,
        {
            proof {
                reveal(StateModel::wf);
                lemma_unknown_list_cons(m.unknown_fields.subrange(j as int, m.unknown_fields.len() as int));
                assert(m.unknown_fields[j as int] == self.unknown_fields@[j as int]@);
                assert(m.unknown_fields.subrange(j as int, m.unknown_fields.len() as int)[0] == m.unknown_fields[j as int]);
                assert(m.unknown_fields.subrange(j as int, m.unknown_fields.len() as int).subrange(1, m.unknown_fields.len() - j) =~= m.unknown_fields.subrange(j + 1, m.unknown_fields.len() as int));
            }
            let ghost before = out@;
            write_unknown(out, &self.unknown_fields[j]);
            proof {
                lemma_concat_assoc(before, unknown_field_bytes(m.unknown_fields[j as int]), unknown_list_bytes(m.unknown_fields.subrange(j + 1, m.unknown_fields.len() as int)));
            }
            j = j + 1;
        }
        assert(m.unknown_fields.subrange(j as int, m.unknown_fields.len() as int) =~= Seq::<UnknownFieldModel>::empty());
        assert(out@ =~= o + unknown_list_bytes(m.unknown_fields));
    }

    /// Appends the encoding of the message to `out`.
    fn write_to(&self, out: &mut Vec<u8>)
        requires
            self@.wf(),
        ensures
            final(out)@ == old(out)@ + self@.to_bytes(),
    {
        proof {
            reveal(StateModel::to_bytes);
        }
        let ghost o = out@;
        let ghost m = self@;
        assert(o + m.to_bytes() == out@ + m.encoded_from_context_uri());
        self.write_field_context_uri(out);
        self.write_field_index(out);
        self.write_field_position_ms(out);
        self.write_field_status(out);
        self.write_field_position_measured_at(out);
        self.write_field_context_description(out);
        self.write_field_shuffle(out);
        self.write_field_repeat(out);
        self.write_field_last_command_ident(out);
        self.write_field_last_command_msgid(out);
        self.write_field_playing_from_fallback(out);
        self.write_field_row(out);
        self.write_field_playing_track_index(out);
        self.write_field_track(out);
        self.write_field_ad(out);
        self.write_unknown_fields(out);
    }

    /// The encoding of the message.
    pub fn write_to_bytes(&self) -> (r: Vec<u8>)
        requires
            self@.wf(),
        ensures
            r@ == self@.to_bytes(),
    {
        let mut out: Vec<u8> = Vec::new();
        self.write_to(&mut out);
        assert(out@ =~= self@.to_bytes());
        out
    }

    /// The length of the encoding of the message.
    pub fn compute_size(&self) -> (r: u32)
        requires
            self@.wf(),
            self@.to_bytes().len() <= u32::MAX,
        ensures
            r == self@.to_bytes().len(),
    {
        let v = self.write_to_bytes();
        v.len() as u32
    }
    /// A copy of the message.
    pub fn clone_message(&self) -> (r: Self)
        ensures
            r@ == self@,
    {
        proof {
            use_type_invariant(self);
        }
        let context_uri = clone_opt_string(&self.context_uri);
        let index = self.index;
        let position_ms = self.position_ms;
        let status = self.status;
        let position_measured_at = self.position_measured_at;
        let context_description = clone_opt_string(&self.context_description);
        let shuffle = self.shuffle;
        let repeat = self.repeat;
        let last_command_ident = clone_opt_string(&self.last_command_ident);
        let last_command_msgid = self.last_command_msgid;
        let playing_from_fallback = self.playing_from_fallback;
        let row = self.row;
        let playing_track_index = self.playing_track_index;
        let mut track: Vec<TrackRef> = Vec::new();
        let mut i: usize = 0;
        while i < self.track.len()
            invariant
                i <= self.track@.len(),
                track@.len() == i,
                forall|j: int| 0 <= j < i ==> #[trigger] track@[j]@ == self.track@[j]@,
            decreases self.track@.len() - i,
        {
            track.push(self.track[i].clone_message());
            i = i + 1;
        }
        assert(TrackRef::seq_model(track@) =~= TrackRef::seq_model(self.track@));
        let ad = Box::new(self.ad.clone_message());
        let has_ad = self.has_ad;
        let unknown_fields = clone_unknown_fields(&self.unknown_fields);
        State { context_uri, index, position_ms, status, position_measured_at, context_description, shuffle, repeat, last_command_ident, last_command_msgid, playing_from_fallback, row, playing_track_index, track, has_ad, ad, unknown_fields }
    }

}

impl Clone for State {
    fn clone(&self) -> (r: Self)
        ensures
            r@ == self@,
    {
        self.clone_message()
    }
}

impl Default for State {
    fn default() -> (r: Self)
        ensures
            r@ == StateModel::empty(),
    {
        State::new()
    }
}

/// The `TrackRef` message.
#[allow(non_snake_case)]
#[derive(Debug, PartialEq)]
pub struct TrackRef {
    gid: Option<Vec<u8>>,
    uri: Option<String>,
    queued: Option<bool>,
    context: Option<String>,
    unknown_fields: Vec<UnknownField>,
}

/// The model of a `TrackRef`: each field's value, `None` or empty when unset,
/// and the fields of unknown numbers, in the order they were read.
#[allow(non_snake_case)]
pub struct TrackRefModel {
    pub gid: Option<Seq<u8>>,
    pub uri: Option<Seq<char>>,
    pub queued: Option<bool>,
    pub context: Option<Seq<char>>,
    pub unknown_fields: Seq<UnknownFieldModel>,
}

impl View for TrackRef {
    type V = TrackRefModel;

    closed spec fn view(&self) -> TrackRefModel {
        TrackRefModel {
            gid: opt_view(self.gid),
            uri: opt_view(self.uri),
            queued: self.queued,
            context: opt_view(self.context),
            unknown_fields: unknown_models(self.unknown_fields@),
        }
    }
}

#[allow(non_snake_case)]
impl TrackRefModel {
    /// The model of a message with no field set.
    pub open spec fn empty() -> Self {
        TrackRefModel {
            gid: None,
            uri: None,
            queued: None,
            context: None,
            unknown_fields: Seq::empty(),
        }
    }

    /// The encodings of a list of messages.
    pub open spec fn encodings(v: Seq<TrackRefModel>) -> Seq<Seq<u8>> {
        v.map_values(|m: TrackRefModel| m.to_bytes())
    }

    /// Every message of a list can be written, and its encoding fits a 32-bit length.
    pub open spec fn all_writable(v: Seq<TrackRefModel>) -> bool {
        forall|i: int| 0 <= i < v.len() ==> #[trigger] v[i].wf() && fits_u32(v[i].to_bytes())
    }

    /// The field numbers that this message knows.
    pub open spec fn is_known_field(f: u32) -> bool {
        f == 1 || f == 2 || f == 3 || f == 4
    }

    /// Merging one field whose tag (number `f`, wire type `wt`) has been read;
    /// `s` holds the bytes after the tag. The result is the merged model and
    /// the number of bytes the value took; a set field is replaced, a repeated
    /// field grows, a field of unknown number is kept or, if a group, skipped.
    pub open spec fn merge_field(self, f: u32, wt: u32, s: Seq<u8>, lim: nat) -> Option<(Self, nat)> {
        if f == 1 {
            if wt != WIRE_LENGTH_DELIMITED {
                None
            } else {
                match bytes_parse(s) {
                    Some((c, k)) => Some((TrackRefModel { gid: Some(c), ..self }, k)),
                    None => None,
                }
            }
        } else if f == 2 {
            if wt != WIRE_LENGTH_DELIMITED {
                None
            } else {
                match string_parse(s) {
                    Some((c, k)) => Some((TrackRefModel { uri: Some(c), ..self }, k)),
                    None => None,
                }
            }
        } else if f == 3 {
            if wt != WIRE_VARINT {
                None
            } else {
                match varint_parse(s) {
                    Some((v, k)) => Some((TrackRefModel { queued: Some(varint_bool(v)), ..self }, k)),
                    None => None,
                }
            }
        } else if f == 4 {
            if wt != WIRE_LENGTH_DELIMITED {
                None
            } else {
                match string_parse(s) {
                    Some((c, k)) => Some((TrackRefModel { context: Some(c), ..self }, k)),
                    None => None,
                }
            }
        } else {
            match unknown_parse(f, wt, s) {
                Some((Some(u), k)) => Some((TrackRefModel { unknown_fields: grouped_insert(self.unknown_fields, u), ..self }, k)),
                Some((None, k)) => Some((self, k)),
                None => None,
            }
        }
    }

    /// What is left of the model when merging one field (number `f`, wire type
    /// `wt`, value at the front of `s`) fails: a string, bytes or message field
    /// of the right wire type is first set to its empty value (a repeated one
    /// gets an empty element) and an embedded message keeps the fields merged
    /// into it before the failure; packed values read before the failure stay.
    pub open spec fn merge_field_failed(self, f: u32, wt: u32, s: Seq<u8>, lim: nat) -> Self {
        if f == 1 {
            if wt != WIRE_LENGTH_DELIMITED {
                self
            } else {
                TrackRefModel { gid: Some(Seq::<u8>::empty()), ..self }
            }
        } else if f == 2 {
            if wt != WIRE_LENGTH_DELIMITED {
                self
            } else {
                TrackRefModel { uri: Some(Seq::<char>::empty()), ..self }
            }
        } else if f == 4 {
            if wt != WIRE_LENGTH_DELIMITED {
                self
            } else {
                TrackRefModel { context: Some(Seq::<char>::empty()), ..self }
            }
        } else {
            self
        }
    }

    /// The value of a merged field takes no more than the bytes after its tag.
    pub proof fn lemma_merge_field_len(self, f: u32, wt: u32, s: Seq<u8>, lim: nat)
        ensures
            self.merge_field(f, wt, s, lim) matches Some((_m, k)) ==> k <= s.len(),
    {
        lemma_varint_parse_len(s);
        crate::wire::lemma_unknown_parse_len(f, wt, s);
    }

    /// Merging all the fields that `s` holds, in order, where the length of an
    /// embedded message may reach `lim` bytes past the end of `s` (such a message
    /// is read up to the end of `s`).
    #[verifier::opaque]
    pub open spec fn merge(self, s: Seq<u8>, lim: nat) -> Option<Self>
        decreases s.len(),
    {
        if s.len() == 0 {
            Some(self)
        } else {
            match tag_parse(s) {
                Some((f, wt, n)) => if 0 < n <= s.len() {
                    match self.merge_field(f, wt, s.skip(n as int), lim) {
                        Some((m, k)) => if n + k <= s.len() {
                            m.merge(s.skip((n + k) as int), lim)
                        } else {
                            None
                        },
                        None => None,
                    }
                } else {
                    None
                },
                None => None,
            }
        }
    }

    /// What merging `s` leaves: the fields merged in order up to the first one
    /// whose tag or value cannot be read, then what `merge_field_failed` leaves of
    /// that one; all of `s` where it is a valid encoding.
    #[verifier::opaque]
    pub open spec fn merge_partial(self, s: Seq<u8>, lim: nat) -> Self
        decreases s.len(),
    {
        if s.len() == 0 {
            self
        } else {
            match tag_parse(s) {
                Some((f, wt, n)) => if 0 < n <= s.len() {
                    match self.merge_field(f, wt, s.skip(n as int), lim) {
                        Some((m, k)) => if n + k <= s.len() {
                            m.merge_partial(s.skip((n + k) as int), lim)
                        } else {
                            m
                        },
                        None => self.merge_field_failed(f, wt, s.skip(n as int), lim),
                    }
                } else {
                    self
                },
                None => self,
            }
        }
    }

    /// The encoding of field `gid` and of every field written after it.
    pub open spec fn encoded_from_gid(self) -> Seq<u8> {
        opt_length_delimited_field_bytes(1, self.gid) + self.encoded_from_uri()
    }

    /// The encoding of field `uri` and of every field written after it.
    pub open spec fn encoded_from_uri(self) -> Seq<u8> {
        opt_length_delimited_field_bytes(2, match self.uri { Some(c) => Some(encode_utf8(c)), None => None }) + self.encoded_from_queued()
    }

    /// The encoding of field `queued` and of every field written after it.
    pub open spec fn encoded_from_queued(self) -> Seq<u8> {
        opt_varint_field_bytes(3, match self.queued { Some(x) => Some(bool_varint(x)), None => None }) + self.encoded_from_context()
    }

    /// The encoding of field `context` and of every field written after it.
    pub open spec fn encoded_from_context(self) -> Seq<u8> {
        opt_length_delimited_field_bytes(4, match self.context { Some(c) => Some(encode_utf8(c)), None => None }) + self.encoded_from_unknown_fields()
    }

    /// The encoding of the fields of unknown numbers, written last.
    pub open spec fn encoded_from_unknown_fields(self) -> Seq<u8> {
        unknown_list_bytes(self.unknown_fields)
    }

    /// The encoding of the message: its set fields in order of declaration,
    /// each element of a repeated field in order, then the unknown fields.
    #[verifier::opaque]
    pub open spec fn to_bytes(self) -> Seq<u8> {
        self.encoded_from_gid()
    }

    /// A model that can be written and read back: every length fits the
    /// 32-bit length prefix, nested messages can be written, and the unknown
    /// fields have valid numbers that this message does not know.
    #[verifier::opaque]
    pub open spec fn wf(self) -> bool {
        &&& (self.gid matches Some(b) ==> fits_u32(b))
        &&& (self.uri matches Some(c) ==> fits_u32(encode_utf8(c)))
        &&& (self.context matches Some(c) ==> fits_u32(encode_utf8(c)))
        &&& (forall|i: int| 0 <= i < self.unknown_fields.len() ==> unknown_field_wf(#[trigger] self.unknown_fields[i]) && !Self::is_known_field(self.unknown_fields[i].number))
        &&& unknown_grouped(self.unknown_fields)
    }

    /// The message with no field set can be written and read back.
    pub proof fn lemma_empty_wf()
        ensures
            Self::empty().wf(),
    {
        reveal_with_fuel(TrackRefModel::wf, 1);
        lemma_grouped_empty();
    }

    /// Merging a field's tag and value, whatever follows them.
    pub proof fn lemma_merge_step(acc: Self, f: u32, wt: u32, t: Seq<u8>, b: Seq<u8>, rest: Seq<u8>, acc2: Self, lim: nat)
        requires
            tag_parse(t + (b + rest)) == Some((f, wt, t.len())),
            t.len() > 0,
            acc.merge_field(f, wt, b + rest, lim) == Some((acc2, b.len())),
        ensures
            acc.merge(t + (b + rest), lim) == acc2.merge(rest, lim),
    {
        reveal_with_fuel(TrackRefModel::merge, 1);
        lemma_skip_chunk(t, b, rest);
    }

    /// Merging the encoding of field `gid` sets it, whatever follows.
    pub proof fn lemma_merge_gid(acc: Self, v: Option<Seq<u8>>, rest: Seq<u8>, lim: nat)
        requires
            (v matches Some(b) ==> fits_u32(b)),
        ensures
            acc.merge(opt_length_delimited_field_bytes(1, v) + rest, lim) == (TrackRefModel { gid: if v is Some { v } else { acc.gid }, ..acc }).merge(rest, lim),
    {
        match v {
            None => {
                assert(opt_length_delimited_field_bytes(1, v) + rest =~= rest);
                assert((TrackRefModel { gid: acc.gid, ..acc }) == acc);
            },
            Some(x) => {
                let t = tag_bytes(1, WIRE_LENGTH_DELIMITED);
                let b = bytes_value_bytes(x);
                assert(opt_length_delimited_field_bytes(1, v) + rest =~= t + (b + rest));
                lemma_tag_roundtrip(1, WIRE_LENGTH_DELIMITED, b + rest);
                lemma_bytes_roundtrip(x, rest);
                Self::lemma_merge_step(acc, 1, WIRE_LENGTH_DELIMITED, t, b, rest, TrackRefModel { gid: v, ..acc }, lim);
            },
        }
    }

    /// Merging the encoding of field `uri` sets it, whatever follows.
    pub proof fn lemma_merge_uri(acc: Self, v: Option<Seq<char>>, rest: Seq<u8>, lim: nat)
        requires
            (v matches Some(c) ==> fits_u32(encode_utf8(c))),
        ensures
            acc.merge(opt_length_delimited_field_bytes(2, match v { Some(c) => Some(encode_utf8(c)), None => None }) + rest, lim) == (TrackRefModel { uri: if v is Some { v } else { acc.uri }, ..acc }).merge(rest, lim),
    {
        match v {
            None => {
                assert(opt_length_delimited_field_bytes(2, match v { Some(c) => Some(encode_utf8(c)), None => None }) + rest =~= rest);
                assert((TrackRefModel { uri: acc.uri, ..acc }) == acc);
            },
            Some(x) => {
                let t = tag_bytes(2, WIRE_LENGTH_DELIMITED);
                let b = bytes_value_bytes(encode_utf8(x));
                assert(opt_length_delimited_field_bytes(2, match v { Some(c) => Some(encode_utf8(c)), None => None }) + rest =~= t + (b + rest));
                lemma_tag_roundtrip(2, WIRE_LENGTH_DELIMITED, b + rest);
                lemma_string_roundtrip(x, rest);
                Self::lemma_merge_step(acc, 2, WIRE_LENGTH_DELIMITED, t, b, rest, TrackRefModel { uri: v, ..acc }, lim);
            },
        }
    }

    /// Merging the encoding of field `queued` sets it, whatever follows.
    pub proof fn lemma_merge_queued(acc: Self, v: Option<bool>, rest: Seq<u8>, lim: nat)
        ensures
            acc.merge(opt_varint_field_bytes(3, match v { Some(x) => Some(bool_varint(x)), None => None }) + rest, lim) == (TrackRefModel { queued: if v is Some { v } else { acc.queued }, ..acc }).merge(rest, lim),
    {
        match v {
            None => {
                assert(opt_varint_field_bytes(3, match v { Some(x) => Some(bool_varint(x)), None => None }) + rest =~= rest);
                assert((TrackRefModel { queued: acc.queued, ..acc }) == acc);
            },
            Some(x) => {
                let t = tag_bytes(3, WIRE_VARINT);
                let b = varint_bytes(bool_varint(x));
                assert(opt_varint_field_bytes(3, match v { Some(x) => Some(bool_varint(x)), None => None }) + rest =~= t + (b + rest));
                lemma_tag_roundtrip(3, WIRE_VARINT, b + rest);
                lemma_varint_roundtrip(bool_varint(x), rest);
                    lemma_varint_casts(0, 0, 0, x, 0);
                Self::lemma_merge_step(acc, 3, WIRE_VARINT, t, b, rest, TrackRefModel { queued: v, ..acc }, lim);
            },
        }
    }

    /// Merging the encoding of field `context` sets it, whatever follows.
    pub proof fn lemma_merge_context(acc: Self, v: Option<Seq<char>>, rest: Seq<u8>, lim: nat)
        requires
            (v matches Some(c) ==> fits_u32(encode_utf8(c))),
        ensures
            acc.merge(opt_length_delimited_field_bytes(4, match v { Some(c) => Some(encode_utf8(c)), None => None }) + rest, lim) == (TrackRefModel { context: if v is Some { v } else { acc.context }, ..acc }).merge(rest, lim),
    {
        match v {
            None => {
                assert(opt_length_delimited_field_bytes(4, match v { Some(c) => Some(encode_utf8(c)), None => None }) + rest =~= rest);
                assert((TrackRefModel { context: acc.context, ..acc }) == acc);
            },
            Some(x) => {
                let t = tag_bytes(4, WIRE_LENGTH_DELIMITED);
                let b = bytes_value_bytes(encode_utf8(x));
                assert(opt_length_delimited_field_bytes(4, match v { Some(c) => Some(encode_utf8(c)), None => None }) + rest =~= t + (b + rest));
                lemma_tag_roundtrip(4, WIRE_LENGTH_DELIMITED, b + rest);
                lemma_string_roundtrip(x, rest);
                Self::lemma_merge_step(acc, 4, WIRE_LENGTH_DELIMITED, t, b, rest, TrackRefModel { context: v, ..acc }, lim);
            },
        }
    }

    /// Merging the encoding of fields of unknown numbers keeps them, whatever follows.
    #[verifier::rlimit(50)]
    pub proof fn lemma_merge_unknown_fields(acc: Self, v: Seq<UnknownFieldModel>, rest: Seq<u8>, lim: nat)
        requires
            forall|i: int| 0 <= i < v.len() ==> unknown_field_wf(#[trigger] v[i]) && !Self::is_known_field(v[i].number),
            unknown_grouped(acc.unknown_fields + v),
        ensures
            acc.merge(unknown_list_bytes(v) + rest, lim) == (TrackRefModel { unknown_fields: acc.unknown_fields + v, ..acc }).merge(rest, lim),
        decreases v.len(),
    {
        if v.len() == 0 {
            assert(unknown_list_bytes(v) + rest =~= rest);
            assert(acc.unknown_fields + v =~= acc.unknown_fields);
            assert((TrackRefModel { unknown_fields: acc.unknown_fields + v, ..acc }) == acc);
        } else {
            lemma_unknown_list_cons(v);
            let u = v[0];
            let wt = crate::wire::unknown_wire_type(u.value);
            let t = tag_bytes(u.number, wt);
            let b = crate::wire::unknown_value_bytes(u.value);
            let tail = unknown_list_bytes(v.subrange(1, v.len() as int));
            assert(unknown_list_bytes(v) + rest =~= t + (b + (tail + rest)));
            assert(unknown_field_bytes(u) + (tail + rest) =~= t + (b + (tail + rest)));
            lemma_unknown_roundtrip(u, tail + rest);
            assert((t + (b + (tail + rest))).skip(t.len() as int) =~= b + (tail + rest));
            crate::wire::lemma_tag_roundtrip(u.number, wt, b + (tail + rest));
            let acc1 = TrackRefModel { unknown_fields: acc.unknown_fields.push(u), ..acc };
            assert(acc.unknown_fields.push(u) =~= (acc.unknown_fields + v).take(acc.unknown_fields.len() + 1int));
            lemma_grouped_take(acc.unknown_fields + v, acc.unknown_fields.len() + 1int);
            lemma_grouped_insert_last(acc.unknown_fields, u);
            Self::lemma_merge_step(acc, u.number, wt, t, b, tail + rest, acc1, lim);
            assert(acc1.unknown_fields + v.subrange(1, v.len() as int) =~= acc.unknown_fields + v);
            Self::lemma_merge_unknown_fields(acc1, v.subrange(1, v.len() as int), rest, lim);
        }
    }

    /// Reading back the encoding of a model that can be written gives the model,
    /// whatever the limit past its end.
    #[verifier::spinoff_prover]
    #[verifier::rlimit(100)]
    pub proof fn lemma_roundtrip(self, lim: nat)
        requires
            self.wf(),
        ensures
            TrackRefModel::empty().merge(self.to_bytes(), lim) == Some(self),
    {
        reveal(TrackRefModel::to_bytes);
        reveal(TrackRefModel::wf);
        reveal_with_fuel(TrackRefModel::merge, 1);
        let a0 = TrackRefModel::empty();
        assert((self.gid matches Some(b) ==> fits_u32(b)));
        Self::lemma_merge_gid(a0, self.gid, self.encoded_from_uri(), lim);
        let a1 = TrackRefModel { gid: if self.gid is Some { self.gid } else { a0.gid }, ..a0 };
        assert((self.uri matches Some(c) ==> fits_u32(encode_utf8(c))));
        Self::lemma_merge_uri(a1, self.uri, self.encoded_from_queued(), lim);
        let a2 = TrackRefModel { uri: if self.uri is Some { self.uri } else { a1.uri }, ..a1 };
        Self::lemma_merge_queued(a2, self.queued, self.encoded_from_context(), lim);
        let a3 = TrackRefModel { queued: if self.queued is Some { self.queued } else { a2.queued }, ..a2 };
        assert((self.context matches Some(c) ==> fits_u32(encode_utf8(c))));
        Self::lemma_merge_context(a3, self.context, self.encoded_from_unknown_fields(), lim);
        let a4 = TrackRefModel { context: if self.context is Some { self.context } else { a3.context }, ..a3 };
        assert(a4.unknown_fields + self.unknown_fields =~= self.unknown_fields);
        Self::lemma_merge_unknown_fields(a4, self.unknown_fields, Seq::empty(), lim);
        assert(unknown_list_bytes(self.unknown_fields) + Seq::<u8>::empty() =~= unknown_list_bytes(self.unknown_fields));
        let last = TrackRefModel { unknown_fields: a4.unknown_fields + self.unknown_fields, ..a4 };
        assert(last.unknown_fields =~= self.unknown_fields);
        assert(last == self);
    }
    /// A message whose only set field is `gid` is written as field number 1 of the
    /// protocol's definition alone: the tag of that number with the wire type of the field,
    /// then the value.
    pub proof fn lemma_encoding_of_gid(v: Option<Seq<u8>>)
        ensures
            (TrackRefModel { gid: v, ..TrackRefModel::empty() }).to_bytes() == opt_length_delimited_field_bytes(1, v),
    {
        reveal(TrackRefModel::to_bytes);
        let m = TrackRefModel { gid: v, ..TrackRefModel::empty() };
        assert(m.to_bytes() =~= opt_length_delimited_field_bytes(1, v));
    }

    /// A message whose only set field is `uri` is written as field number 2 of the
    /// protocol's definition alone: the tag of that number with the wire type of the field,
    /// then the value.
    pub proof fn lemma_encoding_of_uri(v: Option<Seq<char>>)
        ensures
            (TrackRefModel { uri: v, ..TrackRefModel::empty() }).to_bytes() == opt_length_delimited_field_bytes(2, match v { Some(c) => Some(encode_utf8(c)), None => None }),
    {
        reveal(TrackRefModel::to_bytes);
        let m = TrackRefModel { uri: v, ..TrackRefModel::empty() };
        assert(m.to_bytes() =~= opt_length_delimited_field_bytes(2, match v { Some(c) => Some(encode_utf8(c)), None => None }));
    }

    /// A message whose only set field is `queued` is written as field number 3 of the
    /// protocol's definition alone: the tag of that number with the wire type of the field,
    /// then the value.
    pub proof fn lemma_encoding_of_queued(v: Option<bool>)
        ensures
            (TrackRefModel { queued: v, ..TrackRefModel::empty() }).to_bytes() == opt_varint_field_bytes(3, match v { Some(x) => Some(bool_varint(x)), None => None }),
    {
        reveal(TrackRefModel::to_bytes);
        let m = TrackRefModel { queued: v, ..TrackRefModel::empty() };
        assert(m.to_bytes() =~= opt_varint_field_bytes(3, match v { Some(x) => Some(bool_varint(x)), None => None }));
    }

    /// A message whose only set field is `context` is written as field number 4 of the
    /// protocol's definition alone: the tag of that number with the wire type of the field,
    /// then the value.
    pub proof fn lemma_encoding_of_context(v: Option<Seq<char>>)
        ensures
            (TrackRefModel { context: v, ..TrackRefModel::empty() }).to_bytes() == opt_length_delimited_field_bytes(4, match v { Some(c) => Some(encode_utf8(c)), None => None }),
    {
        reveal(TrackRefModel::to_bytes);
        let m = TrackRefModel { context: v, ..TrackRefModel::empty() };
        assert(m.to_bytes() =~= opt_length_delimited_field_bytes(4, match v { Some(c) => Some(encode_utf8(c)), None => None }));
    }

}

#[allow(non_snake_case)]
impl TrackRef {
    /// The models of a list of messages.
    pub open spec fn seq_model(v: Seq<TrackRef>) -> Seq<TrackRefModel> {
        v.map_values(|m: TrackRef| m@)
    }

    /// A message with no field set.
    pub fn new() -> (r: Self)
        ensures
            r@ == TrackRefModel::empty(),
            r@.wf(),
    {
        let r = TrackRef {
            gid: None,
            uri: None,
            queued: None,
            context: None,
            unknown_fields: Vec::new(),
        };
        assert(unknown_models(r.unknown_fields@) =~= Seq::<UnknownFieldModel>::empty());
        proof {
            TrackRefModel::lemma_empty_wf();
        }
        r
    }

    /// Unsets field `gid`.
    pub fn clear_gid(&mut self)
        ensures
            final(self)@ == (TrackRefModel { gid: None, ..old(self)@ }),
    {
        self.gid = None;
    }

    /// Whether field `gid` is set.
    pub fn has_gid(&self) -> (r: bool)
        ensures
            r == self@.gid is Some,
    {
        self.gid.is_some()
    }

    /// Sets field `gid` to `v`.
    pub fn set_gid(&mut self, v: Vec<u8>)
        ensures
            final(self)@ == (TrackRefModel { gid: Some(v@), ..old(self)@ }),
    {
        self.gid = Some(v);
    }

    /// Field `gid`, to change in place; an unset field is first set to its default.
    pub fn mut_gid(&mut self) -> (r: &mut Vec<u8>)
        ensures
            r@ == bytes_or_empty(old(self)@.gid),
            final(self)@ == (TrackRefModel { gid: Some(final(r)@), ..old(self)@ }),

    {
        if self.gid.is_none() {
            self.gid = Some(Vec::new());
        }
        opt_as_mut(&mut self.gid).unwrap()
    }

    /// Takes field `gid` (its default when unset), leaving it unset.
    pub fn take_gid(&mut self) -> (r: Vec<u8>)
        ensures
            r@ == bytes_or_empty(old(self)@.gid),
            final(self)@ == (TrackRefModel { gid: None, ..old(self)@ }),
    {
        let mut t = None;
        std::mem::swap(&mut t, &mut self.gid);
        match t {
            Some(v) => v,
            None => Vec::new(),
        }
    }

    /// Field `gid`, or no bytes when unset.
    pub fn get_gid(&self) -> (r: &[u8])
        ensures
            r@ == bytes_or_empty(self@.gid),
    {
        match &self.gid {
            Some(v) => v.as_slice(),
            None => &[],
        }
    }

    /// Unsets field `uri`.
    pub fn clear_uri(&mut self)
        ensures
            final(self)@ == (TrackRefModel { uri: None, ..old(self)@ }),
    {
        self.uri = None;
    }

    /// Whether field `uri` is set.
    pub fn has_uri(&self) -> (r: bool)
        ensures
            r == self@.uri is Some,
    {
        self.uri.is_some()
    }

    /// Sets field `uri` to `v`.
    pub fn set_uri(&mut self, v: String)
        ensures
            final(self)@ == (TrackRefModel { uri: Some(v@), ..old(self)@ }),
    {
        self.uri = Some(v);
    }

    /// Field `uri`, to change in place; an unset field is first set to its default.
    pub fn mut_uri(&mut self) -> (r: &mut String)
        ensures
            r@ == chars_or_empty(old(self)@.uri),
            final(self)@ == (TrackRefModel { uri: Some(final(r)@), ..old(self)@ }),

    {
        if self.uri.is_none() {
            self.uri = Some(String::new());
        }
        opt_as_mut(&mut self.uri).unwrap()
    }

    /// Takes field `uri` (its default when unset), leaving it unset.
    pub fn take_uri(&mut self) -> (r: String)
        ensures
            r@ == chars_or_empty(old(self)@.uri),
            final(self)@ == (TrackRefModel { uri: None, ..old(self)@ }),
    {
        let mut t = None;
        std::mem::swap(&mut t, &mut self.uri);
        match t {
            Some(v) => v,
            None => String::new(),
        }
    }

    /// Field `uri`, or the empty string when unset.
    pub fn get_uri(&self) -> (r: &str)
        ensures
            r@ == chars_or_empty(self@.uri),
    {
        match &self.uri {
            Some(v) => v.as_str(),
            None => {
                proof {
                    reveal_strlit("");
                }
                ""
            },
        }
    }

    /// Unsets field `queued`.
    pub fn clear_queued(&mut self)
        ensures
            final(self)@ == (TrackRefModel { queued: None, ..old(self)@ }),
    {
        self.queued = None;
    }

    /// Whether field `queued` is set.
    pub fn has_queued(&self) -> (r: bool)
        ensures
            r == self@.queued is Some,
    {
        self.queued.is_some()
    }

    /// Sets field `queued` to `v`.
    pub fn set_queued(&mut self, v: bool)
        ensures
            final(self)@ == (TrackRefModel { queued: Some(v), ..old(self)@ }),
    {
        self.queued = Some(v);
    }

    /// Field `queued`, or `false` when unset.
    pub fn get_queued(&self) -> (r: bool)
        ensures
            r == (match self@.queued { Some(x) => x, None => false }),
    {
        match self.queued {
            Some(x) => x,
            None => false,
        }
    }

    /// Unsets field `context`.
    pub fn clear_context(&mut self)
        ensures
            final(self)@ == (TrackRefModel { context: None, ..old(self)@ }),
    {
        self.context = None;
    }

    /// Whether field `context` is set.
    pub fn has_context(&self) -> (r: bool)
        ensures
            r == self@.context is Some,
    {
        self.context.is_some()
    }

    /// Sets field `context` to `v`.
    pub fn set_context(&mut self, v: String)
        ensures
            final(self)@ == (TrackRefModel { context: Some(v@), ..old(self)@ }),
    {
        self.context = Some(v);
    }

    /// Field `context`, to change in place; an unset field is first set to its default.
    pub fn mut_context(&mut self) -> (r: &mut String)
        ensures
            r@ == chars_or_empty(old(self)@.context),
            final(self)@ == (TrackRefModel { context: Some(final(r)@), ..old(self)@ }),

    {
        if self.context.is_none() {
            self.context = Some(String::new());
        }
        opt_as_mut(&mut self.context).unwrap()
    }

    /// Takes field `context` (its default when unset), leaving it unset.
    pub fn take_context(&mut self) -> (r: String)
        ensures
            r@ == chars_or_empty(old(self)@.context),
            final(self)@ == (TrackRefModel { context: None, ..old(self)@ }),
    {
        let mut t = None;
        std::mem::swap(&mut t, &mut self.context);
        match t {
            Some(v) => v,
            None => String::new(),
        }
    }

    /// Field `context`, or the empty string when unset.
    pub fn get_context(&self) -> (r: &str)
        ensures
            r@ == chars_or_empty(self@.context),
    {
        match &self.context {
            Some(v) => v.as_str(),
            None => {
                proof {
                    reveal_strlit("");
                }
                ""
            },
        }
    }

    /// Merges one field whose tag (number `f`, wire type `wt`) has been read
    /// from the bytes `s` that follow the tag; returns the number of bytes the
    /// value took.
    fn merge_field(&mut self, f: u32, wt: u32, s: &[u8], lim: u64) -> (r: Option<usize>)
        ensures
            match old(self)@.merge_field(f, wt, s@, lim as nat) {
                Some((m, k)) => r == Some(k as usize) && final(self)@ == m,
                None => r is None && final(self)@ == old(self)@.merge_field_failed(f, wt, s@, lim as nat),
            },
    {

        if f == 1 {
            if wt != WIRE_LENGTH_DELIMITED {
                return None;
            }
            match read_bytes(s) {
                Some((v, k)) => {
                    self.gid = Some(v);
                    Some(k)
                },
                None => {
                    self.gid = Some(Vec::new());
                    None
                },
            }
        } else if f == 2 {
            if wt != WIRE_LENGTH_DELIMITED {
                return None;
            }
            match read_string(s) {
                Some((v, k)) => {
                    self.uri = Some(v);
                    Some(k)
                },
                None => {
                    self.uri = Some(String::new());
                    None
                },
            }
        } else if f == 3 {
            if wt != WIRE_VARINT {
                return None;
            }
            proof {
                lemma_varint_parse_len(s@);
            }
            match pb_read_raw_varint64(s) {
                Some((v, k)) => {
                    self.queued = Some((v as u32) != 0);
                    Some(k)
                },
                None => None,
            }
        } else if f == 4 {
            if wt != WIRE_LENGTH_DELIMITED {
                return None;
            }
            match read_string(s) {
                Some((v, k)) => {
                    self.context = Some(v);
                    Some(k)
                },
                None => {
                    self.context = Some(String::new());
                    None
                },
            }
        } else {
            match read_unknown(f, wt, s) {
                Some((Some(u), k)) => {
                    insert_unknown(field_mut(&mut self.unknown_fields), u);
                    Some(k)
                },
                Some((None, k)) => Some(k),
                None => None,
            }
        }
    }

    /// Merges all the fields that `s` holds, in order; `false` when the bytes
    /// are not a valid encoding (the message then holds what was merged so far).
    #[verifier::spinoff_prover]
    #[verifier::rlimit(50)]
    fn merge_from_slice(&mut self, s: &[u8], lim: u64) -> (ok: bool)
        ensures
            match old(self)@.merge(s@, lim as nat) {
                Some(m) => ok && final(self)@ == m,
                None => !ok && final(self)@ == old(self)@.merge_partial(s@, lim as nat),
            },
    {
        proof {
            reveal_with_fuel(TrackRefModel::merge, 1);
            reveal_with_fuel(TrackRefModel::merge_partial, 1);
        }
        let mut pos: usize = 0;
        assert(s@.skip(0) =~= s@);
        while pos < s.len()
            invariant
                pos <= s.len(),
                old(self)@.merge(s@, lim as nat) == self@.merge(s@.skip(pos as int), lim as nat),
                old(self)@.merge_partial(s@, lim as nat) == self@.merge_partial(s@.skip(pos as int), lim as nat),
            decreases s.len() - pos,
        {
            let rest = &s[pos..s.len()];
            assert(rest@ == s@.skip(pos as int));
            proof {
                reveal_with_fuel(TrackRefModel::merge, 1);
                reveal_with_fuel(TrackRefModel::merge_partial, 1);
                lemma_tag_parse_len(rest@);
            }
            match pb_read_tag_unpack(rest) {
                None => {
                    return false;
                },
                Some((f, wt, n)) => {
                    if n == 0 || n > rest.len() {
                        return false;
                    }
                    let rest2 = &rest[n..rest.len()];
                    assert(rest2@ == rest@.skip(n as int));
                    proof {
                        self@.lemma_merge_field_len(f, wt, rest2@, lim as nat);
                    }
                    match self.merge_field(f, wt, rest2, lim) {
                        None => {
                            return false;
                        },
                        Some(k) => {
                            if k > rest2.len() {
                                return false;
                            }
                            assert(rest@.skip((n + k) as int) =~= s@.skip((pos + n + k) as int));
                            pos = pos + n + k;
                        },
                    }
                },
            }
        }
        assert(s@.skip(pos as int) =~= Seq::<u8>::empty());
        proof {
            reveal_with_fuel(TrackRefModel::merge, 1);
        }
        true
    }

    /// The message that `s` encodes, if it is a valid encoding.
    fn parse_slice(s: &[u8], lim: u64) -> (r: Option<Self>)
        ensures
            match TrackRefModel::empty().merge(s@, lim as nat) {
                Some(m) => r matches Some(x) && x@ == m,
                None => r is None,
            },
    {
        let mut m = TrackRef::new();
        if m.merge_from_slice(s, lim) {
            Some(m)
        } else {
            None
        }
    }

    /// Merges the fields that `bytes` encodes into this message, in order: a set
    /// field is replaced, a repeated field grows. On an invalid encoding the
    /// error comes back, the fields merged before the first field that could not
    /// be read stay merged, and that field is left as `merge_field_failed` says.
    pub fn merge_from_bytes(&mut self, bytes: &[u8]) -> (r: Result<(), DecodeError>)
        ensures
            match old(self)@.merge(bytes@, top_limit(bytes@.len())) {
                Some(m) => r is Ok && final(self)@ == m,
                None => r is Err && final(self)@ == old(self)@.merge_partial(bytes@, top_limit(bytes@.len())),
            },
    {
        let lim: u64 = u64::MAX - bytes.len() as u64;
        if self.merge_from_slice(bytes, lim) {
            Ok(())
        } else {
            Err(DecodeError)
        }
    }

    /// Parses a message from its encoding.
    pub fn parse_from_bytes(bytes: &[u8]) -> (r: Result<Self, DecodeError>)
        ensures
            match TrackRefModel::empty().merge(bytes@, top_limit(bytes@.len())) {
                Some(m) => r matches Ok(x) && x@ == m,
                None => r is Err,
            },
    {
        let lim: u64 = u64::MAX - bytes.len() as u64;
        match Self::parse_slice(bytes, lim) {
            Some(m) => Ok(m),
            None => Err(DecodeError),
        }
    }

    /// Appends the encoding of field `gid` to `out`.
    fn write_field_gid(&self, out: &mut Vec<u8>)
        requires
            self@.wf(),
        ensures
            final(out)@ == old(out)@ + opt_length_delimited_field_bytes(1, self@.gid),
            final(out)@ + self@.encoded_from_uri() == old(out)@ + self@.encoded_from_gid(),
    {
        proof {
            reveal(TrackRefModel::wf);
        }
        let ghost o = out@;
        let ghost m = self@;
        match &self.gid {
            Some(v) => {
                pb_write_tag(out, 1, WIRE_LENGTH_DELIMITED);
                write_bytes_value(out, v.as_slice());
                proof {
                    lemma_concat_assoc(o, tag_bytes(1, WIRE_LENGTH_DELIMITED), bytes_value_bytes(v@));
                }
            },
            None => {
                assert(o + Seq::<u8>::empty() =~= o);
            },
        }
        proof {
            lemma_concat_assoc(o, opt_length_delimited_field_bytes(1, m.gid), m.encoded_from_uri());
        }
    }

    /// Appends the encoding of field `uri` to `out`.
    fn write_field_uri(&self, out: &mut Vec<u8>)
        requires
            self@.wf(),
        ensures
            final(out)@ == old(out)@ + opt_length_delimited_field_bytes(2, match self@.uri { Some(c) => Some(encode_utf8(c)), None => None }),
            final(out)@ + self@.encoded_from_queued() == old(out)@ + self@.encoded_from_uri(),
    {
        proof {
            reveal(TrackRefModel::wf);
        }
        let ghost o = out@;
        let ghost m = self@;
        match &self.uri {
            Some(v) => {
                pb_write_tag(out, 2, WIRE_LENGTH_DELIMITED);
                write_string_value(out, v.as_str());
                proof {
                    lemma_concat_assoc(o, tag_bytes(2, WIRE_LENGTH_DELIMITED), bytes_value_bytes(encode_utf8(v@)));
                }
            },
            None => {
                assert(o + Seq::<u8>::empty() =~= o);
            },
        }
        proof {
            lemma_concat_assoc(o, opt_length_delimited_field_bytes(2, match m.uri { Some(c) => Some(encode_utf8(c)), None => None }), m.encoded_from_queued());
        }
    }

    /// Appends the encoding of field `queued` to `out`.
    fn write_field_queued(&self, out: &mut Vec<u8>)
        requires
            self@.wf(),
        ensures
            final(out)@ == old(out)@ + opt_varint_field_bytes(3, match self@.queued { Some(x) => Some(bool_varint(x)), None => None }),
            final(out)@ + self@.encoded_from_context() == old(out)@ + self@.encoded_from_queued(),
    {
        proof {
            reveal(TrackRefModel::wf);
        }
        let ghost o = out@;
        let ghost m = self@;
        match self.queued {
            Some(x) => {
                pb_write_tag(out, 3, WIRE_VARINT);
                pb_write_raw_varint64(out, if x {
                    1
                } else {
                    0
                });
                proof {
                    lemma_concat_assoc(o, tag_bytes(3, WIRE_VARINT), varint_bytes(bool_varint(x)));
                }
            },
            None => {
                assert(o + Seq::<u8>::empty() =~= o);
            },
        }
        proof {
            lemma_concat_assoc(o, opt_varint_field_bytes(3, match m.queued { Some(x) => Some(bool_varint(x)), None => None }), m.encoded_from_context());
        }
    }

    /// Appends the encoding of field `context` to `out`.
    fn write_field_context(&self, out: &mut Vec<u8>)
        requires
            self@.wf(),
        ensures
            final(out)@ == old(out)@ + opt_length_delimited_field_bytes(4, match self@.context { Some(c) => Some(encode_utf8(c)), None => None }),
            final(out)@ + self@.encoded_from_unknown_fields() == old(out)@ + self@.encoded_from_context(),
    {
        proof {
            reveal(TrackRefModel::wf);
        }
        let ghost o = out@;
        let ghost m = self@;
        match &self.context {
            Some(v) => {
                pb_write_tag(out, 4, WIRE_LENGTH_DELIMITED);
                write_string_value(out, v.as_str());
                proof {
                    lemma_concat_assoc(o, tag_bytes(4, WIRE_LENGTH_DELIMITED), bytes_value_bytes(encode_utf8(v@)));
                }
            },
            None => {
                assert(o + Seq::<u8>::empty() =~= o);
            },
        }
        proof {
            lemma_concat_assoc(o, opt_length_delimited_field_bytes(4, match m.context { Some(c) => Some(encode_utf8(c)), None => None }), m.encoded_from_unknown_fields());
        }
    }

    /// Appends the fields of unknown numbers to `out`.
    fn write_unknown_fields(&self, out: &mut Vec<u8>)
        requires
            self@.wf(),
        ensures
            final(out)@ == old(out)@ + unknown_list_bytes(self@.unknown_fields),
    {
        proof {
            reveal(TrackRefModel::wf);
        }
        let ghost o = out@;
        let ghost m = self@;
        let mut j: usize = 0;
        assert(m.unknown_fields.subrange(0, m.unknown_fields.len() as int) =~= m.unknown_fields);
        assert(o + Seq::<u8>::empty() =~= o);
        while j < self.unknown_fields.len()
            invariant
                j <= self.unknown_fields.len(),
                self@ == m,
                m.wf(),
                o + unknown_list_bytes(m.unknown_fields) == out@ + unknown_list_bytes(m.unknown_fields.subrange(j as int, m.unknown_fields.len() as int)),
            decreases self.unknown_fields.len() - j,
        {
            proof {
                reveal(TrackRefModel::wf);
                lemma_unknown_list_cons(m.unknown_fields.subrange(j as int, m.unknown_fields.len() as int));
                assert(m.unknown_fields[j as int] == self.unknown_fields@[j as int]@);
                assert(m.unknown_fields.subrange(j as int, m.unknown_fields.len() as int)[0] == m.unknown_fields[j as int]);
                assert(m.unknown_fields.subrange(j as int, m.unknown_fields.len() as int).subrange(1, m.unknown_fields.len() - j) =~= m.unknown_fields.subrange(j + 1, m.unknown_fields.len() as int));
            }
            let ghost before = out@;
            write_unknown(out, &self.unknown_fields[j]);
            proof {
                lemma_concat_assoc(before, unknown_field_bytes(m.unknown_fields[j as int]), unknown_list_bytes(m.unknown_fields.subrange(j + 1, m.unknown_fields.len() as int)));
            }
            j = j + 1;
        }
        assert(m.unknown_fields.subrange(j as int, m.unknown_fields.len() as int) =~= Seq::<UnknownFieldModel>::empty());
        assert(out@ =~= o + unknown_list_bytes(m.unknown_fields));
    }

    /// Appends the encoding of the message to `out`.
    fn write_to(&self, out: &mut Vec<u8>)
        requires
            self@.wf(),
        ensures
            final(out)@ == old(out)@ + self@.to_bytes(),
    {
        proof {
            reveal(TrackRefModel::to_bytes);
        }
        let ghost o = out@;
        let ghost m = self@;
        assert(o + m.to_bytes() == out@ + m.encoded_from_gid());
        self.write_field_gid(out);
        self.write_field_uri(out);
        self.write_field_queued(out);
        self.write_field_context(out);
        self.write_unknown_fields(out);
    }

    /// The encoding of the message.
    pub fn write_to_bytes(&self) -> (r: Vec<u8>)
        requires
            self@.wf(),
        ensures
            r@ == self@.to_bytes(),
    {
        let mut out: Vec<u8> = Vec::new();
        self.write_to(&mut out);
        assert(out@ =~= self@.to_bytes());
        out
    }

    /// The length of the encoding of the message.
    pub fn compute_size(&self) -> (r: u32)
        requires
            self@.wf(),
            self@.to_bytes().len() <= u32::MAX,
        ensures
            r == self@.to_bytes().len(),
    {
        let v = self.write_to_bytes();
        v.len() as u32
    }
    /// A copy of the message.
    pub fn clone_message(&self) -> (r: Self)
        ensures
            r@ == self@,
    {
        let gid = clone_opt_bytes(&self.gid);
        let uri = clone_opt_string(&self.uri);
        let queued = self.queued;
        let context = clone_opt_string(&self.context);
        let unknown_fields = clone_unknown_fields(&self.unknown_fields);
        TrackRef { gid, uri, queued, context, unknown_fields }
    }

}

impl Clone for TrackRef {
    fn clone(&self) -> (r: Self)
        ensures
            r@ == self@,
    {
        self.clone_message()
    }
}

impl Default for TrackRef {
    fn default() -> (r: Self)
        ensures
            r@ == TrackRefModel::empty(),
    {
        TrackRef::new()
    }
}

/// The `Ad` message.
#[allow(non_snake_case)]
#[derive(Debug, PartialEq)]
pub struct Ad {
    next: Option<i32>,
    ogg_fid: Option<Vec<u8>>,
    image_fid: Option<Vec<u8>>,
    duration: Option<i32>,
    click_url: Option<String>,
    impression_url: Option<String>,
    product: Option<String>,
    advertiser: Option<String>,
    gid: Option<Vec<u8>>,
    unknown_fields: Vec<UnknownField>,
}

/// The model of a `Ad`: each field's value, `None` or empty when unset,
/// and the fields of unknown numbers, in the order they were read.
#[allow(non_snake_case)]
pub struct AdModel {
    pub next: Option<i32>,
    pub ogg_fid: Option<Seq<u8>>,
    pub image_fid: Option<Seq<u8>>,
    pub duration: Option<i32>,
    pub click_url: Option<Seq<char>>,
    pub impression_url: Option<Seq<char>>,
    pub product: Option<Seq<char>>,
    pub advertiser: Option<Seq<char>>,
    pub gid: Option<Seq<u8>>,
    pub unknown_fields: Seq<UnknownFieldModel>,
}

impl View for Ad {
    type V = AdModel;

    closed spec fn view(&self) -> AdModel {
        AdModel {
            next: self.next,
            ogg_fid: opt_view(self.ogg_fid),
            image_fid: opt_view(self.image_fid),
            duration: self.duration,
            click_url: opt_view(self.click_url),
            impression_url: opt_view(self.impression_url),
            product: opt_view(self.product),
            advertiser: opt_view(self.advertiser),
            gid: opt_view(self.gid),
            unknown_fields: unknown_models(self.unknown_fields@),
        }
    }
}

#[allow(non_snake_case)]
impl AdModel {
    /// The model of a message with no field set.
    pub open spec fn empty() -> Self {
        AdModel {
            next: None,
            ogg_fid: None,
            image_fid: None,
            duration: None,
            click_url: None,
            impression_url: None,
            product: None,
            advertiser: None,
            gid: None,
            unknown_fields: Seq::empty(),
        }
    }

    /// The encodings of a list of messages.
    pub open spec fn encodings(v: Seq<AdModel>) -> Seq<Seq<u8>> {
        v.map_values(|m: AdModel| m.to_bytes())
    }

    /// Every message of a list can be written, and its encoding fits a 32-bit length.
    pub open spec fn all_writable(v: Seq<AdModel>) -> bool {
        forall|i: int| 0 <= i < v.len() ==> #[trigger] v[i].wf() && fits_u32(v[i].to_bytes())
    }

    /// The field numbers that this message knows.
    pub open spec fn is_known_field(f: u32) -> bool {
        f == 1 || f == 2 || f == 3 || f == 4 || f == 5 || f == 6 || f == 7 || f == 8 || f == 9
    }

    /// Merging one field whose tag (number `f`, wire type `wt`) has been read;
    /// `s` holds the bytes after the tag. The result is the merged model and
    /// the number of bytes the value took; a set field is replaced, a repeated
    /// field grows, a field of unknown number is kept or, if a group, skipped.
    pub open spec fn merge_field(self, f: u32, wt: u32, s: Seq<u8>, lim: nat) -> Option<(Self, nat)> {
        if f == 1 {
            if wt != WIRE_VARINT {
                None
            } else {
                match varint_parse(s) {
                    Some((v, k)) => Some((AdModel { next: Some(varint_int32(v)), ..self }, k)),
                    None => None,
                }
            }
        } else if f == 2 {
            if wt != WIRE_LENGTH_DELIMITED {
                None
            } else {
                match bytes_parse(s) {
                    Some((c, k)) => Some((AdModel { ogg_fid: Some(c), ..self }, k)),
                    None => None,
                }
            }
        } else if f == 3 {
            if wt != WIRE_LENGTH_DELIMITED {
                None
            } else {
                match bytes_parse(s) {
                    Some((c, k)) => Some((AdModel { image_fid: Some(c), ..self }, k)),
                    None => None,
                }
            }
        } else if f == 4 {
            if wt != WIRE_VARINT {
                None
            } else {
                match varint_parse(s) {
                    Some((v, k)) => Some((AdModel { duration: Some(varint_int32(v)), ..self }, k)),
                    None => None,
                }
            }
        } else if f == 5 {
            if wt != WIRE_LENGTH_DELIMITED {
                None
            } else {
                match string_parse(s) {
                    Some((c, k)) => Some((AdModel { click_url: Some(c), ..self }, k)),
                    None => None,
                }
            }
        } else if f == 6 {
            if wt != WIRE_LENGTH_DELIMITED {
                None
            } else {
                match string_parse(s) {
                    Some((c, k)) => Some((AdModel { impression_url: Some(c), ..self }, k)),
                    None => None,
                }
            }
        } else if f == 7 {
            if wt != WIRE_LENGTH_DELIMITED {
                None
            } else {
                match string_parse(s) {
                    Some((c, k)) => Some((AdModel { product: Some(c), ..self }, k)),
                    None => None,
                }
            }
        } else if f == 8 {
            if wt != WIRE_LENGTH_DELIMITED {
                None
            } else {
                match string_parse(s) {
                    Some((c, k)) => Some((AdModel { advertiser: Some(c), ..self }, k)),
                    None => None,
                }
            }
        } else if f == 9 {
            if wt != WIRE_LENGTH_DELIMITED {
                None
            } else {
                match bytes_parse(s) {
                    Some((c, k)) => Some((AdModel { gid: Some(c), ..self }, k)),
                    None => None,
                }
            }
        } else {
            match unknown_parse(f, wt, s) {
                Some((Some(u), k)) => Some((AdModel { unknown_fields: grouped_insert(self.unknown_fields, u), ..self }, k)),
                Some((None, k)) => Some((self, k)),
                None => None,
            }
        }
    }

    /// What is left of the model when merging one field (number `f`, wire type
    /// `wt`, value at the front of `s`) fails: a string, bytes or message field
    /// of the right wire type is first set to its empty value (a repeated one
    /// gets an empty element) and an embedded message keeps the fields merged
    /// into it before the failure; packed values read before the failure stay.
    pub open spec fn merge_field_failed(self, f: u32, wt: u32, s: Seq<u8>, lim: nat) -> Self {
        if f == 2 {
            if wt != WIRE_LENGTH_DELIMITED {
                self
            } else {
                AdModel { ogg_fid: Some(Seq::<u8>::empty()), ..self }
            }
        } else if f == 3 {
            if wt != WIRE_LENGTH_DELIMITED {
                self
            } else {
                AdModel { image_fid: Some(Seq::<u8>::empty()), ..self }
            }
        } else if f == 5 {
            if wt != WIRE_LENGTH_DELIMITED {
                self
            } else {
                AdModel { click_url: Some(Seq::<char>::empty()), ..self }
            }
        } else if f == 6 {
            if wt != WIRE_LENGTH_DELIMITED {
                self
            } else {
                AdModel { impression_url: Some(Seq::<char>::empty()), ..self }
            }
        } else if f == 7 {
            if wt != WIRE_LENGTH_DELIMITED {
                self
            } else {
                AdModel { product: Some(Seq::<char>::empty()), ..self }
            }
        } else if f == 8 {
            if wt != WIRE_LENGTH_DELIMITED {
                self
            } else {
                AdModel { advertiser: Some(Seq::<char>::empty()), ..self }
            }
        } else if f == 9 {
            if wt != WIRE_LENGTH_DELIMITED {
                self
            } else {
                AdModel { gid: Some(Seq::<u8>::empty()), ..self }
            }
        } else {
            self
        }
    }

    /// The value of a merged field takes no more than the bytes after its tag.
    pub proof fn lemma_merge_field_len(self, f: u32, wt: u32, s: Seq<u8>, lim: nat)
        ensures
            self.merge_field(f, wt, s, lim) matches Some((_m, k)) ==> k <= s.len(),
    {
        lemma_varint_parse_len(s);
        crate::wire::lemma_unknown_parse_len(f, wt, s);
    }

    /// Merging all the fields that `s` holds, in order, where the length of an
    /// embedded message may reach `lim` bytes past the end of `s` (such a message
    /// is read up to the end of `s`).
    #[verifier::opaque]
    pub open spec fn merge(self, s: Seq<u8>, lim: nat) -> Option<Self>
        decreases s.len(),
    {
        if s.len() == 0 {
            Some(self)
        } else {
            match tag_parse(s) {
                Some((f, wt, n)) => if 0 < n <= s.len() {
                    match self.merge_field(f, wt, s.skip(n as int), lim) {
                        Some((m, k)) => if n + k <= s.len() {
                            m.merge(s.skip((n + k) as int), lim)
                        } else {
                            None
                        },
                        None => None,
                    }
                } else {
                    None
                },
                None => None,
            }
        }
    }

    /// What merging `s` leaves: the fields merged in order up to the first one
    /// whose tag or value cannot be read, then what `merge_field_failed` leaves of
    /// that one; all of `s` where it is a valid encoding.
    #[verifier::opaque]
    pub open spec fn merge_partial(self, s: Seq<u8>, lim: nat) -> Self
        decreases s.len(),
    {
        if s.len() == 0 {
            self
        } else {
            match tag_parse(s) {
                Some((f, wt, n)) => if 0 < n <= s.len() {
                    match self.merge_field(f, wt, s.skip(n as int), lim) {
                        Some((m, k)) => if n + k <= s.len() {
                            m.merge_partial(s.skip((n + k) as int), lim)
                        } else {
                            m
                        },
                        None => self.merge_field_failed(f, wt, s.skip(n as int), lim),
                    }
                } else {
                    self
                },
                None => self,
            }
        }
    }

    /// The encoding of field `next` and of every field written after it.
    pub open spec fn encoded_from_next(self) -> Seq<u8> {
        opt_varint_field_bytes(1, match self.next { Some(x) => Some(int32_varint(x)), None => None }) + self.encoded_from_ogg_fid()
    }

    /// The encoding of field `ogg_fid` and of every field written after it.
    pub open spec fn encoded_from_ogg_fid(self) -> Seq<u8> {
        opt_length_delimited_field_bytes(2, self.ogg_fid) + self.encoded_from_image_fid()
    }

    /// The encoding of field `image_fid` and of every field written after it.
    pub open spec fn encoded_from_image_fid(self) -> Seq<u8> {
        opt_length_delimited_field_bytes(3, self.image_fid) + self.encoded_from_duration()
    }

    /// The encoding of field `duration` and of every field written after it.
    pub open spec fn encoded_from_duration(self) -> Seq<u8> {
        opt_varint_field_bytes(4, match self.duration { Some(x) => Some(int32_varint(x)), None => None }) + self.encoded_from_click_url()
    }

    /// The encoding of field `click_url` and of every field written after it.
    pub open spec fn encoded_from_click_url(self) -> Seq<u8> {
        opt_length_delimited_field_bytes(5, match self.click_url { Some(c) => Some(encode_utf8(c)), None => None }) + self.encoded_from_impression_url()
    }

    /// The encoding of field `impression_url` and of every field written after it.
    pub open spec fn encoded_from_impression_url(self) -> Seq<u8> {
        opt_length_delimited_field_bytes(6, match self.impression_url { Some(c) => Some(encode_utf8(c)), None => None }) + self.encoded_from_product()
    }

    /// The encoding of field `product` and of every field written after it.
    pub open spec fn encoded_from_product(self) -> Seq<u8> {
        opt_length_delimited_field_bytes(7, match self.product { Some(c) => Some(encode_utf8(c)), None => None }) + self.encoded_from_advertiser()
    }

    /// The encoding of field `advertiser` and of every field written after it.
    pub open spec fn encoded_from_advertiser(self) -> Seq<u8> {
        opt_length_delimited_field_bytes(8, match self.advertiser { Some(c) => Some(encode_utf8(c)), None => None }) + self.encoded_from_gid()
    }

    /// The encoding of field `gid` and of every field written after it.
    pub open spec fn encoded_from_gid(self) -> Seq<u8> {
        opt_length_delimited_field_bytes(9, self.gid) + self.encoded_from_unknown_fields()
    }

    /// The encoding of the fields of unknown numbers, written last.
    pub open spec fn encoded_from_unknown_fields(self) -> Seq<u8> {
        unknown_list_bytes(self.unknown_fields)
    }

    /// The encoding of the message: its set fields in order of declaration,
    /// each element of a repeated field in order, then the unknown fields.
    #[verifier::opaque]
    pub open spec fn to_bytes(self) -> Seq<u8> {
        self.encoded_from_next()
    }

    /// A model that can be written and read back: every length fits the
    /// 32-bit length prefix, nested messages can be written, and the unknown
    /// fields have valid numbers that this message does not know.
    #[verifier::opaque]
    pub open spec fn wf(self) -> bool {
        &&& (self.ogg_fid matches Some(b) ==> fits_u32(b))
        &&& (self.image_fid matches Some(b) ==> fits_u32(b))
        &&& (self.click_url matches Some(c) ==> fits_u32(encode_utf8(c)))
        &&& (self.impression_url matches Some(c) ==> fits_u32(encode_utf8(c)))
        &&& (self.product matches Some(c) ==> fits_u32(encode_utf8(c)))
        &&& (self.advertiser matches Some(c) ==> fits_u32(encode_utf8(c)))
        &&& (self.gid matches Some(b) ==> fits_u32(b))
        &&& (forall|i: int| 0 <= i < self.unknown_fields.len() ==> unknown_field_wf(#[trigger] self.unknown_fields[i]) && !Self::is_known_field(self.unknown_fields[i].number))
        &&& unknown_grouped(self.unknown_fields)
    }

    /// The message with no field set can be written and read back.
    pub proof fn lemma_empty_wf()
        ensures
            Self::empty().wf(),
    {
        reveal_with_fuel(AdModel::wf, 1);
        lemma_grouped_empty();
    }

    /// Merging a field's tag and value, whatever follows them.
    pub proof fn lemma_merge_step(acc: Self, f: u32, wt: u32, t: Seq<u8>, b: Seq<u8>, rest: Seq<u8>, acc2: Self, lim: nat)
        requires
            tag_parse(t + (b + rest)) == Some((f, wt, t.len())),
            t.len() > 0,
            acc.merge_field(f, wt, b + rest, lim) == Some((acc2, b.len())),
        ensures
            acc.merge(t + (b + rest), lim) == acc2.merge(rest, lim),
    {
        reveal_with_fuel(AdModel::merge, 1);
        lemma_skip_chunk(t, b, rest);
    }

    /// Merging the encoding of field `next` sets it, whatever follows.
    pub proof fn lemma_merge_next(acc: Self, v: Option<i32>, rest: Seq<u8>, lim: nat)
        ensures
            acc.merge(opt_varint_field_bytes(1, match v { Some(x) => Some(int32_varint(x)), None => None }) + rest, lim) == (AdModel { next: if v is Some { v } else { acc.next }, ..acc }).merge(rest, lim),
    {
        match v {
            None => {
                assert(opt_varint_field_bytes(1, match v { Some(x) => Some(int32_varint(x)), None => None }) + rest =~= rest);
                assert((AdModel { next: acc.next, ..acc }) == acc);
            },
            Some(x) => {
                let t = tag_bytes(1, WIRE_VARINT);
                let b = varint_bytes(int32_varint(x));
                assert(opt_varint_field_bytes(1, match v { Some(x) => Some(int32_varint(x)), None => None }) + rest =~= t + (b + rest));
                lemma_tag_roundtrip(1, WIRE_VARINT, b + rest);
                lemma_varint_roundtrip(int32_varint(x), rest);
                    lemma_varint_casts(x, 0, 0, false, 0);
                Self::lemma_merge_step(acc, 1, WIRE_VARINT, t, b, rest, AdModel { next: v, ..acc }, lim);
            },
        }
    }

    /// Merging the encoding of field `ogg_fid` sets it, whatever follows.
    pub proof fn lemma_merge_ogg_fid(acc: Self, v: Option<Seq<u8>>, rest: Seq<u8>, lim: nat)
        requires
            (v matches Some(b) ==> fits_u32(b)),
        ensures
            acc.merge(opt_length_delimited_field_bytes(2, v) + rest, lim) == (AdModel { ogg_fid: if v is Some { v } else { acc.ogg_fid }, ..acc }).merge(rest, lim),
    {
        match v {
            None => {
                assert(opt_length_delimited_field_bytes(2, v) + rest =~= rest);
                assert((AdModel { ogg_fid: acc.ogg_fid, ..acc }) == acc);
            },
            Some(x) => {
                let t = tag_bytes(2, WIRE_LENGTH_DELIMITED);
                let b = bytes_value_bytes(x);
                assert(opt_length_delimited_field_bytes(2, v) + rest =~= t + (b + rest));
                lemma_tag_roundtrip(2, WIRE_LENGTH_DELIMITED, b + rest);
                lemma_bytes_roundtrip(x, rest);
                Self::lemma_merge_step(acc, 2, WIRE_LENGTH_DELIMITED, t, b, rest, AdModel { ogg_fid: v, ..acc }, lim);
            },
        }
    }

    /// Merging the encoding of field `image_fid` sets it, whatever follows.
    pub proof fn lemma_merge_image_fid(acc: Self, v: Option<Seq<u8>>, rest: Seq<u8>, lim: nat)
        requires
            (v matches Some(b) ==> fits_u32(b)),
        ensures
            acc.merge(opt_length_delimited_field_bytes(3, v) + rest, lim) == (AdModel { image_fid: if v is Some { v } else { acc.image_fid }, ..acc }).merge(rest, lim),
    {
        match v {
            None => {
                assert(opt_length_delimited_field_bytes(3, v) + rest =~= rest);
                assert((AdModel { image_fid: acc.image_fid, ..acc }) == acc);
            },
            Some(x) => {
                let t = tag_bytes(3, WIRE_LENGTH_DELIMITED);
                let b = bytes_value_bytes(x);
                assert(opt_length_delimited_field_bytes(3, v) + rest =~= t + (b + rest));
                lemma_tag_roundtrip(3, WIRE_LENGTH_DELIMITED, b + rest);
                lemma_bytes_roundtrip(x, rest);
                Self::lemma_merge_step(acc, 3, WIRE_LENGTH_DELIMITED, t, b, rest, AdModel { image_fid: v, ..acc }, lim);
            },
        }
    }

    /// Merging the encoding of field `duration` sets it, whatever follows.
    pub proof fn lemma_merge_duration(acc: Self, v: Option<i32>, rest: Seq<u8>, lim: nat)
        ensures
            acc.merge(opt_varint_field_bytes(4, match v { Some(x) => Some(int32_varint(x)), None => None }) + rest, lim) == (AdModel { duration: if v is Some { v } else { acc.duration }, ..acc }).merge(rest, lim),
    {
        match v {
            None => {
                assert(opt_varint_field_bytes(4, match v { Some(x) => Some(int32_varint(x)), None => None }) + rest =~= rest);
                assert((AdModel { duration: acc.duration, ..acc }) == acc);
            },
            Some(x) => {
                let t = tag_bytes(4, WIRE_VARINT);
                let b = varint_bytes(int32_varint(x));
                assert(opt_varint_field_bytes(4, match v { Some(x) => Some(int32_varint(x)), None => None }) + rest =~= t + (b + rest));
                lemma_tag_roundtrip(4, WIRE_VARINT, b + rest);
                lemma_varint_roundtrip(int32_varint(x), rest);
                    lemma_varint_casts(x, 0, 0, false, 0);
                Self::lemma_merge_step(acc, 4, WIRE_VARINT, t, b, rest, AdModel { duration: v, ..acc }, lim);
            },
        }
    }

    /// Merging the encoding of field `click_url` sets it, whatever follows.
    pub proof fn lemma_merge_click_url(acc: Self, v: Option<Seq<char>>, rest: Seq<u8>, lim: nat)
        requires
            (v matches Some(c) ==> fits_u32(encode_utf8(c))),
        ensures
            acc.merge(opt_length_delimited_field_bytes(5, match v { Some(c) => Some(encode_utf8(c)), None => None }) + rest, lim) == (AdModel { click_url: if v is Some { v } else { acc.click_url }, ..acc }).merge(rest, lim),
    {
        match v {
            None => {
                assert(opt_length_delimited_field_bytes(5, match v { Some(c) => Some(encode_utf8(c)), None => None }) + rest =~= rest);
                assert((AdModel { click_url: acc.click_url, ..acc }) == acc);
            },
            Some(x) => {
                let t = tag_bytes(5, WIRE_LENGTH_DELIMITED);
                let b = bytes_value_bytes(encode_utf8(x));
                assert(opt_length_delimited_field_bytes(5, match v { Some(c) => Some(encode_utf8(c)), None => None }) + rest =~= t + (b + rest));
                lemma_tag_roundtrip(5, WIRE_LENGTH_DELIMITED, b + rest);
                lemma_string_roundtrip(x, rest);
                Self::lemma_merge_step(acc, 5, WIRE_LENGTH_DELIMITED, t, b, rest, AdModel { click_url: v, ..acc }, lim);
            },
        }
    }

    /// Merging the encoding of field `impression_url` sets it, whatever follows.
    pub proof fn lemma_merge_impression_url(acc: Self, v: Option<Seq<char>>, rest: Seq<u8>, lim: nat)
        requires
            (v matches Some(c) ==> fits_u32(encode_utf8(c))),
        ensures
            acc.merge(opt_length_delimited_field_bytes(6, match v { Some(c) => Some(encode_utf8(c)), None => None }) + rest, lim) == (AdModel { impression_url: if v is Some { v } else { acc.impression_url }, ..acc }).merge(rest, lim),
    {
        match v {
            None => {
                assert(opt_length_delimited_field_bytes(6, match v { Some(c) => Some(encode_utf8(c)), None => None }) + rest =~= rest);
                assert((AdModel { impression_url: acc.impression_url, ..acc }) == acc);
            },
            Some(x) => {
                let t = tag_bytes(6, WIRE_LENGTH_DELIMITED);
                let b = bytes_value_bytes(encode_utf8(x));
                assert(opt_length_delimited_field_bytes(6, match v { Some(c) => Some(encode_utf8(c)), None => None }) + rest =~= t + (b + rest));
                lemma_tag_roundtrip(6, WIRE_LENGTH_DELIMITED, b + rest);
                lemma_string_roundtrip(x, rest);
                Self::lemma_merge_step(acc, 6, WIRE_LENGTH_DELIMITED, t, b, rest, AdModel { impression_url: v, ..acc }, lim);
            },
        }
    }

    /// Merging the encoding of field `product` sets it, whatever follows.
    pub proof fn lemma_merge_product(acc: Self, v: Option<Seq<char>>, rest: Seq<u8>, lim: nat)
        requires
            (v matches Some(c) ==> fits_u32(encode_utf8(c))),
        ensures
            acc.merge(opt_length_delimited_field_bytes(7, match v { Some(c) => Some(encode_utf8(c)), None => None }) + rest, lim) == (AdModel { product: if v is Some { v } else { acc.product }, ..acc }).merge(rest, lim),
    {
        match v {
            None => {
                assert(opt_length_delimited_field_bytes(7, match v { Some(c) => Some(encode_utf8(c)), None => None }) + rest =~= rest);
                assert((AdModel { product: acc.product, ..acc }) == acc);
            },
            Some(x) => {
                let t = tag_bytes(7, WIRE_LENGTH_DELIMITED);
                let b = bytes_value_bytes(encode_utf8(x));
                assert(opt_length_delimited_field_bytes(7, match v { Some(c) => Some(encode_utf8(c)), None => None }) + rest =~= t + (b + rest));
                lemma_tag_roundtrip(7, WIRE_LENGTH_DELIMITED, b + rest);
                lemma_string_roundtrip(x, rest);
                Self::lemma_merge_step(acc, 7, WIRE_LENGTH_DELIMITED, t, b, rest, AdModel { product: v, ..acc }, lim);
            },
        }
    }

    /// Merging the encoding of field `advertiser` sets it, whatever follows.
    pub proof fn lemma_merge_advertiser(acc: Self, v: Option<Seq<char>>, rest: Seq<u8>, lim: nat)
        requires
            (v matches Some(c) ==> fits_u32(encode_utf8(c))),
        ensures
            acc.merge(opt_length_delimited_field_bytes(8, match v { Some(c) => Some(encode_utf8(c)), None => None }) + rest, lim) == (AdModel { advertiser: if v is Some { v } else { acc.advertiser }, ..acc }).merge(rest, lim),
    {
        match v {
            None => {
                assert(opt_length_delimited_field_bytes(8, match v { Some(c) => Some(encode_utf8(c)), None => None }) + rest =~= rest);
                assert((AdModel { advertiser: acc.advertiser, ..acc }) == acc);
            },
            Some(x) => {
                let t = tag_bytes(8, WIRE_LENGTH_DELIMITED);
                let b = bytes_value_bytes(encode_utf8(x));
                assert(opt_length_delimited_field_bytes(8, match v { Some(c) => Some(encode_utf8(c)), None => None }) + rest =~= t + (b + rest));
                lemma_tag_roundtrip(8, WIRE_LENGTH_DELIMITED, b + rest);
                lemma_string_roundtrip(x, rest);
                Self::lemma_merge_step(acc, 8, WIRE_LENGTH_DELIMITED, t, b, rest, AdModel { advertiser: v, ..acc }, lim);
            },
        }
    }

    /// Merging the encoding of field `gid` sets it, whatever follows.
    pub proof fn lemma_merge_gid(acc: Self, v: Option<Seq<u8>>, rest: Seq<u8>, lim: nat)
        requires
            (v matches Some(b) ==> fits_u32(b)),
        ensures
            acc.merge(opt_length_delimited_field_bytes(9, v) + rest, lim) == (AdModel { gid: if v is Some { v } else { acc.gid }, ..acc }).merge(rest, lim),
    {
        match v {
            None => {
                assert(opt_length_delimited_field_bytes(9, v) + rest =~= rest);
                assert((AdModel { gid: acc.gid, ..acc }) == acc);
            },
            Some(x) => {
                let t = tag_bytes(9, WIRE_LENGTH_DELIMITED);
                let b = bytes_value_bytes(x);
                assert(opt_length_delimited_field_bytes(9, v) + rest =~= t + (b + rest));
                lemma_tag_roundtrip(9, WIRE_LENGTH_DELIMITED, b + rest);
                lemma_bytes_roundtrip(x, rest);
                Self::lemma_merge_step(acc, 9, WIRE_LENGTH_DELIMITED, t, b, rest, AdModel { gid: v, ..acc }, lim);
            },
        }
    }

    /// Merging the encoding of fields of unknown numbers keeps them, whatever follows.
    #[verifier::rlimit(50)]
    pub proof fn lemma_merge_unknown_fields(acc: Self, v: Seq<UnknownFieldModel>, rest: Seq<u8>, lim: nat)
        requires
            forall|i: int| 0 <= i < v.len() ==> unknown_field_wf(#[trigger] v[i]) && !Self::is_known_field(v[i].number),
            unknown_grouped(acc.unknown_fields + v),
        ensures
            acc.merge(unknown_list_bytes(v) + rest, lim) == (AdModel { unknown_fields: acc.unknown_fields + v, ..acc }).merge(rest, lim),
        decreases v.len(),
    {
        if v.len() == 0 {
            assert(unknown_list_bytes(v) + rest =~= rest);
            assert(acc.unknown_fields + v =~= acc.unknown_fields);
            assert((AdModel { unknown_fields: acc.unknown_fields + v, ..acc }) == acc);
        } else {
            lemma_unknown_list_cons(v);
            let u = v[0];
            let wt = crate::wire::unknown_wire_type(u.value);
            let t = tag_bytes(u.number, wt);
            let b = crate::wire::unknown_value_bytes(u.value);
            let tail = unknown_list_bytes(v.subrange(1, v.len() as int));
            assert(unknown_list_bytes(v) + rest =~= t + (b + (tail + rest)));
            assert(unknown_field_bytes(u) + (tail + rest) =~= t + (b + (tail + rest)));
            lemma_unknown_roundtrip(u, tail + rest);
            assert((t + (b + (tail + rest))).skip(t.len() as int) =~= b + (tail + rest));
            crate::wire::lemma_tag_roundtrip(u.number, wt, b + (tail + rest));
            let acc1 = AdModel { unknown_fields: acc.unknown_fields.push(u), ..acc };
            assert(acc.unknown_fields.push(u) =~= (acc.unknown_fields + v).take(acc.unknown_fields.len() + 1int));
            lemma_grouped_take(acc.unknown_fields + v, acc.unknown_fields.len() + 1int);
            lemma_grouped_insert_last(acc.unknown_fields, u);
            Self::lemma_merge_step(acc, u.number, wt, t, b, tail + rest, acc1, lim);
            assert(acc1.unknown_fields + v.subrange(1, v.len() as int) =~= acc.unknown_fields + v);
            Self::lemma_merge_unknown_fields(acc1, v.subrange(1, v.len() as int), rest, lim);
        }
    }

    /// Reading back the encoding of a model that can be written gives the model,
    /// whatever the limit past its end.
    #[verifier::spinoff_prover]
    #[verifier::rlimit(100)]
    pub proof fn lemma_roundtrip(self, lim: nat)
        requires
            self.wf(),
        ensures
            AdModel::empty().merge(self.to_bytes(), lim) == Some(self),
    {
        reveal(AdModel::to_bytes);
        reveal(AdModel::wf);
        reveal_with_fuel(AdModel::merge, 1);
        let a0 = AdModel::empty();
        Self::lemma_merge_next(a0, self.next, self.encoded_from_ogg_fid(), lim);
        let a1 = AdModel { next: if self.next is Some { self.next } else { a0.next }, ..a0 };
        assert((self.ogg_fid matches Some(b) ==> fits_u32(b)));
        Self::lemma_merge_ogg_fid(a1, self.ogg_fid, self.encoded_from_image_fid(), lim);
        let a2 = AdModel { ogg_fid: if self.ogg_fid is Some { self.ogg_fid } else { a1.ogg_fid }, ..a1 };
        assert((self.image_fid matches Some(b) ==> fits_u32(b)));
        Self::lemma_merge_image_fid(a2, self.image_fid, self.encoded_from_duration(), lim);
        let a3 = AdModel { image_fid: if self.image_fid is Some { self.image_fid } else { a2.image_fid }, ..a2 };
        Self::lemma_merge_duration(a3, self.duration, self.encoded_from_click_url(), lim);
        let a4 = AdModel { duration: if self.duration is Some { self.duration } else { a3.duration }, ..a3 };
        assert((self.click_url matches Some(c) ==> fits_u32(encode_utf8(c))));
        Self::lemma_merge_click_url(a4, self.click_url, self.encoded_from_impression_url(), lim);
        let a5 = AdModel { click_url: if self.click_url is Some { self.click_url } else { a4.click_url }, ..a4 };
        assert((self.impression_url matches Some(c) ==> fits_u32(encode_utf8(c))));
        Self::lemma_merge_impression_url(a5, self.impression_url, self.encoded_from_product(), lim);
        let a6 = AdModel { impression_url: if self.impression_url is Some { self.impression_url } else { a5.impression_url }, ..a5 };
        assert((self.product matches Some(c) ==> fits_u32(encode_utf8(c))));
        Self::lemma_merge_product(a6, self.product, self.encoded_from_advertiser(), lim);
        let a7 = AdModel { product: if self.product is Some { self.product } else { a6.product }, ..a6 };
        assert((self.advertiser matches Some(c) ==> fits_u32(encode_utf8(c))));
        Self::lemma_merge_advertiser(a7, self.advertiser, self.encoded_from_gid(), lim);
        let a8 = AdModel { advertiser: if self.advertiser is Some { self.advertiser } else { a7.advertiser }, ..a7 };
        assert((self.gid matches Some(b) ==> fits_u32(b)));
        Self::lemma_merge_gid(a8, self.gid, self.encoded_from_unknown_fields(), lim);
        let a9 = AdModel { gid: if self.gid is Some { self.gid } else { a8.gid }, ..a8 };
        assert(a9.unknown_fields + self.unknown_fields =~= self.unknown_fields);
        Self::lemma_merge_unknown_fields(a9, self.unknown_fields, Seq::empty(), lim);
        assert(unknown_list_bytes(self.unknown_fields) + Seq::<u8>::empty() =~= unknown_list_bytes(self.unknown_fields));
        let last = AdModel { unknown_fields: a9.unknown_fields + self.unknown_fields, ..a9 };
        assert(last.unknown_fields =~= self.unknown_fields);
        assert(last == self);
    }
    /// A message whose only set field is `next` is written as field number 1 of the
    /// protocol's definition alone: the tag of that number with the wire type of the field,
    /// then the value.
    pub proof fn lemma_encoding_of_next(v: Option<i32>)
        ensures
            (AdModel { next: v, ..AdModel::empty() }).to_bytes() == opt_varint_field_bytes(1, match v { Some(x) => Some(int32_varint(x)), None => None }),
    {
        reveal(AdModel::to_bytes);
        let m = AdModel { next: v, ..AdModel::empty() };
        assert(m.to_bytes() =~= opt_varint_field_bytes(1, match v { Some(x) => Some(int32_varint(x)), None => None }));
    }

    /// A message whose only set field is `ogg_fid` is written as field number 2 of the
    /// protocol's definition alone: the tag of that number with the wire type of the field,
    /// then the value.
    pub proof fn lemma_encoding_of_ogg_fid(v: Option<Seq<u8>>)
        ensures
            (AdModel { ogg_fid: v, ..AdModel::empty() }).to_bytes() == opt_length_delimited_field_bytes(2, v),
    {
        reveal(AdModel::to_bytes);
        let m = AdModel { ogg_fid: v, ..AdModel::empty() };
        assert(m.to_bytes() =~= opt_length_delimited_field_bytes(2, v));
    }

    /// A message whose only set field is `image_fid` is written as field number 3 of the
    /// protocol's definition alone: the tag of that number with the wire type of the field,
    /// then the value.
    pub proof fn lemma_encoding_of_image_fid(v: Option<Seq<u8>>)
        ensures
            (AdModel { image_fid: v, ..AdModel::empty() }).to_bytes() == opt_length_delimited_field_bytes(3, v),
    {
        reveal(AdModel::to_bytes);
        let m = AdModel { image_fid: v, ..AdModel::empty() };
        assert(m.to_bytes() =~= opt_length_delimited_field_bytes(3, v));
    }

    /// A message whose only set field is `duration` is written as field number 4 of the
    /// protocol's definition alone: the tag of that number with the wire type of the field,
    /// then the value.
    pub proof fn lemma_encoding_of_duration(v: Option<i32>)
        ensures
            (AdModel { duration: v, ..AdModel::empty() }).to_bytes() == opt_varint_field_bytes(4, match v { Some(x) => Some(int32_varint(x)), None => None }),
    {
        reveal(AdModel::to_bytes);
        let m = AdModel { duration: v, ..AdModel::empty() };
        assert(m.to_bytes() =~= opt_varint_field_bytes(4, match v { Some(x) => Some(int32_varint(x)), None => None }));
    }

    /// A message whose only set field is `click_url` is written as field number 5 of the
    /// protocol's definition alone: the tag of that number with the wire type of the field,
    /// then the value.
    pub proof fn lemma_encoding_of_click_url(v: Option<Seq<char>>)
        ensures
            (AdModel { click_url: v, ..AdModel::empty() }).to_bytes() == opt_length_delimited_field_bytes(5, match v { Some(c) => Some(encode_utf8(c)), None => None }),
    {
        reveal(AdModel::to_bytes);
        let m = AdModel { click_url: v, ..AdModel::empty() };
        assert(m.to_bytes() =~= opt_length_delimited_field_bytes(5, match v { Some(c) => Some(encode_utf8(c)), None => None }));
    }

    /// A message whose only set field is `impression_url` is written as field number 6 of the
    /// protocol's definition alone: the tag of that number with the wire type of the field,
    /// then the value.
    pub proof fn lemma_encoding_of_impression_url(v: Option<Seq<char>>)
        ensures
            (AdModel { impression_url: v, ..AdModel::empty() }).to_bytes() == opt_length_delimited_field_bytes(6, match v { Some(c) => Some(encode_utf8(c)), None => None }),
    {
        reveal(AdModel::to_bytes);
        let m = AdModel { impression_url: v, ..AdModel::empty() };
        assert(m.to_bytes() =~= opt_length_delimited_field_bytes(6, match v { Some(c) => Some(encode_utf8(c)), None => None }));
    }

    /// A message whose only set field is `product` is written as field number 7 of the
    /// protocol's definition alone: the tag of that number with the wire type of the field,
    /// then the value.
    pub proof fn lemma_encoding_of_product(v: Option<Seq<char>>)
        ensures
            (AdModel { product: v, ..AdModel::empty() }).to_bytes() == opt_length_delimited_field_bytes(7, match v { Some(c) => Some(encode_utf8(c)), None => None }),
    {
        reveal(AdModel::to_bytes);
        let m = AdModel { product: v, ..AdModel::empty() };
        assert(m.to_bytes() =~= opt_length_delimited_field_bytes(7, match v { Some(c) => Some(encode_utf8(c)), None => None }));
    }

    /// A message whose only set field is `advertiser` is written as field number 8 of the
    /// protocol's definition alone: the tag of that number with the wire type of the field,
    /// then the value.
    pub proof fn lemma_encoding_of_advertiser(v: Option<Seq<char>>)
        ensures
            (AdModel { advertiser: v, ..AdModel::empty() }).to_bytes() == opt_length_delimited_field_bytes(8, match v { Some(c) => Some(encode_utf8(c)), None => None }),
    {
        reveal(AdModel::to_bytes);
        let m = AdModel { advertiser: v, ..AdModel::empty() };
        assert(m.to_bytes() =~= opt_length_delimited_field_bytes(8, match v { Some(c) => Some(encode_utf8(c)), None => None }));
    }

    /// A message whose only set field is `gid` is written as field number 9 of the
    /// protocol's definition alone: the tag of that number with the wire type of the field,
    /// then the value.
    pub proof fn lemma_encoding_of_gid(v: Option<Seq<u8>>)
        ensures
            (AdModel { gid: v, ..AdModel::empty() }).to_bytes() == opt_length_delimited_field_bytes(9, v),
    {
        reveal(AdModel::to_bytes);
        let m = AdModel { gid: v, ..AdModel::empty() };
        assert(m.to_bytes() =~= opt_length_delimited_field_bytes(9, v));
    }

}

#[allow(non_snake_case)]
impl Ad {
    /// The models of a list of messages.
    pub open spec fn seq_model(v: Seq<Ad>) -> Seq<AdModel> {
        v.map_values(|m: Ad| m@)
    }

    /// A message with no field set.
    pub fn new() -> (r: Self)
        ensures
            r@ == AdModel::empty(),
            r@.wf(),
    {
        let r = Ad {
            next: None,
            ogg_fid: None,
            image_fid: None,
            duration: None,
            click_url: None,
            impression_url: None,
            product: None,
            advertiser: None,
            gid: None,
            unknown_fields: Vec::new(),
        };
        assert(unknown_models(r.unknown_fields@) =~= Seq::<UnknownFieldModel>::empty());
        proof {
            AdModel::lemma_empty_wf();
        }
        r
    }

    /// Unsets field `next`.
    pub fn clear_next(&mut self)
        ensures
            final(self)@ == (AdModel { next: None, ..old(self)@ }),
    {
        self.next = None;
    }

    /// Whether field `next` is set.
    pub fn has_next(&self) -> (r: bool)
        ensures
            r == self@.next is Some,
    {
        self.next.is_some()
    }

    /// Sets field `next` to `v`.
    pub fn set_next(&mut self, v: i32)
        ensures
            final(self)@ == (AdModel { next: Some(v), ..old(self)@ }),
    {
        self.next = Some(v);
    }

    /// Field `next`, or `0` when unset.
    pub fn get_next(&self) -> (r: i32)
        ensures
            r == (match self@.next { Some(x) => x, None => 0i32 }),
    {
        match self.next {
            Some(x) => x,
            None => 0i32,
        }
    }

    /// Unsets field `ogg_fid`.
    pub fn clear_ogg_fid(&mut self)
        ensures
            final(self)@ == (AdModel { ogg_fid: None, ..old(self)@ }),
    {
        self.ogg_fid = None;
    }

    /// Whether field `ogg_fid` is set.
    pub fn has_ogg_fid(&self) -> (r: bool)
        ensures
            r == self@.ogg_fid is Some,
    {
        self.ogg_fid.is_some()
    }

    /// Sets field `ogg_fid` to `v`.
    pub fn set_ogg_fid(&mut self, v: Vec<u8>)
        ensures
            final(self)@ == (AdModel { ogg_fid: Some(v@), ..old(self)@ }),
    {
        self.ogg_fid = Some(v);
    }

    /// Field `ogg_fid`, to change in place; an unset field is first set to its default.
    pub fn mut_ogg_fid(&mut self) -> (r: &mut Vec<u8>)
        ensures
            r@ == bytes_or_empty(old(self)@.ogg_fid),
            final(self)@ == (AdModel { ogg_fid: Some(final(r)@), ..old(self)@ }),

    {
        if self.ogg_fid.is_none() {
            self.ogg_fid = Some(Vec::new());
        }
        opt_as_mut(&mut self.ogg_fid).unwrap()
    }

    /// Takes field `ogg_fid` (its default when unset), leaving it unset.
    pub fn take_ogg_fid(&mut self) -> (r: Vec<u8>)
        ensures
            r@ == bytes_or_empty(old(self)@.ogg_fid),
            final(self)@ == (AdModel { ogg_fid: None, ..old(self)@ }),
    {
        let mut t = None;
        std::mem::swap(&mut t, &mut self.ogg_fid);
        match t {
            Some(v) => v,
            None => Vec::new(),
        }
    }

    /// Field `ogg_fid`, or no bytes when unset.
    pub fn get_ogg_fid(&self) -> (r: &[u8])
        ensures
            r@ == bytes_or_empty(self@.ogg_fid),
    {
        match &self.ogg_fid {
            Some(v) => v.as_slice(),
            None => &[],
        }
    }

    /// Unsets field `image_fid`.
    pub fn clear_image_fid(&mut self)
        ensures
            final(self)@ == (AdModel { image_fid: None, ..old(self)@ }),
    {
        self.image_fid = None;
    }

    /// Whether field `image_fid` is set.
    pub fn has_image_fid(&self) -> (r: bool)
        ensures
            r == self@.image_fid is Some,
    {
        self.image_fid.is_some()
    }

    /// Sets field `image_fid` to `v`.
    pub fn set_image_fid(&mut self, v: Vec<u8>)
        ensures
            final(self)@ == (AdModel { image_fid: Some(v@), ..old(self)@ }),
    {
        self.image_fid = Some(v);
    }

    /// Field `image_fid`, to change in place; an unset field is first set to its default.
    pub fn mut_image_fid(&mut self) -> (r: &mut Vec<u8>)
        ensures
            r@ == bytes_or_empty(old(self)@.image_fid),
            final(self)@ == (AdModel { image_fid: Some(final(r)@), ..old(self)@ }),

    {
        if self.image_fid.is_none() {
            self.image_fid = Some(Vec::new());
        }
        opt_as_mut(&mut self.image_fid).unwrap()
    }

    /// Takes field `image_fid` (its default when unset), leaving it unset.
    pub fn take_image_fid(&mut self) -> (r: Vec<u8>)
        ensures
            r@ == bytes_or_empty(old(self)@.image_fid),
            final(self)@ == (AdModel { image_fid: None, ..old(self)@ }),
    {
        let mut t = None;
        std::mem::swap(&mut t, &mut self.image_fid);
        match t {
            Some(v) => v,
            None => Vec::new(),
        }
    }

    /// Field `image_fid`, or no bytes when unset.
    pub fn get_image_fid(&self) -> (r: &[u8])
        ensures
            r@ == bytes_or_empty(self@.image_fid),
    {
        match &self.image_fid {
            Some(v) => v.as_slice(),
            None => &[],
        }
    }

    /// Unsets field `duration`.
    pub fn clear_duration(&mut self)
        ensures
            final(self)@ == (AdModel { duration: None, ..old(self)@ }),
    {
        self.duration = None;
    }

    /// Whether field `duration` is set.
    pub fn has_duration(&self) -> (r: bool)
        ensures
            r == self@.duration is Some,
    {
        self.duration.is_some()
    }

    /// Sets field `duration` to `v`.
    pub fn set_duration(&mut self, v: i32)
        ensures
            final(self)@ == (AdModel { duration: Some(v), ..old(self)@ }),
    {
        self.duration = Some(v);
    }

    /// Field `duration`, or `0` when unset.
    pub fn get_duration(&self) -> (r: i32)
        ensures
            r == (match self@.duration { Some(x) => x, None => 0i32 }),
    {
        match self.duration {
            Some(x) => x,
            None => 0i32,
        }
    }

    /// Unsets field `click_url`.
    pub fn clear_click_url(&mut self)
        ensures
            final(self)@ == (AdModel { click_url: None, ..old(self)@ }),
    {
        self.click_url = None;
    }

    /// Whether field `click_url` is set.
    pub fn has_click_url(&self) -> (r: bool)
        ensures
            r == self@.click_url is Some,
    {
        self.click_url.is_some()
    }

    /// Sets field `click_url` to `v`.
    pub fn set_click_url(&mut self, v: String)
        ensures
            final(self)@ == (AdModel { click_url: Some(v@), ..old(self)@ }),
    {
        self.click_url = Some(v);
    }

    /// Field `click_url`, to change in place; an unset field is first set to its default.
    pub fn mut_click_url(&mut self) -> (r: &mut String)
        ensures
            r@ == chars_or_empty(old(self)@.click_url),
            final(self)@ == (AdModel { click_url: Some(final(r)@), ..old(self)@ }),

    {
        if self.click_url.is_none() {
            self.click_url = Some(String::new());
        }
        opt_as_mut(&mut self.click_url).unwrap()
    }

    /// Takes field `click_url` (its default when unset), leaving it unset.
    pub fn take_click_url(&mut self) -> (r: String)
        ensures
            r@ == chars_or_empty(old(self)@.click_url),
            final(self)@ == (AdModel { click_url: None, ..old(self)@ }),
    {
        let mut t = None;
        std::mem::swap(&mut t, &mut self.click_url);
        match t {
            Some(v) => v,
            None => String::new(),
        }
    }

    /// Field `click_url`, or the empty string when unset.
    pub fn get_click_url(&self) -> (r: &str)
        ensures
            r@ == chars_or_empty(self@.click_url),
    {
        match &self.click_url {
            Some(v) => v.as_str(),
            None => {
                proof {
                    reveal_strlit("");
                }
                ""
            },
        }
    }

    /// Unsets field `impression_url`.
    pub fn clear_impression_url(&mut self)
        ensures
            final(self)@ == (AdModel { impression_url: None, ..old(self)@ }),
    {
        self.impression_url = None;
    }

    /// Whether field `impression_url` is set.
    pub fn has_impression_url(&self) -> (r: bool)
        ensures
            r == self@.impression_url is Some,
    {
        self.impression_url.is_some()
    }

    /// Sets field `impression_url` to `v`.
    pub fn set_impression_url(&mut self, v: String)
        ensures
            final(self)@ == (AdModel { impression_url: Some(v@), ..old(self)@ }),
    {
        self.impression_url = Some(v);
    }

    /// Field `impression_url`, to change in place; an unset field is first set to its default.
    pub fn mut_impression_url(&mut self) -> (r: &mut String)
        ensures
            r@ == chars_or_empty(old(self)@.impression_url),
            final(self)@ == (AdModel { impression_url: Some(final(r)@), ..old(self)@ }),

    {
        if self.impression_url.is_none() {
            self.impression_url = Some(String::new());
        }
        opt_as_mut(&mut self.impression_url).unwrap()
    }

    /// Takes field `impression_url` (its default when unset), leaving it unset.
    pub fn take_impression_url(&mut self) -> (r: String)
        ensures
            r@ == chars_or_empty(old(self)@.impression_url),
            final(self)@ == (AdModel { impression_url: None, ..old(self)@ }),
    {
        let mut t = None;
        std::mem::swap(&mut t, &mut self.impression_url);
        match t {
            Some(v) => v,
            None => String::new(),
        }
    }

    /// Field `impression_url`, or the empty string when unset.
    pub fn get_impression_url(&self) -> (r: &str)
        ensures
            r@ == chars_or_empty(self@.impression_url),
    {
        match &self.impression_url {
            Some(v) => v.as_str(),
            None => {
                proof {
                    reveal_strlit("");
                }
                ""
            },
        }
    }

    /// Unsets field `product`.
    pub fn clear_product(&mut self)
        ensures
            final(self)@ == (AdModel { product: None, ..old(self)@ }),
    {
        self.product = None;
    }

    /// Whether field `product` is set.
    pub fn has_product(&self) -> (r: bool)
        ensures
            r == self@.product is Some,
    {
        self.product.is_some()
    }

    /// Sets field `product` to `v`.
    pub fn set_product(&mut self, v: String)
        ensures
            final(self)@ == (AdModel { product: Some(v@), ..old(self)@ }),
    {
        self.product = Some(v);
    }

    /// Field `product`, to change in place; an unset field is first set to its default.
    pub fn mut_product(&mut self) -> (r: &mut String)
        ensures
            r@ == chars_or_empty(old(self)@.product),
            final(self)@ == (AdModel { product: Some(final(r)@), ..old(self)@ }),

    {
        if self.product.is_none() {
            self.product = Some(String::new());
        }
        opt_as_mut(&mut self.product).unwrap()
    }

    /// Takes field `product` (its default when unset), leaving it unset.
    pub fn take_product(&mut self) -> (r: String)
        ensures
            r@ == chars_or_empty(old(self)@.product),
            final(self)@ == (AdModel { product: None, ..old(self)@ }),
    {
        let mut t = None;
        std::mem::swap(&mut t, &mut self.product);
        match t {
            Some(v) => v,
            None => String::new(),
        }
    }

    /// Field `product`, or the empty string when unset.
    pub fn get_product(&self) -> (r: &str)
        ensures
            r@ == chars_or_empty(self@.product),
    {
        match &self.product {
            Some(v) => v.as_str(),
            None => {
                proof {
                    reveal_strlit("");
                }
                ""
            },
        }
    }

    /// Unsets field `advertiser`.
    pub fn clear_advertiser(&mut self)
        ensures
            final(self)@ == (AdModel { advertiser: None, ..old(self)@ }),
    {
        self.advertiser = None;
    }

    /// Whether field `advertiser` is set.
    pub fn has_advertiser(&self) -> (r: bool)
        ensures
            r == self@.advertiser is Some,
    {
        self.advertiser.is_some()
    }

    /// Sets field `advertiser` to `v`.
    pub fn set_advertiser(&mut self, v: String)
        ensures
            final(self)@ == (AdModel { advertiser: Some(v@), ..old(self)@ }),
    {
        self.advertiser = Some(v);
    }

    /// Field `advertiser`, to change in place; an unset field is first set to its default.
    pub fn mut_advertiser(&mut self) -> (r: &mut String)
        ensures
            r@ == chars_or_empty(old(self)@.advertiser),
            final(self)@ == (AdModel { advertiser: Some(final(r)@), ..old(self)@ }),

    {
        if self.advertiser.is_none() {
            self.advertiser = Some(String::new());
        }
        opt_as_mut(&mut self.advertiser).unwrap()
    }

    /// Takes field `advertiser` (its default when unset), leaving it unset.
    pub fn take_advertiser(&mut self) -> (r: String)
        ensures
            r@ == chars_or_empty(old(self)@.advertiser),
            final(self)@ == (AdModel { advertiser: None, ..old(self)@ }),
    {
        let mut t = None;
        std::mem::swap(&mut t, &mut self.advertiser);
        match t {
            Some(v) => v,
            None => String::new(),
        }
    }

    /// Field `advertiser`, or the empty string when unset.
    pub fn get_advertiser(&self) -> (r: &str)
        ensures
            r@ == chars_or_empty(self@.advertiser),
    {
        match &self.advertiser {
            Some(v) => v.as_str(),
            None => {
                proof {
                    reveal_strlit("");
                }
                ""
            },
        }
    }

    /// Unsets field `gid`.
    pub fn clear_gid(&mut self)
        ensures
            final(self)@ == (AdModel { gid: None, ..old(self)@ }),
    {
        self.gid = None;
    }

    /// Whether field `gid` is set.
    pub fn has_gid(&self) -> (r: bool)
        ensures
            r == self@.gid is Some,
    {
        self.gid.is_some()
    }

    /// Sets field `gid` to `v`.
    pub fn set_gid(&mut self, v: Vec<u8>)
        ensures
            final(self)@ == (AdModel { gid: Some(v@), ..old(self)@ }),
    {
        self.gid = Some(v);
    }

    /// Field `gid`, to change in place; an unset field is first set to its default.
    pub fn mut_gid(&mut self) -> (r: &mut Vec<u8>)
        ensures
            r@ == bytes_or_empty(old(self)@.gid),
            final(self)@ == (AdModel { gid: Some(final(r)@), ..old(self)@ }),

    {
        if self.gid.is_none() {
            self.gid = Some(Vec::new());
        }
        opt_as_mut(&mut self.gid).unwrap()
    }

    /// Takes field `gid` (its default when unset), leaving it unset.
    pub fn take_gid(&mut self) -> (r: Vec<u8>)
        ensures
            r@ == bytes_or_empty(old(self)@.gid),
            final(self)@ == (AdModel { gid: None, ..old(self)@ }),
    {
        let mut t = None;
        std::mem::swap(&mut t, &mut self.gid);
        match t {
            Some(v) => v,
            None => Vec::new(),
        }
    }

    /// Field `gid`, or no bytes when unset.
    pub fn get_gid(&self) -> (r: &[u8])
        ensures
            r@ == bytes_or_empty(self@.gid),
    {
        match &self.gid {
            Some(v) => v.as_slice(),
            None => &[],
        }
    }

    /// Merges one field whose tag (number `f`, wire type `wt`) has been read
    /// from the bytes `s` that follow the tag; returns the number of bytes the
    /// value took.
    fn merge_field(&mut self, f: u32, wt: u32, s: &[u8], lim: u64) -> (r: Option<usize>)
        ensures
            match old(self)@.merge_field(f, wt, s@, lim as nat) {
                Some((m, k)) => r == Some(k as usize) && final(self)@ == m,
                None => r is None && final(self)@ == old(self)@.merge_field_failed(f, wt, s@, lim as nat),
            },
    {

        if f == 1 {
            if wt != WIRE_VARINT {
                return None;
            }
            proof {
                lemma_varint_parse_len(s@);
            }
            match pb_read_raw_varint64(s) {
                Some((v, k)) => {
                    self.next = Some((v as u32) as i32);
                    Some(k)
                },
                None => None,
            }
        } else if f == 2 {
            if wt != WIRE_LENGTH_DELIMITED {
                return None;
            }
            match read_bytes(s) {
                Some((v, k)) => {
                    self.ogg_fid = Some(v);
                    Some(k)
                },
                None => {
                    self.ogg_fid = Some(Vec::new());
                    None
                },
            }
        } else if f == 3 {
            if wt != WIRE_LENGTH_DELIMITED {
                return None;
            }
            match read_bytes(s) {
                Some((v, k)) => {
                    self.image_fid = Some(v);
                    Some(k)
                },
                None => {
                    self.image_fid = Some(Vec::new());
                    None
                },
            }
        } else if f == 4 {
            if wt != WIRE_VARINT {
                return None;
            }
            proof {
                lemma_varint_parse_len(s@);
            }
            match pb_read_raw_varint64(s) {
                Some((v, k)) => {
                    self.duration = Some((v as u32) as i32);
                    Some(k)
                },
                None => None,
            }
        } else if f == 5 {
            if wt != WIRE_LENGTH_DELIMITED {
                return None;
            }
            match read_string(s) {
                Some((v, k)) => {
                    self.click_url = Some(v);
                    Some(k)
                },
                None => {
                    self.click_url = Some(String::new());
                    None
                },
            }
        } else if f == 6 {
            if wt != WIRE_LENGTH_DELIMITED {
                return None;
            }
            match read_string(s) {
                Some((v, k)) => {
                    self.impression_url = Some(v);
                    Some(k)
                },
                None => {
                    self.impression_url = Some(String::new());
                    None
                },
            }
        } else if f == 7 {
            if wt != WIRE_LENGTH_DELIMITED {
                return None;
            }
            match read_string(s) {
                Some((v, k)) => {
                    self.product = Some(v);
                    Some(k)
                },
                None => {
                    self.product = Some(String::new());
                    None
                },
            }
        } else if f == 8 {
            if wt != WIRE_LENGTH_DELIMITED {
                return None;
            }
            match read_string(s) {
                Some((v, k)) => {
                    self.advertiser = Some(v);
                    Some(k)
                },
                None => {
                    self.advertiser = Some(String::new());
                    None
                },
            }
        } else if f == 9 {
            if wt != WIRE_LENGTH_DELIMITED {
                return None;
            }
            match read_bytes(s) {
                Some((v, k)) => {
                    self.gid = Some(v);
                    Some(k)
                },
                None => {
                    self.gid = Some(Vec::new());
                    None
                },
            }
        } else {
            match read_unknown(f, wt, s) {
                Some((Some(u), k)) => {
                    insert_unknown(field_mut(&mut self.unknown_fields), u);
                    Some(k)
                },
                Some((None, k)) => Some(k),
                None => None,
            }
        }
    }

    /// Merges all the fields that `s` holds, in order; `false` when the bytes
    /// are not a valid encoding (the message then holds what was merged so far).
    #[verifier::spinoff_prover]
    #[verifier::rlimit(50)]
    fn merge_from_slice(&mut self, s: &[u8], lim: u64) -> (ok: bool)
        ensures
            match old(self)@.merge(s@, lim as nat) {
                Some(m) => ok && final(self)@ == m,
                None => !ok && final(self)@ == old(self)@.merge_partial(s@, lim as nat),
            },
    {
        proof {
            reveal_with_fuel(AdModel::merge, 1);
            reveal_with_fuel(AdModel::merge_partial, 1);
        }
        let mut pos: usize = 0;
        assert(s@.skip(0) =~= s@);
        while pos < s.len()
            invariant
                pos <= s.len(),
                old(self)@.merge(s@, lim as nat) == self@.merge(s@.skip(pos as int), lim as nat),
                old(self)@.merge_partial(s@, lim as nat) == self@.merge_partial(s@.skip(pos as int), lim as nat),
            decreases s.len() - pos,
        {
            let rest = &s[pos..s.len()];
            assert(rest@ == s@.skip(pos as int));
            proof {
                reveal_with_fuel(AdModel::merge, 1);
                reveal_with_fuel(AdModel::merge_partial, 1);
                lemma_tag_parse_len(rest@);
            }
            match pb_read_tag_unpack(rest) {
                None => {
                    return false;
                },
                Some((f, wt, n)) => {
                    if n == 0 || n > rest.len() {
                        return false;
                    }
                    let rest2 = &rest[n..rest.len()];
                    assert(rest2@ == rest@.skip(n as int));
                    proof {
                        self@.lemma_merge_field_len(f, wt, rest2@, lim as nat);
                    }
                    match self.merge_field(f, wt, rest2, lim) {
                        None => {
                            return false;
                        },
                        Some(k) => {
                            if k > rest2.len() {
                                return false;
                            }
                            assert(rest@.skip((n + k) as int) =~= s@.skip((pos + n + k) as int));
                            pos = pos + n + k;
                        },
                    }
                },
            }
        }
        assert(s@.skip(pos as int) =~= Seq::<u8>::empty());
        proof {
            reveal_with_fuel(AdModel::merge, 1);
        }
        true
    }

    /// The message that `s` encodes, if it is a valid encoding.
    fn parse_slice(s: &[u8], lim: u64) -> (r: Option<Self>)
        ensures
            match AdModel::empty().merge(s@, lim as nat) {
                Some(m) => r matches Some(x) && x@ == m,
                None => r is None,
            },
    {
        let mut m = Ad::new();
        if m.merge_from_slice(s, lim) {
            Some(m)
        } else {
            None
        }
    }

    /// Merges the fields that `bytes` encodes into this message, in order: a set
    /// field is replaced, a repeated field grows. On an invalid encoding the
    /// error comes back, the fields merged before the first field that could not
    /// be read stay merged, and that field is left as `merge_field_failed` says.
    pub fn merge_from_bytes(&mut self, bytes: &[u8]) -> (r: Result<(), DecodeError>)
        ensures
            match old(self)@.merge(bytes@, top_limit(bytes@.len())) {
                Some(m) => r is Ok && final(self)@ == m,
                None => r is Err && final(self)@ == old(self)@.merge_partial(bytes@, top_limit(bytes@.len())),
            },
    {
        let lim: u64 = u64::MAX - bytes.len() as u64;
        if self.merge_from_slice(bytes, lim) {
            Ok(())
        } else {
            Err(DecodeError)
        }
    }

    /// Parses a message from its encoding.
    pub fn parse_from_bytes(bytes: &[u8]) -> (r: Result<Self, DecodeError>)
        ensures
            match AdModel::empty().merge(bytes@, top_limit(bytes@.len())) {
                Some(m) => r matches Ok(x) && x@ == m,
                None => r is Err,
            },
    {
        let lim: u64 = u64::MAX - bytes.len() as u64;
        match Self::parse_slice(bytes, lim) {
            Some(m) => Ok(m),
            None => Err(DecodeError),
        }
    }

    /// Appends the encoding of field `next` to `out`.
    fn write_field_next(&self, out: &mut Vec<u8>)
        requires
            self@.wf(),
        ensures
            final(out)@ == old(out)@ + opt_varint_field_bytes(1, match self@.next { Some(x) => Some(int32_varint(x)), None => None }),
            final(out)@ + self@.encoded_from_ogg_fid() == old(out)@ + self@.encoded_from_next(),
    {
        proof {
            reveal(AdModel::wf);
        }
        let ghost o = out@;
        let ghost m = self@;
        match self.next {
            Some(x) => {
                pb_write_tag(out, 1, WIRE_VARINT);
                pb_write_raw_varint64(out, x as u64);
                proof {
                    lemma_concat_assoc(o, tag_bytes(1, WIRE_VARINT), varint_bytes(int32_varint(x)));
                }
            },
            None => {
                assert(o + Seq::<u8>::empty() =~= o);
            },
        }
        proof {
            lemma_concat_assoc(o, opt_varint_field_bytes(1, match m.next { Some(x) => Some(int32_varint(x)), None => None }), m.encoded_from_ogg_fid());
        }
    }

    /// Appends the encoding of field `ogg_fid` to `out`.
    fn write_field_ogg_fid(&self, out: &mut Vec<u8>)
        requires
            self@.wf(),
        ensures
            final(out)@ == old(out)@ + opt_length_delimited_field_bytes(2, self@.ogg_fid),
            final(out)@ + self@.encoded_from_image_fid() == old(out)@ + self@.encoded_from_ogg_fid(),
    {
        proof {
            reveal(AdModel::wf);
        }
        let ghost o = out@;
        let ghost m = self@;
        match &self.ogg_fid {
            Some(v) => {
                pb_write_tag(out, 2, WIRE_LENGTH_DELIMITED);
                write_bytes_value(out, v.as_slice());
                proof {
                    lemma_concat_assoc(o, tag_bytes(2, WIRE_LENGTH_DELIMITED), bytes_value_bytes(v@));
                }
            },
            None => {
                assert(o + Seq::<u8>::empty() =~= o);
            },
        }
        proof {
            lemma_concat_assoc(o, opt_length_delimited_field_bytes(2, m.ogg_fid), m.encoded_from_image_fid());
        }
    }

    /// Appends the encoding of field `image_fid` to `out`.
    fn write_field_image_fid(&self, out: &mut Vec<u8>)
        requires
            self@.wf(),
        ensures
            final(out)@ == old(out)@ + opt_length_delimited_field_bytes(3, self@.image_fid),
            final(out)@ + self@.encoded_from_duration() == old(out)@ + self@.encoded_from_image_fid(),
    {
        proof {
            reveal(AdModel::wf);
        }
        let ghost o = out@;
        let ghost m = self@;
        match &self.image_fid {
            Some(v) => {
                pb_write_tag(out, 3, WIRE_LENGTH_DELIMITED);
                write_bytes_value(out, v.as_slice());
                proof {
                    lemma_concat_assoc(o, tag_bytes(3, WIRE_LENGTH_DELIMITED), bytes_value_bytes(v@));
                }
            },
            None => {
                assert(o + Seq::<u8>::empty() =~= o);
            },
        }
        proof {
            lemma_concat_assoc(o, opt_length_delimited_field_bytes(3, m.image_fid), m.encoded_from_duration());
        }
    }

    /// Appends the encoding of field `duration` to `out`.
    fn write_field_duration(&self, out: &mut Vec<u8>)
        requires
            self@.wf(),
        ensures
            final(out)@ == old(out)@ + opt_varint_field_bytes(4, match self@.duration { Some(x) => Some(int32_varint(x)), None => None }),
            final(out)@ + self@.encoded_from_click_url() == old(out)@ + self@.encoded_from_duration(),
    {
        proof {
            reveal(AdModel::wf);
        }
        let ghost o = out@;
        let ghost m = self@;
        match self.duration {
            Some(x) => {
                pb_write_tag(out, 4, WIRE_VARINT);
                pb_write_raw_varint64(out, x as u64);
                proof {
                    lemma_concat_assoc(o, tag_bytes(4, WIRE_VARINT), varint_bytes(int32_varint(x)));
                }
            },
            None => {
                assert(o + Seq::<u8>::empty() =~= o);
            },
        }
        proof {
            lemma_concat_assoc(o, opt_varint_field_bytes(4, match m.duration { Some(x) => Some(int32_varint(x)), None => None }), m.encoded_from_click_url());
        }
    }

    /// Appends the encoding of field `click_url` to `out`.
    fn write_field_click_url(&self, out: &mut Vec<u8>)
        requires
            self@.wf(),
        ensures
            final(out)@ == old(out)@ + opt_length_delimited_field_bytes(5, match self@.click_url { Some(c) => Some(encode_utf8(c)), None => None }),
            final(out)@ + self@.encoded_from_impression_url() == old(out)@ + self@.encoded_from_click_url(),
    {
        proof {
            reveal(AdModel::wf);
        }
        let ghost o = out@;
        let ghost m = self@;
        match &self.click_url {
            Some(v) => {
                pb_write_tag(out, 5, WIRE_LENGTH_DELIMITED);
                write_string_value(out, v.as_str());
                proof {
                    lemma_concat_assoc(o, tag_bytes(5, WIRE_LENGTH_DELIMITED), bytes_value_bytes(encode_utf8(v@)));
                }
            },
            None => {
                assert(o + Seq::<u8>::empty() =~= o);
            },
        }
        proof {
            lemma_concat_assoc(o, opt_length_delimited_field_bytes(5, match m.click_url { Some(c) => Some(encode_utf8(c)), None => None }), m.encoded_from_impression_url());
        }
    }

    /// Appends the encoding of field `impression_url` to `out`.
    fn write_field_impression_url(&self, out: &mut Vec<u8>)
        requires
            self@.wf(),
        ensures
            final(out)@ == old(out)@ + opt_length_delimited_field_bytes(6, match self@.impression_url { Some(c) => Some(encode_utf8(c)), None => None }),
            final(out)@ + self@.encoded_from_product() == old(out)@ + self@.encoded_from_impression_url(),
    {
        proof {
            reveal(AdModel::wf);
        }
        let ghost o = out@;
        let ghost m = self@;
        match &self.impression_url {
            Some(v) => {
                pb_write_tag(out, 6, WIRE_LENGTH_DELIMITED);
                write_string_value(out, v.as_str());
                proof {
                    lemma_concat_assoc(o, tag_bytes(6, WIRE_LENGTH_DELIMITED), bytes_value_bytes(encode_utf8(v@)));
                }
            },
            None => {
                assert(o + Seq::<u8>::empty() =~= o);
            },
        }
        proof {
            lemma_concat_assoc(o, opt_length_delimited_field_bytes(6, match m.impression_url { Some(c) => Some(encode_utf8(c)), None => None }), m.encoded_from_product());
        }
    }

    /// Appends the encoding of field `product` to `out`.
    fn write_field_product(&self, out: &mut Vec<u8>)
        requires
            self@.wf(),
        ensures
            final(out)@ == old(out)@ + opt_length_delimited_field_bytes(7, match self@.product { Some(c) => Some(encode_utf8(c)), None => None }),
            final(out)@ + self@.encoded_from_advertiser() == old(out)@ + self@.encoded_from_product(),
    {
        proof {
            reveal(AdModel::wf);
        }
        let ghost o = out@;
        let ghost m = self@;
        match &self.product {
            Some(v) => {
                pb_write_tag(out, 7, WIRE_LENGTH_DELIMITED);
                write_string_value(out, v.as_str());
                proof {
                    lemma_concat_assoc(o, tag_bytes(7, WIRE_LENGTH_DELIMITED), bytes_value_bytes(encode_utf8(v@)));
                }
            },
            None => {
                assert(o + Seq::<u8>::empty() =~= o);
            },
        }
        proof {
            lemma_concat_assoc(o, opt_length_delimited_field_bytes(7, match m.product { Some(c) => Some(encode_utf8(c)), None => None }), m.encoded_from_advertiser());
        }
    }

    /// Appends the encoding of field `advertiser` to `out`.
    fn write_field_advertiser(&self, out: &mut Vec<u8>)
        requires
            self@.wf(),
        ensures
            final(out)@ == old(out)@ + opt_length_delimited_field_bytes(8, match self@.advertiser { Some(c) => Some(encode_utf8(c)), None => None }),
            final(out)@ + self@.encoded_from_gid() == old(out)@ + self@.encoded_from_advertiser(),
    {
        proof {
            reveal(AdModel::wf);
        }
        let ghost o = out@;
        let ghost m = self@;
        match &self.advertiser {
            Some(v) => {
                pb_write_tag(out, 8, WIRE_LENGTH_DELIMITED);
                write_string_value(out, v.as_str());
                proof {
                    lemma_concat_assoc(o, tag_bytes(8, WIRE_LENGTH_DELIMITED), bytes_value_bytes(encode_utf8(v@)));
                }
            },
            None => {
                assert(o + Seq::<u8>::empty() =~= o);
            },
        }
        proof {
            lemma_concat_assoc(o, opt_length_delimited_field_bytes(8, match m.advertiser { Some(c) => Some(encode_utf8(c)), None => None }), m.encoded_from_gid());
        }
    }

    /// Appends the encoding of field `gid` to `out`.
    fn write_field_gid(&self, out: &mut Vec<u8>)
        requires
            self@.wf(),
        ensures
            final(out)@ == old(out)@ + opt_length_delimited_field_bytes(9, self@.gid),
            final(out)@ + self@.encoded_from_unknown_fields() == old(out)@ + self@.encoded_from_gid(),
    {
        proof {
            reveal(AdModel::wf);
        }
        let ghost o = out@;
        let ghost m = self@;
        match &self.gid {
            Some(v) => {
                pb_write_tag(out, 9, WIRE_LENGTH_DELIMITED);
                write_bytes_value(out, v.as_slice());
                proof {
                    lemma_concat_assoc(o, tag_bytes(9, WIRE_LENGTH_DELIMITED), bytes_value_bytes(v@));
                }
            },
            None => {
                assert(o + Seq::<u8>::empty() =~= o);
            },
        }
        proof {
            lemma_concat_assoc(o, opt_length_delimited_field_bytes(9, m.gid), m.encoded_from_unknown_fields());
        }
    }

    /// Appends the fields of unknown numbers to `out`.
    fn write_unknown_fields(&self, out: &mut Vec<u8>)
        requires
            self@.wf(),
        ensures
            final(out)@ == old(out)@ + unknown_list_bytes(self@.unknown_fields),
    {
        proof {
            reveal(AdModel::wf);
        }
        let ghost o = out@;
        let ghost m = self@;
        let mut j: usize = 0;
        assert(m.unknown_fields.subrange(0, m.unknown_fields.len() as int) =~= m.unknown_fields);
        assert(o + Seq::<u8>::empty() =~= o);
        while j < self.unknown_fields.len()
            invariant
                j <= self.unknown_fields.len(),
                self@ == m,
                m.wf(),
                o + unknown_list_bytes(m.unknown_fields) == out@ + unknown_list_bytes(m.unknown_fields.subrange(j as int, m.unknown_fields.len() as int)),
            decreases self.unknown_fields.len() - j,
        {
            proof {
                reveal(AdModel::wf);
                lemma_unknown_list_cons(m.unknown_fields.subrange(j as int, m.unknown_fields.len() as int));
                assert(m.unknown_fields[j as int] == self.unknown_fields@[j as int]@);
                assert(m.unknown_fields.subrange(j as int, m.unknown_fields.len() as int)[0] == m.unknown_fields[j as int]);
                assert(m.unknown_fields.subrange(j as int, m.unknown_fields.len() as int).subrange(1, m.unknown_fields.len() - j) =~= m.unknown_fields.subrange(j + 1, m.unknown_fields.len() as int));
            }
            let ghost before = out@;
            write_unknown(out, &self.unknown_fields[j]);
            proof {
                lemma_concat_assoc(before, unknown_field_bytes(m.unknown_fields[j as int]), unknown_list_bytes(m.unknown_fields.subrange(j + 1, m.unknown_fields.len() as int)));
            }
            j = j + 1;
        }
        assert(m.unknown_fields.subrange(j as int, m.unknown_fields.len() as int) =~= Seq::<UnknownFieldModel>::empty());
        assert(out@ =~= o + unknown_list_bytes(m.unknown_fields));
    }

    /// Appends the encoding of the message to `out`.
    fn write_to(&self, out: &mut Vec<u8>)
        requires
            self@.wf(),
        ensures
            final(out)@ == old(out)@ + self@.to_bytes(),
    {
        proof {
            reveal(AdModel::to_bytes);
        }
        let ghost o = out@;
        let ghost m = self@;
        assert(o + m.to_bytes() == out@ + m.encoded_from_next());
        self.write_field_next(out);
        self.write_field_ogg_fid(out);
        self.write_field_image_fid(out);
        self.write_field_duration(out);
        self.write_field_click_url(out);
        self.write_field_impression_url(out);
        self.write_field_product(out);
        self.write_field_advertiser(out);
        self.write_field_gid(out);
        self.write_unknown_fields(out);
    }

    /// The encoding of the message.
    pub fn write_to_bytes(&self) -> (r: Vec<u8>)
        requires
            self@.wf(),
        ensures
            r@ == self@.to_bytes(),
    {
        let mut out: Vec<u8> = Vec::new();
        self.write_to(&mut out);
        assert(out@ =~= self@.to_bytes());
        out
    }

    /// The length of the encoding of the message.
    pub fn compute_size(&self) -> (r: u32)
        requires
            self@.wf(),
            self@.to_bytes().len() <= u32::MAX,
        ensures
            r == self@.to_bytes().len(),
    {
        let v = self.write_to_bytes();
        v.len() as u32
    }
    /// A copy of the message.
    pub fn clone_message(&self) -> (r: Self)
        ensures
            r@ == self@,
    {
        let next = self.next;
        let ogg_fid = clone_opt_bytes(&self.ogg_fid);
        let image_fid = clone_opt_bytes(&self.image_fid);
        let duration = self.duration;
        let click_url = clone_opt_string(&self.click_url);
        let impression_url = clone_opt_string(&self.impression_url);
        let product = clone_opt_string(&self.product);
        let advertiser = clone_opt_string(&self.advertiser);
        let gid = clone_opt_bytes(&self.gid);
        let unknown_fields = clone_unknown_fields(&self.unknown_fields);
        Ad { next, ogg_fid, image_fid, duration, click_url, impression_url, product, advertiser, gid, unknown_fields }
    }

}

impl Clone for Ad {
    fn clone(&self) -> (r: Self)
        ensures
            r@ == self@,
    {
        self.clone_message()
    }
}

impl Default for Ad {
    fn default() -> (r: Self)
        ensures
            r@ == AdModel::empty(),
    {
        Ad::new()
    }
}

} // verus!