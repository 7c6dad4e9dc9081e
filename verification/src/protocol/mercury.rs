//! The messages of Mercury, the request and reply protocol of the Spotify service, with
//! their wire encodings.
use vstd::prelude::*;
use crate::protocol::{box_mut, field_mut, opt_as_mut};
use crate::wire::{
    bool_varint, bytes_or_empty, chars_or_empty, fits_u32, int32_varint, lemma_bytes_roundtrip,
    lemma_length_delimited_list_cons, lemma_message_window, lemma_skip_chunk, lemma_string_roundtrip,
    lemma_tag_parse_len, lemma_tag_roundtrip, lemma_unknown_list_cons, lemma_unknown_roundtrip,
    lemma_varint_casts, lemma_varint_list_cons, lemma_varint_roundtrip, length_delimited_list_bytes,
    message_window, embedded_window, read_embedded_window, lemma_embedded_window, top_limit,
    opt_length_delimited_field_bytes, opt_varint_field_bytes, opt_view,
    packed_int64_parse, packed_int64_partial, pb_read_raw_varint64, pb_read_sint32, pb_read_tag_unpack, pb_write_raw_varint64,
    pb_write_sint32_no_tag, pb_write_tag, read_bytes, read_packed_int64,
    read_string, read_unknown, string_parse, bytes_parse, tag_bytes, tag_parse, bytes_value_bytes,
    unknown_field_bytes, grouped_insert, insert_unknown, unknown_grouped, lemma_grouped_insert_last,
    lemma_grouped_take, lemma_grouped_empty, unknown_field_wf, unknown_list_bytes, unknown_models, unknown_parse, varint_bool, varint_bytes,
    varint_int32, varint_list_bytes, varint_parse, write_bytes_value, write_string_value,
    write_unknown, zigzag_decode32, zigzag_encode32, DecodeError, UnknownField, UnknownFieldModel,
    WIRE_LENGTH_DELIMITED, WIRE_VARINT, string_models, utf8_encodings, int64_varints,
    lemma_varint_parse_len, lemma_write_chunk, lemma_empty_chunk, lemma_write_list_step,
    lemma_concat_assoc, clone_opt_bytes, clone_opt_string, clone_strings, clone_unknown_fields,
};
use vstd::utf8::encode_utf8;

verus! {

/// The values of the `MercuryReply_CachePolicy` enumeration.
#[allow(non_camel_case_types)]
#[derive(Clone, Copy, Debug, PartialEq, Eq, Hash)]
pub enum MercuryReply_CachePolicy {
    CACHE_NO,
    CACHE_PRIVATE,
    CACHE_PUBLIC,
}

impl MercuryReply_CachePolicy {
    /// The number that stands for each value on the wire.
    pub open spec fn spec_value(self) -> i32 {
        match self {
            MercuryReply_CachePolicy::CACHE_NO => 1i32,
            MercuryReply_CachePolicy::CACHE_PRIVATE => 2i32,
            MercuryReply_CachePolicy::CACHE_PUBLIC => 3i32,
        }
    }

    /// The value that a number stands for, if any.
    pub open spec fn spec_from_i32(v: i32) -> Option<MercuryReply_CachePolicy> {
        if v == 1i32 {
            Some(MercuryReply_CachePolicy::CACHE_NO)
        } else if v == 2i32 {
            Some(MercuryReply_CachePolicy::CACHE_PRIVATE)
        } else if v == 3i32 {
            Some(MercuryReply_CachePolicy::CACHE_PUBLIC)
        } else {
            None
        }
    }

    /// The number that stands for this value on the wire.
    pub fn value(&self) -> (r: i32)
        ensures
            r == self.spec_value(),
    {
        match self {
            MercuryReply_CachePolicy::CACHE_NO => 1,
            MercuryReply_CachePolicy::CACHE_PRIVATE => 2,
            MercuryReply_CachePolicy::CACHE_PUBLIC => 3,
        }
    }

    /// The value that `v` stands for, or `None` for a number of no value.
    pub fn from_i32(v: i32) -> (r: Option<MercuryReply_CachePolicy>)
        ensures
            r == MercuryReply_CachePolicy::spec_from_i32(v),
    {
        match v {
            1 => Some(MercuryReply_CachePolicy::CACHE_NO),
            2 => Some(MercuryReply_CachePolicy::CACHE_PRIVATE),
            3 => Some(MercuryReply_CachePolicy::CACHE_PUBLIC),
            _ => None,
        }
    }

    /// All values, in the order of their declaration.
    pub fn values() -> (r: Vec<MercuryReply_CachePolicy>)
        ensures
            r@ == seq![MercuryReply_CachePolicy::CACHE_NO, MercuryReply_CachePolicy::CACHE_PRIVATE, MercuryReply_CachePolicy::CACHE_PUBLIC],
    {
        vec![MercuryReply_CachePolicy::CACHE_NO, MercuryReply_CachePolicy::CACHE_PRIVATE, MercuryReply_CachePolicy::CACHE_PUBLIC]
    }

    /// The number of a value stands for that value.
    pub proof fn lemma_value_roundtrip(self)
        ensures
            MercuryReply_CachePolicy::spec_from_i32(self.spec_value()) == Some(self),
    {
    }

    /// A number that stands for a value is that value's number.
    pub proof fn lemma_from_i32_value(v: i32)
        ensures
            MercuryReply_CachePolicy::spec_from_i32(v) matches Some(e) ==> e.spec_value() == v,
    {
    }

    /// The numbers that the protocol's definition gives the values on the wire: each value
    /// has the number listed here, each listed number reads back as its value, and no other
    /// number stands for a value.
    pub proof fn lemma_proto_numbers()
        ensures
            MercuryReply_CachePolicy::CACHE_NO.spec_value() == 1i32,
            MercuryReply_CachePolicy::CACHE_PRIVATE.spec_value() == 2i32,
            MercuryReply_CachePolicy::CACHE_PUBLIC.spec_value() == 3i32,
            MercuryReply_CachePolicy::spec_from_i32(1i32) == Some(MercuryReply_CachePolicy::CACHE_NO),
            MercuryReply_CachePolicy::spec_from_i32(2i32) == Some(MercuryReply_CachePolicy::CACHE_PRIVATE),
            MercuryReply_CachePolicy::spec_from_i32(3i32) == Some(MercuryReply_CachePolicy::CACHE_PUBLIC),
            forall|v: i32| #[trigger] MercuryReply_CachePolicy::spec_from_i32(v) is Some ==> v == 1i32 || v == 2i32 || v == 3i32,
    {
    }
}

/// The `MercuryMultiGetRequest` message.
#[allow(non_snake_case)]
#[derive(Debug, PartialEq)]
pub struct MercuryMultiGetRequest {
    request: Vec<MercuryRequest>,
    unknown_fields: Vec<UnknownField>,
}

/// The model of a `MercuryMultiGetRequest`: each field's value, `None` or empty when unset,
/// and the fields of unknown numbers, in the order they were read.
#[allow(non_snake_case)]
pub struct MercuryMultiGetRequestModel {
    pub request: Seq<MercuryRequestModel>,
    pub unknown_fields: Seq<UnknownFieldModel>,
}

impl View for MercuryMultiGetRequest {
    type V = MercuryMultiGetRequestModel;

    closed spec fn view(&self) -> MercuryMultiGetRequestModel {
        MercuryMultiGetRequestModel {
            request: MercuryRequest::seq_model(self.request@),
            unknown_fields: unknown_models(self.unknown_fields@),
        }
    }
}

#[allow(non_snake_case)]
impl MercuryMultiGetRequestModel {
    /// The model of a message with no field set.
    pub open spec fn empty() -> Self {
        MercuryMultiGetRequestModel {
            request: Seq::empty(),
            unknown_fields: Seq::empty(),
        }
    }

    /// The encodings of a list of messages.
    pub open spec fn encodings(v: Seq<MercuryMultiGetRequestModel>) -> Seq<Seq<u8>> {
        v.map_values(|m: MercuryMultiGetRequestModel| m.to_bytes())
    }

    /// Every message of a list can be written, and its encoding fits a 32-bit length.
    pub open spec fn all_writable(v: Seq<MercuryMultiGetRequestModel>) -> bool {
        forall|i: int| 0 <= i < v.len() ==> #[trigger] v[i].wf() && fits_u32(v[i].to_bytes())
    }

    /// The field numbers that this message knows.
    pub open spec fn is_known_field(f: u32) -> bool {
        f == 1
    }

    /// Merging one field whose tag (number `f`, wire type `wt`) has been read;
    /// `s` holds the bytes after the tag. The result is the merged model and
    /// the number of bytes the value took; a set field is replaced, a repeated
    /// field grows, a field of unknown number is kept or, if a group, skipped.
    pub open spec fn merge_field(self, f: u32, wt: u32, s: Seq<u8>, lim: nat) -> Option<(Self, nat)> {
        if f == 1 {
            if wt != WIRE_LENGTH_DELIMITED {
                None
            } else {
                match embedded_window(s, lim) {
                    Some((a, b, x)) => if 0 < a <= b <= s.len() {
                        match MercuryRequestModel::empty().merge(s.subrange(a as int, b as int), x) {
                            Some(x) => Some((MercuryMultiGetRequestModel { request: self.request.push(x), ..self }, b)),
                            None => None,
                        }
                    } else {
                        None
                    },
                    None => None,
                }
            }
        } else {
            match unknown_parse(f, wt, s) {
                Some((Some(u), k)) => Some((MercuryMultiGetRequestModel { unknown_fields: grouped_insert(self.unknown_fields, u), ..self }, k)),
                Some((None, k)) => Some((self, k)),
                None => None,
            }
        }
    }

    /// What is left of the model when merging one field (number `f`, wire type
    /// `wt`, value at the front of `s`) fails: a string, bytes or message field
    /// of the right wire type is first set to its empty value (a repeated one
    /// gets an empty element) and an embedded message keeps the fields merged
    /// into it before the failure; packed values read before the failure stay.
    pub open spec fn merge_field_failed(self, f: u32, wt: u32, s: Seq<u8>, lim: nat) -> Self {
        if f == 1 {
            if wt != WIRE_LENGTH_DELIMITED {
                self
            } else {
                match embedded_window(s, lim) {
                    Some((a, b, x)) => if 0 < a <= b <= s.len() {
                        MercuryMultiGetRequestModel { request: self.request.push(MercuryRequestModel::empty().merge_partial(s.subrange(a as int, b as int), x)), ..self }
                    } else {
                        MercuryMultiGetRequestModel { request: self.request.push(MercuryRequestModel::empty()), ..self }
                    },
                    None => MercuryMultiGetRequestModel { request: self.request.push(MercuryRequestModel::empty()), ..self },
                }
            }
        } else {
            self
        }
    }

    /// The value of a merged field takes no more than the bytes after its tag.
    pub proof fn lemma_merge_field_len(self, f: u32, wt: u32, s: Seq<u8>, lim: nat)
        ensures
            self.merge_field(f, wt, s, lim) matches Some((_m, k)) ==> k <= s.len(),
    {
        lemma_varint_parse_len(s);
        crate::wire::lemma_unknown_parse_len(f, wt, s);
    }

    /// Merging all the fields that `s` holds, in order, where the length of an
    /// embedded message may reach `lim` bytes past the end of `s` (such a message
    /// is read up to the end of `s`).
    #[verifier::opaque]
    pub open spec fn merge(self, s: Seq<u8>, lim: nat) -> Option<Self>
        decreases s.len(),
    {
        if s.len() == 0 {
            Some(self)
        } else {
            match tag_parse(s) {
                Some((f, wt, n)) => if 0 < n <= s.len() {
                    match self.merge_field(f, wt, s.skip(n as int), lim) {
                        Some((m, k)) => if n + k <= s.len() {
                            m.merge(s.skip((n + k) as int), lim)
                        } else {
                            None
                        },
                        None => None,
                    }
                } else {
                    None
                },
                None => None,
            }
        }
    }

    /// What merging `s` leaves: the fields merged in order up to the first one
    /// whose tag or value cannot be read, then what `merge_field_failed` leaves of
    /// that one; all of `s` where it is a valid encoding.
    #[verifier::opaque]
    pub open spec fn merge_partial(self, s: Seq<u8>, lim: nat) -> Self
        decreases s.len(),
    {
        if s.len() == 0 {
            self
        } else {
            match tag_parse(s) {
                Some((f, wt, n)) => if 0 < n <= s.len() {
                    match self.merge_field(f, wt, s.skip(n as int), lim) {
                        Some((m, k)) => if n + k <= s.len() {
                            m.merge_partial(s.skip((n + k) as int), lim)
                        } else {
                            m
                        },
                        None => self.merge_field_failed(f, wt, s.skip(n as int), lim),
                    }
                } else {
                    self
                },
                None => self,
            }
        }
    }

    /// The encoding of field `request` and of every field written after it.
    pub open spec fn encoded_from_request(self) -> Seq<u8> {
        length_delimited_list_bytes(1, MercuryRequestModel::encodings(self.request)) + self.encoded_from_unknown_fields()
    }

    /// The encoding of the fields of unknown numbers, written last.
    pub open spec fn encoded_from_unknown_fields(self) -> Seq<u8> {
        unknown_list_bytes(self.unknown_fields)
    }

    /// The encoding of the message: its set fields in order of declaration,
    /// each element of a repeated field in order, then the unknown fields.
    #[verifier::opaque]
    pub open spec fn to_bytes(self) -> Seq<u8> {
        self.encoded_from_request()
    }

    /// A model that can be written and read back: every length fits the
    /// 32-bit length prefix, nested messages can be written, and the unknown
    /// fields have valid numbers that this message does not know.
    #[verifier::opaque]
    pub open spec fn wf(self) -> bool {
        &&& MercuryRequestModel::all_writable(self.request)
        &&& (forall|i: int| 0 <= i < self.unknown_fields.len() ==> unknown_field_wf(#[trigger] self.unknown_fields[i]) && !Self::is_known_field(self.unknown_fields[i].number))
        &&& unknown_grouped(self.unknown_fields)
    }

    /// The message with no field set can be written and read back.
    pub proof fn lemma_empty_wf()
        ensures
            Self::empty().wf(),
    {
        reveal_with_fuel(MercuryMultiGetRequestModel::wf, 1);
        lemma_grouped_empty();
    }

    /// Merging a field's tag and value, whatever follows them.
    pub proof fn lemma_merge_step(acc: Self, f: u32, wt: u32, t: Seq<u8>, b: Seq<u8>, rest: Seq<u8>, acc2: Self, lim: nat)
        requires
            tag_parse(t + (b + rest)) == Some((f, wt, t.len())),
            t.len() > 0,
            acc.merge_field(f, wt, b + rest, lim) == Some((acc2, b.len())),
        ensures
            acc.merge(t + (b + rest), lim) == acc2.merge(rest, lim),
    {
        reveal_with_fuel(MercuryMultiGetRequestModel::merge, 1);
        lemma_skip_chunk(t, b, rest);
    }

    /// Merging the encoding of the elements of field `request` appends them, whatever follows.
    #[verifier::rlimit(50)]
    pub proof fn lemma_merge_request(acc: Self, v: Seq<MercuryRequestModel>, rest: Seq<u8>, lim: nat)
        requires
            MercuryRequestModel::all_writable(v),
        ensures
            acc.merge(length_delimited_list_bytes(1, MercuryRequestModel::encodings(v)) + rest, lim) == (MercuryMultiGetRequestModel { request: acc.request + v, ..acc }).merge(rest, lim),
        decreases v.len(),
    {
        let w = MercuryRequestModel::encodings(v);
        if v.len() == 0 {
            assert(length_delimited_list_bytes(1, w) + rest =~= rest);
            assert(acc.request + v =~= acc.request);
            assert((MercuryMultiGetRequestModel { request: acc.request + v, ..acc }) == acc);
        } else {
            lemma_length_delimited_list_cons(1, w);
            assert(v[0].wf() && fits_u32(v[0].to_bytes()));
            let t = tag_bytes(1, WIRE_LENGTH_DELIMITED);
            let b = bytes_value_bytes(w[0]);
            let tail = length_delimited_list_bytes(1, w.subrange(1, w.len() as int));
            assert(length_delimited_list_bytes(1, w) + rest =~= t + (b + (tail + rest)));
            lemma_tag_roundtrip(1, WIRE_LENGTH_DELIMITED, b + (tail + rest));
            lemma_message_window(v[0].to_bytes(), tail + rest);
            lemma_embedded_window(v[0].to_bytes(), tail + rest, lim);
            v[0].lemma_roundtrip(0);
            lemma_varint_parse_len(b + (tail + rest));
            let acc1 = MercuryMultiGetRequestModel { request: acc.request.push(v[0]), ..acc };
            Self::lemma_merge_step(acc, 1, WIRE_LENGTH_DELIMITED, t, b, tail + rest, acc1, lim);
            assert(w.subrange(1, w.len() as int) =~= MercuryRequestModel::encodings(v.subrange(1, v.len() as int)));
            assert forall|j: int| 0 <= j < v.len() - 1 implies #[trigger] v.subrange(1, v.len() as int)[j].wf() && fits_u32(v.subrange(1, v.len() as int)[j].to_bytes()) by {
                assert(v.subrange(1, v.len() as int)[j] == v[j + 1]);
            }
            Self::lemma_merge_request(acc1, v.subrange(1, v.len() as int), rest, lim);
            assert(acc1.request + v.subrange(1, v.len() as int) =~= acc.request + v);
        }
    }

    /// Merging the encoding of fields of unknown numbers keeps them, whatever follows.
    #[verifier::rlimit(50)]
    pub proof fn lemma_merge_unknown_fields(acc: Self, v: Seq<UnknownFieldModel>, rest: Seq<u8>, lim: nat)
        requires
            forall|i: int| 0 <= i < v.len() ==> unknown_field_wf(#[trigger] v[i]) && !Self::is_known_field(v[i].number),
            unknown_grouped(acc.unknown_fields + v),
        ensures
            acc.merge(unknown_list_bytes(v) + rest, lim) == (MercuryMultiGetRequestModel { unknown_fields: acc.unknown_fields + v, ..acc }).merge(rest, lim),
        decreases v.len(),
    {
        if v.len() == 0 {
            assert(unknown_list_bytes(v) + rest =~= rest);
            assert(acc.unknown_fields + v =~= acc.unknown_fields);
            assert((MercuryMultiGetRequestModel { unknown_fields: acc.unknown_fields + v, ..acc }) == acc);
        } else {
            lemma_unknown_list_cons(v);
            let u = v[0];
            let wt = crate::wire::unknown_wire_type(u.value);
            let t = tag_bytes(u.number, wt);
            let b = crate::wire::unknown_value_bytes(u.value);
            let tail = unknown_list_bytes(v.subrange(1, v.len() as int));
            assert(unknown_list_bytes(v) + rest =~= t + (b + (tail + rest)));
            assert(unknown_field_bytes(u) + (tail + rest) =~= t + (b + (tail + rest)));
            lemma_unknown_roundtrip(u, tail + rest);
            assert((t + (b + (tail + rest))).skip(t.len() as int) =~= b + (tail + rest));
            crate::wire::lemma_tag_roundtrip(u.number, wt, b + (tail + rest));
            let acc1 = MercuryMultiGetRequestModel { unknown_fields: acc.unknown_fields.push(u), ..acc };
            assert(acc.unknown_fields.push(u) =~= (acc.unknown_fields + v).take(acc.unknown_fields.len() + 1int));
            lemma_grouped_take(acc.unknown_fields + v, acc.unknown_fields.len() + 1int);
            lemma_grouped_insert_last(acc.unknown_fields, u);
            Self::lemma_merge_step(acc, u.number, wt, t, b, tail + rest, acc1, lim);
            assert(acc1.unknown_fields + v.subrange(1, v.len() as int) =~= acc.unknown_fields + v);
            Self::lemma_merge_unknown_fields(acc1, v.subrange(1, v.len() as int), rest, lim);
        }
    }

    /// Reading back the encoding of a model that can be written gives the model,
    /// whatever the limit past its end.
    #[verifier::spinoff_prover]
    #[verifier::rlimit(100)]
    pub proof fn lemma_roundtrip(self, lim: nat)
        requires
            self.wf(),
        ensures
            MercuryMultiGetRequestModel::empty().merge(self.to_bytes(), lim) == Some(self),
    {
        reveal(MercuryMultiGetRequestModel::to_bytes);
        reveal(MercuryMultiGetRequestModel::wf);
        reveal_with_fuel(MercuryMultiGetRequestModel::merge, 1);
        let a0 = MercuryMultiGetRequestModel::empty();
        assert(MercuryRequestModel::all_writable(self.request));
        Self::lemma_merge_request(a0, self.request, self.encoded_from_unknown_fields(), lim);
        let a1 = MercuryMultiGetRequestModel { request: a0.request + self.request, ..a0 };
        assert(a1.unknown_fields + self.unknown_fields =~= self.unknown_fields);
        Self::lemma_merge_unknown_fields(a1, self.unknown_fields, Seq::empty(), lim);
        assert(unknown_list_bytes(self.unknown_fields) + Seq::<u8>::empty() =~= unknown_list_bytes(self.unknown_fields));
        let last = MercuryMultiGetRequestModel { unknown_fields: a1.unknown_fields + self.unknown_fields, ..a1 };
        assert(last.request =~= self.request);
        assert(last.unknown_fields =~= self.unknown_fields);
        assert(last == self);
    }
    /// A message whose only set field is `request` is written as field number 1 of the
    /// protocol's definition alone: the tag of that number with the wire type of the field,
    /// then the value.
    pub proof fn lemma_encoding_of_request(v: Seq<MercuryRequestModel>)
        ensures
            (MercuryMultiGetRequestModel { request: v, ..MercuryMultiGetRequestModel::empty() }).to_bytes() == length_delimited_list_bytes(1, MercuryRequestModel::encodings(v)),
    {
        reveal(MercuryMultiGetRequestModel::to_bytes);
        let m = MercuryMultiGetRequestModel { request: v, ..MercuryMultiGetRequestModel::empty() };
        assert(m.to_bytes() =~= length_delimited_list_bytes(1, MercuryRequestModel::encodings(v)));
    }

}

#[allow(non_snake_case)]
impl MercuryMultiGetRequest {
    /// The models of a list of messages.
    pub open spec fn seq_model(v: Seq<MercuryMultiGetRequest>) -> Seq<MercuryMultiGetRequestModel> {
        v.map_values(|m: MercuryMultiGetRequest| m@)
    }

    /// A message with no field set.
    pub fn new() -> (r: Self)
        ensures
            r@ == MercuryMultiGetRequestModel::empty(),
            r@.wf(),
    {
        let r = MercuryMultiGetRequest {
            request: Vec::new(),
            unknown_fields: Vec::new(),
        };
        assert(MercuryRequest::seq_model(r.request@) =~= Seq::<MercuryRequestModel>::empty());
        assert(unknown_models(r.unknown_fields@) =~= Seq::<UnknownFieldModel>::empty());
        proof {
            MercuryMultiGetRequestModel::lemma_empty_wf();
        }
        r
    }

    /// Empties field `request`.
    pub fn clear_request(&mut self)
        ensures
            final(self)@ == (MercuryMultiGetRequestModel { request: Seq::empty(), ..old(self)@ }),
    {
        self.request = Vec::new();
        assert(MercuryRequest::seq_model(self.request@) =~= Seq::<MercuryRequestModel>::empty());
    }

    /// Sets field `request` to the elements of `v`.
    pub fn set_request(&mut self, v: Vec<MercuryRequest>)
        ensures
            final(self)@ == (MercuryMultiGetRequestModel { request: MercuryRequest::seq_model(v@), ..old(self)@ }),
    {
        self.request = v;
    }

    /// The elements of field `request`, to change in place.
    pub fn mut_request(&mut self) -> (r: &mut Vec<MercuryRequest>)
        ensures
            MercuryRequest::seq_model(r@) == old(self)@.request,
            final(self)@ == (MercuryMultiGetRequestModel { request: MercuryRequest::seq_model(final(r)@), ..old(self)@ }),
    {
        field_mut(&mut self.request)
    }

    /// Takes the elements of field `request`, leaving it empty.
    pub fn take_request(&mut self) -> (r: Vec<MercuryRequest>)
        ensures
            MercuryRequest::seq_model(r@) == old(self)@.request,
            final(self)@ == (MercuryMultiGetRequestModel { request: Seq::empty(), ..old(self)@ }),
    {
        let mut r = Vec::new();
        std::mem::swap(&mut r, &mut self.request);
        assert(MercuryRequest::seq_model(self.request@) =~= Seq::<MercuryRequestModel>::empty());
        r
    }

    /// The elements of field `request`.
    pub fn get_request(&self) -> (r: &[MercuryRequest])
        ensures
            MercuryRequest::seq_model(r@) == self@.request,
    {
        self.request.as_slice()
    }

    /// Merges one field whose tag (number `f`, wire type `wt`) has been read
    /// from the bytes `s` that follow the tag; returns the number of bytes the
    /// value took.
    fn merge_field(&mut self, f: u32, wt: u32, s: &[u8], lim: u64) -> (r: Option<usize>)
        ensures
            match old(self)@.merge_field(f, wt, s@, lim as nat) {
                Some((m, k)) => r == Some(k as usize) && final(self)@ == m,
                None => r is None && final(self)@ == old(self)@.merge_field_failed(f, wt, s@, lim as nat),
            },
    {

        if f == 1 {
            if wt != WIRE_LENGTH_DELIMITED {
                return None;
            }
            match read_embedded_window(s, lim) {
                Some((a, b, past)) => {
                    if a == 0 || a > b || b > s.len() {
                        let x = MercuryRequest::new();
                        let ghost old_v = self.request@;
                        field_mut(&mut self.request).push(x);
                        assert(MercuryRequest::seq_model(self.request@) =~= MercuryRequest::seq_model(old_v).push(self.request@.last()@));
                        return None;
                    }
                    let sub = &s[a..b];
                    let mut x = MercuryRequest::new();
                    let ok = x.merge_from_slice(sub, past);
                    let ghost old_v = self.request@;
                    field_mut(&mut self.request).push(x);
                    assert(MercuryRequest::seq_model(self.request@) =~= MercuryRequest::seq_model(old_v).push(self.request@.last()@));
                    if ok {
                        Some(b)
                    } else {
                        None
                    }
                },
                None => {
                    let x = MercuryRequest::new();
                    let ghost old_v = self.request@;
                    field_mut(&mut self.request).push(x);
                    assert(MercuryRequest::seq_model(self.request@) =~= MercuryRequest::seq_model(old_v).push(self.request@.last()@));
                    None
                },
            }
        } else {
            match read_unknown(f, wt, s) {
                Some((Some(u), k)) => {
                    insert_unknown(field_mut(&mut self.unknown_fields), u);
                    Some(k)
                },
                Some((None, k)) => Some(k),
                None => None,
            }
        }
    }

    /// Merges all the fields that `s` holds, in order; `false` when the bytes
    /// are not a valid encoding (the message then holds what was merged so far).
    #[verifier::spinoff_prover]
    #[verifier::rlimit(50)]
    fn merge_from_slice(&mut self, s: &[u8], lim: u64) -> (ok: bool)
        ensures
            match old(self)@.merge(s@, lim as nat) {
                Some(m) => ok && final(self)@ == m,
                None => !ok && final(self)@ == old(self)@.merge_partial(s@, lim as nat),
            },
    {
        proof {
            reveal_with_fuel(MercuryMultiGetRequestModel::merge, 1);
            reveal_with_fuel(MercuryMultiGetRequestModel::merge_partial, 1);
        }
        let mut pos: usize = 0;
        assert(s@.skip(0) =~= s@);
        while pos < s.len()
            invariant
                pos <= s.len(),
                old(self)@.merge(s@, lim as nat) == self@.merge(s@.skip(pos as int), lim as nat),
                old(self)@.merge_partial(s@, lim as nat) == self@.merge_partial(s@.skip(pos as int), lim as nat),
            decreases s.len() - pos,
        {
            let rest = &s[pos..s.len()];
            assert(rest@ == s@.skip(pos as int));
            proof {
                reveal_with_fuel(MercuryMultiGetRequestModel::merge, 1);
                reveal_with_fuel(MercuryMultiGetRequestModel::merge_partial, 1);
                lemma_tag_parse_len(rest@);
            }
            match pb_read_tag_unpack(rest) {
                None => {
                    return false;
                },
                Some((f, wt, n)) => {
                    if n == 0 || n > rest.len() {
                        return false;
                    }
                    let rest2 = &rest[n..rest.len()];
                    assert(rest2@ == rest@.skip(n as int));
                    proof {
                        self@.lemma_merge_field_len(f, wt, rest2@, lim as nat);
                    }
                    match self.merge_field(f, wt, rest2, lim) {
                        None => {
                            return false;
                        },
                        Some(k) => {
                            if k > rest2.len() {
                                return false;
                            }
                            assert(rest@.skip((n + k) as int) =~= s@.skip((pos + n + k) as int));
                            pos = pos + n + k;
                        },
                    }
                },
            }
        }
        assert(s@.skip(pos as int) =~= Seq::<u8>::empty());
        proof {
            reveal_with_fuel(MercuryMultiGetRequestModel::merge, 1);
        }
        true
    }

    /// The message that `s` encodes, if it is a valid encoding.
    fn parse_slice(s: &[u8], lim: u64) -> (r: Option<Self>)
        ensures
            match MercuryMultiGetRequestModel::empty().merge(s@, lim as nat) {
                Some(m) => r matches Some(x) && x@ == m,
                None => r is None,
            },
    {
        let mut m = MercuryMultiGetRequest::new();
        if m.merge_from_slice(s, lim) {
            Some(m)
        } else {
            None
        }
    }

    /// Merges the fields that `bytes` encodes into this message, in order: a set
    /// field is replaced, a repeated field grows. On an invalid encoding the
    /// error comes back, the fields merged before the first field that could not
    /// be read stay merged, and that field is left as `merge_field_failed` says.
    pub fn merge_from_bytes(&mut self, bytes: &[u8]) -> (r: Result<(), DecodeError>)
        ensures
            match old(self)@.merge(bytes@, top_limit(bytes@.len())) {
                Some(m) => r is Ok && final(self)@ == m,
                None => r is Err && final(self)@ == old(self)@.merge_partial(bytes@, top_limit(bytes@.len())),
            },
    {
        let lim: u64 = u64::MAX - bytes.len() as u64;
        if self.merge_from_slice(bytes, lim) {
            Ok(())
        } else {
            Err(DecodeError)
        }
    }

    /// Parses a message from its encoding.
    pub fn parse_from_bytes(bytes: &[u8]) -> (r: Result<Self, DecodeError>)
        ensures
            match MercuryMultiGetRequestModel::empty().merge(bytes@, top_limit(bytes@.len())) {
                Some(m) => r matches Ok(x) && x@ == m,
                None => r is Err,
            },
    {
        let lim: u64 = u64::MAX - bytes.len() as u64;
        match Self::parse_slice(bytes, lim) {
            Some(m) => Ok(m),
            None => Err(DecodeError),
        }
    }

    /// Appends the encoding of field `request` to `out`.
    fn write_field_request(&self, out: &mut Vec<u8>)
        requires
            self@.wf(),
        ensures
            final(out)@ == old(out)@ + length_delimited_list_bytes(1, MercuryRequestModel::encodings(self@.request)),
            final(out)@ + self@.encoded_from_unknown_fields() == old(out)@ + self@.encoded_from_request(),
    {
        proof {
            reveal(MercuryMultiGetRequestModel::wf);
        }
        let ghost o = out@;
        let ghost m = self@;
        let ghost w = MercuryRequestModel::encodings(m.request);
        assert(w.subrange(0, w.len() as int) =~= w);
        assert(o + Seq::<u8>::empty() =~= o);
        let mut i: usize = 0;
        while i < self.request.len()
            invariant
                i <= self.request.len(),
                self@ == m,
                m.wf(),
                w.len() == self.request@.len(),
                w == MercuryRequestModel::encodings(m.request),
                o + length_delimited_list_bytes(1, w) == out@ + length_delimited_list_bytes(1, w.subrange(i as int, w.len() as int)),
            decreases self.request.len() - i,
        {
            proof {
                reveal(MercuryMultiGetRequestModel::wf);
                lemma_length_delimited_list_cons(1, w.subrange(i as int, w.len() as int));
                assert(m.request[i as int] == self.request@[i as int]@);
                assert(m.request[i as int].wf());
                assert(w.subrange(i as int, w.len() as int)[0] == w[i as int]);
                assert(w.subrange(i as int, w.len() as int).subrange(1, w.len() - i) =~= w.subrange(i + 1, w.len() as int));
            }
            let ghost before = out@;
            let mut tmp: Vec<u8> = Vec::new();
            self.request[i].write_to(&mut tmp);
            assert(tmp@ =~= w[i as int]);
            pb_write_tag(out, 1, WIRE_LENGTH_DELIMITED);
            write_bytes_value(out, tmp.as_slice());
            proof {
                lemma_write_list_step(before, tag_bytes(1, WIRE_LENGTH_DELIMITED), bytes_value_bytes(w[i as int]), length_delimited_list_bytes(1, w.subrange(i + 1, w.len() as int)), Seq::<u8>::empty());
                assert(length_delimited_list_bytes(1, w.subrange(i + 1, w.len() as int)) + Seq::<u8>::empty() =~= length_delimited_list_bytes(1, w.subrange(i + 1, w.len() as int)));
                assert(tag_bytes(1, WIRE_LENGTH_DELIMITED) + (bytes_value_bytes(w[i as int]) + length_delimited_list_bytes(1, w.subrange(i + 1, w.len() as int))) + Seq::<u8>::empty() =~= tag_bytes(1, WIRE_LENGTH_DELIMITED) + (bytes_value_bytes(w[i as int]) + length_delimited_list_bytes(1, w.subrange(i + 1, w.len() as int))));
            }
            i = i + 1;
        }
        assert(w.subrange(i as int, w.len() as int) =~= Seq::<Seq<u8>>::empty());
        assert(out@ + Seq::<u8>::empty() =~= out@);
        proof {
            lemma_concat_assoc(o, length_delimited_list_bytes(1, MercuryRequestModel::encodings(m.request)), m.encoded_from_unknown_fields());
        }
    }

    /// Appends the fields of unknown numbers to `out`.
    fn write_unknown_fields(&self, out: &mut Vec<u8>)
        requires
            self@.wf(),
        ensures
            final(out)@ == old(out)@ + unknown_list_bytes(self@.unknown_fields),
    {
        proof {
            reveal(MercuryMultiGetRequestModel::wf);
        }
        let ghost o = out@;
        let ghost m = self@;
        let mut j: usize = 0;
        assert(m.unknown_fields.subrange(0, m.unknown_fields.len() as int) =~= m.unknown_fields);
        assert(o + Seq::<u8>::empty() =~= o);
        while j < self.unknown_fields.len()
            invariant
                j <= self.unknown_fields.len(),
                self@ == m,
                m.wf(),
                o + unknown_list_bytes(m.unknown_fields) == out@ + unknown_list_bytes(m.unknown_fields.subrange(j as int, m.unknown_fields.len() as int)),
            decreases self.unknown_fields.len() - j,
        {
            proof {
                reveal(MercuryMultiGetRequestModel::wf);
                lemma_unknown_list_cons(m.unknown_fields.subrange(j as int, m.unknown_fields.len() as int));
                assert(m.unknown_fields[j as int] == self.unknown_fields@[j as int]@);
                assert(m.unknown_fields.subrange(j as int, m.unknown_fields.len() as int)[0] == m.unknown_fields[j as int]);
                assert(m.unknown_fields.subrange(j as int, m.unknown_fields.len() as int).subrange(1, m.unknown_fields.len() - j) =~= m.unknown_fields.subrange(j + 1, m.unknown_fields.len() as int));
            }
            let ghost before = out@;
            write_unknown(out, &self.unknown_fields[j]);
            proof {
                lemma_concat_assoc(before, unknown_field_bytes(m.unknown_fields[j as int]), unknown_list_bytes(m.unknown_fields.subrange(j + 1, m.unknown_fields.len() as int)));
            }
            j = j + 1;
        }
        assert(m.unknown_fields.subrange(j as int, m.unknown_fields.len() as int) =~= Seq::<UnknownFieldModel>::empty());
        assert(out@ =~= o + unknown_list_bytes(m.unknown_fields));
    }

    /// Appends the encoding of the message to `out`.
    fn write_to(&self, out: &mut Vec<u8>)
        requires
            self@.wf(),
        ensures
            final(out)@ == old(out)@ + self@.to_bytes(),
    {
        proof {
            reveal(MercuryMultiGetRequestModel::to_bytes);
        }
        let ghost o = out@;
        let ghost m = self@;
        assert(o + m.to_bytes() == out@ + m.encoded_from_request());
        self.write_field_request(out);
        self.write_unknown_fields(out);
    }

    /// The encoding of the message.
    pub fn write_to_bytes(&self) -> (r: Vec<u8>)
        requires
            self@.wf(),
        ensures
            r@ == self@.to_bytes(),
    {
        let mut out: Vec<u8> = Vec::new();
        self.write_to(&mut out);
        assert(out@ =~= self@.to_bytes());
        out
    }

    /// The length of the encoding of the message.
    pub fn compute_size(&self) -> (r: u32)
        requires
            self@.wf(),
            self@.to_bytes().len() <= u32::MAX,
        ensures
            r == self@.to_bytes().len(),
    {
        let v = self.write_to_bytes();
        v.len() as u32
    }
    /// A copy of the message.
    pub fn clone_message(&self) -> (r: Self)
        ensures
            r@ == self@,
    {
        let mut request: Vec<MercuryRequest> = Vec::new();
        let mut i: usize = 0;
        while i < self.request.len()
            invariant
                i <= self.request@.len(),
                request@.len() == i,
                forall|j: int| 0 <= j < i ==> #[trigger] request@[j]@ == self.request@[j]@,
            decreases self.request@.len() - i,
        {
            request.push(self.request[i].clone_message());
            i = i + 1;
        }
        assert(MercuryRequest::seq_model(request@) =~= MercuryRequest::seq_model(self.request@));
        let unknown_fields = clone_unknown_fields(&self.unknown_fields);
        MercuryMultiGetRequest { request, unknown_fields }
    }

}

impl Clone for MercuryMultiGetRequest {
    fn clone(&self) -> (r: Self)
        ensures
            r@ == self@,
    {
        self.clone_message()
    }
}

impl Default for MercuryMultiGetRequest {
    fn default() -> (r: Self)
        ensures
            r@ == MercuryMultiGetRequestModel::empty(),
    {
        MercuryMultiGetRequest::new()
    }
}

/// The `MercuryMultiGetReply` message.
#[allow(non_snake_case)]
#[derive(Debug, PartialEq)]
pub struct MercuryMultiGetReply {
    reply: Vec<MercuryReply>,
    unknown_fields: Vec<UnknownField>,
}

/// The model of a `MercuryMultiGetReply`: each field's value, `None` or empty when unset,
/// and the fields of unknown numbers, in the order they were read.
#[allow(non_snake_case)]
pub struct MercuryMultiGetReplyModel {
    pub reply: Seq<MercuryReplyModel>,
    pub unknown_fields: Seq<UnknownFieldModel>,
}

impl View for MercuryMultiGetReply {
    type V = MercuryMultiGetReplyModel;

    closed spec fn view(&self) -> MercuryMultiGetReplyModel {
        MercuryMultiGetReplyModel {
            reply: MercuryReply::seq_model(self.reply@),
            unknown_fields: unknown_models(self.unknown_fields@),
        }
    }
}

#[allow(non_snake_case)]
impl MercuryMultiGetReplyModel {
    /// The model of a message with no field set.
    pub open spec fn empty() -> Self {
        MercuryMultiGetReplyModel {
            reply: Seq::empty(),
            unknown_fields: Seq::empty(),
        }
    }

    /// The encodings of a list of messages.
    pub open spec fn encodings(v: Seq<MercuryMultiGetReplyModel>) -> Seq<Seq<u8>> {
        v.map_values(|m: MercuryMultiGetReplyModel| m.to_bytes())
    }

    /// Every message of a list can be written, and its encoding fits a 32-bit length.
    pub open spec fn all_writable(v: Seq<MercuryMultiGetReplyModel>) -> bool {
        forall|i: int| 0 <= i < v.len() ==> #[trigger] v[i].wf() && fits_u32(v[i].to_bytes())
    }

    /// The field numbers that this message knows.
    pub open spec fn is_known_field(f: u32) -> bool {
        f == 1
    }

    /// Merging one field whose tag (number `f`, wire type `wt`) has been read;
    /// `s` holds the bytes after the tag. The result is the merged model and
    /// the number of bytes the value took; a set field is replaced, a repeated
    /// field grows, a field of unknown number is kept or, if a group, skipped.
    pub open spec fn merge_field(self, f: u32, wt: u32, s: Seq<u8>, lim: nat) -> Option<(Self, nat)> {
        if f == 1 {
            if wt != WIRE_LENGTH_DELIMITED {
                None
            } else {
                match embedded_window(s, lim) {
                    Some((a, b, x)) => if 0 < a <= b <= s.len() {
                        match MercuryReplyModel::empty().merge(s.subrange(a as int, b as int), x) {
                            Some(x) => Some((MercuryMultiGetReplyModel { reply: self.reply.push(x), ..self }, b)),
                            None => None,
                        }
                    } else {
                        None
                    },
                    None => None,
                }
            }
        } else {
            match unknown_parse(f, wt, s) {
                Some((Some(u), k)) => Some((MercuryMultiGetReplyModel { unknown_fields: grouped_insert(self.unknown_fields, u), ..self }, k)),
                Some((None, k)) => Some((self, k)),
                None => None,
            }
        }
    }

    /// What is left of the model when merging one field (number `f`, wire type
    /// `wt`, value at the front of `s`) fails: a string, bytes or message field
    /// of the right wire type is first set to its empty value (a repeated one
    /// gets an empty element) and an embedded message keeps the fields merged
    /// into it before the failure; packed values read before the failure stay.
    pub open spec fn merge_field_failed(self, f: u32, wt: u32, s: Seq<u8>, lim: nat) -> Self {
        if f == 1 {
            if wt != WIRE_LENGTH_DELIMITED {
                self
            } else {
                match embedded_window(s, lim) {
                    Some((a, b, x)) => if 0 < a <= b <= s.len() {
                        MercuryMultiGetReplyModel { reply: self.reply.push(MercuryReplyModel::empty().merge_partial(s.subrange(a as int, b as int), x)), ..self }
                    } else {
                        MercuryMultiGetReplyModel { reply: self.reply.push(MercuryReplyModel::empty()), ..self }
                    },
                    None => MercuryMultiGetReplyModel { reply: self.reply.push(MercuryReplyModel::empty()), ..self },
                }
            }
        } else {
            self
        }
    }

    /// The value of a merged field takes no more than the bytes after its tag.
    pub proof fn lemma_merge_field_len(self, f: u32, wt: u32, s: Seq<u8>, lim: nat)
        ensures
            self.merge_field(f, wt, s, lim) matches Some((_m, k)) ==> k <= s.len(),
    {
        lemma_varint_parse_len(s);
        crate::wire::lemma_unknown_parse_len(f, wt, s);
    }

    /// Merging all the fields that `s` holds, in order, where the length of an
    /// embedded message may reach `lim` bytes past the end of `s` (such a message
    /// is read up to the end of `s`).
    #[verifier::opaque]
    pub open spec fn merge(self, s: Seq<u8>, lim: nat) -> Option<Self>
        decreases s.len(),
    {
        if s.len() == 0 {
            Some(self)
        } else {
            match tag_parse(s) {
                Some((f, wt, n)) => if 0 < n <= s.len() {
                    match self.merge_field(f, wt, s.skip(n as int), lim) {
                        Some((m, k)) => if n + k <= s.len() {
                            m.merge(s.skip((n + k) as int), lim)
                        } else {
                            None
                        },
                        None => None,
                    }
                } else {
                    None
                },
                None => None,
            }
        }
    }

    /// What merging `s` leaves: the fields merged in order up to the first one
    /// whose tag or value cannot be read, then what `merge_field_failed` leaves of
    /// that one; all of `s` where it is a valid encoding.
    #[verifier::opaque]
    pub open spec fn merge_partial(self, s: Seq<u8>, lim: nat) -> Self
        decreases s.len(),
    {
        if s.len() == 0 {
            self
        } else {
            match tag_parse(s) {
                Some((f, wt, n)) => if 0 < n <= s.len() {
                    match self.merge_field(f, wt, s.skip(n as int), lim) {
                        Some((m, k)) => if n + k <= s.len() {
                            m.merge_partial(s.skip((n + k) as int), lim)
                        } else {
                            m
                        },
                        None => self.merge_field_failed(f, wt, s.skip(n as int), lim),
                    }
                } else {
                    self
                },
                None => self,
            }
        }
    }

    /// The encoding of field `reply` and of every field written after it.
    pub open spec fn encoded_from_reply(self) -> Seq<u8> {
        length_delimited_list_bytes(1, MercuryReplyModel::encodings(self.reply)) + self.encoded_from_unknown_fields()
    }

    /// The encoding of the fields of unknown numbers, written last.
    pub open spec fn encoded_from_unknown_fields(self) -> Seq<u8> {
        unknown_list_bytes(self.unknown_fields)
    }

    /// The encoding of the message: its set fields in order of declaration,
    /// each element of a repeated field in order, then the unknown fields.
    #[verifier::opaque]
    pub open spec fn to_bytes(self) -> Seq<u8> {
        self.encoded_from_reply()
    }

    /// A model that can be written and read back: every length fits the
    /// 32-bit length prefix, nested messages can be written, and the unknown
    /// fields have valid numbers that this message does not know.
    #[verifier::opaque]
    pub open spec fn wf(self) -> bool {
        &&& MercuryReplyModel::all_writable(self.reply)
        &&& (forall|i: int| 0 <= i < self.unknown_fields.len() ==> unknown_field_wf(#[trigger] self.unknown_fields[i]) && !Self::is_known_field(self.unknown_fields[i].number))
        &&& unknown_grouped(self.unknown_fields)
    }

    /// The message with no field set can be written and read back.
    pub proof fn lemma_empty_wf()
        ensures
            Self::empty().wf(),
    {
        reveal_with_fuel(MercuryMultiGetReplyModel::wf, 1);
        lemma_grouped_empty();
    }

    /// Merging a field's tag and value, whatever follows them.
    pub proof fn lemma_merge_step(acc: Self, f: u32, wt: u32, t: Seq<u8>, b: Seq<u8>, rest: Seq<u8>, acc2: Self, lim: nat)
        requires
            tag_parse(t + (b + rest)) == Some((f, wt, t.len())),
            t.len() > 0,
            acc.merge_field(f, wt, b + rest, lim) == Some((acc2, b.len())),
        ensures
            acc.merge(t + (b + rest), lim) == acc2.merge(rest, lim),
    {
        reveal_with_fuel(MercuryMultiGetReplyModel::merge, 1);
        lemma_skip_chunk(t, b, rest);
    }

    /// Merging the encoding of the elements of field `reply` appends them, whatever follows.
    #[verifier::rlimit(50)]
    pub proof fn lemma_merge_reply(acc: Self, v: Seq<MercuryReplyModel>, rest: Seq<u8>, lim: nat)
        requires
            MercuryReplyModel::all_writable(v),
        ensures
            acc.merge(length_delimited_list_bytes(1, MercuryReplyModel::encodings(v)) + rest, lim) == (MercuryMultiGetReplyModel { reply: acc.reply + v, ..acc }).merge(rest, lim),
        decreases v.len(),
    {
        let w = MercuryReplyModel::encodings(v);
        if v.len() == 0 {
            assert(length_delimited_list_bytes(1, w) + rest =~= rest);
            assert(acc.reply + v =~= acc.reply);
            assert((MercuryMultiGetReplyModel { reply: acc.reply + v, ..acc }) == acc);
        } else {
            lemma_length_delimited_list_cons(1, w);
            assert(v[0].wf() && fits_u32(v[0].to_bytes()));
            let t = tag_bytes(1, WIRE_LENGTH_DELIMITED);
            let b = bytes_value_bytes(w[0]);
            let tail = length_delimited_list_bytes(1, w.subrange(1, w.len() as int));
            assert(length_delimited_list_bytes(1, w) + rest =~= t + (b + (tail + rest)));
            lemma_tag_roundtrip(1, WIRE_LENGTH_DELIMITED, b + (tail + rest));
            lemma_message_window(v[0].to_bytes(), tail + rest);
            lemma_embedded_window(v[0].to_bytes(), tail + rest, lim);
            v[0].lemma_roundtrip(0);
            lemma_varint_parse_len(b + (tail + rest));
            let acc1 = MercuryMultiGetReplyModel { reply: acc.reply.push(v[0]), ..acc };
            Self::lemma_merge_step(acc, 1, WIRE_LENGTH_DELIMITED, t, b, tail + rest, acc1, lim);
            assert(w.subrange(1, w.len() as int) =~= MercuryReplyModel::encodings(v.subrange(1, v.len() as int)));
            assert forall|j: int| 0 <= j < v.len() - 1 implies #[trigger] v.subrange(1, v.len() as int)[j].wf() && fits_u32(v.subrange(1, v.len() as int)[j].to_bytes()) by {
                assert(v.subrange(1, v.len() as int)[j] == v[j + 1]);
            }
            Self::lemma_merge_reply(acc1, v.subrange(1, v.len() as int), rest, lim);
            assert(acc1.reply + v.subrange(1, v.len() as int) =~= acc.reply + v);
        }
    }

    /// Merging the encoding of fields of unknown numbers keeps them, whatever follows.
    #[verifier::rlimit(50)]
    pub proof fn lemma_merge_unknown_fields(acc: Self, v: Seq<UnknownFieldModel>, rest: Seq<u8>, lim: nat)
        requires
            forall|i: int| 0 <= i < v.len() ==> unknown_field_wf(#[trigger] v[i]) && !Self::is_known_field(v[i].number),
            unknown_grouped(acc.unknown_fields + v),
        ensures
            acc.merge(unknown_list_bytes(v) + rest, lim) == (MercuryMultiGetReplyModel { unknown_fields: acc.unknown_fields + v, ..acc }).merge(rest, lim),
        decreases v.len(),
    {
        if v.len() == 0 {
            assert(unknown_list_bytes(v) + rest =~= rest);
            assert(acc.unknown_fields + v =~= acc.unknown_fields);
            assert((MercuryMultiGetReplyModel { unknown_fields: acc.unknown_fields + v, ..acc }) == acc);
        } else {
            lemma_unknown_list_cons(v);
            let u = v[0];
            let wt = crate::wire::unknown_wire_type(u.value);
            let t = tag_bytes(u.number, wt);
            let b = crate::wire::unknown_value_bytes(u.value);
            let tail = unknown_list_bytes(v.subrange(1, v.len() as int));
            assert(unknown_list_bytes(v) + rest =~= t + (b + (tail + rest)));
            assert(unknown_field_bytes(u) + (tail + rest) =~= t + (b + (tail + rest)));
            lemma_unknown_roundtrip(u, tail + rest);
            assert((t + (b + (tail + rest))).skip(t.len() as int) =~= b + (tail + rest));
            crate::wire::lemma_tag_roundtrip(u.number, wt, b + (tail + rest));
            let acc1 = MercuryMultiGetReplyModel { unknown_fields: acc.unknown_fields.push(u), ..acc };
            assert(acc.unknown_fields.push(u) =~= (acc.unknown_fields + v).take(acc.unknown_fields.len() + 1int));
            lemma_grouped_take(acc.unknown_fields + v, acc.unknown_fields.len() + 1int);
            lemma_grouped_insert_last(acc.unknown_fields, u);
            Self::lemma_merge_step(acc, u.number, wt, t, b, tail + rest, acc1, lim);
            assert(acc1.unknown_fields + v.subrange(1, v.len() as int) =~= acc.unknown_fields + v);
            Self::lemma_merge_unknown_fields(acc1, v.subrange(1, v.len() as int), rest, lim);
        }
    }

    /// Reading back the encoding of a model that can be written gives the model,
    /// whatever the limit past its end.
    #[verifier::spinoff_prover]
    #[verifier::rlimit(100)]
    pub proof fn lemma_roundtrip(self, lim: nat)
        requires
            self.wf(),
        ensures
            MercuryMultiGetReplyModel::empty().merge(self.to_bytes(), lim) == Some(self),
    {
        reveal(MercuryMultiGetReplyModel::to_bytes);
        reveal(MercuryMultiGetReplyModel::wf);
        reveal_with_fuel(MercuryMultiGetReplyModel::merge, 1);
        let a0 = MercuryMultiGetReplyModel::empty();
        assert(MercuryReplyModel::all_writable(self.reply));
        Self::lemma_merge_reply(a0, self.reply, self.encoded_from_unknown_fields(), lim);
        let a1 = MercuryMultiGetReplyModel { reply: a0.reply + self.reply, ..a0 };
        assert(a1.unknown_fields + self.unknown_fields =~= self.unknown_fields);
        Self::lemma_merge_unknown_fields(a1, self.unknown_fields, Seq::empty(), lim);
        assert(unknown_list_bytes(self.unknown_fields) + Seq::<u8>::empty() =~= unknown_list_bytes(self.unknown_fields));
        let last = MercuryMultiGetReplyModel { unknown_fields: a1.unknown_fields + self.unknown_fields, ..a1 };
        assert(last.reply =~= self.reply);
        assert(last.unknown_fields =~= self.unknown_fields);
        assert(last == self);
    }
    /// A message whose only set field is `reply` is written as field number 1 of the
    /// protocol's definition alone: the tag of that number with the wire type of the field,
    /// then the value.
    pub proof fn lemma_encoding_of_reply(v: Seq<MercuryReplyModel>)
        ensures
            (MercuryMultiGetReplyModel { reply: v, ..MercuryMultiGetReplyModel::empty() }).to_bytes() == length_delimited_list_bytes(1, MercuryReplyModel::encodings(v)),
    {
        reveal(MercuryMultiGetReplyModel::to_bytes);
        let m = MercuryMultiGetReplyModel { reply: v, ..MercuryMultiGetReplyModel::empty() };
        assert(m.to_bytes() =~= length_delimited_list_bytes(1, MercuryReplyModel::encodings(v)));
    }

}

#[allow(non_snake_case)]
impl MercuryMultiGetReply {
    /// The models of a list of messages.
    pub open spec fn seq_model(v: Seq<MercuryMultiGetReply>) -> Seq<MercuryMultiGetReplyModel> {
        v.map_values(|m: MercuryMultiGetReply| m@)
    }

    /// A message with no field set.
    pub fn new() -> (r: Self)
        ensures
            r@ == MercuryMultiGetReplyModel::empty(),
            r@.wf(),
    {
        let r = MercuryMultiGetReply {
            reply: Vec::new(),
            unknown_fields: Vec::new(),
        };
        assert(MercuryReply::seq_model(r.reply@) =~= Seq::<MercuryReplyModel>::empty());
        assert(unknown_models(r.unknown_fields@) =~= Seq::<UnknownFieldModel>::empty());
        proof {
            MercuryMultiGetReplyModel::lemma_empty_wf();
        }
        r
    }

    /// Empties field `reply`.
    pub fn clear_reply(&mut self)
        ensures
            final(self)@ == (MercuryMultiGetReplyModel { reply: Seq::empty(), ..old(self)@ }),
    {
        self.reply = Vec::new();
        assert(MercuryReply::seq_model(self.reply@) =~= Seq::<MercuryReplyModel>::empty());
    }

    /// Sets field `reply` to the elements of `v`.
    pub fn set_reply(&mut self, v: Vec<MercuryReply>)
        ensures
            final(self)@ == (MercuryMultiGetReplyModel { reply: MercuryReply::seq_model(v@), ..old(self)@ }),
    {
        self.reply = v;
    }

    /// The elements of field `reply`, to change in place.
    pub fn mut_reply(&mut self) -> (r: &mut Vec<MercuryReply>)
        ensures
            MercuryReply::seq_model(r@) == old(self)@.reply,
            final(self)@ == (MercuryMultiGetReplyModel { reply: MercuryReply::seq_model(final(r)@), ..old(self)@ }),
    {
        field_mut(&mut self.reply)
    }

    /// Takes the elements of field `reply`, leaving it empty.
    pub fn take_reply(&mut self) -> (r: Vec<MercuryReply>)
        ensures
            MercuryReply::seq_model(r@) == old(self)@.reply,
            final(self)@ == (MercuryMultiGetReplyModel { reply: Seq::empty(), ..old(self)@ }),
    {
        let mut r = Vec::new();
        std::mem::swap(&mut r, &mut self.reply);
        assert(MercuryReply::seq_model(self.reply@) =~= Seq::<MercuryReplyModel>::empty());
        r
    }

    /// The elements of field `reply`.
    pub fn get_reply(&self) -> (r: &[MercuryReply])
        ensures
            MercuryReply::seq_model(r@) == self@.reply,
    {
        self.reply.as_slice()
    }

    /// Merges one field whose tag (number `f`, wire type `wt`) has been read
    /// from the bytes `s` that follow the tag; returns the number of bytes the
    /// value took.
    fn merge_field(&mut self, f: u32, wt: u32, s: &[u8], lim: u64) -> (r: Option<usize>)
        ensures
            match old(self)@.merge_field(f, wt, s@, lim as nat) {
                Some((m, k)) => r == Some(k as usize) && final(self)@ == m,
                None => r is None && final(self)@ == old(self)@.merge_field_failed(f, wt, s@, lim as nat),
            },
    {

        if f == 1 {
            if wt != WIRE_LENGTH_DELIMITED {
                return None;
            }
            match read_embedded_window(s, lim) {
                Some((a, b, past)) => {
                    if a == 0 || a > b || b > s.len() {
                        let x = MercuryReply::new();
                        let ghost old_v = self.reply@;
                        field_mut(&mut self.reply).push(x);
                        assert(MercuryReply::seq_model(self.reply@) =~= MercuryReply::seq_model(old_v).push(self.reply@.last()@));
                        return None;
                    }
                    let sub = &s[a..b];
                    let mut x = MercuryReply::new();
                    let ok = x.merge_from_slice(sub, past);
                    let ghost old_v = self.reply@;
                    field_mut(&mut self.reply).push(x);
                    assert(MercuryReply::seq_model(self.reply@) =~= MercuryReply::seq_model(old_v).push(self.reply@.last()@));
                    if ok {
                        Some(b)
                    } else {
                        None
                    }
                },
                None => {
                    let x = MercuryReply::new();
                    let ghost old_v = self.reply@;
                    field_mut(&mut self.reply).push(x);
                    assert(MercuryReply::seq_model(self.reply@) =~= MercuryReply::seq_model(old_v).push(self.reply@.last()@));
                    None
                },
            }
        } else {
            match read_unknown(f, wt, s) {
                Some((Some(u), k)) => {
                    insert_unknown(field_mut(&mut self.unknown_fields), u);
                    Some(k)
                },
                Some((None, k)) => Some(k),
                None => None,
            }
        }
    }

    /// Merges all the fields that `s` holds, in order; `false` when the bytes
    /// are not a valid encoding (the message then holds what was merged so far).
    #[verifier::spinoff_prover]
    #[verifier::rlimit(50)]
    fn merge_from_slice(&mut self, s: &[u8], lim: u64) -> (ok: bool)
        ensures
            match old(self)@.merge(s@, lim as nat) {
                Some(m) => ok && final(self)@ == m,
                None => !ok && final(self)@ == old(self)@.merge_partial(s@, lim as nat),
            },
    {
        proof {
            reveal_with_fuel(MercuryMultiGetReplyModel::merge, 1);
            reveal_with_fuel(MercuryMultiGetReplyModel::merge_partial, 1);
        }
        let mut pos: usize = 0;
        assert(s@.skip(0) =~= s@);
        while pos < s.len()
            invariant
                pos <= s.len(),
                old(self)@.merge(s@, lim as nat) == self@.merge(s@.skip(pos as int), lim as nat),
                old(self)@.merge_partial(s@, lim as nat) == self@.merge_partial(s@.skip(pos as int), lim as nat),
            decreases s.len() - pos,
        {
            let rest = &s[pos..s.len()];
            assert(rest@ == s@.skip(pos as int));
            proof {
                reveal_with_fuel(MercuryMultiGetReplyModel::merge, 1);
                reveal_with_fuel(MercuryMultiGetReplyModel::merge_partial, 1);
                lemma_tag_parse_len(rest@);
            }
            match pb_read_tag_unpack(rest) {
                None => {
                    return false;
                },
                Some((f, wt, n)) => {
                    if n == 0 || n > rest.len() {
                        return false;
                    }
                    let rest2 = &rest[n..rest.len()];
                    assert(rest2@ == rest@.skip(n as int));
                    proof {
                        self@.lemma_merge_field_len(f, wt, rest2@, lim as nat);
                    }
                    match self.merge_field(f, wt, rest2, lim) {
                        None => {
                            return false;
                        },
                        Some(k) => {
                            if k > rest2.len() {
                                return false;
                            }
                            assert(rest@.skip((n + k) as int) =~= s@.skip((pos + n + k) as int));
                            pos = pos + n + k;
                        },
                    }
                },
            }
        }
        assert(s@.skip(pos as int) =~= Seq::<u8>::empty());
        proof {
            reveal_with_fuel(MercuryMultiGetReplyModel::merge, 1);
        }
        true
    }

    /// The message that `s` encodes, if it is a valid encoding.
    fn parse_slice(s: &[u8], lim: u64) -> (r: Option<Self>)
        ensures
            match MercuryMultiGetReplyModel::empty().merge(s@, lim as nat) {
                Some(m) => r matches Some(x) && x@ == m,
                None => r is None,
            },
    {
        let mut m = MercuryMultiGetReply::new();
        if m.merge_from_slice(s, lim) {
            Some(m)
        } else {
            None
        }
    }

    /// Merges the fields that `bytes` encodes into this message, in order: a set
    /// field is replaced, a repeated field grows. On an invalid encoding the
    /// error comes back, the fields merged before the first field that could not
    /// be read stay merged, and that field is left as `merge_field_failed` says.
    pub fn merge_from_bytes(&mut self, bytes: &[u8]) -> (r: Result<(), DecodeError>)
        ensures
            match old(self)@.merge(bytes@, top_limit(bytes@.len())) {
                Some(m) => r is Ok && final(self)@ == m,
                None => r is Err && final(self)@ == old(self)@.merge_partial(bytes@, top_limit(bytes@.len())),
            },
    {
        let lim: u64 = u64::MAX - bytes.len() as u64;
        if self.merge_from_slice(bytes, lim) {
            Ok(())
        } else {
            Err(DecodeError)
        }
    }

    /// Parses a message from its encoding.
    pub fn parse_from_bytes(bytes: &[u8]) -> (r: Result<Self, DecodeError>)
        ensures
            match MercuryMultiGetReplyModel::empty().merge(bytes@, top_limit(bytes@.len())) {
                Some(m) => r matches Ok(x) && x@ == m,
                None => r is Err,
            },
    {
        let lim: u64 = u64::MAX - bytes.len() as u64;
        match Self::parse_slice(bytes, lim) {
            Some(m) => Ok(m),
            None => Err(DecodeError),
        }
    }

    /// Appends the encoding of field `reply` to `out`.
    fn write_field_reply(&self, out: &mut Vec<u8>)
        requires
            self@.wf(),
        ensures
            final(out)@ == old(out)@ + length_delimited_list_bytes(1, MercuryReplyModel::encodings(self@.reply)),
            final(out)@ + self@.encoded_from_unknown_fields() == old(out)@ + self@.encoded_from_reply(),
    {
        proof {
            reveal(MercuryMultiGetReplyModel::wf);
        }
        let ghost o = out@;
        let ghost m = self@;
        let ghost w = MercuryReplyModel::encodings(m.reply);
        assert(w.subrange(0, w.len() as int) =~= w);
        assert(o + Seq::<u8>::empty() =~= o);
        let mut i: usize = 0;
        while i < self.reply.len()
            invariant
                i <= self.reply.len(),
                self@ == m,
                m.wf(),
                w.len() == self.reply@.len(),
                w == MercuryReplyModel::encodings(m.reply),
                o + length_delimited_list_bytes(1, w) == out@ + length_delimited_list_bytes(1, w.subrange(i as int, w.len() as int)),
            decreases self.reply.len() - i,
        {
            proof {
                reveal(MercuryMultiGetReplyModel::wf);
                lemma_length_delimited_list_cons(1, w.subrange(i as int, w.len() as int));
                assert(m.reply[i as int] == self.reply@[i as int]@);
                assert(m.reply[i as int].wf());
                assert(w.subrange(i as int, w.len() as int)[0] == w[i as int]);
                assert(w.subrange(i as int, w.len() as int).subrange(1, w.len() - i) =~= w.subrange(i + 1, w.len() as int));
            }
            let ghost before = out@;
            let mut tmp: Vec<u8> = Vec::new();
            self.reply[i].write_to(&mut tmp);
            assert(tmp@ =~= w[i as int]);
            pb_write_tag(out, 1, WIRE_LENGTH_DELIMITED);
            write_bytes_value(out, tmp.as_slice());
            proof {
                lemma_write_list_step(before, tag_bytes(1, WIRE_LENGTH_DELIMITED), bytes_value_bytes(w[i as int]), length_delimited_list_bytes(1, w.subrange(i + 1, w.len() as int)), Seq::<u8>::empty());
                assert(length_delimited_list_bytes(1, w.subrange(i + 1, w.len() as int)) + Seq::<u8>::empty() =~= length_delimited_list_bytes(1, w.subrange(i + 1, w.len() as int)));
                assert(tag_bytes(1, WIRE_LENGTH_DELIMITED) + (bytes_value_bytes(w[i as int]) + length_delimited_list_bytes(1, w.subrange(i + 1, w.len() as int))) + Seq::<u8>::empty() =~= tag_bytes(1, WIRE_LENGTH_DELIMITED) + (bytes_value_bytes(w[i as int]) + length_delimited_list_bytes(1, w.subrange(i + 1, w.len() as int))));
            }
            i = i + 1;
        }
        assert(w.subrange(i as int, w.len() as int) =~= Seq::<Seq<u8>>::empty());
        assert(out@ + Seq::<u8>::empty() =~= out@);
        proof {
            lemma_concat_assoc(o, length_delimited_list_bytes(1, MercuryReplyModel::encodings(m.reply)), m.encoded_from_unknown_fields());
        }
    }

    /// Appends the fields of unknown numbers to `out`.
    fn write_unknown_fields(&self, out: &mut Vec<u8>)
        requires
            self@.wf(),
        ensures
            final(out)@ == old(out)@ + unknown_list_bytes(self@.unknown_fields),
    {
        proof {
            reveal(MercuryMultiGetReplyModel::wf);
        }
        let ghost o = out@;
        let ghost m = self@;
        let mut j: usize = 0;
        assert(m.unknown_fields.subrange(0, m.unknown_fields.len() as int) =~= m.unknown_fields);
        assert(o + Seq::<u8>::empty() =~= o);
        while j < self.unknown_fields.len()
            invariant
                j <= self.unknown_fields.len(),
                self@ == m,
                m.wf(),
                o + unknown_list_bytes(m.unknown_fields) == out@ + unknown_list_bytes(m.unknown_fields.subrange(j as int, m.unknown_fields.len() as int)),
            decreases self.unknown_fields.len() - j,
        {
            proof {
                reveal(MercuryMultiGetReplyModel::wf);
                lemma_unknown_list_cons(m.unknown_fields.subrange(j as int, m.unknown_fields.len() as int));
                assert(m.unknown_fields[j as int] == self.unknown_fields@[j as int]@);
                assert(m.unknown_fields.subrange(j as int, m.unknown_fields.len() as int)[0] == m.unknown_fields[j as int]);
                assert(m.unknown_fields.subrange(j as int, m.unknown_fields.len() as int).subrange(1, m.unknown_fields.len() - j) =~= m.unknown_fields.subrange(j + 1, m.unknown_fields.len() as int));
            }
            let ghost before = out@;
            write_unknown(out, &self.unknown_fields[j]);
            proof {
                lemma_concat_assoc(before, unknown_field_bytes(m.unknown_fields[j as int]), unknown_list_bytes(m.unknown_fields.subrange(j + 1, m.unknown_fields.len() as int)));
            }
            j = j + 1;
        }
        assert(m.unknown_fields.subrange(j as int, m.unknown_fields.len() as int) =~= Seq::<UnknownFieldModel>::empty());
        assert(out@ =~= o + unknown_list_bytes(m.unknown_fields));
    }

    /// Appends the encoding of the message to `out`.
    fn write_to(&self, out: &mut Vec<u8>)
        requires
            self@.wf(),
        ensures
            final(out)@ == old(out)@ + self@.to_bytes(),
    {
        proof {
            reveal(MercuryMultiGetReplyModel::to_bytes);
        }
        let ghost o = out@;
        let ghost m = self@;
        assert(o + m.to_bytes() == out@ + m.encoded_from_reply());
        self.write_field_reply(out);
        self.write_unknown_fields(out);
    }

    /// The encoding of the message.
    pub fn write_to_bytes(&self) -> (r: Vec<u8>)
        requires
            self@.wf(),
        ensures
            r@ == self@.to_bytes(),
    {
        let mut out: Vec<u8> = Vec::new();
        self.write_to(&mut out);
        assert(out@ =~= self@.to_bytes());
        out
    }

    /// The length of the encoding of the message.
    pub fn compute_size(&self) -> (r: u32)
        requires
            self@.wf(),
            self@.to_bytes().len() <= u32::MAX,
        ensures
            r == self@.to_bytes().len(),
    {
        let v = self.write_to_bytes();
        v.len() as u32
    }
    /// A copy of the message.
    pub fn clone_message(&self) -> (r: Self)
        ensures
            r@ == self@,
    {
        let mut reply: Vec<MercuryReply> = Vec::new();
        let mut i: usize = 0;
        while i < self.reply.len()
            invariant
                i <= self.reply@.len(),
                reply@.len() == i,
                forall|j: int| 0 <= j < i ==> #[trigger] reply@[j]@ == self.reply@[j]@,
            decreases self.reply@.len() - i,
        {
            reply.push(self.reply[i].clone_message());
            i = i + 1;
        }
        assert(MercuryReply::seq_model(reply@) =~= MercuryReply::seq_model(self.reply@));
        let unknown_fields = clone_unknown_fields(&self.unknown_fields);
        MercuryMultiGetReply { reply, unknown_fields }
    }

}

impl Clone for MercuryMultiGetReply {
    fn clone(&self) -> (r: Self)
        ensures
            r@ == self@,
    {
        self.clone_message()
    }
}

impl Default for MercuryMultiGetReply {
    fn default() -> (r: Self)
        ensures
            r@ == MercuryMultiGetReplyModel::empty(),
    {
        MercuryMultiGetReply::new()
    }
}

/// The `MercuryRequest` message.
#[allow(non_snake_case)]
#[derive(Debug, PartialEq)]
pub struct MercuryRequest {
    uri: Option<String>,
    content_type: Option<String>,
    body: Option<Vec<u8>>,
    etag: Option<Vec<u8>>,
    unknown_fields: Vec<UnknownField>,
}

/// The model of a `MercuryRequest`: each field's value, `None` or empty when unset,
/// and the fields of unknown numbers, in the order they were read.
#[allow(non_snake_case)]
pub struct MercuryRequestModel {
    pub uri: Option<Seq<char>>,
    pub content_type: Option<Seq<char>>,
    pub body: Option<Seq<u8>>,
    pub etag: Option<Seq<u8>>,
    pub unknown_fields: Seq<UnknownFieldModel>,
}

impl View for MercuryRequest {
    type V = MercuryRequestModel;

    closed spec fn view(&self) -> MercuryRequestModel {
        MercuryRequestModel {
            uri: opt_view(self.uri),
            content_type: opt_view(self.content_type),
            body: opt_view(self.body),
            etag: opt_view(self.etag),
            unknown_fields: unknown_models(self.unknown_fields@),
        }
    }
}

#[allow(non_snake_case)]
impl MercuryRequestModel {
    /// The model of a message with no field set.
    pub open spec fn empty() -> Self {
        MercuryRequestModel {
            uri: None,
            content_type: None,
            body: None,
            etag: None,
            unknown_fields: Seq::empty(),
        }
    }

    /// The encodings of a list of messages.
    pub open spec fn encodings(v: Seq<MercuryRequestModel>) -> Seq<Seq<u8>> {
        v.map_values(|m: MercuryRequestModel| m.to_bytes())
    }

    /// Every message of a list can be written, and its encoding fits a 32-bit length.
    pub open spec fn all_writable(v: Seq<MercuryRequestModel>) -> bool {
        forall|i: int| 0 <= i < v.len() ==> #[trigger] v[i].wf() && fits_u32(v[i].to_bytes())
    }

    /// The field numbers that this message knows.
    pub open spec fn is_known_field(f: u32) -> bool {
        f == 1 || f == 2 || f == 3 || f == 4
    }

    /// Merging one field whose tag (number `f`, wire type `wt`) has been read;
    /// `s` holds the bytes after the tag. The result is the merged model and
    /// the number of bytes the value took; a set field is replaced, a repeated
    /// field grows, a field of unknown number is kept or, if a group, skipped.
    pub open spec fn merge_field(self, f: u32, wt: u32, s: Seq<u8>, lim: nat) -> Option<(Self, nat)> {
        if f == 1 {
            if wt != WIRE_LENGTH_DELIMITED {
                None
            } else {
                match string_parse(s) {
                    Some((c, k)) => Some((MercuryRequestModel { uri: Some(c), ..self }, k)),
                    None => None,
                }
            }
        } else if f == 2 {
            if wt != WIRE_LENGTH_DELIMITED {
                None
            } else {
                match string_parse(s) {
                    Some((c, k)) => Some((MercuryRequestModel { content_type: Some(c), ..self }, k)),
                    None => None,
                }
            }
        } else if f == 3 {
            if wt != WIRE_LENGTH_DELIMITED {
                None
            } else {
                match bytes_parse(s) {
                    Some((c, k)) => Some((MercuryRequestModel { body: Some(c), ..self }, k)),
                    None => None,
                }
            }
        } else if f == 4 {
            if wt != WIRE_LENGTH_DELIMITED {
                None
            } else {
                match bytes_parse(s) {
                    Some((c, k)) => Some((MercuryRequestModel { etag: Some(c), ..self }, k)),
                    None => None,
                }
            }
        } else {
            match unknown_parse(f, wt, s) {
                Some((Some(u), k)) => Some((MercuryRequestModel { unknown_fields: grouped_insert(self.unknown_fields, u), ..self }, k)),
                Some((None, k)) => Some((self, k)),
                None => None,
            }
        }
    }

    /// What is left of the model when merging one field (number `f`, wire type
    /// `wt`, value at the front of `s`) fails: a string, bytes or message field
    /// of the right wire type is first set to its empty value (a repeated one
    /// gets an empty element) and an embedded message keeps the fields merged
    /// into it before the failure; packed values read before the failure stay.
    pub open spec fn merge_field_failed(self, f: u32, wt: u32, s: Seq<u8>, lim: nat) -> Self {
        if f == 1 {
            if wt != WIRE_LENGTH_DELIMITED {
                self
            } else {
                MercuryRequestModel { uri: Some(Seq::<char>::empty()), ..self }
            }
        } else if f == 2 {
            if wt != WIRE_LENGTH_DELIMITED {
                self
            } else {
                MercuryRequestModel { content_type: Some(Seq::<char>::empty()), ..self }
            }
        } else if f == 3 {
            if wt != WIRE_LENGTH_DELIMITED {
                self
            } else {
                MercuryRequestModel { body: Some(Seq::<u8>::empty()), ..self }
            }
        } else if f == 4 {
            if wt != WIRE_LENGTH_DELIMITED {
                self
            } else {
                MercuryRequestModel { etag: Some(Seq::<u8>::empty()), ..self }
            }
        } else {
            self
        }
    }

    /// The value of a merged field takes no more than the bytes after its tag.
    pub proof fn lemma_merge_field_len(self, f: u32, wt: u32, s: Seq<u8>, lim: nat)
        ensures
            self.merge_field(f, wt, s, lim) matches Some((_m, k)) ==> k <= s.len(),
    {
        lemma_varint_parse_len(s);
        crate::wire::lemma_unknown_parse_len(f, wt, s);
    }

    /// Merging all the fields that `s` holds, in order, where the length of an
    /// embedded message may reach `lim` bytes past the end of `s` (such a message
    /// is read up to the end of `s`).
    #[verifier::opaque]
    pub open spec fn merge(self, s: Seq<u8>, lim: nat) -> Option<Self>
        decreases s.len(),
    {
        if s.len() == 0 {
            Some(self)
        } else {
            match tag_parse(s) {
                Some((f, wt, n)) => if 0 < n <= s.len() {
                    match self.merge_field(f, wt, s.skip(n as int), lim) {
                        Some((m, k)) => if n + k <= s.len() {
                            m.merge(s.skip((n + k) as int), lim)
                        } else {
                            None
                        },
                        None => None,
                    }
                } else {
                    None
                },
                None => None,
            }
        }
    }

    /// What merging `s` leaves: the fields merged in order up to the first one
    /// whose tag or value cannot be read, then what `merge_field_failed` leaves of
    /// that one; all of `s` where it is a valid encoding.
    #[verifier::opaque]
    pub open spec fn merge_partial(self, s: Seq<u8>, lim: nat) -> Self
        decreases s.len(),
    {
        if s.len() == 0 {
            self
        } else {
            match tag_parse(s) {
                Some((f, wt, n)) => if 0 < n <= s.len() {
                    match self.merge_field(f, wt, s.skip(n as int), lim) {
                        Some((m, k)) => if n + k <= s.len() {
                            m.merge_partial(s.skip((n + k) as int), lim)
                        } else {
                            m
                        },
                        None => self.merge_field_failed(f, wt, s.skip(n as int), lim),
                    }
                } else {
                    self
                },
                None => self,
            }
        }
    }

    /// The encoding of field `uri` and of every field written after it.
    pub open spec fn encoded_from_uri(self) -> Seq<u8> {
        opt_length_delimited_field_bytes(1, match self.uri { Some(c) => Some(encode_utf8(c)), None => None }) + self.encoded_from_content_type()
    }

    /// The encoding of field `content_type` and of every field written after it.
    pub open spec fn encoded_from_content_type(self) -> Seq<u8> {
        opt_length_delimited_field_bytes(2, match self.content_type { Some(c) => Some(encode_utf8(c)), None => None }) + self.encoded_from_body()
    }

    /// The encoding of field `body` and of every field written after it.
    pub open spec fn encoded_from_body(self) -> Seq<u8> {
        opt_length_delimited_field_bytes(3, self.body) + self.encoded_from_etag()
    }

    /// The encoding of field `etag` and of every field written after it.
    pub open spec fn encoded_from_etag(self) -> Seq<u8> {
        opt_length_delimited_field_bytes(4, self.etag) + self.encoded_from_unknown_fields()
    }

    /// The encoding of the fields of unknown numbers, written last.
    pub open spec fn encoded_from_unknown_fields(self) -> Seq<u8> {
        unknown_list_bytes(self.unknown_fields)
    }

    /// The encoding of the message: its set fields in order of declaration,
    /// each element of a repeated field in order, then the unknown fields.
    #[verifier::opaque]
    pub open spec fn to_bytes(self) -> Seq<u8> {
        self.encoded_from_uri()
    }

    /// A model that can be written and read back: every length fits the
    /// 32-bit length prefix, nested messages can be written, and the unknown
    /// fields have valid numbers that this message does not know.
    #[verifier::opaque]
    pub open spec fn wf(self) -> bool {
        &&& (self.uri matches Some(c) ==> fits_u32(encode_utf8(c)))
        &&& (self.content_type matches Some(c) ==> fits_u32(encode_utf8(c)))
        &&& (self.body matches Some(b) ==> fits_u32(b))
        &&& (self.etag matches Some(b) ==> fits_u32(b))
        &&& (forall|i: int| 0 <= i < self.unknown_fields.len() ==> unknown_field_wf(#[trigger] self.unknown_fields[i]) && !Self::is_known_field(self.unknown_fields[i].number))
        &&& unknown_grouped(self.unknown_fields)
    }

    /// The message with no field set can be written and read back.
    pub proof fn lemma_empty_wf()
        ensures
            Self::empty().wf(),
    {
        reveal_with_fuel(MercuryRequestModel::wf, 1);
        lemma_grouped_empty();
    }

    /// Merging a field's tag and value, whatever follows them.
    pub proof fn lemma_merge_step(acc: Self, f: u32, wt: u32, t: Seq<u8>, b: Seq<u8>, rest: Seq<u8>, acc2: Self, lim: nat)
        requires
            tag_parse(t + (b + rest)) == Some((f, wt, t.len())),
            t.len() > 0,
            acc.merge_field(f, wt, b + rest, lim) == Some((acc2, b.len())),
        ensures
            acc.merge(t + (b + rest), lim) == acc2.merge(rest, lim),
    {
        reveal_with_fuel(MercuryRequestModel::merge, 1);
        lemma_skip_chunk(t, b, rest);
    }

    /// Merging the encoding of field `uri` sets it, whatever follows.
    pub proof fn lemma_merge_uri(acc: Self, v: Option<Seq<char>>, rest: Seq<u8>, lim: nat)
        requires
            (v matches Some(c) ==> fits_u32(encode_utf8(c))),
        ensures
            acc.merge(opt_length_delimited_field_bytes(1, match v { Some(c) => Some(encode_utf8(c)), None => None }) + rest, lim) == (MercuryRequestModel { uri: if v is Some { v } else { acc.uri }, ..acc }).merge(rest, lim),
    {
        match v {
            None => {
                assert(opt_length_delimited_field_bytes(1, match v { Some(c) => Some(encode_utf8(c)), None => None }) + rest =~= rest);
                assert((MercuryRequestModel { uri: acc.uri, ..acc }) == acc);
            },
            Some(x) => {
                let t = tag_bytes(1, WIRE_LENGTH_DELIMITED);
                let b = bytes_value_bytes(encode_utf8(x));
                assert(opt_length_delimited_field_bytes(1, match v { Some(c) => Some(encode_utf8(c)), None => None }) + rest =~= t + (b + rest));
                lemma_tag_roundtrip(1, WIRE_LENGTH_DELIMITED, b + rest);
                lemma_string_roundtrip(x, rest);
                Self::lemma_merge_step(acc, 1, WIRE_LENGTH_DELIMITED, t, b, rest, MercuryRequestModel { uri: v, ..acc }, lim);
            },
        }
    }

    /// Merging the encoding of field `content_type` sets it, whatever follows.
    pub proof fn lemma_merge_content_type(acc: Self, v: Option<Seq<char>>, rest: Seq<u8>, lim: nat)
        requires
            (v matches Some(c) ==> fits_u32(encode_utf8(c))),
        ensures
            acc.merge(opt_length_delimited_field_bytes(2, match v { Some(c) => Some(encode_utf8(c)), None => None }) + rest, lim) == (MercuryRequestModel { content_type: if v is Some { v } else { acc.content_type }, ..acc }).merge(rest, lim),
    {
        match v {
            None => {
                assert(opt_length_delimited_field_bytes(2, match v { Some(c) => Some(encode_utf8(c)), None => None }) + rest =~= rest);
                assert((MercuryRequestModel { content_type: acc.content_type, ..acc }) == acc);
            },
            Some(x) => {
                let t = tag_bytes(2, WIRE_LENGTH_DELIMITED);
                let b = bytes_value_bytes(encode_utf8(x));
                assert(opt_length_delimited_field_bytes(2, match v { Some(c) => Some(encode_utf8(c)), None => None }) + rest =~= t + (b + rest));
                lemma_tag_roundtrip(2, WIRE_LENGTH_DELIMITED, b + rest);
                lemma_string_roundtrip(x, rest);
                Self::lemma_merge_step(acc, 2, WIRE_LENGTH_DELIMITED, t, b, rest, MercuryRequestModel { content_type: v, ..acc }, lim);
            },
        }
    }

    /// Merging the encoding of field `body` sets it, whatever follows.
    pub proof fn lemma_merge_body(acc: Self, v: Option<Seq<u8>>, rest: Seq<u8>, lim: nat)
        requires
            (v matches Some(b) ==> fits_u32(b)),
        ensures
            acc.merge(opt_length_delimited_field_bytes(3, v) + rest, lim) == (MercuryRequestModel { body: if v is Some { v } else { acc.body }, ..acc }).merge(rest, lim),
    {
        match v {
            None => {
                assert(opt_length_delimited_field_bytes(3, v) + rest =~= rest);
                assert((MercuryRequestModel { body: acc.body, ..acc }) == acc);
            },
            Some(x) => {
                let t = tag_bytes(3, WIRE_LENGTH_DELIMITED);
                let b = bytes_value_bytes(x);
                assert(opt_length_delimited_field_bytes(3, v) + rest =~= t + (b + rest));
                lemma_tag_roundtrip(3, WIRE_LENGTH_DELIMITED, b + rest);
                lemma_bytes_roundtrip(x, rest);
                Self::lemma_merge_step(acc, 3, WIRE_LENGTH_DELIMITED, t, b, rest, MercuryRequestModel { body: v, ..acc }, lim);
            },
        }
    }

    /// Merging the encoding of field `etag` sets it, whatever follows.
    pub proof fn lemma_merge_etag(acc: Self, v: Option<Seq<u8>>, rest: Seq<u8>, lim: nat)
        requires
            (v matches Some(b) ==> fits_u32(b)),
        ensures
            acc.merge(opt_length_delimited_field_bytes(4, v) + rest, lim) == (MercuryRequestModel { etag: if v is Some { v } else { acc.etag }, ..acc }).merge(rest, lim),
    {
        match v {
            None => {
                assert(opt_length_delimited_field_bytes(4, v) + rest =~= rest);
                assert((MercuryRequestModel { etag: acc.etag, ..acc }) == acc);
            },
            Some(x) => {
                let t = tag_bytes(4, WIRE_LENGTH_DELIMITED);
                let b = bytes_value_bytes(x);
                assert(opt_length_delimited_field_bytes(4, v) + rest =~= t + (b + rest));
                lemma_tag_roundtrip(4, WIRE_LENGTH_DELIMITED, b + rest);
                lemma_bytes_roundtrip(x, rest);
                Self::lemma_merge_step(acc, 4, WIRE_LENGTH_DELIMITED, t, b, rest, MercuryRequestModel { etag: v, ..acc }, lim);
            },
        }
    }

    /// Merging the encoding of fields of unknown numbers keeps them, whatever follows.
    #[verifier::rlimit(50)]
    pub proof fn lemma_merge_unknown_fields(acc: Self, v: Seq<UnknownFieldModel>, rest: Seq<u8>, lim: nat)
        requires
            forall|i: int| 0 <= i < v.len() ==> unknown_field_wf(#[trigger] v[i]) && !Self::is_known_field(v[i].number),
            unknown_grouped(acc.unknown_fields + v),
        ensures
            acc.merge(unknown_list_bytes(v) + rest, lim) == (MercuryRequestModel { unknown_fields: acc.unknown_fields + v, ..acc }).merge(rest, lim),
        decreases v.len(),
    {
        if v.len() == 0 {
            assert(unknown_list_bytes(v) + rest =~= rest);
            assert(acc.unknown_fields + v =~= acc.unknown_fields);
            assert((MercuryRequestModel { unknown_fields: acc.unknown_fields + v, ..acc }) == acc);
        } else {
            lemma_unknown_list_cons(v);
            let u = v[0];
            let wt = crate::wire::unknown_wire_type(u.value);
            let t = tag_bytes(u.number, wt);
            let b = crate::wire::unknown_value_bytes(u.value);
            let tail = unknown_list_bytes(v.subrange(1, v.len() as int));
            assert(unknown_list_bytes(v) + rest =~= t + (b + (tail + rest)));
            assert(unknown_field_bytes(u) + (tail + rest) =~= t + (b + (tail + rest)));
            lemma_unknown_roundtrip(u, tail + rest);
            assert((t + (b + (tail + rest))).skip(t.len() as int) =~= b + (tail + rest));
            crate::wire::lemma_tag_roundtrip(u.number, wt, b + (tail + rest));
            let acc1 = MercuryRequestModel { unknown_fields: acc.unknown_fields.push(u), ..acc };
            assert(acc.unknown_fields.push(u) =~= (acc.unknown_fields + v).take(acc.unknown_fields.len() + 1int));
            lemma_grouped_take(acc.unknown_fields + v, acc.unknown_fields.len() + 1int);
            lemma_grouped_insert_last(acc.unknown_fields, u);
            Self::lemma_merge_step(acc, u.number, wt, t, b, tail + rest, acc1, lim);
            assert(acc1.unknown_fields + v.subrange(1, v.len() as int) =~= acc.unknown_fields + v);
            Self::lemma_merge_unknown_fields(acc1, v.subrange(1, v.len() as int), rest, lim);
        }
    }

    /// Reading back the encoding of a model that can be written gives the model,
    /// whatever the limit past its end.
    #[verifier::spinoff_prover]
    #[verifier::rlimit(100)]
    pub proof fn lemma_roundtrip(self, lim: nat)
        requires
            self.wf(),
        ensures
            MercuryRequestModel::empty().merge(self.to_bytes(), lim) == Some(self),
    {
        reveal(MercuryRequestModel::to_bytes);
        reveal(MercuryRequestModel::wf);
        reveal_with_fuel(MercuryRequestModel::merge, 1);
        let a0 = MercuryRequestModel::empty();
        assert((self.uri matches Some(c) ==> fits_u32(encode_utf8(c))));
        Self::lemma_merge_uri(a0, self.uri, self.encoded_from_content_type(), lim);
        let a1 = MercuryRequestModel { uri: if self.uri is Some { self.uri } else { a0.uri }, ..a0 };
        assert((self.content_type matches Some(c) ==> fits_u32(encode_utf8(c))));
        Self::lemma_merge_content_type(a1, self.content_type, self.encoded_from_body(), lim);
        let a2 = MercuryRequestModel { content_type: if self.content_type is Some { self.content_type } else { a1.content_type }, ..a1 };
        assert((self.body matches Some(b) ==> fits_u32(b)));
        Self::lemma_merge_body(a2, self.body, self.encoded_from_etag(), lim);
        let a3 = MercuryRequestModel { body: if self.body is Some { self.body } else { a2.body }, ..a2 };
        assert((self.etag matches Some(b) ==> fits_u32(b)));
        Self::lemma_merge_etag(a3, self.etag, self.encoded_from_unknown_fields(), lim);
        let a4 = MercuryRequestModel { etag: if self.etag is Some { self.etag } else { a3.etag }, ..a3 };
        assert(a4.unknown_fields + self.unknown_fields =~= self.unknown_fields);
        Self::lemma_merge_unknown_fields(a4, self.unknown_fields, Seq::empty(), lim);
        assert(unknown_list_bytes(self.unknown_fields) + Seq::<u8>::empty() =~= unknown_list_bytes(self.unknown_fields));
        let last = MercuryRequestModel { unknown_fields: a4.unknown_fields + self.unknown_fields, ..a4 };
        assert(last.unknown_fields =~= self.unknown_fields);
        assert(last == self);
    }
    /// A message whose only set field is `uri` is written as field number 1 of the
    /// protocol's definition alone: the tag of that number with the wire type of the field,
    /// then the value.
    pub proof fn lemma_encoding_of_uri(v: Option<Seq<char>>)
        ensures
            (MercuryRequestModel { uri: v, ..MercuryRequestModel::empty() }).to_bytes() == opt_length_delimited_field_bytes(1, match v { Some(c) => Some(encode_utf8(c)), None => None }),
    {
        reveal(MercuryRequestModel::to_bytes);
        let m = MercuryRequestModel { uri: v, ..MercuryRequestModel::empty() };
        assert(m.to_bytes() =~= opt_length_delimited_field_bytes(1, match v { Some(c) => Some(encode_utf8(c)), None => None }));
    }

    /// A message whose only set field is `content_type` is written as field number 2 of the
    /// protocol's definition alone: the tag of that number with the wire type of the field,
    /// then the value.
    pub proof fn lemma_encoding_of_content_type(v: Option<Seq<char>>)
        ensures
            (MercuryRequestModel { content_type: v, ..MercuryRequestModel::empty() }).to_bytes() == opt_length_delimited_field_bytes(2, match v { Some(c) => Some(encode_utf8(c)), None => None }),
    {
        reveal(MercuryRequestModel::to_bytes);
        let m = MercuryRequestModel { content_type: v, ..MercuryRequestModel::empty() };
        assert(m.to_bytes() =~= opt_length_delimited_field_bytes(2, match v { Some(c) => Some(encode_utf8(c)), None => None }));
    }

    /// A message whose only set field is `body` is written as field number 3 of the
    /// protocol's definition alone: the tag of that number with the wire type of the field,
    /// then the value.
    pub proof fn lemma_encoding_of_body(v: Option<Seq<u8>>)
        ensures
            (MercuryRequestModel { body: v, ..MercuryRequestModel::empty() }).to_bytes() == opt_length_delimited_field_bytes(3, v),
    {
        reveal(MercuryRequestModel::to_bytes);
        let m = MercuryRequestModel { body: v, ..MercuryRequestModel::empty() };
        assert(m.to_bytes() =~= opt_length_delimited_field_bytes(3, v));
    }

    /// A message whose only set field is `etag` is written as field number 4 of the
    /// protocol's definition alone: the tag of that number with the wire type of the field,
    /// then the value.
    pub proof fn lemma_encoding_of_etag(v: Option<Seq<u8>>)
        ensures
            (MercuryRequestModel { etag: v, ..MercuryRequestModel::empty() }).to_bytes() == opt_length_delimited_field_bytes(4, v),
    {
        reveal(MercuryRequestModel::to_bytes);
        let m = MercuryRequestModel { etag: v, ..MercuryRequestModel::empty() };
        assert(m.to_bytes() =~= opt_length_delimited_field_bytes(4, v));
    }

}

#[allow(non_snake_case)]
impl MercuryRequest {
    /// The models of a list of messages.
    pub open spec fn seq_model(v: Seq<MercuryRequest>) -> Seq<MercuryRequestModel> {
        v.map_values(|m: MercuryRequest| m@)
    }

    /// A message with no field set.
    pub fn new() -> (r: Self)
        ensures
            r@ == MercuryRequestModel::empty(),
            r@.wf(),
    {
        let r = MercuryRequest {
            uri: None,
            content_type: None,
            body: None,
            etag: None,
            unknown_fields: Vec::new(),
        };
        assert(unknown_models(r.unknown_fields@) =~= Seq::<UnknownFieldModel>::empty());
        proof {
            MercuryRequestModel::lemma_empty_wf();
        }
        r
    }

    /// Unsets field `uri`.
    pub fn clear_uri(&mut self)
        ensures
            final(self)@ == (MercuryRequestModel { uri: None, ..old(self)@ }),
    {
        self.uri = None;
    }

    /// Whether field `uri` is set.
    pub fn has_uri(&self) -> (r: bool)
        ensures
            r == self@.uri is Some,
    {
        self.uri.is_some()
    }

    /// Sets field `uri` to `v`.
    pub fn set_uri(&mut self, v: String)
        ensures
            final(self)@ == (MercuryRequestModel { uri: Some(v@), ..old(self)@ }),
    {
        self.uri = Some(v);
    }

    /// Field `uri`, to change in place; an unset field is first set to its default.
    pub fn mut_uri(&mut self) -> (r: &mut String)
        ensures
            r@ == chars_or_empty(old(self)@.uri),
            final(self)@ == (MercuryRequestModel { uri: Some(final(r)@), ..old(self)@ }),

    {
        if self.uri.is_none() {
            self.uri = Some(String::new());
        }
        opt_as_mut(&mut self.uri).unwrap()
    }

    /// Takes field `uri` (its default when unset), leaving it unset.
    pub fn take_uri(&mut self) -> (r: String)
        ensures
            r@ == chars_or_empty(old(self)@.uri),
            final(self)@ == (MercuryRequestModel { uri: None, ..old(self)@ }),
    {
        let mut t = None;
        std::mem::swap(&mut t, &mut self.uri);
        match t {
            Some(v) => v,
            None => String::new(),
        }
    }

    /// Field `uri`, or the empty string when unset.
    pub fn get_uri(&self) -> (r: &str)
        ensures
            r@ == chars_or_empty(self@.uri),
    {
        match &self.uri {
            Some(v) => v.as_str(),
            None => {
                proof {
                    reveal_strlit("");
                }
                ""
            },
        }
    }

    /// Unsets field `content_type`.
    pub fn clear_content_type(&mut self)
        ensures
            final(self)@ == (MercuryRequestModel { content_type: None, ..old(self)@ }),
    {
        self.content_type = None;
    }

    /// Whether field `content_type` is set.
    pub fn has_content_type(&self) -> (r: bool)
        ensures
            r == self@.content_type is Some,
    {
        self.content_type.is_some()
    }

    /// Sets field `content_type` to `v`.
    pub fn set_content_type(&mut self, v: String)
        ensures
            final(self)@ == (MercuryRequestModel { content_type: Some(v@), ..old(self)@ }),
    {
        self.content_type = Some(v);
    }

    /// Field `content_type`, to change in place; an unset field is first set to its default.
    pub fn mut_content_type(&mut self) -> (r: &mut String)
        ensures
            r@ == chars_or_empty(old(self)@.content_type),
            final(self)@ == (MercuryRequestModel { content_type: Some(final(r)@), ..old(self)@ }),

    {
        if self.content_type.is_none() {
            self.content_type = Some(String::new());
        }
        opt_as_mut(&mut self.content_type).unwrap()
    }

    /// Takes field `content_type` (its default when unset), leaving it unset.
    pub fn take_content_type(&mut self) -> (r: String)
        ensures
            r@ == chars_or_empty(old(self)@.content_type),
            final(self)@ == (MercuryRequestModel { content_type: None, ..old(self)@ }),
    {
        let mut t = None;
        std::mem::swap(&mut t, &mut self.content_type);
        match t {
            Some(v) => v,
            None => String::new(),
        }
    }

    /// Field `content_type`, or the empty string when unset.
    pub fn get_content_type(&self) -> (r: &str)
        ensures
            r@ == chars_or_empty(self@.content_type),
    {
        match &self.content_type {
            Some(v) => v.as_str(),
            None => {
                proof {
                    reveal_strlit("");
                }
                ""
            },
        }
    }

    /// Unsets field `body`.
    pub fn clear_body(&mut self)
        ensures
            final(self)@ == (MercuryRequestModel { body: None, ..old(self)@ }),
    {
        self.body = None;
    }

    /// Whether field `body` is set.
    pub fn has_body(&self) -> (r: bool)
        ensures
            r == self@.body is Some,
    {
        self.body.is_some()
    }

    /// Sets field `body` to `v`.
    pub fn set_body(&mut self, v: Vec<u8>)
        ensures
            final(self)@ == (MercuryRequestModel { body: Some(v@), ..old(self)@ }),
    {
        self.body = Some(v);
    }

    /// Field `body`, to change in place; an unset field is first set to its default.
    pub fn mut_body(&mut self) -> (r: &mut Vec<u8>)
        ensures
            r@ == bytes_or_empty(old(self)@.body),
            final(self)@ == (MercuryRequestModel { body: Some(final(r)@), ..old(self)@ }),

    {
        if self.body.is_none() {
            self.body = Some(Vec::new());
        }
        opt_as_mut(&mut self.body).unwrap()
    }

    /// Takes field `body` (its default when unset), leaving it unset.
    pub fn take_body(&mut self) -> (r: Vec<u8>)
        ensures
            r@ == bytes_or_empty(old(self)@.body),
            final(self)@ == (MercuryRequestModel { body: None, ..old(self)@ }),
    {
        let mut t = None;
        std::mem::swap(&mut t, &mut self.body);
        match t {
            Some(v) => v,
            None => Vec::new(),
        }
    }

    /// Field `body`, or no bytes when unset.
    pub fn get_body(&self) -> (r: &[u8])
        ensures
            r@ == bytes_or_empty(self@.body),
    {
        match &self.body {
            Some(v) => v.as_slice(),
            None => &[],
        }
    }

    /// Unsets field `etag`.
    pub fn clear_etag(&mut self)
        ensures
            final(self)@ == (MercuryRequestModel { etag: None, ..old(self)@ }),
    {
        self.etag = None;
    }

    /// Whether field `etag` is set.
    pub fn has_etag(&self) -> (r: bool)
        ensures
            r == self@.etag is Some,
    {
        self.etag.is_some()
    }

    /// Sets field `etag` to `v`.
    pub fn set_etag(&mut self, v: Vec<u8>)
        ensures
            final(self)@ == (MercuryRequestModel { etag: Some(v@), ..old(self)@ }),
    {
        self.etag = Some(v);
    }

    /// Field `etag`, to change in place; an unset field is first set to its default.
    pub fn mut_etag(&mut self) -> (r: &mut Vec<u8>)
        ensures
            r@ == bytes_or_empty(old(self)@.etag),
            final(self)@ == (MercuryRequestModel { etag: Some(final(r)@), ..old(self)@ }),

    {
        if self.etag.is_none() {
            self.etag = Some(Vec::new());
        }
        opt_as_mut(&mut self.etag).unwrap()
    }

    /// Takes field `etag` (its default when unset), leaving it unset.
    pub fn take_etag(&mut self) -> (r: Vec<u8>)
        ensures
            r@ == bytes_or_empty(old(self)@.etag),
            final(self)@ == (MercuryRequestModel { etag: None, ..old(self)@ }),
    {
        let mut t = None;
        std::mem::swap(&mut t, &mut self.etag);
        match t {
            Some(v) => v,
            None => Vec::new(),
        }
    }

    /// Field `etag`, or no bytes when unset.
    pub fn get_etag(&self) -> (r: &[u8])
        ensures
            r@ == bytes_or_empty(self@.etag),
    {
        match &self.etag {
            Some(v) => v.as_slice(),
            None => &[],
        }
    }

    /// Merges one field whose tag (number `f`, wire type `wt`) has been read
    /// from the bytes `s` that follow the tag; returns the number of bytes the
    /// value took.
    fn merge_field(&mut self, f: u32, wt: u32, s: &[u8], lim: u64) -> (r: Option<usize>)
        ensures
            match old(self)@.merge_field(f, wt, s@, lim as nat) {
                Some((m, k)) => r == Some(k as usize) && final(self)@ == m,
                None => r is None && final(self)@ == old(self)@.merge_field_failed(f, wt, s@, lim as nat),
            },
    {

        if f == 1 {
            if wt != WIRE_LENGTH_DELIMITED {
                return None;
            }
            match read_string(s) {
                Some((v, k)) => {
                    self.uri = Some(v);
                    Some(k)
                },
                None => {
                    self.uri = Some(String::new());
                    None
                },
            }
        } else if f == 2 {
            if wt != WIRE_LENGTH_DELIMITED {
                return None;
            }
            match read_string(s) {
                Some((v, k)) => {
                    self.content_type = Some(v);
                    Some(k)
                },
                None => {
                    self.content_type = Some(String::new());
                    None
                },
            }
        } else if f == 3 {
            if wt != WIRE_LENGTH_DELIMITED {
                return None;
            }
            match read_bytes(s) {
                Some((v, k)) => {
                    self.body = Some(v);
                    Some(k)
                },
                None => {
                    self.body = Some(Vec::new());
                    None
                },
            }
        } else if f == 4 {
            if wt != WIRE_LENGTH_DELIMITED {
                return None;
            }
            match read_bytes(s) {
                Some((v, k)) => {
                    self.etag = Some(v);
                    Some(k)
                },
                None => {
                    self.etag = Some(Vec::new());
                    None
                },
            }
        } else {
            match read_unknown(f, wt, s) {
                Some((Some(u), k)) => {
                    insert_unknown(field_mut(&mut self.unknown_fields), u);
                    Some(k)
                },
                Some((None, k)) => Some(k),
                None => None,
            }
        }
    }

    /// Merges all the fields that `s` holds, in order; `false` when the bytes
    /// are not a valid encoding (the message then holds what was merged so far).
    #[verifier::spinoff_prover]
    #[verifier::rlimit(50)]
    fn merge_from_slice(&mut self, s: &[u8], lim: u64) -> (ok: bool)
        ensures
            match old(self)@.merge(s@, lim as nat) {
                Some(m) => ok && final(self)@ == m,
                None => !ok && final(self)@ == old(self)@.merge_partial(s@, lim as nat),
            },
    {
        proof {
            reveal_with_fuel(MercuryRequestModel::merge, 1);
            reveal_with_fuel(MercuryRequestModel::merge_partial, 1);
        }
        let mut pos: usize = 0;
        assert(s@.skip(0) =~= s@);
        while pos < s.len()
            invariant
                pos <= s.len(),
                old(self)@.merge(s@, lim as nat) == self@.merge(s@.skip(pos as int), lim as nat),
                old(self)@.merge_partial(s@, lim as nat) == self@.merge_partial(s@.skip(pos as int), lim as nat),
            decreases s.len() - pos,
        {
            let rest = &s[pos..s.len()];
            assert(rest@ == s@.skip(pos as int));
            proof {
                reveal_with_fuel(MercuryRequestModel::merge, 1);
                reveal_with_fuel(MercuryRequestModel::merge_partial, 1);
                lemma_tag_parse_len(rest@);
            }
            match pb_read_tag_unpack(rest) {
                None => {
                    return false;
                },
                Some((f, wt, n)) => {
                    if n == 0 || n > rest.len() {
                        return false;
                    }
                    let rest2 = &rest[n..rest.len()];
                    assert(rest2@ == rest@.skip(n as int));
                    proof {
                        self@.lemma_merge_field_len(f, wt, rest2@, lim as nat);
                    }
                    match self.merge_field(f, wt, rest2, lim) {
                        None => {
                            return false;
                        },
                        Some(k) => {
                            if k > rest2.len() {
                                return false;
                            }
                            assert(rest@.skip((n + k) as int) =~= s@.skip((pos + n + k) as int));
                            pos = pos + n + k;
                        },
                    }
                },
            }
        }
        assert(s@.skip(pos as int) =~= Seq::<u8>::empty());
        proof {
            reveal_with_fuel(MercuryRequestModel::merge, 1);
        }
        true
    }

    /// The message that `s` encodes, if it is a valid encoding.
    fn parse_slice(s: &[u8], lim: u64) -> (r: Option<Self>)
        ensures
            match MercuryRequestModel::empty().merge(s@, lim as nat) {
                Some(m) => r matches Some(x) && x@ == m,
                None => r is None,
            },
    {
        let mut m = MercuryRequest::new();
        if m.merge_from_slice(s, lim) {
            Some(m)
        } else {
            None
        }
    }

    /// Merges the fields that `bytes` encodes into this message, in order: a set
    /// field is replaced, a repeated field grows. On an invalid encoding the
    /// error comes back, the fields merged before the first field that could not
    /// be read stay merged, and that field is left as `merge_field_failed` says.
    pub fn merge_from_bytes(&mut self, bytes: &[u8]) -> (r: Result<(), DecodeError>)
        ensures
            match old(self)@.merge(bytes@, top_limit(bytes@.len())) {
                Some(m) => r is Ok && final(self)@ == m,
                None => r is Err && final(self)@ == old(self)@.merge_partial(bytes@, top_limit(bytes@.len())),
            },
    {
        let lim: u64 = u64::MAX - bytes.len() as u64;
        if self.merge_from_slice(bytes, lim) {
            Ok(())
        } else {
            Err(DecodeError)
        }
    }

    /// Parses a message from its encoding.
    pub fn parse_from_bytes(bytes: &[u8]) -> (r: Result<Self, DecodeError>)
        ensures
            match MercuryRequestModel::empty().merge(bytes@, top_limit(bytes@.len())) {
                Some(m) => r matches Ok(x) && x@ == m,
                None => r is Err,
            },
    {
        let lim: u64 = u64::MAX - bytes.len() as u64;
        match Self::parse_slice(bytes, lim) {
            Some(m) => Ok(m),
            None => Err(DecodeError),
        }
    }

    /// Appends the encoding of field `uri` to `out`.
    fn write_field_uri(&self, out: &mut Vec<u8>)
        requires
            self@.wf(),
        ensures
            final(out)@ == old(out)@ + opt_length_delimited_field_bytes(1, match self@.uri { Some(c) => Some(encode_utf8(c)), None => None }),
            final(out)@ + self@.encoded_from_content_type() == old(out)@ + self@.encoded_from_uri(),
    {
        proof {
            reveal(MercuryRequestModel::wf);
        }
        let ghost o = out@;
        let ghost m = self@;
        match &self.uri {
            Some(v) => {
                pb_write_tag(out, 1, WIRE_LENGTH_DELIMITED);
                write_string_value(out, v.as_str());
                proof {
                    lemma_concat_assoc(o, tag_bytes(1, WIRE_LENGTH_DELIMITED), bytes_value_bytes(encode_utf8(v@)));
                }
            },
            None => {
                assert(o + Seq::<u8>::empty() =~= o);
            },
        }
        proof {
            lemma_concat_assoc(o, opt_length_delimited_field_bytes(1, match m.uri { Some(c) => Some(encode_utf8(c)), None => None }), m.encoded_from_content_type());
        }
    }

    /// Appends the encoding of field `content_type` to `out`.
    fn write_field_content_type(&self, out: &mut Vec<u8>)
        requires
            self@.wf(),
        ensures
            final(out)@ == old(out)@ + opt_length_delimited_field_bytes(2, match self@.content_type { Some(c) => Some(encode_utf8(c)), None => None }),
            final(out)@ + self@.encoded_from_body() == old(out)@ + self@.encoded_from_content_type(),
    {
        proof {
            reveal(MercuryRequestModel::wf);
        }
        let ghost o = out@;
        let ghost m = self@;
        match &self.content_type {
            Some(v) => {
                pb_write_tag(out, 2, WIRE_LENGTH_DELIMITED);
                write_string_value(out, v.as_str());
                proof {
                    lemma_concat_assoc(o, tag_bytes(2, WIRE_LENGTH_DELIMITED), bytes_value_bytes(encode_utf8(v@)));
                }
            },
            None => {
                assert(o + Seq::<u8>::empty() =~= o);
            },
        }
        proof {
            lemma_concat_assoc(o, opt_length_delimited_field_bytes(2, match m.content_type { Some(c) => Some(encode_utf8(c)), None => None }), m.encoded_from_body());
        }
    }

    /// Appends the encoding of field `body` to `out`.
    fn write_field_body(&self, out: &mut Vec<u8>)
        requires
            self@.wf(),
        ensures
            final(out)@ == old(out)@ + opt_length_delimited_field_bytes(3, self@.body),
            final(out)@ + self@.encoded_from_etag() == old(out)@ + self@.encoded_from_body(),
    {
        proof {
            reveal(MercuryRequestModel::wf);
        }
        let ghost o = out@;
        let ghost m = self@;
        match &self.body {
            Some(v) => {
                pb_write_tag(out, 3, WIRE_LENGTH_DELIMITED);
                write_bytes_value(out, v.as_slice());
                proof {
                    lemma_concat_assoc(o, tag_bytes(3, WIRE_LENGTH_DELIMITED), bytes_value_bytes(v@));
                }
            },
            None => {
                assert(o + Seq::<u8>::empty() =~= o);
            },
        }
        proof {
            lemma_concat_assoc(o, opt_length_delimited_field_bytes(3, m.body), m.encoded_from_etag());
        }
    }

    /// Appends the encoding of field `etag` to `out`.
    fn write_field_etag(&self, out: &mut Vec<u8>)
        requires
            self@.wf(),
        ensures
            final(out)@ == old(out)@ + opt_length_delimited_field_bytes(4, self@.etag),
            final(out)@ + self@.encoded_from_unknown_fields() == old(out)@ + self@.encoded_from_etag(),
    {
        proof {
            reveal(MercuryRequestModel::wf);
        }
        let ghost o = out@;
        let ghost m = self@;
        match &self.etag {
            Some(v) => {
                pb_write_tag(out, 4, WIRE_LENGTH_DELIMITED);
                write_bytes_value(out, v.as_slice());
                proof {
                    lemma_concat_assoc(o, tag_bytes(4, WIRE_LENGTH_DELIMITED), bytes_value_bytes(v@));
                }
            },
            None => {
                assert(o + Seq::<u8>::empty() =~= o);
            },
        }
        proof {
            lemma_concat_assoc(o, opt_length_delimited_field_bytes(4, m.etag), m.encoded_from_unknown_fields());
        }
    }

    /// Appends the fields of unknown numbers to `out`.
    fn write_unknown_fields(&self, out: &mut Vec<u8>)
        requires
            self@.wf(),
        ensures
            final(out)@ == old(out)@ + unknown_list_bytes(self@.unknown_fields),
    {
        proof {
            reveal(MercuryRequestModel::wf);
        }
        let ghost o = out@;
        let ghost m = self@;
        let mut j: usize = 0;
        assert(m.unknown_fields.subrange(0, m.unknown_fields.len() as int) =~= m.unknown_fields);
        assert(o + Seq::<u8>::empty() =~= o);
        while j < self.unknown_fields.len()
            invariant
                j <= self.unknown_fields.len(),
                self@ == m,
                m.wf(),
                o + unknown_list_bytes(m.unknown_fields) == out@ + unknown_list_bytes(m.unknown_fields.subrange(j as int, m.unknown_fields.len() as int)),
            decreases self.unknown_fields.len() - j,
        {
            proof {
                reveal(MercuryRequestModel::wf);
                lemma_unknown_list_cons(m.unknown_fields.subrange(j as int, m.unknown_fields.len() as int));
                assert(m.unknown_fields[j as int] == self.unknown_fields@[j as int]@);
                assert(m.unknown_fields.subrange(j as int, m.unknown_fields.len() as int)[0] == m.unknown_fields[j as int]);
                assert(m.unknown_fields.subrange(j as int, m.unknown_fields.len() as int).subrange(1, m.unknown_fields.len() - j) =~= m.unknown_fields.subrange(j + 1, m.unknown_fields.len() as int));
            }
            let ghost before = out@;
            write_unknown(out, &self.unknown_fields[j]);
            proof {
                lemma_concat_assoc(before, unknown_field_bytes(m.unknown_fields[j as int]), unknown_list_bytes(m.unknown_fields.subrange(j + 1, m.unknown_fields.len() as int)));
            }
            j = j + 1;
        }
        assert(m.unknown_fields.subrange(j as int, m.unknown_fields.len() as int) =~= Seq::<UnknownFieldModel>::empty());
        assert(out@ =~= o + unknown_list_bytes(m.unknown_fields));
    }

    /// Appends the encoding of the message to `out`.
    fn write_to(&self, out: &mut Vec<u8>)
        requires
            self@.wf(),
        ensures
            final(out)@ == old(out)@ + self@.to_bytes(),
    {
        proof {
            reveal(MercuryRequestModel::to_bytes);
        }
        let ghost o = out@;
        let ghost m = self@;
        assert(o + m.to_bytes() == out@ + m.encoded_from_uri());
        self.write_field_uri(out);
        self.write_field_content_type(out);
        self.write_field_body(out);
        self.write_field_etag(out);
        self.write_unknown_fields(out);
    }

    /// The encoding of the message.
    pub fn write_to_bytes(&self) -> (r: Vec<u8>)
        requires
            self@.wf(),
        ensures
            r@ == self@.to_bytes(),
    {
        let mut out: Vec<u8> = Vec::new();
        self.write_to(&mut out);
        assert(out@ =~= self@.to_bytes());
        out
    }

    /// The length of the encoding of the message.
    pub fn compute_size(&self) -> (r: u32)
        requires
            self@.wf(),
            self@.to_bytes().len() <= u32::MAX,
        ensures
            r == self@.to_bytes().len(),
    {
        let v = self.write_to_bytes();
        v.len() as u32
    }
    /// A copy of the message.
    pub fn clone_message(&self) -> (r: Self)
        ensures
            r@ == self@,
    {
        let uri = clone_opt_string(&self.uri);
        let content_type = clone_opt_string(&self.content_type);
        let body = clone_opt_bytes(&self.body);
        let etag = clone_opt_bytes(&self.etag);
        let unknown_fields = clone_unknown_fields(&self.unknown_fields);
        MercuryRequest { uri, content_type, body, etag, unknown_fields }
    }

}

impl Clone for MercuryRequest {
    fn clone(&self) -> (r: Self)
        ensures
            r@ == self@,
    {
        self.clone_message()
    }
}

impl Default for MercuryRequest {
    fn default() -> (r: Self)
        ensures
            r@ == MercuryRequestModel::empty(),
    {
        MercuryRequest::new()
    }
}

/// The `MercuryReply` message.
#[allow(non_snake_case)]
#[derive(Debug, PartialEq)]
pub struct MercuryReply {
    status_code: Option<i32>,
    status_message: Option<String>,
    cache_policy: Option<MercuryReply_CachePolicy>,
    ttl: Option<i32>,
    etag: Option<Vec<u8>>,
    content_type: Option<String>,
    body: Option<Vec<u8>>,
    unknown_fields: Vec<UnknownField>,
}

/// The model of a `MercuryReply`: each field's value, `None` or empty when unset,
/// and the fields of unknown numbers, in the order they were read.
#[allow(non_snake_case)]
pub struct MercuryReplyModel {
    pub status_code: Option<i32>,
    pub status_message: Option<Seq<char>>,
    pub cache_policy: Option<MercuryReply_CachePolicy>,
    pub ttl: Option<i32>,
    pub etag: Option<Seq<u8>>,
    pub content_type: Option<Seq<char>>,
    pub body: Option<Seq<u8>>,
    pub unknown_fields: Seq<UnknownFieldModel>,
}

impl View for MercuryReply {
    type V = MercuryReplyModel;

    closed spec fn view(&self) -> MercuryReplyModel {
        MercuryReplyModel {
            status_code: self.status_code,
            status_message: opt_view(self.status_message),
            cache_policy: self.cache_policy,
            ttl: self.ttl,
            etag: opt_view(self.etag),
            content_type: opt_view(self.content_type),
            body: opt_view(self.body),
            unknown_fields: unknown_models(self.unknown_fields@),
        }
    }
}

#[allow(non_snake_case)]
impl MercuryReplyModel {
    /// The model of a message with no field set.
    pub open spec fn empty() -> Self {
        MercuryReplyModel {
            status_code: None,
            status_message: None,
            cache_policy: None,
            ttl: None,
            etag: None,
            content_type: None,
            body: None,
            unknown_fields: Seq::empty(),
        }
    }

    /// The encodings of a list of messages.
    pub open spec fn encodings(v: Seq<MercuryReplyModel>) -> Seq<Seq<u8>> {
        v.map_values(|m: MercuryReplyModel| m.to_bytes())
    }

    /// Every message of a list can be written, and its encoding fits a 32-bit length.
    pub open spec fn all_writable(v: Seq<MercuryReplyModel>) -> bool {
        forall|i: int| 0 <= i < v.len() ==> #[trigger] v[i].wf() && fits_u32(v[i].to_bytes())
    }

    /// The field numbers that this message knows.
    pub open spec fn is_known_field(f: u32) -> bool {
        f == 1 || f == 2 || f == 3 || f == 4 || f == 5 || f == 6 || f == 7
    }

    /// Merging one field whose tag (number `f`, wire type `wt`) has been read;
    /// `s` holds the bytes after the tag. The result is the merged model and
    /// the number of bytes the value took; a set field is replaced, a repeated
    /// field grows, a field of unknown number is kept or, if a group, skipped.
    pub open spec fn merge_field(self, f: u32, wt: u32, s: Seq<u8>, lim: nat) -> Option<(Self, nat)> {
        if f == 1 {
            if wt != WIRE_VARINT {
                None
            } else {
                match varint_parse(s) {
                    Some((v, k)) => Some((MercuryReplyModel { status_code: Some(zigzag_decode32(v as u32)), ..self }, k)),
                    None => None,
                }
            }
        } else if f == 2 {
            if wt != WIRE_LENGTH_DELIMITED {
                None
            } else {
                match string_parse(s) {
                    Some((c, k)) => Some((MercuryReplyModel { status_message: Some(c), ..self }, k)),
                    None => None,
                }
            }
        } else if f == 3 {
            if wt != WIRE_VARINT {
                None
            } else {
                match varint_parse(s) {
                    Some((v, k)) => match MercuryReply_CachePolicy::spec_from_i32(varint_int32(v)) {
                        Some(e) => Some((MercuryReplyModel { cache_policy: Some(e), ..self }, k)),
                        None => None,
                    },
                    None => None,
                }
            }
        } else if f == 4 {
            if wt != WIRE_VARINT {
                None
            } else {
                match varint_parse(s) {
                    Some((v, k)) => Some((MercuryReplyModel { ttl: Some(zigzag_decode32(v as u32)), ..self }, k)),
                    None => None,
                }
            }
        } else if f == 5 {
            if wt != WIRE_LENGTH_DELIMITED {
                None
            } else {
                match bytes_parse(s) {
                    Some((c, k)) => Some((MercuryReplyModel { etag: Some(c), ..self }, k)),
                    None => None,
                }
            }
        } else if f == 6 {
            if wt != WIRE_LENGTH_DELIMITED {
                None
            } else {
                match string_parse(s) {
                    Some((c, k)) => Some((MercuryReplyModel { content_type: Some(c), ..self }, k)),
                    None => None,
                }
            }
        } else if f == 7 {
            if wt != WIRE_LENGTH_DELIMITED {
                None
            } else {
                match bytes_parse(s) {
                    Some((c, k)) => Some((MercuryReplyModel { body: Some(c), ..self }, k)),
                    None => None,
                }
            }
        } else {
            match unknown_parse(f, wt, s) {
                Some((Some(u), k)) => Some((MercuryReplyModel { unknown_fields: grouped_insert(self.unknown_fields, u), ..self }, k)),
                Some((None, k)) => Some((self, k)),
                None => None,
            }
        }
    }

    /// What is left of the model when merging one field (number `f`, wire type
    /// `wt`, value at the front of `s`) fails: a string, bytes or message field
    /// of the right wire type is first set to its empty value (a repeated one
    /// gets an empty element) and an embedded message keeps the fields merged
    /// into it before the failure; packed values read before the failure stay.
    pub open spec fn merge_field_failed(self, f: u32, wt: u32, s: Seq<u8>, lim: nat) -> Self {
        if f == 2 {
            if wt != WIRE_LENGTH_DELIMITED {
                self
            } else {
                MercuryReplyModel { status_message: Some(Seq::<char>::empty()), ..self }
            }
        } else if f == 5 {
            if wt != WIRE_LENGTH_DELIMITED {
                self
            } else {
                MercuryReplyModel { etag: Some(Seq::<u8>::empty()), ..self }
            }
        } else if f == 6 {
            if wt != WIRE_LENGTH_DELIMITED {
                self
            } else {
                MercuryReplyModel { content_type: Some(Seq::<char>::empty()), ..self }
            }
        } else if f == 7 {
            if wt != WIRE_LENGTH_DELIMITED {
                self
            } else {
                MercuryReplyModel { body: Some(Seq::<u8>::empty()), ..self }
            }
        } else {
            self
        }
    }

    /// The value of a merged field takes no more than the bytes after its tag.
    pub proof fn lemma_merge_field_len(self, f: u32, wt: u32, s: Seq<u8>, lim: nat)
        ensures
            self.merge_field(f, wt, s, lim) matches Some((_m, k)) ==> k <= s.len(),
    {
        lemma_varint_parse_len(s);
        crate::wire::lemma_unknown_parse_len(f, wt, s);
    }

    /// Merging all the fields that `s` holds, in order, where the length of an
    /// embedded message may reach `lim` bytes past the end of `s` (such a message
    /// is read up to the end of `s`).
    #[verifier::opaque]
    pub open spec fn merge(self, s: Seq<u8>, lim: nat) -> Option<Self>
        decreases s.len(),
    {
        if s.len() == 0 {
            Some(self)
        } else {
            match tag_parse(s) {
                Some((f, wt, n)) => if 0 < n <= s.len() {
                    match self.merge_field(f, wt, s.skip(n as int), lim) {
                        Some((m, k)) => if n + k <= s.len() {
                            m.merge(s.skip((n + k) as int), lim)
                        } else {
                            None
                        },
                        None => None,
                    }
                } else {
                    None
                },
                None => None,
            }
        }
    }

    /// What merging `s` leaves: the fields merged in order up to the first one
    /// whose tag or value cannot be read, then what `merge_field_failed` leaves of
    /// that one; all of `s` where it is a valid encoding.
    #[verifier::opaque]
    pub open spec fn merge_partial(self, s: Seq<u8>, lim: nat) -> Self
        decreases s.len(),
    {
        if s.len() == 0 {
            self
        } else {
            match tag_parse(s) {
                Some((f, wt, n)) => if 0 < n <= s.len() {
                    match self.merge_field(f, wt, s.skip(n as int), lim) {
                        Some((m, k)) => if n + k <= s.len() {
                            m.merge_partial(s.skip((n + k) as int), lim)
                        } else {
                            m
                        },
                        None => self.merge_field_failed(f, wt, s.skip(n as int), lim),
                    }
                } else {
                    self
                },
                None => self,
            }
        }
    }

    /// The encoding of field `status_code` and of every field written after it.
    pub open spec fn encoded_from_status_code(self) -> Seq<u8> {
        opt_varint_field_bytes(1, match self.status_code { Some(x) => Some(zigzag_encode32(x) as u64), None => None }) + self.encoded_from_status_message()
    }

    /// The encoding of field `status_message` and of every field written after it.
    pub open spec fn encoded_from_status_message(self) -> Seq<u8> {
        opt_length_delimited_field_bytes(2, match self.status_message { Some(c) => Some(encode_utf8(c)), None => None }) + self.encoded_from_cache_policy()
    }

    /// The encoding of field `cache_policy` and of every field written after it.
    pub open spec fn encoded_from_cache_policy(self) -> Seq<u8> {
        opt_varint_field_bytes(3, match self.cache_policy { Some(x) => Some(int32_varint(x.spec_value())), None => None }) + self.encoded_from_ttl()
    }

    /// The encoding of field `ttl` and of every field written after it.
    pub open spec fn encoded_from_ttl(self) -> Seq<u8> {
        opt_varint_field_bytes(4, match self.ttl { Some(x) => Some(zigzag_encode32(x) as u64), None => None }) + self.encoded_from_etag()
    }

    /// The encoding of field `etag` and of every field written after it.
    pub open spec fn encoded_from_etag(self) -> Seq<u8> {
        opt_length_delimited_field_bytes(5, self.etag) + self.encoded_from_content_type()
    }

    /// The encoding of field `content_type` and of every field written after it.
    pub open spec fn encoded_from_content_type(self) -> Seq<u8> {
        opt_length_delimited_field_bytes(6, match self.content_type { Some(c) => Some(encode_utf8(c)), None => None }) + self.encoded_from_body()
    }

    /// The encoding of field `body` and of every field written after it.
    pub open spec fn encoded_from_body(self) -> Seq<u8> {
        opt_length_delimited_field_bytes(7, self.body) + self.encoded_from_unknown_fields()
    }

    /// The encoding of the fields of unknown numbers, written last.
    pub open spec fn encoded_from_unknown_fields(self) -> Seq<u8> {
        unknown_list_bytes(self.unknown_fields)
    }

    /// The encoding of the message: its set fields in order of declaration,
    /// each element of a repeated field in order, then the unknown fields.
    #[verifier::opaque]
    pub open spec fn to_bytes(self) -> Seq<u8> {
        self.encoded_from_status_code()
    }

    /// A model that can be written and read back: every length fits the
    /// 32-bit length prefix, nested messages can be written, and the unknown
    /// fields have valid numbers that this message does not know.
    #[verifier::opaque]
    pub open spec fn wf(self) -> bool {
        &&& (self.status_message matches Some(c) ==> fits_u32(encode_utf8(c)))
        &&& (self.etag matches Some(b) ==> fits_u32(b))
        &&& (self.content_type matches Some(c) ==> fits_u32(encode_utf8(c)))
        &&& (self.body matches Some(b) ==> fits_u32(b))
        &&& (forall|i: int| 0 <= i < self.unknown_fields.len() ==> unknown_field_wf(#[trigger] self.unknown_fields[i]) && !Self::is_known_field(self.unknown_fields[i].number))
        &&& unknown_grouped(self.unknown_fields)
    }

    /// The message with no field set can be written and read back.
    pub proof fn lemma_empty_wf()
        ensures
            Self::empty().wf(),
    {
        reveal_with_fuel(MercuryReplyModel::wf, 1);
        lemma_grouped_empty();
    }

    /// Merging a field's tag and value, whatever follows them.
    pub proof fn lemma_merge_step(acc: Self, f: u32, wt: u32, t: Seq<u8>, b: Seq<u8>, rest: Seq<u8>, acc2: Self, lim: nat)
        requires
            tag_parse(t + (b + rest)) == Some((f, wt, t.len())),
            t.len() > 0,
            acc.merge_field(f, wt, b + rest, lim) == Some((acc2, b.len())),
        ensures
            acc.merge(t + (b + rest), lim) == acc2.merge(rest, lim),
    {
        reveal_with_fuel(MercuryReplyModel::merge, 1);
        lemma_skip_chunk(t, b, rest);
    }

    /// Merging the encoding of field `status_code` sets it, whatever follows.
    pub proof fn lemma_merge_status_code(acc: Self, v: Option<i32>, rest: Seq<u8>, lim: nat)
        ensures
            acc.merge(opt_varint_field_bytes(1, match v { Some(x) => Some(zigzag_encode32(x) as u64), None => None }) + rest, lim) == (MercuryReplyModel { status_code: if v is Some { v } else { acc.status_code }, ..acc }).merge(rest, lim),
    {
        match v {
            None => {
                assert(opt_varint_field_bytes(1, match v { Some(x) => Some(zigzag_encode32(x) as u64), None => None }) + rest =~= rest);
                assert((MercuryReplyModel { status_code: acc.status_code, ..acc }) == acc);
            },
            Some(x) => {
                let t = tag_bytes(1, WIRE_VARINT);
                let b = varint_bytes(zigzag_encode32(x) as u64);
                assert(opt_varint_field_bytes(1, match v { Some(x) => Some(zigzag_encode32(x) as u64), None => None }) + rest =~= t + (b + rest));
                lemma_tag_roundtrip(1, WIRE_VARINT, b + rest);
                lemma_varint_roundtrip(zigzag_encode32(x) as u64, rest);
                    lemma_varint_casts(0, 0, 0, false, x);
                    crate::wire::lemma_zigzag_roundtrip(x);
                Self::lemma_merge_step(acc, 1, WIRE_VARINT, t, b, rest, MercuryReplyModel { status_code: v, ..acc }, lim);
            },
        }
    }

    /// Merging the encoding of field `status_message` sets it, whatever follows.
    pub proof fn lemma_merge_status_message(acc: Self, v: Option<Seq<char>>, rest: Seq<u8>, lim: nat)
        requires
            (v matches Some(c) ==> fits_u32(encode_utf8(c))),
        ensures
            acc.merge(opt_length_delimited_field_bytes(2, match v { Some(c) => Some(encode_utf8(c)), None => None }) + rest, lim) == (MercuryReplyModel { status_message: if v is Some { v } else { acc.status_message }, ..acc }).merge(rest, lim),
    {
        match v {
            None => {
                assert(opt_length_delimited_field_bytes(2, match v { Some(c) => Some(encode_utf8(c)), None => None }) + rest =~= rest);
                assert((MercuryReplyModel { status_message: acc.status_message, ..acc }) == acc);
            },
            Some(x) => {
                let t = tag_bytes(2, WIRE_LENGTH_DELIMITED);
                let b = bytes_value_bytes(encode_utf8(x));
                assert(opt_length_delimited_field_bytes(2, match v { Some(c) => Some(encode_utf8(c)), None => None }) + rest =~= t + (b + rest));
                lemma_tag_roundtrip(2, WIRE_LENGTH_DELIMITED, b + rest);
                lemma_string_roundtrip(x, rest);
                Self::lemma_merge_step(acc, 2, WIRE_LENGTH_DELIMITED, t, b, rest, MercuryReplyModel { status_message: v, ..acc }, lim);
            },
        }
    }

    /// Merging the encoding of field `cache_policy` sets it, whatever follows.
    pub proof fn lemma_merge_cache_policy(acc: Self, v: Option<MercuryReply_CachePolicy>, rest: Seq<u8>, lim: nat)
        ensures
            acc.merge(opt_varint_field_bytes(3, match v { Some(x) => Some(int32_varint(x.spec_value())), None => None }) + rest, lim) == (MercuryReplyModel { cache_policy: if v is Some { v } else { acc.cache_policy }, ..acc }).merge(rest, lim),
    {
        match v {
            None => {
                assert(opt_varint_field_bytes(3, match v { Some(x) => Some(int32_varint(x.spec_value())), None => None }) + rest =~= rest);
                assert((MercuryReplyModel { cache_policy: acc.cache_policy, ..acc }) == acc);
            },
            Some(x) => {
                let t = tag_bytes(3, WIRE_VARINT);
                let b = varint_bytes(int32_varint(x.spec_value()));
                assert(opt_varint_field_bytes(3, match v { Some(x) => Some(int32_varint(x.spec_value())), None => None }) + rest =~= t + (b + rest));
                lemma_tag_roundtrip(3, WIRE_VARINT, b + rest);
                lemma_varint_roundtrip(int32_varint(x.spec_value()), rest);
                    lemma_varint_casts(x.spec_value(), 0, 0, false, 0);
                    x.lemma_value_roundtrip();
                Self::lemma_merge_step(acc, 3, WIRE_VARINT, t, b, rest, MercuryReplyModel { cache_policy: v, ..acc }, lim);
            },
        }
    }

    /// Merging the encoding of field `ttl` sets it, whatever follows.
    pub proof fn lemma_merge_ttl(acc: Self, v: Option<i32>, rest: Seq<u8>, lim: nat)
        ensures
            acc.merge(opt_varint_field_bytes(4, match v { Some(x) => Some(zigzag_encode32(x) as u64), None => None }) + rest, lim) == (MercuryReplyModel { ttl: if v is Some { v } else { acc.ttl }, ..acc }).merge(rest, lim),
    {
        match v {
            None => {
                assert(opt_varint_field_bytes(4, match v { Some(x) => Some(zigzag_encode32(x) as u64), None => None }) + rest =~= rest);
                assert((MercuryReplyModel { ttl: acc.ttl, ..acc }) == acc);
            },
            Some(x) => {
                let t = tag_bytes(4, WIRE_VARINT);
                let b = varint_bytes(zigzag_encode32(x) as u64);
                assert(opt_varint_field_bytes(4, match v { Some(x) => Some(zigzag_encode32(x) as u64), None => None }) + rest =~= t + (b + rest));
                lemma_tag_roundtrip(4, WIRE_VARINT, b + rest);
                lemma_varint_roundtrip(zigzag_encode32(x) as u64, rest);
                    lemma_varint_casts(0, 0, 0, false, x);
                    crate::wire::lemma_zigzag_roundtrip(x);
                Self::lemma_merge_step(acc, 4, WIRE_VARINT, t, b, rest, MercuryReplyModel { ttl: v, ..acc }, lim);
            },
        }
    }

    /// Merging the encoding of field `etag` sets it, whatever follows.
    pub proof fn lemma_merge_etag(acc: Self, v: Option<Seq<u8>>, rest: Seq<u8>, lim: nat)
        requires
            (v matches Some(b) ==> fits_u32(b)),
        ensures
            acc.merge(opt_length_delimited_field_bytes(5, v) + rest, lim) == (MercuryReplyModel { etag: if v is Some { v } else { acc.etag }, ..acc }).merge(rest, lim),
    {
        match v {
            None => {
                assert(opt_length_delimited_field_bytes(5, v) + rest =~= rest);
                assert((MercuryReplyModel { etag: acc.etag, ..acc }) == acc);
            },
            Some(x) => {
                let t = tag_bytes(5, WIRE_LENGTH_DELIMITED);
                let b = bytes_value_bytes(x);
                assert(opt_length_delimited_field_bytes(5, v) + rest =~= t + (b + rest));
                lemma_tag_roundtrip(5, WIRE_LENGTH_DELIMITED, b + rest);
                lemma_bytes_roundtrip(x, rest);
                Self::lemma_merge_step(acc, 5, WIRE_LENGTH_DELIMITED, t, b, rest, MercuryReplyModel { etag: v, ..acc }, lim);
            },
        }
    }

    /// Merging the encoding of field `content_type` sets it, whatever follows.
    pub proof fn lemma_merge_content_type(acc: Self, v: Option<Seq<char>>, rest: Seq<u8>, lim: nat)
        requires
            (v matches Some(c) ==> fits_u32(encode_utf8(c))),
        ensures
            acc.merge(opt_length_delimited_field_bytes(6, match v { Some(c) => Some(encode_utf8(c)), None => None }) + rest, lim) == (MercuryReplyModel { content_type: if v is Some { v } else { acc.content_type }, ..acc }).merge(rest, lim),
    {
        match v {
            None => {
                assert(opt_length_delimited_field_bytes(6, match v { Some(c) => Some(encode_utf8(c)), None => None }) + rest =~= rest);
                assert((MercuryReplyModel { content_type: acc.content_type, ..acc }) == acc);
            },
            Some(x) => {
                let t = tag_bytes(6, WIRE_LENGTH_DELIMITED);
                let b = bytes_value_bytes(encode_utf8(x));
                assert(opt_length_delimited_field_bytes(6, match v { Some(c) => Some(encode_utf8(c)), None => None }) + rest =~= t + (b + rest));
                lemma_tag_roundtrip(6, WIRE_LENGTH_DELIMITED, b + rest);
                lemma_string_roundtrip(x, rest);
                Self::lemma_merge_step(acc, 6, WIRE_LENGTH_DELIMITED, t, b, rest, MercuryReplyModel { content_type: v, ..acc }, lim);
            },
        }
    }

    /// Merging the encoding of field `body` sets it, whatever follows.
    pub proof fn lemma_merge_body(acc: Self, v: Option<Seq<u8>>, rest: Seq<u8>, lim: nat)
        requires
            (v matches Some(b) ==> fits_u32(b)),
        ensures
            acc.merge(opt_length_delimited_field_bytes(7, v) + rest, lim) == (MercuryReplyModel { body: if v is Some { v } else { acc.body }, ..acc }).merge(rest, lim),
    {
        match v {
            None => {
                assert(opt_length_delimited_field_bytes(7, v) + rest =~= rest);
                assert((MercuryReplyModel { body: acc.body, ..acc }) == acc);
            },
            Some(x) => {
                let t = tag_bytes(7, WIRE_LENGTH_DELIMITED);
                let b = bytes_value_bytes(x);
                assert(opt_length_delimited_field_bytes(7, v) + rest =~= t + (b + rest));
                lemma_tag_roundtrip(7, WIRE_LENGTH_DELIMITED, b + rest);
                lemma_bytes_roundtrip(x, rest);
                Self::lemma_merge_step(acc, 7, WIRE_LENGTH_DELIMITED, t, b, rest, MercuryReplyModel { body: v, ..acc }, lim);
            },
        }
    }

    /// Merging the encoding of fields of unknown numbers keeps them, whatever follows.
    #[verifier::rlimit(50)]
    pub proof fn lemma_merge_unknown_fields(acc: Self, v: Seq<UnknownFieldModel>, rest: Seq<u8>, lim: nat)
        requires
            forall|i: int| 0 <= i < v.len() ==> unknown_field_wf(#[trigger] v[i]) && !Self::is_known_field(v[i].number),
            unknown_grouped(acc.unknown_fields + v),
        ensures
            acc.merge(unknown_list_bytes(v) + rest, lim) == (MercuryReplyModel { unknown_fields: acc.unknown_fields + v, ..acc }).merge(rest, lim),
        decreases v.len(),
    {
        if v.len() == 0 {
            assert(unknown_list_bytes(v) + rest =~= rest);
            assert(acc.unknown_fields + v =~= acc.unknown_fields);
            assert((MercuryReplyModel { unknown_fields: acc.unknown_fields + v, ..acc }) == acc);
        } else {
            lemma_unknown_list_cons(v);
            let u = v[0];
            let wt = crate::wire::unknown_wire_type(u.value);
            let t = tag_bytes(u.number, wt);
            let b = crate::wire::unknown_value_bytes(u.value);
            let tail = unknown_list_bytes(v.subrange(1, v.len() as int));
            assert(unknown_list_bytes(v) + rest =~= t + (b + (tail + rest)));
            assert(unknown_field_bytes(u) + (tail + rest) =~= t + (b + (tail + rest)));
            lemma_unknown_roundtrip(u, tail + rest);
            assert((t + (b + (tail + rest))).skip(t.len() as int) =~= b + (tail + rest));
            crate::wire::lemma_tag_roundtrip(u.number, wt, b + (tail + rest));
            let acc1 = MercuryReplyModel { unknown_fields: acc.unknown_fields.push(u), ..acc };
            assert(acc.unknown_fields.push(u) =~= (acc.unknown_fields + v).take(acc.unknown_fields.len() + 1int));
            lemma_grouped_take(acc.unknown_fields + v, acc.unknown_fields.len() + 1int);
            lemma_grouped_insert_last(acc.unknown_fields, u);
            Self::lemma_merge_step(acc, u.number, wt, t, b, tail + rest, acc1, lim);
            assert(acc1.unknown_fields + v.subrange(1, v.len() as int) =~= acc.unknown_fields + v);
            Self::lemma_merge_unknown_fields(acc1, v.subrange(1, v.len() as int), rest, lim);
        }
    }

    /// Reading back the encoding of a model that can be written gives the model,
    /// whatever the limit past its end.
    #[verifier::spinoff_prover]
    #[verifier::rlimit(100)]
    pub proof fn lemma_roundtrip(self, lim: nat)
        requires
            self.wf(),
        ensures
            MercuryReplyModel::empty().merge(self.to_bytes(), lim) == Some(self),
    {
        reveal(MercuryReplyModel::to_bytes);
        reveal(MercuryReplyModel::wf);
        reveal_with_fuel(MercuryReplyModel::merge, 1);
        let a0 = MercuryReplyModel::empty();
        Self::lemma_merge_status_code(a0, self.status_code, self.encoded_from_status_message(), lim);
        let a1 = MercuryReplyModel { status_code: if self.status_code is Some { self.status_code } else { a0.status_code }, ..a0 };
        assert((self.status_message matches Some(c) ==> fits_u32(encode_utf8(c))));
        Self::lemma_merge_status_message(a1, self.status_message, self.encoded_from_cache_policy(), lim);
        let a2 = MercuryReplyModel { status_message: if self.status_message is Some { self.status_message } else { a1.status_message }, ..a1 };
        Self::lemma_merge_cache_policy(a2, self.cache_policy, self.encoded_from_ttl(), lim);
        let a3 = MercuryReplyModel { cache_policy: if self.cache_policy is Some { self.cache_policy } else { a2.cache_policy }, ..a2 };
        Self::lemma_merge_ttl(a3, self.ttl, self.encoded_from_etag(), lim);
        let a4 = MercuryReplyModel { ttl: if self.ttl is Some { self.ttl } else { a3.ttl }, ..a3 };
        assert((self.etag matches Some(b) ==> fits_u32(b)));
        Self::lemma_merge_etag(a4, self.etag, self.encoded_from_content_type(), lim);
        let a5 = MercuryReplyModel { etag: if self.etag is Some { self.etag } else { a4.etag }, ..a4 };
        assert((self.content_type matches Some(c) ==> fits_u32(encode_utf8(c))));
        Self::lemma_merge_content_type(a5, self.content_type, self.encoded_from_body(), lim);
        let a6 = MercuryReplyModel { content_type: if self.content_type is Some { self.content_type } else { a5.content_type }, ..a5 };
        assert((self.body matches Some(b) ==> fits_u32(b)));
        Self::lemma_merge_body(a6, self.body, self.encoded_from_unknown_fields(), lim);
        let a7 = MercuryReplyModel { body: if self.body is Some { self.body } else { a6.body }, ..a6 };
        assert(a7.unknown_fields + self.unknown_fields =~= self.unknown_fields);
        Self::lemma_merge_unknown_fields(a7, self.unknown_fields, Seq::empty(), lim);
        assert(unknown_list_bytes(self.unknown_fields) + Seq::<u8>::empty() =~= unknown_list_bytes(self.unknown_fields));
        let last = MercuryReplyModel { unknown_fields: a7.unknown_fields + self.unknown_fields, ..a7 };
        assert(last.unknown_fields =~= self.unknown_fields);
        assert(last == self);
    }
    /// A message whose only set field is `status_code` is written as field number 1 of the
    /// protocol's definition alone: the tag of that number with the wire type of the field,
    /// then the value.
    pub proof fn lemma_encoding_of_status_code(v: Option<i32>)
        ensures
            (MercuryReplyModel { status_code: v, ..MercuryReplyModel::empty() }).to_bytes() == opt_varint_field_bytes(1, match v { Some(x) => Some(zigzag_encode32(x) as u64), None => None }),
    {
        reveal(MercuryReplyModel::to_bytes);
        let m = MercuryReplyModel { status_code: v, ..MercuryReplyModel::empty() };
        assert(m.to_bytes() =~= opt_varint_field_bytes(1, match v { Some(x) => Some(zigzag_encode32(x) as u64), None => None }));
    }

    /// A message whose only set field is `status_message` is written as field number 2 of the
    /// protocol's definition alone: the tag of that number with the wire type of the field,
    /// then the value.
    pub proof fn lemma_encoding_of_status_message(v: Option<Seq<char>>)
        ensures
            (MercuryReplyModel { status_message: v, ..MercuryReplyModel::empty() }).to_bytes() == opt_length_delimited_field_bytes(2, match v { Some(c) => Some(encode_utf8(c)), None => None }),
    {
        reveal(MercuryReplyModel::to_bytes);
        let m = MercuryReplyModel { status_message: v, ..MercuryReplyModel::empty() };
        assert(m.to_bytes() =~= opt_length_delimited_field_bytes(2, match v { Some(c) => Some(encode_utf8(c)), None => None }));
    }

    /// A message whose only set field is `cache_policy` is written as field number 3 of the
    /// protocol's definition alone: the tag of that number with the wire type of the field,
    /// then the value.
    pub proof fn lemma_encoding_of_cache_policy(v: Option<MercuryReply_CachePolicy>)
        ensures
            (MercuryReplyModel { cache_policy: v, ..MercuryReplyModel::empty() }).to_bytes() == opt_varint_field_bytes(3, match v { Some(x) => Some(int32_varint(x.spec_value())), None => None }),
    {
        reveal(MercuryReplyModel::to_bytes);
        let m = MercuryReplyModel { cache_policy: v, ..MercuryReplyModel::empty() };
        assert(m.to_bytes() =~= opt_varint_field_bytes(3, match v { Some(x) => Some(int32_varint(x.spec_value())), None => None }));
    }

    /// A message whose only set field is `ttl` is written as field number 4 of the
    /// protocol's definition alone: the tag of that number with the wire type of the field,
    /// then the value.
    pub proof fn lemma_encoding_of_ttl(v: Option<i32>)
        ensures
            (MercuryReplyModel { ttl: v, ..MercuryReplyModel::empty() }).to_bytes() == opt_varint_field_bytes(4, match v { Some(x) => Some(zigzag_encode32(x) as u64), None => None }),
    {
        reveal(MercuryReplyModel::to_bytes);
        let m = MercuryReplyModel { ttl: v, ..MercuryReplyModel::empty() };
        assert(m.to_bytes() =~= opt_varint_field_bytes(4, match v { Some(x) => Some(zigzag_encode32(x) as u64), None => None }));
    }

    /// A message whose only set field is `etag` is written as field number 5 of the
    /// protocol's definition alone: the tag of that number with the wire type of the field,
    /// then the value.
    pub proof fn lemma_encoding_of_etag(v: Option<Seq<u8>>)
        ensures
            (MercuryReplyModel { etag: v, ..MercuryReplyModel::empty() }).to_bytes() == opt_length_delimited_field_bytes(5, v),
    {
        reveal(MercuryReplyModel::to_bytes);
        let m = MercuryReplyModel { etag: v, ..MercuryReplyModel::empty() };
        assert(m.to_bytes() =~= opt_length_delimited_field_bytes(5, v));
    }

    /// A message whose only set field is `content_type` is written as field number 6 of the
    /// protocol's definition alone: the tag of that number with the wire type of the field,
    /// then the value.
    pub proof fn lemma_encoding_of_content_type(v: Option<Seq<char>>)
        ensures
            (MercuryReplyModel { content_type: v, ..MercuryReplyModel::empty() }).to_bytes() == opt_length_delimited_field_bytes(6, match v { Some(c) => Some(encode_utf8(c)), None => None }),
    {
        reveal(MercuryReplyModel::to_bytes);
        let m = MercuryReplyModel { content_type: v, ..MercuryReplyModel::empty() };
        assert(m.to_bytes() =~= opt_length_delimited_field_bytes(6, match v { Some(c) => Some(encode_utf8(c)), None => None }));
    }

    /// A message whose only set field is `body` is written as field number 7 of the
    /// protocol's definition alone: the tag of that number with the wire type of the field,
    /// then the value.
    pub proof fn lemma_encoding_of_body(v: Option<Seq<u8>>)
        ensures
            (MercuryReplyModel { body: v, ..MercuryReplyModel::empty() }).to_bytes() == opt_length_delimited_field_bytes(7, v),
    {
        reveal(MercuryReplyModel::to_bytes);
        let m = MercuryReplyModel { body: v, ..MercuryReplyModel::empty() };
        assert(m.to_bytes() =~= opt_length_delimited_field_bytes(7, v));
    }

}

#[allow(non_snake_case)]
impl MercuryReply {
    /// The models of a list of messages.
    pub open spec fn seq_model(v: Seq<MercuryReply>) -> Seq<MercuryReplyModel> {
        v.map_values(|m: MercuryReply| m@)
    }

    /// A message with no field set.
    pub fn new() -> (r: Self)
        ensures
            r@ == MercuryReplyModel::empty(),
            r@.wf(),
    {
        let r = MercuryReply {
            status_code: None,
            status_message: None,
            cache_policy: None,
            ttl: None,
            etag: None,
            content_type: None,
            body: None,
            unknown_fields: Vec::new(),
        };
        assert(unknown_models(r.unknown_fields@) =~= Seq::<UnknownFieldModel>::empty());
        proof {
            MercuryReplyModel::lemma_empty_wf();
        }
        r
    }

    /// Unsets field `status_code`.
    pub fn clear_status_code(&mut self)
        ensures
            final(self)@ == (MercuryReplyModel { status_code: None, ..old(self)@ }),
    {
        self.status_code = None;
    }

    /// Whether field `status_code` is set.
    pub fn has_status_code(&self) -> (r: bool)
        ensures
            r == self@.status_code is Some,
    {
        self.status_code.is_some()
    }

    /// Sets field `status_code` to `v`.
    pub fn set_status_code(&mut self, v: i32)
        ensures
            final(self)@ == (MercuryReplyModel { status_code: Some(v), ..old(self)@ }),
    {
        self.status_code = Some(v);
    }

    /// Field `status_code`, or `0` when unset.
    pub fn get_status_code(&self) -> (r: i32)
        ensures
            r == (match self@.status_code { Some(x) => x, None => 0i32 }),
    {
        match self.status_code {
            Some(x) => x,
            None => 0i32,
        }
    }

    /// Unsets field `status_message`.
    pub fn clear_status_message(&mut self)
        ensures
            final(self)@ == (MercuryReplyModel { status_message: None, ..old(self)@ }),
    {
        self.status_message = None;
    }

    /// Whether field `status_message` is set.
    pub fn has_status_message(&self) -> (r: bool)
        ensures
            r == self@.status_message is Some,
    {
        self.status_message.is_some()
    }

    /// Sets field `status_message` to `v`.
    pub fn set_status_message(&mut self, v: String)
        ensures
            final(self)@ == (MercuryReplyModel { status_message: Some(v@), ..old(self)@ }),
    {
        self.status_message = Some(v);
    }

    /// Field `status_message`, to change in place; an unset field is first set to its default.
    pub fn mut_status_message(&mut self) -> (r: &mut String)
        ensures
            r@ == chars_or_empty(old(self)@.status_message),
            final(self)@ == (MercuryReplyModel { status_message: Some(final(r)@), ..old(self)@ }),

    {
        if self.status_message.is_none() {
            self.status_message = Some(String::new());
        }
        opt_as_mut(&mut self.status_message).unwrap()
    }

    /// Takes field `status_message` (its default when unset), leaving it unset.
    pub fn take_status_message(&mut self) -> (r: String)
        ensures
            r@ == chars_or_empty(old(self)@.status_message),
            final(self)@ == (MercuryReplyModel { status_message: None, ..old(self)@ }),
    {
        let mut t = None;
        std::mem::swap(&mut t, &mut self.status_message);
        match t {
            Some(v) => v,
            None => String::new(),
        }
    }

    /// Field `status_message`, or the empty string when unset.
    pub fn get_status_message(&self) -> (r: &str)
        ensures
            r@ == chars_or_empty(self@.status_message),
    {
        match &self.status_message {
            Some(v) => v.as_str(),
            None => {
                proof {
                    reveal_strlit("");
                }
                ""
            },
        }
    }

    /// Unsets field `cache_policy`.
    pub fn clear_cache_policy(&mut self)
        ensures
            final(self)@ == (MercuryReplyModel { cache_policy: None, ..old(self)@ }),
    {
        self.cache_policy = None;
    }

    /// Whether field `cache_policy` is set.
    pub fn has_cache_policy(&self) -> (r: bool)
        ensures
            r == self@.cache_policy is Some,
    {
        self.cache_policy.is_some()
    }

    /// Sets field `cache_policy` to `v`.
    pub fn set_cache_policy(&mut self, v: MercuryReply_CachePolicy)
        ensures
            final(self)@ == (MercuryReplyModel { cache_policy: Some(v), ..old(self)@ }),
    {
        self.cache_policy = Some(v);
    }

    /// Field `cache_policy`, or `MercuryReply_CachePolicy::CACHE_NO` when unset.
    pub fn get_cache_policy(&self) -> (r: MercuryReply_CachePolicy)
        ensures
            r == (match self@.cache_policy { Some(x) => x, None => MercuryReply_CachePolicy::CACHE_NO }),
    {
        match self.cache_policy {
            Some(x) => x,
            None => MercuryReply_CachePolicy::CACHE_NO,
        }
    }

    /// Unsets field `ttl`.
    pub fn clear_ttl(&mut self)
        ensures
            final(self)@ == (MercuryReplyModel { ttl: None, ..old(self)@ }),
    {
        self.ttl = None;
    }

    /// Whether field `ttl` is set.
    pub fn has_ttl(&self) -> (r: bool)
        ensures
            r == self@.ttl is Some,
    {
        self.ttl.is_some()
    }

    /// Sets field `ttl` to `v`.
    pub fn set_ttl(&mut self, v: i32)
        ensures
            final(self)@ == (MercuryReplyModel { ttl: Some(v), ..old(self)@ }),
    {
        self.ttl = Some(v);
    }

    /// Field `ttl`, or `0` when unset.
    pub fn get_ttl(&self) -> (r: i32)
        ensures
            r == (match self@.ttl { Some(x) => x, None => 0i32 }),
    {
        match self.ttl {
            Some(x) => x,
            None => 0i32,
        }
    }

    /// Unsets field `etag`.
    pub fn clear_etag(&mut self)
        ensures
            final(self)@ == (MercuryReplyModel { etag: None, ..old(self)@ }),
    {
        self.etag = None;
    }

    /// Whether field `etag` is set.
    pub fn has_etag(&self) -> (r: bool)
        ensures
            r == self@.etag is Some,
    {
        self.etag.is_some()
    }

    /// Sets field `etag` to `v`.
    pub fn set_etag(&mut self, v: Vec<u8>)
        ensures
            final(self)@ == (MercuryReplyModel { etag: Some(v@), ..old(self)@ }),
    {
        self.etag = Some(v);
    }

    /// Field `etag`, to change in place; an unset field is first set to its default.
    pub fn mut_etag(&mut self) -> (r: &mut Vec<u8>)
        ensures
            r@ == bytes_or_empty(old(self)@.etag),
            final(self)@ == (MercuryReplyModel { etag: Some(final(r)@), ..old(self)@ }),

    {
        if self.etag.is_none() {
            self.etag = Some(Vec::new());
        }
        opt_as_mut(&mut self.etag).unwrap()
    }

    /// Takes field `etag` (its default when unset), leaving it unset.
    pub fn take_etag(&mut self) -> (r: Vec<u8>)
        ensures
            r@ == bytes_or_empty(old(self)@.etag),
            final(self)@ == (MercuryReplyModel { etag: None, ..old(self)@ }),
    {
        let mut t = None;
        std::mem::swap(&mut t, &mut self.etag);
        match t {
            Some(v) => v,
            None => Vec::new(),
        }
    }

    /// Field `etag`, or no bytes when unset.
    pub fn get_etag(&self) -> (r: &[u8])
        ensures
            r@ == bytes_or_empty(self@.etag),
    {
        match &self.etag {
            Some(v) => v.as_slice(),
            None => &[],
        }
    }

    /// Unsets field `content_type`.
    pub fn clear_content_type(&mut self)
        ensures
            final(self)@ == (MercuryReplyModel { content_type: None, ..old(self)@ }),
    {
        self.content_type = None;
    }

    /// Whether field `content_type` is set.
    pub fn has_content_type(&self) -> (r: bool)
        ensures
            r == self@.content_type is Some,
    {
        self.content_type.is_some()
    }

    /// Sets field `content_type` to `v`.
    pub fn set_content_type(&mut self, v: String)
        ensures
            final(self)@ == (MercuryReplyModel { content_type: Some(v@), ..old(self)@ }),
    {
        self.content_type = Some(v);
    }

    /// Field `content_type`, to change in place; an unset field is first set to its default.
    pub fn mut_content_type(&mut self) -> (r: &mut String)
        ensures
            r@ == chars_or_empty(old(self)@.content_type),
            final(self)@ == (MercuryReplyModel { content_type: Some(final(r)@), ..old(self)@ }),

    {
        if self.content_type.is_none() {
            self.content_type = Some(String::new());
        }
        opt_as_mut(&mut self.content_type).unwrap()
    }

    /// Takes field `content_type` (its default when unset), leaving it unset.
    pub fn take_content_type(&mut self) -> (r: String)
        ensures
            r@ == chars_or_empty(old(self)@.content_type),
            final(self)@ == (MercuryReplyModel { content_type: None, ..old(self)@ }),
    {
        let mut t = None;
        std::mem::swap(&mut t, &mut self.content_type);
        match t {
            Some(v) => v,
            None => String::new(),
        }
    }

    /// Field `content_type`, or the empty string when unset.
    pub fn get_content_type(&self) -> (r: &str)
        ensures
            r@ == chars_or_empty(self@.content_type),
    {
        match &self.content_type {
            Some(v) => v.as_str(),
            None => {
                proof {
                    reveal_strlit("");
                }
                ""
            },
        }
    }

    /// Unsets field `body`.
    pub fn clear_body(&mut self)
        ensures
            final(self)@ == (MercuryReplyModel { body: None, ..old(self)@ }),
    {
        self.body = None;
    }

    /// Whether field `body` is set.
    pub fn has_body(&self) -> (r: bool)
        ensures
            r == self@.body is Some,
    {
        self.body.is_some()
    }

    /// Sets field `body` to `v`.
    pub fn set_body(&mut self, v: Vec<u8>)
        ensures
            final(self)@ == (MercuryReplyModel { body: Some(v@), ..old(self)@ }),
    {
        self.body = Some(v);
    }

    /// Field `body`, to change in place; an unset field is first set to its default.
    pub fn mut_body(&mut self) -> (r: &mut Vec<u8>)
        ensures
            r@ == bytes_or_empty(old(self)@.body),
            final(self)@ == (MercuryReplyModel { body: Some(final(r)@), ..old(self)@ }),

    {
        if self.body.is_none() {
            self.body = Some(Vec::new());
        }
        opt_as_mut(&mut self.body).unwrap()
    }

    /// Takes field `body` (its default when unset), leaving it unset.
    pub fn take_body(&mut self) -> (r: Vec<u8>)
        ensures
            r@ == bytes_or_empty(old(self)@.body),
            final(self)@ == (MercuryReplyModel { body: None, ..old(self)@ }),
    {
        let mut t = None;
        std::mem::swap(&mut t, &mut self.body);
        match t {
            Some(v) => v,
            None => Vec::new(),
        }
    }

    /// Field `body`, or no bytes when unset.
    pub fn get_body(&self) -> (r: &[u8])
        ensures
            r@ == bytes_or_empty(self@.body),
    {
        match &self.body {
            Some(v) => v.as_slice(),
            None => &[],
        }
    }

    /// Merges one field whose tag (number `f`, wire type `wt`) has been read
    /// from the bytes `s` that follow the tag; returns the number of bytes the
    /// value took.
    fn merge_field(&mut self, f: u32, wt: u32, s: &[u8], lim: u64) -> (r: Option<usize>)
        ensures
            match old(self)@.merge_field(f, wt, s@, lim as nat) {
                Some((m, k)) => r == Some(k as usize) && final(self)@ == m,
                None => r is None && final(self)@ == old(self)@.merge_field_failed(f, wt, s@, lim as nat),
            },
    {

        if f == 1 {
            if wt != WIRE_VARINT {
                return None;
            }
            match pb_read_sint32(s) {
                Some((v, k)) => {
                    self.status_code = Some(v);
                    Some(k)
                },
                None => None,
            }
        } else if f == 2 {
            if wt != WIRE_LENGTH_DELIMITED {
                return None;
            }
            match read_string(s) {
                Some((v, k)) => {
                    self.status_message = Some(v);
                    Some(k)
                },
                None => {
                    self.status_message = Some(String::new());
                    None
                },
            }
        } else if f == 3 {
            if wt != WIRE_VARINT {
                return None;
            }
            proof {
                lemma_varint_parse_len(s@);
            }
            match pb_read_raw_varint64(s) {
                Some((v, k)) => match MercuryReply_CachePolicy::from_i32((v as u32) as i32) {
                    Some(e) => {
                        self.cache_policy = Some(e);
                        Some(k)
                    },
                    None => None,
                },
                None => None,
            }
        } else if f == 4 {
            if wt != WIRE_VARINT {
                return None;
            }
            match pb_read_sint32(s) {
                Some((v, k)) => {
                    self.ttl = Some(v);
                    Some(k)
                },
                None => None,
            }
        } else if f == 5 {
            if wt != WIRE_LENGTH_DELIMITED {
                return None;
            }
            match read_bytes(s) {
                Some((v, k)) => {
                    self.etag = Some(v);
                    Some(k)
                },
                None => {
                    self.etag = Some(Vec::new());
                    None
                },
            }
        } else if f == 6 {
            if wt != WIRE_LENGTH_DELIMITED {
                return None;
            }
            match read_string(s) {
                Some((v, k)) => {
                    self.content_type = Some(v);
                    Some(k)
                },
                None => {
                    self.content_type = Some(String::new());
                    None
                },
            }
        } else if f == 7 {
            if wt != WIRE_LENGTH_DELIMITED {
                return None;
            }
            match read_bytes(s) {
                Some((v, k)) => {
                    self.body = Some(v);
                    Some(k)
                },
                None => {
                    self.body = Some(Vec::new());
                    None
                },
            }
        } else {
            match read_unknown(f, wt, s) {
                Some((Some(u), k)) => {
                    insert_unknown(field_mut(&mut self.unknown_fields), u);
                    Some(k)
                },
                Some((None, k)) => Some(k),
                None => None,
            }
        }
    }

    /// Merges all the fields that `s` holds, in order; `false` when the bytes
    /// are not a valid encoding (the message then holds what was merged so far).
    #[verifier::spinoff_prover]
    #[verifier::rlimit(50)]
    fn merge_from_slice(&mut self, s: &[u8], lim: u64) -> (ok: bool)
        ensures
            match old(self)@.merge(s@, lim as nat) {
                Some(m) => ok && final(self)@ == m,
                None => !ok && final(self)@ == old(self)@.merge_partial(s@, lim as nat),
            },
    {
        proof {
            reveal_with_fuel(MercuryReplyModel::merge, 1);
            reveal_with_fuel(MercuryReplyModel::merge_partial, 1);
        }
        let mut pos: usize = 0;
        assert(s@.skip(0) =~= s@);
        while pos < s.len()
            invariant
                pos <= s.len(),
                old(self)@.merge(s@, lim as nat) == self@.merge(s@.skip(pos as int), lim as nat),
                old(self)@.merge_partial(s@, lim as nat) == self@.merge_partial(s@.skip(pos as int), lim as nat),
            decreases s.len() - pos,
        {
            let rest = &s[pos..s.len()];
            assert(rest@ == s@.skip(pos as int));
            proof {
                reveal_with_fuel(MercuryReplyModel::merge, 1);
                reveal_with_fuel(MercuryReplyModel::merge_partial, 1);
                lemma_tag_parse_len(rest@);
            }
            match pb_read_tag_unpack(rest) {
                None => {
                    return false;
                },
                Some((f, wt, n)) => {
                    if n == 0 || n > rest.len() {
                        return false;
                    }
                    let rest2 = &rest[n..rest.len()];
                    assert(rest2@ == rest@.skip(n as int));
                    proof {
                        self@.lemma_merge_field_len(f, wt, rest2@, lim as nat);
                    }
                    match self.merge_field(f, wt, rest2, lim) {
                        None => {
                            return false;
                        },
                        Some(k) => {
                            if k > rest2.len() {
                                return false;
                            }
                            assert(rest@.skip((n + k) as int) =~= s@.skip((pos + n + k) as int));
                            pos = pos + n + k;
                        },
                    }
                },
            }
        }
        assert(s@.skip(pos as int) =~= Seq::<u8>::empty());
        proof {
            reveal_with_fuel(MercuryReplyModel::merge, 1);
        }
        true
    }

    /// The message that `s` encodes, if it is a valid encoding.
    fn parse_slice(s: &[u8], lim: u64) -> (r: Option<Self>)
        ensures
            match MercuryReplyModel::empty().merge(s@, lim as nat) {
                Some(m) => r matches Some(x) && x@ == m,
                None => r is None,
            },
    {
        let mut m = MercuryReply::new();
        if m.merge_from_slice(s, lim) {
            Some(m)
        } else {
            None
        }
    }

    /// Merges the fields that `bytes` encodes into this message, in order: a set
    /// field is replaced, a repeated field grows. On an invalid encoding the
    /// error comes back, the fields merged before the first field that could not
    /// be read stay merged, and that field is left as `merge_field_failed` says.
    pub fn merge_from_bytes(&mut self, bytes: &[u8]) -> (r: Result<(), DecodeError>)
        ensures
            match old(self)@.merge(bytes@, top_limit(bytes@.len())) {
                Some(m) => r is Ok && final(self)@ == m,
                None => r is Err && final(self)@ == old(self)@.merge_partial(bytes@, top_limit(bytes@.len())),
            },
    {
        let lim: u64 = u64::MAX - bytes.len() as u64;
        if self.merge_from_slice(bytes, lim) {
            Ok(())
        } else {
            Err(DecodeError)
        }
    }

    /// Parses a message from its encoding.
    pub fn parse_from_bytes(bytes: &[u8]) -> (r: Result<Self, DecodeError>)
        ensures
            match MercuryReplyModel::empty().merge(bytes@, top_limit(bytes@.len())) {
                Some(m) => r matches Ok(x) && x@ == m,
                None => r is Err,
            },
    {
        let lim: u64 = u64::MAX - bytes.len() as u64;
        match Self::parse_slice(bytes, lim) {
            Some(m) => Ok(m),
            None => Err(DecodeError),
        }
    }

    /// Appends the encoding of field `status_code` to `out`.
    fn write_field_status_code(&self, out: &mut Vec<u8>)
        requires
            self@.wf(),
        ensures
            final(out)@ == old(out)@ + opt_varint_field_bytes(1, match self@.status_code { Some(x) => Some(zigzag_encode32(x) as u64), None => None }),
            final(out)@ + self@.encoded_from_status_message() == old(out)@ + self@.encoded_from_status_code(),
    {
        proof {
            reveal(MercuryReplyModel::wf);
        }
        let ghost o = out@;
        let ghost m = self@;
        match self.status_code {
            Some(x) => {
                pb_write_tag(out, 1, WIRE_VARINT);
                pb_write_sint32_no_tag(out, x);
                proof {
                    lemma_concat_assoc(o, tag_bytes(1, WIRE_VARINT), varint_bytes(zigzag_encode32(x) as u64));
                }
            },
            None => {
                assert(o + Seq::<u8>::empty() =~= o);
            },
        }
        proof {
            lemma_concat_assoc(o, opt_varint_field_bytes(1, match m.status_code { Some(x) => Some(zigzag_encode32(x) as u64), None => None }), m.encoded_from_status_message());
        }
    }

    /// Appends the encoding of field `status_message` to `out`.
    fn write_field_status_message(&self, out: &mut Vec<u8>)
        requires
            self@.wf(),
        ensures
            final(out)@ == old(out)@ + opt_length_delimited_field_bytes(2, match self@.status_message { Some(c) => Some(encode_utf8(c)), None => None }),
            final(out)@ + self@.encoded_from_cache_policy() == old(out)@ + self@.encoded_from_status_message(),
    {
        proof {
            reveal(MercuryReplyModel::wf);
        }
        let ghost o = out@;
        let ghost m = self@;
        match &self.status_message {
            Some(v) => {
                pb_write_tag(out, 2, WIRE_LENGTH_DELIMITED);
                write_string_value(out, v.as_str());
                proof {
                    lemma_concat_assoc(o, tag_bytes(2, WIRE_LENGTH_DELIMITED), bytes_value_bytes(encode_utf8(v@)));
                }
            },
            None => {
                assert(o + Seq::<u8>::empty() =~= o);
            },
        }
        proof {
            lemma_concat_assoc(o, opt_length_delimited_field_bytes(2, match m.status_message { Some(c) => Some(encode_utf8(c)), None => None }), m.encoded_from_cache_policy());
        }
    }

    /// Appends the encoding of field `cache_policy` to `out`.
    fn write_field_cache_policy(&self, out: &mut Vec<u8>)
        requires
            self@.wf(),
        ensures
            final(out)@ == old(out)@ + opt_varint_field_bytes(3, match self@.cache_policy { Some(x) => Some(int32_varint(x.spec_value())), None => None }),
            final(out)@ + self@.encoded_from_ttl() == old(out)@ + self@.encoded_from_cache_policy(),
    {
        proof {
            reveal(MercuryReplyModel::wf);
        }
        let ghost o = out@;
        let ghost m = self@;
        match self.cache_policy {
            Some(x) => {
                pb_write_tag(out, 3, WIRE_VARINT);
                pb_write_raw_varint64(out, x.value() as u64);
                proof {
                    lemma_concat_assoc(o, tag_bytes(3, WIRE_VARINT), varint_bytes(int32_varint(x.spec_value())));
                }
            },
            None => {
                assert(o + Seq::<u8>::empty() =~= o);
            },
        }
        proof {
            lemma_concat_assoc(o, opt_varint_field_bytes(3, match m.cache_policy { Some(x) => Some(int32_varint(x.spec_value())), None => None }), m.encoded_from_ttl());
        }
    }

    /// Appends the encoding of field `ttl` to `out`.
    fn write_field_ttl(&self, out: &mut Vec<u8>)
        requires
            self@.wf(),
        ensures
            final(out)@ == old(out)@ + opt_varint_field_bytes(4, match self@.ttl { Some(x) => Some(zigzag_encode32(x) as u64), None => None }),
            final(out)@ + self@.encoded_from_etag() == old(out)@ + self@.encoded_from_ttl(),
    {
        proof {
            reveal(MercuryReplyModel::wf);
        }
        let ghost o = out@;
        let ghost m = self@;
        match self.ttl {
            Some(x) => {
                pb_write_tag(out, 4, WIRE_VARINT);
                pb_write_sint32_no_tag(out, x);
                proof {
                    lemma_concat_assoc(o, tag_bytes(4, WIRE_VARINT), varint_bytes(zigzag_encode32(x) as u64));
                }
            },
            None => {
                assert(o + Seq::<u8>::empty() =~= o);
            },
        }
        proof {
            lemma_concat_assoc(o, opt_varint_field_bytes(4, match m.ttl { Some(x) => Some(zigzag_encode32(x) as u64), None => None }), m.encoded_from_etag());
        }
    }

    /// Appends the encoding of field `etag` to `out`.
    fn write_field_etag(&self, out: &mut Vec<u8>)
        requires
            self@.wf(),
        ensures
            final(out)@ == old(out)@ + opt_length_delimited_field_bytes(5, self@.etag),
            final(out)@ + self@.encoded_from_content_type() == old(out)@ + self@.encoded_from_etag(),
    {
        proof {
            reveal(MercuryReplyModel::wf);
        }
        let ghost o = out@;
        let ghost m = self@;
        match &self.etag {
            Some(v) => {
                pb_write_tag(out, 5, WIRE_LENGTH_DELIMITED);
                write_bytes_value(out, v.as_slice());
                proof {
                    lemma_concat_assoc(o, tag_bytes(5, WIRE_LENGTH_DELIMITED), bytes_value_bytes(v@));
                }
            },
            None => {
                assert(o + Seq::<u8>::empty() =~= o);
            },
        }
        proof {
            lemma_concat_assoc(o, opt_length_delimited_field_bytes(5, m.etag), m.encoded_from_content_type());
        }
    }

    /// Appends the encoding of field `content_type` to `out`.
    fn write_field_content_type(&self, out: &mut Vec<u8>)
        requires
            self@.wf(),
        ensures
            final(out)@ == old(out)@ + opt_length_delimited_field_bytes(6, match self@.content_type { Some(c) => Some(encode_utf8(c)), None => None }),
            final(out)@ + self@.encoded_from_body() == old(out)@ + self@.encoded_from_content_type(),
    {
        proof {
            reveal(MercuryReplyModel::wf);
        }
        let ghost o = out@;
        let ghost m = self@;
        match &self.content_type {
            Some(v) => {
                pb_write_tag(out, 6, WIRE_LENGTH_DELIMITED);
                write_string_value(out, v.as_str());
                proof {
                    lemma_concat_assoc(o, tag_bytes(6, WIRE_LENGTH_DELIMITED), bytes_value_bytes(encode_utf8(v@)));
                }
            },
            None => {
                assert(o + Seq::<u8>::empty() =~= o);
            },
        }
        proof {
            lemma_concat_assoc(o, opt_length_delimited_field_bytes(6, match m.content_type { Some(c) => Some(encode_utf8(c)), None => None }), m.encoded_from_body());
        }
    }

    /// Appends the encoding of field `body` to `out`.
    fn write_field_body(&self, out: &mut Vec<u8>)
        requires
            self@.wf(),
        ensures
            final(out)@ == old(out)@ + opt_length_delimited_field_bytes(7, self@.body),
            final(out)@ + self@.encoded_from_unknown_fields() == old(out)@ + self@.encoded_from_body(),
    {
        proof {
            reveal(MercuryReplyModel::wf);
        }
        let ghost o = out@;
        let ghost m = self@;
        match &self.body {
            Some(v) => {
                pb_write_tag(out, 7, WIRE_LENGTH_DELIMITED);
                write_bytes_value(out, v.as_slice());
                proof {
                    lemma_concat_assoc(o, tag_bytes(7, WIRE_LENGTH_DELIMITED), bytes_value_bytes(v@));
                }
            },
            None => {
                assert(o + Seq::<u8>::empty() =~= o);
            },
        }
        proof {
            lemma_concat_assoc(o, opt_length_delimited_field_bytes(7, m.body), m.encoded_from_unknown_fields());
        }
    }

    /// Appends the fields of unknown numbers to `out`.
    fn write_unknown_fields(&self, out: &mut Vec<u8>)
        requires
            self@.wf(),
        ensures
            final(out)@ == old(out)@ + unknown_list_bytes(self@.unknown_fields),
    {
        proof {
            reveal(MercuryReplyModel::wf);
        }
        let ghost o = out@;
        let ghost m = self@;
        let mut j: usize = 0;
        assert(m.unknown_fields.subrange(0, m.unknown_fields.len() as int) =~= m.unknown_fields);
        assert(o + Seq::<u8>::empty() =~= o);
        while j < self.unknown_fields.len()
            invariant
                j <= self.unknown_fields.len(),
                self@ == m,
                m.wf(),
                o + unknown_list_bytes(m.unknown_fields) == out@ + unknown_list_bytes(m.unknown_fields.subrange(j as int, m.unknown_fields.len() as int)),
            decreases self.unknown_fields.len() - j,
        {
            proof {
                reveal(MercuryReplyModel::wf);
                lemma_unknown_list_cons(m.unknown_fields.subrange(j as int, m.unknown_fields.len() as int));
                assert(m.unknown_fields[j as int] == self.unknown_fields@[j as int]@);
                assert(m.unknown_fields.subrange(j as int, m.unknown_fields.len() as int)[0] == m.unknown_fields[j as int]);
                assert(m.unknown_fields.subrange(j as int, m.unknown_fields.len() as int).subrange(1, m.unknown_fields.len() - j) =~= m.unknown_fields.subrange(j + 1, m.unknown_fields.len() as int));
            }
            let ghost before = out@;
            write_unknown(out, &self.unknown_fields[j]);
            proof {
                lemma_concat_assoc(before, unknown_field_bytes(m.unknown_fields[j as int]), unknown_list_bytes(m.unknown_fields.subrange(j + 1, m.unknown_fields.len() as int)));
            }
            j = j + 1;
        }
        assert(m.unknown_fields.subrange(j as int, m.unknown_fields.len() as int) =~= Seq::<UnknownFieldModel>::empty());
        assert(out@ =~= o + unknown_list_bytes(m.unknown_fields));
    }

    /// Appends the encoding of the message to `out`.
    fn write_to(&self, out: &mut Vec<u8>)
        requires
            self@.wf(),
        ensures
            final(out)@ == old(out)@ + self@.to_bytes(),
    {
        proof {
            reveal(MercuryReplyModel::to_bytes);
        }
        let ghost o = out@;
        let ghost m = self@;
        assert(o + m.to_bytes() == out@ + m.encoded_from_status_code());
        self.write_field_status_code(out);
        self.write_field_status_message(out);
        self.write_field_cache_policy(out);
        self.write_field_ttl(out);
        self.write_field_etag(out);
        self.write_field_content_type(out);
        self.write_field_body(out);
        self.write_unknown_fields(out);
    }

    /// The encoding of the message.
    pub fn write_to_bytes(&self) -> (r: Vec<u8>)
        requires
            self@.wf(),
        ensures
            r@ == self@.to_bytes(),
    {
        let mut out: Vec<u8> = Vec::new();
        self.write_to(&mut out);
        assert(out@ =~= self@.to_bytes());
        out
    }

    /// The length of the encoding of the message.
    pub fn compute_size(&self) -> (r: u32)
        requires
            self@.wf(),
            self@.to_bytes().len() <= u32::MAX,
        ensures
            r == self@.to_bytes().len(),
    {
        let v = self.write_to_bytes();
        v.len() as u32
    }
    /// A copy of the message.
    pub fn clone_message(&self) -> (r: Self)
        ensures
            r@ == self@,
    {
        let status_code = self.status_code;
        let status_message = clone_opt_string(&self.status_message);
        let cache_policy = self.cache_policy;
        let ttl = self.ttl;
        let etag = clone_opt_bytes(&self.etag);
        let content_type = clone_opt_string(&self.content_type);
        let body = clone_opt_bytes(&self.body);
        let unknown_fields = clone_unknown_fields(&self.unknown_fields);
        MercuryReply { status_code, status_message, cache_policy, ttl, etag, content_type, body, unknown_fields }
    }

}

impl Clone for MercuryReply {
    fn clone(&self) -> (r: Self)
        ensures
            r@ == self@,
    {
        self.clone_message()
    }
}

impl Default for MercuryReply {
    fn default() -> (r: Self)
        ensures
            r@ == MercuryReplyModel::empty(),
    {
        MercuryReply::new()
    }
}

/// The `Header` message.
#[allow(non_snake_case)]
#[derive(Debug, PartialEq)]
pub struct Header {
    uri: Option<String>,
    content_type: Option<String>,
    method: Option<String>,
    status_code: Option<i32>,
    user_fields: Vec<UserField>,
    unknown_fields: Vec<UnknownField>,
}

/// The model of a `Header`: each field's value, `None` or empty when unset,
/// and the fields of unknown numbers, in the order they were read.
#[allow(non_snake_case)]
pub struct HeaderModel {
    pub uri: Option<Seq<char>>,
    pub content_type: Option<Seq<char>>,
    pub method: Option<Seq<char>>,
    pub status_code: Option<i32>,
    pub user_fields: Seq<UserFieldModel>,
    pub unknown_fields: Seq<UnknownFieldModel>,
}

impl View for Header {
    type V = HeaderModel;

    closed spec fn view(&self) -> HeaderModel {
        HeaderModel {
            uri: opt_view(self.uri),
            content_type: opt_view(self.content_type),
            method: opt_view(self.method),
            status_code: self.status_code,
            user_fields: UserField::seq_model(self.user_fields@),
            unknown_fields: unknown_models(self.unknown_fields@),
        }
    }
}

#[allow(non_snake_case)]
impl HeaderModel {
    /// The model of a message with no field set.
    pub open spec fn empty() -> Self {
        HeaderModel {
            uri: None,
            content_type: None,
            method: None,
            status_code: None,
            user_fields: Seq::empty(),
            unknown_fields: Seq::empty(),
        }
    }

    /// The encodings of a list of messages.
    pub open spec fn encodings(v: Seq<HeaderModel>) -> Seq<Seq<u8>> {
        v.map_values(|m: HeaderModel| m.to_bytes())
    }

    /// Every message of a list can be written, and its encoding fits a 32-bit length.
    pub open spec fn all_writable(v: Seq<HeaderModel>) -> bool {
        forall|i: int| 0 <= i < v.len() ==> #[trigger] v[i].wf() && fits_u32(v[i].to_bytes())
    }

    /// The field numbers that this message knows.
    pub open spec fn is_known_field(f: u32) -> bool {
        f == 1 || f == 2 || f == 3 || f == 4 || f == 6
    }

    /// Merging one field whose tag (number `f`, wire type `wt`) has been read;
    /// `s` holds the bytes after the tag. The result is the merged model and
    /// the number of bytes the value took; a set field is replaced, a repeated
    /// field grows, a field of unknown number is kept or, if a group, skipped.
    pub open spec fn merge_field(self, f: u32, wt: u32, s: Seq<u8>, lim: nat) -> Option<(Self, nat)> {
        if f == 1 {
            if wt != WIRE_LENGTH_DELIMITED {
                None
            } else {
                match string_parse(s) {
                    Some((c, k)) => Some((HeaderModel { uri: Some(c), ..self }, k)),
                    None => None,
                }
            }
        } else if f == 2 {
            if wt != WIRE_LENGTH_DELIMITED {
                None
            } else {
                match string_parse(s) {
                    Some((c, k)) => Some((HeaderModel { content_type: Some(c), ..self }, k)),
                    None => None,
                }
            }
        } else if f == 3 {
            if wt != WIRE_LENGTH_DELIMITED {
                None
            } else {
                match string_parse(s) {
                    Some((c, k)) => Some((HeaderModel { method: Some(c), ..self }, k)),
                    None => None,
                }
            }
        } else if f == 4 {
            if wt != WIRE_VARINT {
                None
            } else {
                match varint_parse(s) {
                    Some((v, k)) => Some((HeaderModel { status_code: Some(zigzag_decode32(v as u32)), ..self }, k)),
                    None => None,
                }
            }
        } else if f == 6 {
            if wt != WIRE_LENGTH_DELIMITED {
                None
            } else {
                match embedded_window(s, lim) {
                    Some((a, b, x)) => if 0 < a <= b <= s.len() {
                        match UserFieldModel::empty().merge(s.subrange(a as int, b as int), x) {
                            Some(x) => Some((HeaderModel { user_fields: self.user_fields.push(x), ..self }, b)),
                            None => None,
                        }
                    } else {
                        None
                    },
                    None => None,
                }
            }
        } else {
            match unknown_parse(f, wt, s) {
                Some((Some(u), k)) => Some((HeaderModel { unknown_fields: grouped_insert(self.unknown_fields, u), ..self }, k)),
                Some((None, k)) => Some((self, k)),
                None => None,
            }
        }
    }

    /// What is left of the model when merging one field (number `f`, wire type
    /// `wt`, value at the front of `s`) fails: a string, bytes or message field
    /// of the right wire type is first set to its empty value (a repeated one
    /// gets an empty element) and an embedded message keeps the fields merged
    /// into it before the failure; packed values read before the failure stay.
    pub open spec fn merge_field_failed(self, f: u32, wt: u32, s: Seq<u8>, lim: nat) -> Self {
        if f == 1 {
            if wt != WIRE_LENGTH_DELIMITED {
                self
            } else {
                HeaderModel { uri: Some(Seq::<char>::empty()), ..self }
            }
        } else if f == 2 {
            if wt != WIRE_LENGTH_DELIMITED {
                self
            } else {
                HeaderModel { content_type: Some(Seq::<char>::empty()), ..self }
            }
        } else if f == 3 {
            if wt != WIRE_LENGTH_DELIMITED {
                self
            } else {
                HeaderModel { method: Some(Seq::<char>::empty()), ..self }
            }
        } else if f == 6 {
            if wt != WIRE_LENGTH_DELIMITED {
                self
            } else {
                match embedded_window(s, lim) {
                    Some((a, b, x)) => if 0 < a <= b <= s.len() {
                        HeaderModel { user_fields: self.user_fields.push(UserFieldModel::empty().merge_partial(s.subrange(a as int, b as int), x)), ..self }
                    } else {
                        HeaderModel { user_fields: self.user_fields.push(UserFieldModel::empty()), ..self }
                    },
                    None => HeaderModel { user_fields: self.user_fields.push(UserFieldModel::empty()), ..self },
                }
            }
        } else {
            self
        }
    }

    /// The value of a merged field takes no more than the bytes after its tag.
    pub proof fn lemma_merge_field_len(self, f: u32, wt: u32, s: Seq<u8>, lim: nat)
        ensures
            self.merge_field(f, wt, s, lim) matches Some((_m, k)) ==> k <= s.len(),
    {
        lemma_varint_parse_len(s);
        crate::wire::lemma_unknown_parse_len(f, wt, s);
    }

    /// Merging all the fields that `s` holds, in order, where the length of an
    /// embedded message may reach `lim` bytes past the end of `s` (such a message
    /// is read up to the end of `s`).
    #[verifier::opaque]
    pub open spec fn merge(self, s: Seq<u8>, lim: nat) -> Option<Self>
        decreases s.len(),
    {
        if s.len() == 0 {
            Some(self)
        } else {
            match tag_parse(s) {
                Some((f, wt, n)) => if 0 < n <= s.len() {
                    match self.merge_field(f, wt, s.skip(n as int), lim) {
                        Some((m, k)) => if n + k <= s.len() {
                            m.merge(s.skip((n + k) as int), lim)
                        } else {
                            None
                        },
                        None => None,
                    }
                } else {
                    None
                },
                None => None,
            }
        }
    }

    /// What merging `s` leaves: the fields merged in order up to the first one
    /// whose tag or value cannot be read, then what `merge_field_failed` leaves of
    /// that one; all of `s` where it is a valid encoding.
    #[verifier::opaque]
    pub open spec fn merge_partial(self, s: Seq<u8>, lim: nat) -> Self
        decreases s.len(),
    {
        if s.len() == 0 {
            self
        } else {
            match tag_parse(s) {
                Some((f, wt, n)) => if 0 < n <= s.len() {
                    match self.merge_field(f, wt, s.skip(n as int), lim) {
                        Some((m, k)) => if n + k <= s.len() {
                            m.merge_partial(s.skip((n + k) as int), lim)
                        } else {
                            m
                        },
                        None => self.merge_field_failed(f, wt, s.skip(n as int), lim),
                    }
                } else {
                    self
                },
                None => self,
            }
        }
    }

    /// The encoding of field `uri` and of every field written after it.
    pub open spec fn encoded_from_uri(self) -> Seq<u8> {
        opt_length_delimited_field_bytes(1, match self.uri { Some(c) => Some(encode_utf8(c)), None => None }) + self.encoded_from_content_type()
    }

    /// The encoding of field `content_type` and of every field written after it.
    pub open spec fn encoded_from_content_type(self) -> Seq<u8> {
        opt_length_delimited_field_bytes(2, match self.content_type { Some(c) => Some(encode_utf8(c)), None => None }) + self.encoded_from_method()
    }

    /// The encoding of field `method` and of every field written after it.
    pub open spec fn encoded_from_method(self) -> Seq<u8> {
        opt_length_delimited_field_bytes(3, match self.method { Some(c) => Some(encode_utf8(c)), None => None }) + self.encoded_from_status_code()
    }

    /// The encoding of field `status_code` and of every field written after it.
    pub open spec fn encoded_from_status_code(self) -> Seq<u8> {
        opt_varint_field_bytes(4, match self.status_code { Some(x) => Some(zigzag_encode32(x) as u64), None => None }) + self.encoded_from_user_fields()
    }

    /// The encoding of field `user_fields` and of every field written after it.
    pub open spec fn encoded_from_user_fields(self) -> Seq<u8> {
        length_delimited_list_bytes(6, UserFieldModel::encodings(self.user_fields)) + self.encoded_from_unknown_fields()
    }

    /// The encoding of the fields of unknown numbers, written last.
    pub open spec fn encoded_from_unknown_fields(self) -> Seq<u8> {
        unknown_list_bytes(self.unknown_fields)
    }

    /// The encoding of the message: its set fields in order of declaration,
    /// each element of a repeated field in order, then the unknown fields.
    #[verifier::opaque]
    pub open spec fn to_bytes(self) -> Seq<u8> {
        self.encoded_from_uri()
    }

    /// A model that can be written and read back: every length fits the
    /// 32-bit length prefix, nested messages can be written, and the unknown
    /// fields have valid numbers that this message does not know.
    #[verifier::opaque]
    pub open spec fn wf(self) -> bool {
        &&& (self.uri matches Some(c) ==> fits_u32(encode_utf8(c)))
        &&& (self.content_type matches Some(c) ==> fits_u32(encode_utf8(c)))
        &&& (self.method matches Some(c) ==> fits_u32(encode_utf8(c)))
        &&& UserFieldModel::all_writable(self.user_fields)
        &&& (forall|i: int| 0 <= i < self.unknown_fields.len() ==> unknown_field_wf(#[trigger] self.unknown_fields[i]) && !Self::is_known_field(self.unknown_fields[i].number))
        &&& unknown_grouped(self.unknown_fields)
    }

    /// The message with no field set can be written and read back.
    pub proof fn lemma_empty_wf()
        ensures
            Self::empty().wf(),
    {
        reveal_with_fuel(HeaderModel::wf, 1);
        lemma_grouped_empty();
    }

    /// Merging a field's tag and value, whatever follows them.
    pub proof fn lemma_merge_step(acc: Self, f: u32, wt: u32, t: Seq<u8>, b: Seq<u8>, rest: Seq<u8>, acc2: Self, lim: nat)
        requires
            tag_parse(t + (b + rest)) == Some((f, wt, t.len())),
            t.len() > 0,
            acc.merge_field(f, wt, b + rest, lim) == Some((acc2, b.len())),
        ensures
            acc.merge(t + (b + rest), lim) == acc2.merge(rest, lim),
    {
        reveal_with_fuel(HeaderModel::merge, 1);
        lemma_skip_chunk(t, b, rest);
    }

    /// Merging the encoding of field `uri` sets it, whatever follows.
    pub proof fn lemma_merge_uri(acc: Self, v: Option<Seq<char>>, rest: Seq<u8>, lim: nat)
        requires
            (v matches Some(c) ==> fits_u32(encode_utf8(c))),
        ensures
            acc.merge(opt_length_delimited_field_bytes(1, match v { Some(c) => Some(encode_utf8(c)), None => None }) + rest, lim) == (HeaderModel { uri: if v is Some { v } else { acc.uri }, ..acc }).merge(rest, lim),
    {
        match v {
            None => {
                assert(opt_length_delimited_field_bytes(1, match v { Some(c) => Some(encode_utf8(c)), None => None }) + rest =~= rest);
                assert((HeaderModel { uri: acc.uri, ..acc }) == acc);
            },
            Some(x) => {
                let t = tag_bytes(1, WIRE_LENGTH_DELIMITED);
                let b = bytes_value_bytes(encode_utf8(x));
                assert(opt_length_delimited_field_bytes(1, match v { Some(c) => Some(encode_utf8(c)), None => None }) + rest =~= t + (b + rest));
                lemma_tag_roundtrip(1, WIRE_LENGTH_DELIMITED, b + rest);
                lemma_string_roundtrip(x, rest);
                Self::lemma_merge_step(acc, 1, WIRE_LENGTH_DELIMITED, t, b, rest, HeaderModel { uri: v, ..acc }, lim);
            },
        }
    }

    /// Merging the encoding of field `content_type` sets it, whatever follows.
    pub proof fn lemma_merge_content_type(acc: Self, v: Option<Seq<char>>, rest: Seq<u8>, lim: nat)
        requires
            (v matches Some(c) ==> fits_u32(encode_utf8(c))),
        ensures
            acc.merge(opt_length_delimited_field_bytes(2, match v { Some(c) => Some(encode_utf8(c)), None => None }) + rest, lim) == (HeaderModel { content_type: if v is Some { v } else { acc.content_type }, ..acc }).merge(rest, lim),
    {
        match v {
            None => {
                assert(opt_length_delimited_field_bytes(2, match v { Some(c) => Some(encode_utf8(c)), None => None }) + rest =~= rest);
                assert((HeaderModel { content_type: acc.content_type, ..acc }) == acc);
            },
            Some(x) => {
                let t = tag_bytes(2, WIRE_LENGTH_DELIMITED);
                let b = bytes_value_bytes(encode_utf8(x));
                assert(opt_length_delimited_field_bytes(2, match v { Some(c) => Some(encode_utf8(c)), None => None }) + rest =~= t + (b + rest));
                lemma_tag_roundtrip(2, WIRE_LENGTH_DELIMITED, b + rest);
                lemma_string_roundtrip(x, rest);
                Self::lemma_merge_step(acc, 2, WIRE_LENGTH_DELIMITED, t, b, rest, HeaderModel { content_type: v, ..acc }, lim);
            },
        }
    }

    /// Merging the encoding of field `method` sets it, whatever follows.
    pub proof fn lemma_merge_method(acc: Self, v: Option<Seq<char>>, rest: Seq<u8>, lim: nat)
        requires
            (v matches Some(c) ==> fits_u32(encode_utf8(c))),
        ensures
            acc.merge(opt_length_delimited_field_bytes(3, match v { Some(c) => Some(encode_utf8(c)), None => None }) + rest, lim) == (HeaderModel { method: if v is Some { v } else { acc.method }, ..acc }).merge(rest, lim),
    {
        match v {
            None => {
                assert(opt_length_delimited_field_bytes(3, match v { Some(c) => Some(encode_utf8(c)), None => None }) + rest =~= rest);
                assert((HeaderModel { method: acc.method, ..acc }) == acc);
            },
            Some(x) => {
                let t = tag_bytes(3, WIRE_LENGTH_DELIMITED);
                let b = bytes_value_bytes(encode_utf8(x));
                assert(opt_length_delimited_field_bytes(3, match v { Some(c) => Some(encode_utf8(c)), None => None }) + rest =~= t + (b + rest));
                lemma_tag_roundtrip(3, WIRE_LENGTH_DELIMITED, b + rest);
                lemma_string_roundtrip(x, rest);
                Self::lemma_merge_step(acc, 3, WIRE_LENGTH_DELIMITED, t, b, rest, HeaderModel { method: v, ..acc }, lim);
            },
        }
    }

    /// Merging the encoding of field `status_code` sets it, whatever follows.
    pub proof fn lemma_merge_status_code(acc: Self, v: Option<i32>, rest: Seq<u8>, lim: nat)
        ensures
            acc.merge(opt_varint_field_bytes(4, match v { Some(x) => Some(zigzag_encode32(x) as u64), None => None }) + rest, lim) == (HeaderModel { status_code: if v is Some { v } else { acc.status_code }, ..acc }).merge(rest, lim),
    {
        match v {
            None => {
                assert(opt_varint_field_bytes(4, match v { Some(x) => Some(zigzag_encode32(x) as u64), None => None }) + rest =~= rest);
                assert((HeaderModel { status_code: acc.status_code, ..acc }) == acc);
            },
            Some(x) => {
                let t = tag_bytes(4, WIRE_VARINT);
                let b = varint_bytes(zigzag_encode32(x) as u64);
                assert(opt_varint_field_bytes(4, match v { Some(x) => Some(zigzag_encode32(x) as u64), None => None }) + rest =~= t + (b + rest));
                lemma_tag_roundtrip(4, WIRE_VARINT, b + rest);
                lemma_varint_roundtrip(zigzag_encode32(x) as u64, rest);
                    lemma_varint_casts(0, 0, 0, false, x);
                    crate::wire::lemma_zigzag_roundtrip(x);
                Self::lemma_merge_step(acc, 4, WIRE_VARINT, t, b, rest, HeaderModel { status_code: v, ..acc }, lim);
            },
        }
    }

    /// Merging the encoding of the elements of field `user_fields` appends them, whatever follows.
    #[verifier::rlimit(50)]
    pub proof fn lemma_merge_user_fields(acc: Self, v: Seq<UserFieldModel>, rest: Seq<u8>, lim: nat)
        requires
            UserFieldModel::all_writable(v),
        ensures
            acc.merge(length_delimited_list_bytes(6, UserFieldModel::encodings(v)) + rest, lim) == (HeaderModel { user_fields: acc.user_fields + v, ..acc }).merge(rest, lim),
        decreases v.len(),
    {
        let w = UserFieldModel::encodings(v);
        if v.len() == 0 {
            assert(length_delimited_list_bytes(6, w) + rest =~= rest);
            assert(acc.user_fields + v =~= acc.user_fields);
            assert((HeaderModel { user_fields: acc.user_fields + v, ..acc }) == acc);
        } else {
            lemma_length_delimited_list_cons(6, w);
            assert(v[0].wf() && fits_u32(v[0].to_bytes()));
            let t = tag_bytes(6, WIRE_LENGTH_DELIMITED);
            let b = bytes_value_bytes(w[0]);
            let tail = length_delimited_list_bytes(6, w.subrange(1, w.len() as int));
            assert(length_delimited_list_bytes(6, w) + rest =~= t + (b + (tail + rest)));
            lemma_tag_roundtrip(6, WIRE_LENGTH_DELIMITED, b + (tail + rest));
            lemma_message_window(v[0].to_bytes(), tail + rest);
            lemma_embedded_window(v[0].to_bytes(), tail + rest, lim);
            v[0].lemma_roundtrip(0);
            lemma_varint_parse_len(b + (tail + rest));
            let acc1 = HeaderModel { user_fields: acc.user_fields.push(v[0]), ..acc };
            Self::lemma_merge_step(acc, 6, WIRE_LENGTH_DELIMITED, t, b, tail + rest, acc1, lim);
            assert(w.subrange(1, w.len() as int) =~= UserFieldModel::encodings(v.subrange(1, v.len() as int)));
            assert forall|j: int| 0 <= j < v.len() - 1 implies #[trigger] v.subrange(1, v.len() as int)[j].wf() && fits_u32(v.subrange(1, v.len() as int)[j].to_bytes()) by {
                assert(v.subrange(1, v.len() as int)[j] == v[j + 1]);
            }
            Self::lemma_merge_user_fields(acc1, v.subrange(1, v.len() as int), rest, lim);
            assert(acc1.user_fields + v.subrange(1, v.len() as int) =~= acc.user_fields + v);
        }
    }

    /// Merging the encoding of fields of unknown numbers keeps them, whatever follows.
    #[verifier::rlimit(50)]
    pub proof fn lemma_merge_unknown_fields(acc: Self, v: Seq<UnknownFieldModel>, rest: Seq<u8>, lim: nat)
        requires
            forall|i: int| 0 <= i < v.len() ==> unknown_field_wf(#[trigger] v[i]) && !Self::is_known_field(v[i].number),
            unknown_grouped(acc.unknown_fields + v),
        ensures
            acc.merge(unknown_list_bytes(v) + rest, lim) == (HeaderModel { unknown_fields: acc.unknown_fields + v, ..acc }).merge(rest, lim),
        decreases v.len(),
    {
        if v.len() == 0 {
            assert(unknown_list_bytes(v) + rest =~= rest);
            assert(acc.unknown_fields + v =~= acc.unknown_fields);
            assert((HeaderModel { unknown_fields: acc.unknown_fields + v, ..acc }) == acc);
        } else {
            lemma_unknown_list_cons(v);
            let u = v[0];
            let wt = crate::wire::unknown_wire_type(u.value);
            let t = tag_bytes(u.number, wt);
            let b = crate::wire::unknown_value_bytes(u.value);
            let tail = unknown_list_bytes(v.subrange(1, v.len() as int));
            assert(unknown_list_bytes(v) + rest =~= t + (b + (tail + rest)));
            assert(unknown_field_bytes(u) + (tail + rest) =~= t + (b + (tail + rest)));
            lemma_unknown_roundtrip(u, tail + rest);
            assert((t + (b + (tail + rest))).skip(t.len() as int) =~= b + (tail + rest));
            crate::wire::lemma_tag_roundtrip(u.number, wt, b + (tail + rest));
            let acc1 = HeaderModel { unknown_fields: acc.unknown_fields.push(u), ..acc };
            assert(acc.unknown_fields.push(u) =~= (acc.unknown_fields + v).take(acc.unknown_fields.len() + 1int));
            lemma_grouped_take(acc.unknown_fields + v, acc.unknown_fields.len() + 1int);
            lemma_grouped_insert_last(acc.unknown_fields, u);
            Self::lemma_merge_step(acc, u.number, wt, t, b, tail + rest, acc1, lim);
            assert(acc1.unknown_fields + v.subrange(1, v.len() as int) =~= acc.unknown_fields + v);
            Self::lemma_merge_unknown_fields(acc1, v.subrange(1, v.len() as int), rest, lim);
        }
    }

    /// Reading back the encoding of a model that can be written gives the model,
    /// whatever the limit past its end.
    #[verifier::spinoff_prover]
    #[verifier::rlimit(100)]
    pub proof fn lemma_roundtrip(self, lim: nat)
        requires
            self.wf(),
        ensures
            HeaderModel::empty().merge(self.to_bytes(), lim) == Some(self),
    {
        reveal(HeaderModel::to_bytes);
        reveal(HeaderModel::wf);
        reveal_with_fuel(HeaderModel::merge, 1);
        let a0 = HeaderModel::empty();
        assert((self.uri matches Some(c) ==> fits_u32(encode_utf8(c))));
        Self::lemma_merge_uri(a0, self.uri, self.encoded_from_content_type(), lim);
        let a1 = HeaderModel { uri: if self.uri is Some { self.uri } else { a0.uri }, ..a0 };
        assert((self.content_type matches Some(c) ==> fits_u32(encode_utf8(c))));
        Self::lemma_merge_content_type(a1, self.content_type, self.encoded_from_method(), lim);
        let a2 = HeaderModel { content_type: if self.content_type is Some { self.content_type } else { a1.content_type }, ..a1 };
        assert((self.method matches Some(c) ==> fits_u32(encode_utf8(c))));
        Self::lemma_merge_method(a2, self.method, self.encoded_from_status_code(), lim);
        let a3 = HeaderModel { method: if self.method is Some { self.method } else { a2.method }, ..a2 };
        Self::lemma_merge_status_code(a3, self.status_code, self.encoded_from_user_fields(), lim);
        let a4 = HeaderModel { status_code: if self.status_code is Some { self.status_code } else { a3.status_code }, ..a3 };
        assert(UserFieldModel::all_writable(self.user_fields));
        Self::lemma_merge_user_fields(a4, self.user_fields, self.encoded_from_unknown_fields(), lim);
        let a5 = HeaderModel { user_fields: a4.user_fields + self.user_fields, ..a4 };
        assert(a5.unknown_fields + self.unknown_fields =~= self.unknown_fields);
        Self::lemma_merge_unknown_fields(a5, self.unknown_fields, Seq::empty(), lim);
        assert(unknown_list_bytes(self.unknown_fields) + Seq::<u8>::empty() =~= unknown_list_bytes(self.unknown_fields));
        let last = HeaderModel { unknown_fields: a5.unknown_fields + self.unknown_fields, ..a5 };
        assert(last.user_fields =~= self.user_fields);
        assert(last.unknown_fields =~= self.unknown_fields);
        assert(last == self);
    }
    /// A message whose only set field is `uri` is written as field number 1 of the
    /// protocol's definition alone: the tag of that number with the wire type of the field,
    /// then the value.
    pub proof fn lemma_encoding_of_uri(v: Option<Seq<char>>)
        ensures
            (HeaderModel { uri: v, ..HeaderModel::empty() }).to_bytes() == opt_length_delimited_field_bytes(1, match v { Some(c) => Some(encode_utf8(c)), None => None }),
    {
        reveal(HeaderModel::to_bytes);
        let m = HeaderModel { uri: v, ..HeaderModel::empty() };
        assert(m.to_bytes() =~= opt_length_delimited_field_bytes(1, match v { Some(c) => Some(encode_utf8(c)), None => None }));
    }

    /// A message whose only set field is `content_type` is written as field number 2 of the
    /// protocol's definition alone: the tag of that number with the wire type of the field,
    /// then the value.
    pub proof fn lemma_encoding_of_content_type(v: Option<Seq<char>>)
        ensures
            (HeaderModel { content_type: v, ..HeaderModel::empty() }).to_bytes() == opt_length_delimited_field_bytes(2, match v { Some(c) => Some(encode_utf8(c)), None => None }),
    {
        reveal(HeaderModel::to_bytes);
        let m = HeaderModel { content_type: v, ..HeaderModel::empty() };
        assert(m.to_bytes() =~= opt_length_delimited_field_bytes(2, match v { Some(c) => Some(encode_utf8(c)), None => None }));
    }

    /// A message whose only set field is `method` is written as field number 3 of the
    /// protocol's definition alone: the tag of that number with the wire type of the field,
    /// then the value.
    pub proof fn lemma_encoding_of_method(v: Option<Seq<char>>)
        ensures
            (HeaderModel { method: v, ..HeaderModel::empty() }).to_bytes() == opt_length_delimited_field_bytes(3, match v { Some(c) => Some(encode_utf8(c)), None => None }),
    {
        reveal(HeaderModel::to_bytes);
        let m = HeaderModel { method: v, ..HeaderModel::empty() };
        assert(m.to_bytes() =~= opt_length_delimited_field_bytes(3, match v { Some(c) => Some(encode_utf8(c)), None => None }));
    }

    /// A message whose only set field is `status_code` is written as field number 4 of the
    /// protocol's definition alone: the tag of that number with the wire type of the field,
    /// then the value.
    pub proof fn lemma_encoding_of_status_code(v: Option<i32>)
        ensures
            (HeaderModel { status_code: v, ..HeaderModel::empty() }).to_bytes() == opt_varint_field_bytes(4, match v { Some(x) => Some(zigzag_encode32(x) as u64), None => None }),
    {
        reveal(HeaderModel::to_bytes);
        let m = HeaderModel { status_code: v, ..HeaderModel::empty() };
        assert(m.to_bytes() =~= opt_varint_field_bytes(4, match v { Some(x) => Some(zigzag_encode32(x) as u64), None => None }));
    }

    /// A message whose only set field is `user_fields` is written as field number 6 of the
    /// protocol's definition alone: the tag of that number with the wire type of the field,
    /// then the value.
    pub proof fn lemma_encoding_of_user_fields(v: Seq<UserFieldModel>)
        ensures
            (HeaderModel { user_fields: v, ..HeaderModel::empty() }).to_bytes() == length_delimited_list_bytes(6, UserFieldModel::encodings(v)),
    {
        reveal(HeaderModel::to_bytes);
        let m = HeaderModel { user_fields: v, ..HeaderModel::empty() };
        assert(m.to_bytes() =~= length_delimited_list_bytes(6, UserFieldModel::encodings(v)));
    }

}

#[allow(non_snake_case)]
impl Header {
    /// The models of a list of messages.
    pub open spec fn seq_model(v: Seq<Header>) -> Seq<HeaderModel> {
        v.map_values(|m: Header| m@)
    }

    /// A message with no field set.
    pub fn new() -> (r: Self)
        ensures
            r@ == HeaderModel::empty(),
            r@.wf(),
    {
        let r = Header {
            uri: None,
            content_type: None,
            method: None,
            status_code: None,
            user_fields: Vec::new(),
            unknown_fields: Vec::new(),
        };
        assert(UserField::seq_model(r.user_fields@) =~= Seq::<UserFieldModel>::empty());
        assert(unknown_models(r.unknown_fields@) =~= Seq::<UnknownFieldModel>::empty());
        proof {
            HeaderModel::lemma_empty_wf();
        }
        r
    }

    /// Unsets field `uri`.
    pub fn clear_uri(&mut self)
        ensures
            final(self)@ == (HeaderModel { uri: None, ..old(self)@ }),
    {
        self.uri = None;
    }

    /// Whether field `uri` is set.
    pub fn has_uri(&self) -> (r: bool)
        ensures
            r == self@.uri is Some,
    {
        self.uri.is_some()
    }

    /// Sets field `uri` to `v`.
    pub fn set_uri(&mut self, v: String)
        ensures
            final(self)@ == (HeaderModel { uri: Some(v@), ..old(self)@ }),
    {
        self.uri = Some(v);
    }

    /// Field `uri`, to change in place; an unset field is first set to its default.
    pub fn mut_uri(&mut self) -> (r: &mut String)
        ensures
            r@ == chars_or_empty(old(self)@.uri),
            final(self)@ == (HeaderModel { uri: Some(final(r)@), ..old(self)@ }),

    {
        if self.uri.is_none() {
            self.uri = Some(String::new());
        }
        opt_as_mut(&mut self.uri).unwrap()
    }

    /// Takes field `uri` (its default when unset), leaving it unset.
    pub fn take_uri(&mut self) -> (r: String)
        ensures
            r@ == chars_or_empty(old(self)@.uri),
            final(self)@ == (HeaderModel { uri: None, ..old(self)@ }),
    {
        let mut t = None;
        std::mem::swap(&mut t, &mut self.uri);
        match t {
            Some(v) => v,
            None => String::new(),
        }
    }

    /// Field `uri`, or the empty string when unset.
    pub fn get_uri(&self) -> (r: &str)
        ensures
            r@ == chars_or_empty(self@.uri),
    {
        match &self.uri {
            Some(v) => v.as_str(),
            None => {
                proof {
                    reveal_strlit("");
                }
                ""
            },
        }
    }

    /// Unsets field `content_type`.
    pub fn clear_content_type(&mut self)
        ensures
            final(self)@ == (HeaderModel { content_type: None, ..old(self)@ }),
    {
        self.content_type = None;
    }

    /// Whether field `content_type` is set.
    pub fn has_content_type(&self) -> (r: bool)
        ensures
            r == self@.content_type is Some,
    {
        self.content_type.is_some()
    }

    /// Sets field `content_type` to `v`.
    pub fn set_content_type(&mut self, v: String)
        ensures
            final(self)@ == (HeaderModel { content_type: Some(v@), ..old(self)@ }),
    {
        self.content_type = Some(v);
    }

    /// Field `content_type`, to change in place; an unset field is first set to its default.
    pub fn mut_content_type(&mut self) -> (r: &mut String)
        ensures
            r@ == chars_or_empty(old(self)@.content_type),
            final(self)@ == (HeaderModel { content_type: Some(final(r)@), ..old(self)@ }),

    {
        if self.content_type.is_none() {
            self.content_type = Some(String::new());
        }
        opt_as_mut(&mut self.content_type).unwrap()
    }

    /// Takes field `content_type` (its default when unset), leaving it unset.
    pub fn take_content_type(&mut self) -> (r: String)
        ensures
            r@ == chars_or_empty(old(self)@.content_type),
            final(self)@ == (HeaderModel { content_type: None, ..old(self)@ }),
    {
        let mut t = None;
        std::mem::swap(&mut t, &mut self.content_type);
        match t {
            Some(v) => v,
            None => String::new(),
        }
    }

    /// Field `content_type`, or the empty string when unset.
    pub fn get_content_type(&self) -> (r: &str)
        ensures
            r@ == chars_or_empty(self@.content_type),
    {
        match &self.content_type {
            Some(v) => v.as_str(),
            None => {
                proof {
                    reveal_strlit("");
                }
                ""
            },
        }
    }

    /// Unsets field `method`.
    pub fn clear_method(&mut self)
        ensures
            final(self)@ == (HeaderModel { method: None, ..old(self)@ }),
    {
        self.method = None;
    }

    /// Whether field `method` is set.
    pub fn has_method(&self) -> (r: bool)
        ensures
            r == self@.method is Some,
    {
        self.method.is_some()
    }

    /// Sets field `method` to `v`.
    pub fn set_method(&mut self, v: String)
        ensures
            final(self)@ == (HeaderModel { method: Some(v@), ..old(self)@ }),
    {
        self.method = Some(v);
    }

    /// Field `method`, to change in place; an unset field is first set to its default.
    pub fn mut_method(&mut self) -> (r: &mut String)
        ensures
            r@ == chars_or_empty(old(self)@.method),
            final(self)@ == (HeaderModel { method: Some(final(r)@), ..old(self)@ }),

    {
        if self.method.is_none() {
            self.method = Some(String::new());
        }
        opt_as_mut(&mut self.method).unwrap()
    }

    /// Takes field `method` (its default when unset), leaving it unset.
    pub fn take_method(&mut self) -> (r: String)
        ensures
            r@ == chars_or_empty(old(self)@.method),
            final(self)@ == (HeaderModel { method: None, ..old(self)@ }),
    {
        let mut t = None;
        std::mem::swap(&mut t, &mut self.method);
        match t {
            Some(v) => v,
            None => String::new(),
        }
    }

    /// Field `method`, or the empty string when unset.
    pub fn get_method(&self) -> (r: &str)
        ensures
            r@ == chars_or_empty(self@.method),
    {
        match &self.method {
            Some(v) => v.as_str(),
            None => {
                proof {
                    reveal_strlit("");
                }
                ""
            },
        }
    }

    /// Unsets field `status_code`.
    pub fn clear_status_code(&mut self)
        ensures
            final(self)@ == (HeaderModel { status_code: None, ..old(self)@ }),
    {
        self.status_code = None;
    }

    /// Whether field `status_code` is set.
    pub fn has_status_code(&self) -> (r: bool)
        ensures
            r == self@.status_code is Some,
    {
        self.status_code.is_some()
    }

    /// Sets field `status_code` to `v`.
    pub fn set_status_code(&mut self, v: i32)
        ensures
            final(self)@ == (HeaderModel { status_code: Some(v), ..old(self)@ }),
    {
        self.status_code = Some(v);
    }

    /// Field `status_code`, or `0` when unset.
    pub fn get_status_code(&self) -> (r: i32)
        ensures
            r == (match self@.status_code { Some(x) => x, None => 0i32 }),
    {
        match self.status_code {
            Some(x) => x,
            None => 0i32,
        }
    }

    /// Empties field `user_fields`.
    pub fn clear_user_fields(&mut self)
        ensures
            final(self)@ == (HeaderModel { user_fields: Seq::empty(), ..old(self)@ }),
    {
        self.user_fields = Vec::new();
        assert(UserField::seq_model(self.user_fields@) =~= Seq::<UserFieldModel>::empty());
    }

    /// Sets field `user_fields` to the elements of `v`.
    pub fn set_user_fields(&mut self, v: Vec<UserField>)
        ensures
            final(self)@ == (HeaderModel { user_fields: UserField::seq_model(v@), ..old(self)@ }),
    {
        self.user_fields = v;
    }

    /// The elements of field `user_fields`, to change in place.
    pub fn mut_user_fields(&mut self) -> (r: &mut Vec<UserField>)
        ensures
            UserField::seq_model(r@) == old(self)@.user_fields,
            final(self)@ == (HeaderModel { user_fields: UserField::seq_model(final(r)@), ..old(self)@ }),
    {
        field_mut(&mut self.user_fields)
    }

    /// Takes the elements of field `user_fields`, leaving it empty.
    pub fn take_user_fields(&mut self) -> (r: Vec<UserField>)
        ensures
            UserField::seq_model(r@) == old(self)@.user_fields,
            final(self)@ == (HeaderModel { user_fields: Seq::empty(), ..old(self)@ }),
    {
        let mut r = Vec::new();
        std::mem::swap(&mut r, &mut self.user_fields);
        assert(UserField::seq_model(self.user_fields@) =~= Seq::<UserFieldModel>::empty());
        r
    }

    /// The elements of field `user_fields`.
    pub fn get_user_fields(&self) -> (r: &[UserField])
        ensures
            UserField::seq_model(r@) == self@.user_fields,
    {
        self.user_fields.as_slice()
    }

    /// Merges one field whose tag (number `f`, wire type `wt`) has been read
    /// from the bytes `s` that follow the tag; returns the number of bytes the
    /// value took.
    fn merge_field(&mut self, f: u32, wt: u32, s: &[u8], lim: u64) -> (r: Option<usize>)
        ensures
            match old(self)@.merge_field(f, wt, s@, lim as nat) {
                Some((m, k)) => r == Some(k as usize) && final(self)@ == m,
                None => r is None && final(self)@ == old(self)@.merge_field_failed(f, wt, s@, lim as nat),
            },
    {

        if f == 1 {
            if wt != WIRE_LENGTH_DELIMITED {
                return None;
            }
            match read_string(s) {
                Some((v, k)) => {
                    self.uri = Some(v);
                    Some(k)
                },
                None => {
                    self.uri = Some(String::new());
                    None
                },
            }
        } else if f == 2 {
            if wt != WIRE_LENGTH_DELIMITED {
                return None;
            }
            match read_string(s) {
                Some((v, k)) => {
                    self.content_type = Some(v);
                    Some(k)
                },
                None => {
                    self.content_type = Some(String::new());
                    None
                },
            }
        } else if f == 3 {
            if wt != WIRE_LENGTH_DELIMITED {
                return None;
            }
            match read_string(s) {
                Some((v, k)) => {
                    self.method = Some(v);
                    Some(k)
                },
                None => {
                    self.method = Some(String::new());
                    None
                },
            }
        } else if f == 4 {
            if wt != WIRE_VARINT {
                return None;
            }
            match pb_read_sint32(s) {
                Some((v, k)) => {
                    self.status_code = Some(v);
                    Some(k)
                },
                None => None,
            }
        } else if f == 6 {
            if wt != WIRE_LENGTH_DELIMITED {
                return None;
            }
            match read_embedded_window(s, lim) {
                Some((a, b, past)) => {
                    if a == 0 || a > b || b > s.len() {
                        let x = UserField::new();
                        let ghost old_v = self.user_fields@;
                        field_mut(&mut self.user_fields).push(x);
                        assert(UserField::seq_model(self.user_fields@) =~= UserField::seq_model(old_v).push(self.user_fields@.last()@));
                        return None;
                    }
                    let sub = &s[a..b];
                    let mut x = UserField::new();
                    let ok = x.merge_from_slice(sub, past);
                    let ghost old_v = self.user_fields@;
                    field_mut(&mut self.user_fields).push(x);
                    assert(UserField::seq_model(self.user_fields@) =~= UserField::seq_model(old_v).push(self.user_fields@.last()@));
                    if ok {
                        Some(b)
                    } else {
                        None
                    }
                },
                None => {
                    let x = UserField::new();
                    let ghost old_v = self.user_fields@;
                    field_mut(&mut self.user_fields).push(x);
                    assert(UserField::seq_model(self.user_fields@) =~= UserField::seq_model(old_v).push(self.user_fields@.last()@));
                    None
                },
            }
        } else {
            match read_unknown(f, wt, s) {
                Some((Some(u), k)) => {
                    insert_unknown(field_mut(&mut self.unknown_fields), u);
                    Some(k)
                },
                Some((None, k)) => Some(k),
                None => None,
            }
        }
    }

    /// Merges all the fields that `s` holds, in order; `false` when the bytes
    /// are not a valid encoding (the message then holds what was merged so far).
    #[verifier::spinoff_prover]
    #[verifier::rlimit(50)]
    fn merge_from_slice(&mut self, s: &[u8], lim: u64) -> (ok: bool)
        ensures
            match old(self)@.merge(s@, lim as nat) {
                Some(m) => ok && final(self)@ == m,
                None => !ok && final(self)@ == old(self)@.merge_partial(s@, lim as nat),
            },
    {
        proof {
            reveal_with_fuel(HeaderModel::merge, 1);
            reveal_with_fuel(HeaderModel::merge_partial, 1);
        }
        let mut pos: usize = 0;
        assert(s@.skip(0) =~= s@);
        while pos < s.len()
            invariant
                pos <= s.len(),
                old(self)@.merge(s@, lim as nat) == self@.merge(s@.skip(pos as int), lim as nat),
                old(self)@.merge_partial(s@, lim as nat) == self@.merge_partial(s@.skip(pos as int), lim as nat),
            decreases s.len() - pos,
        {
            let rest = &s[pos..s.len()];
            assert(rest@ == s@.skip(pos as int));
            proof {
                reveal_with_fuel(HeaderModel::merge, 1);
                reveal_with_fuel(HeaderModel::merge_partial, 1);
                lemma_tag_parse_len(rest@);
            }
            match pb_read_tag_unpack(rest) {
                None => {
                    return false;
                },
                Some((f, wt, n)) => {
                    if n == 0 || n > rest.len() {
                        return false;
                    }
                    let rest2 = &rest[n..rest.len()];
                    assert(rest2@ == rest@.skip(n as int));
                    proof {
                        self@.lemma_merge_field_len(f, wt, rest2@, lim as nat);
                    }
                    match self.merge_field(f, wt, rest2, lim) {
                        None => {
                            return false;
                        },
                        Some(k) => {
                            if k > rest2.len() {
                                return false;
                            }
                            assert(rest@.skip((n + k) as int) =~= s@.skip((pos + n + k) as int));
                            pos = pos + n + k;
                        },
                    }
                },
            }
        }
        assert(s@.skip(pos as int) =~= Seq::<u8>::empty());
        proof {
            reveal_with_fuel(HeaderModel::merge, 1);
        }
        true
    }

    /// The message that `s` encodes, if it is a valid encoding.
    fn parse_slice(s: &[u8], lim: u64) -> (r: Option<Self>)
        ensures
            match HeaderModel::empty().merge(s@, lim as nat) {
                Some(m) => r matches Some(x) && x@ == m,
                None => r is None,
            },
    {
        let mut m = Header::new();
        if m.merge_from_slice(s, lim) {
            Some(m)
        } else {
            None
        }
    }

    /// Merges the fields that `bytes` encodes into this message, in order: a set
    /// field is replaced, a repeated field grows. On an invalid encoding the
    /// error comes back, the fields merged before the first field that could not
    /// be read stay merged, and that field is left as `merge_field_failed` says.
    pub fn merge_from_bytes(&mut self, bytes: &[u8]) -> (r: Result<(), DecodeError>)
        ensures
            match old(self)@.merge(bytes@, top_limit(bytes@.len())) {
                Some(m) => r is Ok && final(self)@ == m,
                None => r is Err && final(self)@ == old(self)@.merge_partial(bytes@, top_limit(bytes@.len())),
            },
    {
        let lim: u64 = u64::MAX - bytes.len() as u64;
        if self.merge_from_slice(bytes, lim) {
            Ok(())
        } else {
            Err(DecodeError)
        }
    }

    /// Parses a message from its encoding.
    pub fn parse_from_bytes(bytes: &[u8]) -> (r: Result<Self, DecodeError>)
        ensures
            match HeaderModel::empty().merge(bytes@, top_limit(bytes@.len())) {
                Some(m) => r matches Ok(x) && x@ == m,
                None => r is Err,
            },
    {
        let lim: u64 = u64::MAX - bytes.len() as u64;
        match Self::parse_slice(bytes, lim) {
            Some(m) => Ok(m),
            None => Err(DecodeError),
        }
    }

    /// Appends the encoding of field `uri` to `out`.
    fn write_field_uri(&self, out: &mut Vec<u8>)
        requires
            self@.wf(),
        ensures
            final(out)@ == old(out)@ + opt_length_delimited_field_bytes(1, match self@.uri { Some(c) => Some(encode_utf8(c)), None => None }),
            final(out)@ + self@.encoded_from_content_type() == old(out)@ + self@.encoded_from_uri(),
    {
        proof {
            reveal(HeaderModel::wf);
        }
        let ghost o = out@;
        let ghost m = self@;
        match &self.uri {
            Some(v) => {
                pb_write_tag(out, 1, WIRE_LENGTH_DELIMITED);
                write_string_value(out, v.as_str());
                proof {
                    lemma_concat_assoc(o, tag_bytes(1, WIRE_LENGTH_DELIMITED), bytes_value_bytes(encode_utf8(v@)));
                }
            },
            None => {
                assert(o + Seq::<u8>::empty() =~= o);
            },
        }
        proof {
            lemma_concat_assoc(o, opt_length_delimited_field_bytes(1, match m.uri { Some(c) => Some(encode_utf8(c)), None => None }), m.encoded_from_content_type());
        }
    }

    /// Appends the encoding of field `content_type` to `out`.
    fn write_field_content_type(&self, out: &mut Vec<u8>)
        requires
            self@.wf(),
        ensures
            final(out)@ == old(out)@ + opt_length_delimited_field_bytes(2, match self@.content_type { Some(c) => Some(encode_utf8(c)), None => None }),
            final(out)@ + self@.encoded_from_method() == old(out)@ + self@.encoded_from_content_type(),
    {
        proof {
            reveal(HeaderModel::wf);
        }
        let ghost o = out@;
        let ghost m = self@;
        match &self.content_type {
            Some(v) => {
                pb_write_tag(out, 2, WIRE_LENGTH_DELIMITED);
                write_string_value(out, v.as_str());
                proof {
                    lemma_concat_assoc(o, tag_bytes(2, WIRE_LENGTH_DELIMITED), bytes_value_bytes(encode_utf8(v@)));
                }
            },
            None => {
                assert(o + Seq::<u8>::empty() =~= o);
            },
        }
        proof {
            lemma_concat_assoc(o, opt_length_delimited_field_bytes(2, match m.content_type { Some(c) => Some(encode_utf8(c)), None => None }), m.encoded_from_method());
        }
    }

    /// Appends the encoding of field `method` to `out`.
    fn write_field_method(&self, out: &mut Vec<u8>)
        requires
            self@.wf(),
        ensures
            final(out)@ == old(out)@ + opt_length_delimited_field_bytes(3, match self@.method { Some(c) => Some(encode_utf8(c)), None => None }),
            final(out)@ + self@.encoded_from_status_code() == old(out)@ + self@.encoded_from_method(),
    {
        proof {
            reveal(HeaderModel::wf);
        }
        let ghost o = out@;
        let ghost m = self@;
        match &self.method {
            Some(v) => {
                pb_write_tag(out, 3, WIRE_LENGTH_DELIMITED);
                write_string_value(out, v.as_str());
                proof {
                    lemma_concat_assoc(o, tag_bytes(3, WIRE_LENGTH_DELIMITED), bytes_value_bytes(encode_utf8(v@)));
                }
            },
            None => {
                assert(o + Seq::<u8>::empty() =~= o);
            },
        }
        proof {
            lemma_concat_assoc(o, opt_length_delimited_field_bytes(3, match m.method { Some(c) => Some(encode_utf8(c)), None => None }), m.encoded_from_status_code());
        }
    }

    /// Appends the encoding of field `status_code` to `out`.
    fn write_field_status_code(&self, out: &mut Vec<u8>)
        requires
            self@.wf(),
        ensures
            final(out)@ == old(out)@ + opt_varint_field_bytes(4, match self@.status_code { Some(x) => Some(zigzag_encode32(x) as u64), None => None }),
            final(out)@ + self@.encoded_from_user_fields() == old(out)@ + self@.encoded_from_status_code(),
    {
        proof {
            reveal(HeaderModel::wf);
        }
        let ghost o = out@;
        let ghost m = self@;
        match self.status_code {
            Some(x) => {
                pb_write_tag(out, 4, WIRE_VARINT);
                pb_write_sint32_no_tag(out, x);
                proof {
                    lemma_concat_assoc(o, tag_bytes(4, WIRE_VARINT), varint_bytes(zigzag_encode32(x) as u64));
                }
            },
            None => {
                assert(o + Seq::<u8>::empty() =~= o);
            },
        }
        proof {
            lemma_concat_assoc(o, opt_varint_field_bytes(4, match m.status_code { Some(x) => Some(zigzag_encode32(x) as u64), None => None }), m.encoded_from_user_fields());
        }
    }

    /// Appends the encoding of field `user_fields` to `out`.
    fn write_field_user_fields(&self, out: &mut Vec<u8>)
        requires
            self@.wf(),
        ensures
            final(out)@ == old(out)@ + length_delimited_list_bytes(6, UserFieldModel::encodings(self@.user_fields)),
            final(out)@ + self@.encoded_from_unknown_fields() == old(out)@ + self@.encoded_from_user_fields(),
    {
        proof {
            reveal(HeaderModel::wf);
        }
        let ghost o = out@;
        let ghost m = self@;
        let ghost w = UserFieldModel::encodings(m.user_fields);
        assert(w.subrange(0, w.len() as int) =~= w);
        assert(o + Seq::<u8>::empty() =~= o);
        let mut i: usize = 0;
        while i < self.user_fields.len()
            invariant
                i <= self.user_fields.len(),
                self@ == m,
                m.wf(),
                w.len() == self.user_fields@.len(),
                w == UserFieldModel::encodings(m.user_fields),
                o + length_delimited_list_bytes(6, w) == out@ + length_delimited_list_bytes(6, w.subrange(i as int, w.len() as int)),
            decreases self.user_fields.len() - i,
        {
            proof {
                reveal(HeaderModel::wf);
                lemma_length_delimited_list_cons(6, w.subrange(i as int, w.len() as int));
                assert(m.user_fields[i as int] == self.user_fields@[i as int]@);
                assert(m.user_fields[i as int].wf());
                assert(w.subrange(i as int, w.len() as int)[0] == w[i as int]);
                assert(w.subrange(i as int, w.len() as int).subrange(1, w.len() - i) =~= w.subrange(i + 1, w.len() as int));
            }
            let ghost before = out@;
            let mut tmp: Vec<u8> = Vec::new();
            self.user_fields[i].write_to(&mut tmp);
            assert(tmp@ =~= w[i as int]);
            pb_write_tag(out, 6, WIRE_LENGTH_DELIMITED);
            write_bytes_value(out, tmp.as_slice());
            proof {
                lemma_write_list_step(before, tag_bytes(6, WIRE_LENGTH_DELIMITED), bytes_value_bytes(w[i as int]), length_delimited_list_bytes(6, w.subrange(i + 1, w.len() as int)), Seq::<u8>::empty());
                assert(length_delimited_list_bytes(6, w.subrange(i + 1, w.len() as int)) + Seq::<u8>::empty() =~= length_delimited_list_bytes(6, w.subrange(i + 1, w.len() as int)));
                assert(tag_bytes(6, WIRE_LENGTH_DELIMITED) + (bytes_value_bytes(w[i as int]) + length_delimited_list_bytes(6, w.subrange(i + 1, w.len() as int))) + Seq::<u8>::empty() =~= tag_bytes(6, WIRE_LENGTH_DELIMITED) + (bytes_value_bytes(w[i as int]) + length_delimited_list_bytes(6, w.subrange(i + 1, w.len() as int))));
            }
            i = i + 1;
        }
        assert(w.subrange(i as int, w.len() as int) =~= Seq::<Seq<u8>>::empty());
        assert(out@ + Seq::<u8>::empty() =~= out@);
        proof {
            lemma_concat_assoc(o, length_delimited_list_bytes(6, UserFieldModel::encodings(m.user_fields)), m.encoded_from_unknown_fields());
        }
    }

    /// Appends the fields of unknown numbers to `out`.
    fn write_unknown_fields(&self, out: &mut Vec<u8>)
        requires
            self@.wf(),
        ensures
            final(out)@ == old(out)@ + unknown_list_bytes(self@.unknown_fields),
    {
        proof {
            reveal(HeaderModel::wf);
        }
        let ghost o = out@;
        let ghost m = self@;
        let mut j: usize = 0;
        assert(m.unknown_fields.subrange(0, m.unknown_fields.len() as int) =~= m.unknown_fields);
        assert(o + Seq::<u8>::empty() =~= o);
        while j < self.unknown_fields.len()
            invariant
                j <= self.unknown_fields.len(),
                self@ == m,
                m.wf(),
                o + unknown_list_bytes(m.unknown_fields) == out@ + unknown_list_bytes(m.unknown_fields.subrange(j as int, m.unknown_fields.len() as int)),
            decreases self.unknown_fields.len() - j,
        {
            proof {
                reveal(HeaderModel::wf);
                lemma_unknown_list_cons(m.unknown_fields.subrange(j as int, m.unknown_fields.len() as int));
                assert(m.unknown_fields[j as int] == self.unknown_fields@[j as int]@);
                assert(m.unknown_fields.subrange(j as int, m.unknown_fields.len() as int)[0] == m.unknown_fields[j as int]);
                assert(m.unknown_fields.subrange(j as int, m.unknown_fields.len() as int).subrange(1, m.unknown_fields.len() - j) =~= m.unknown_fields.subrange(j + 1, m.unknown_fields.len() as int));
            }
            let ghost before = out@;
            write_unknown(out, &self.unknown_fields[j]);
            proof {
                lemma_concat_assoc(before, unknown_field_bytes(m.unknown_fields[j as int]), unknown_list_bytes(m.unknown_fields.subrange(j + 1, m.unknown_fields.len() as int)));
            }
            j = j + 1;
        }
        assert(m.unknown_fields.subrange(j as int, m.unknown_fields.len() as int) =~= Seq::<UnknownFieldModel>::empty());
        assert(out@ =~= o + unknown_list_bytes(m.unknown_fields));
    }

    /// Appends the encoding of the message to `out`.
    fn write_to(&self, out: &mut Vec<u8>)
        requires
            self@.wf(),
        ensures
            final(out)@ == old(out)@ + self@.to_bytes(),
    {
        proof {
            reveal(HeaderModel::to_bytes);
        }
        let ghost o = out@;
        let ghost m = self@;
        assert(o + m.to_bytes() == out@ + m.encoded_from_uri());
        self.write_field_uri(out);
        self.write_field_content_type(out);
        self.write_field_method(out);
        self.write_field_status_code(out);
        self.write_field_user_fields(out);
        self.write_unknown_fields(out);
    }

    /// The encoding of the message.
    pub fn write_to_bytes(&self) -> (r: Vec<u8>)
        requires
            self@.wf(),
        ensures
            r@ == self@.to_bytes(),
    {
        let mut out: Vec<u8> = Vec::new();
        self.write_to(&mut out);
        assert(out@ =~= self@.to_bytes());
        out
    }

    /// The length of the encoding of the message.
    pub fn compute_size(&self) -> (r: u32)
        requires
            self@.wf(),
            self@.to_bytes().len() <= u32::MAX,
        ensures
            r == self@.to_bytes().len(),
    {
        let v = self.write_to_bytes();
        v.len() as u32
    }
    /// A copy of the message.
    pub fn clone_message(&self) -> (r: Self)
        ensures
            r@ == self@,
    {
        let uri = clone_opt_string(&self.uri);
        let content_type = clone_opt_string(&self.content_type);
        let method = clone_opt_string(&self.method);
        let status_code = self.status_code;
        let mut user_fields: Vec<UserField> = Vec::new();
        let mut i: usize = 0;
        while i < self.user_fields.len()
            invariant
                i <= self.user_fields@.len(),
                user_fields@.len() == i,
                forall|j: int| 0 <= j < i ==> #[trigger] user_fields@[j]@ == self.user_fields@[j]@,
            decreases self.user_fields@.len() - i,
        {
            user_fields.push(self.user_fields[i].clone_message());
            i = i + 1;
        }
        assert(UserField::seq_model(user_fields@) =~= UserField::seq_model(self.user_fields@));
        let unknown_fields = clone_unknown_fields(&self.unknown_fields);
        Header { uri, content_type, method, status_code, user_fields, unknown_fields }
    }

}

impl Clone for Header {
    fn clone(&self) -> (r: Self)
        ensures
            r@ == self@,
    {
        self.clone_message()
    }
}

impl Default for Header {
    fn default() -> (r: Self)
        ensures
            r@ == HeaderModel::empty(),
    {
        Header::new()
    }
}

/// The `UserField` message.
#[allow(non_snake_case)]
#[derive(Debug, PartialEq)]
pub struct UserField {
    key: Option<String>,
    value: Option<Vec<u8>>,
    unknown_fields: Vec<UnknownField>,
}

/// The model of a `UserField`: each field's value, `None` or empty when unset,
/// and the fields of unknown numbers, in the order they were read.
#[allow(non_snake_case)]
pub struct UserFieldModel {
    pub key: Option<Seq<char>>,
    pub value: Option<Seq<u8>>,
    pub unknown_fields: Seq<UnknownFieldModel>,
}

impl View for UserField {
    type V = UserFieldModel;

    closed spec fn view(&self) -> UserFieldModel {
        UserFieldModel {
            key: opt_view(self.key),
            value: opt_view(self.value),
            unknown_fields: unknown_models(self.unknown_fields@),
        }
    }
}

#[allow(non_snake_case)]
impl UserFieldModel {
    /// The model of a message with no field set.
    pub open spec fn empty() -> Self {
        UserFieldModel {
            key: None,
            value: None,
            unknown_fields: Seq::empty(),
        }
    }

    /// The encodings of a list of messages.
    pub open spec fn encodings(v: Seq<UserFieldModel>) -> Seq<Seq<u8>> {
        v.map_values(|m: UserFieldModel| m.to_bytes())
    }

    /// Every message of a list can be written, and its encoding fits a 32-bit length.
    pub open spec fn all_writable(v: Seq<UserFieldModel>) -> bool {
        forall|i: int| 0 <= i < v.len() ==> #[trigger] v[i].wf() && fits_u32(v[i].to_bytes())
    }

    /// The field numbers that this message knows.
    pub open spec fn is_known_field(f: u32) -> bool {
        f == 1 || f == 2
    }

    /// Merging one field whose tag (number `f`, wire type `wt`) has been read;
    /// `s` holds the bytes after the tag. The result is the merged model and
    /// the number of bytes the value took; a set field is replaced, a repeated
    /// field grows, a field of unknown number is kept or, if a group, skipped.
    pub open spec fn merge_field(self, f: u32, wt: u32, s: Seq<u8>, lim: nat) -> Option<(Self, nat)> {
        if f == 1 {
            if wt != WIRE_LENGTH_DELIMITED {
                None
            } else {
                match string_parse(s) {
                    Some((c, k)) => Some((UserFieldModel { key: Some(c), ..self }, k)),
                    None => None,
                }
            }
        } else if f == 2 {
            if wt != WIRE_LENGTH_DELIMITED {
                None
            } else {
                match bytes_parse(s) {
                    Some((c, k)) => Some((UserFieldModel { value: Some(c), ..self }, k)),
                    None => None,
                }
            }
        } else {
            match unknown_parse(f, wt, s) {
                Some((Some(u), k)) => Some((UserFieldModel { unknown_fields: grouped_insert(self.unknown_fields, u), ..self }, k)),
                Some((None, k)) => Some((self, k)),
                None => None,
            }
        }
    }

    /// What is left of the model when merging one field (number `f`, wire type
    /// `wt`, value at the front of `s`) fails: a string, bytes or message field
    /// of the right wire type is first set to its empty value (a repeated one
    /// gets an empty element) and an embedded message keeps the fields merged
    /// into it before the failure; packed values read before the failure stay.
    pub open spec fn merge_field_failed(self, f: u32, wt: u32, s: Seq<u8>, lim: nat) -> Self {
        if f == 1 {
            if wt != WIRE_LENGTH_DELIMITED {
                self
            } else {
                UserFieldModel { key: Some(Seq::<char>::empty()), ..self }
            }
        } else if f == 2 {
            if wt != WIRE_LENGTH_DELIMITED {
                self
            } else {
                UserFieldModel { value: Some(Seq::<u8>::empty()), ..self }
            }
        } else {
            self
        }
    }

    /// The value of a merged field takes no more than the bytes after its tag.
    pub proof fn lemma_merge_field_len(self, f: u32, wt: u32, s: Seq<u8>, lim: nat)
        ensures
            self.merge_field(f, wt, s, lim) matches Some((_m, k)) ==> k <= s.len(),
    {
        lemma_varint_parse_len(s);
        crate::wire::lemma_unknown_parse_len(f, wt, s);
    }

    /// Merging all the fields that `s` holds, in order, where the length of an
    /// embedded message may reach `lim` bytes past the end of `s` (such a message
    /// is read up to the end of `s`).
    #[verifier::opaque]
    pub open spec fn merge(self, s: Seq<u8>, lim: nat) -> Option<Self>
        decreases s.len(),
    {
        if s.len() == 0 {
            Some(self)
        } else {
            match tag_parse(s) {
                Some((f, wt, n)) => if 0 < n <= s.len() {
                    match self.merge_field(f, wt, s.skip(n as int), lim) {
                        Some((m, k)) => if n + k <= s.len() {
                            m.merge(s.skip((n + k) as int), lim)
                        } else {
                            None
                        },
                        None => None,
                    }
                } else {
                    None
                },
                None => None,
            }
        }
    }

    /// What merging `s` leaves: the fields merged in order up to the first one
    /// whose tag or value cannot be read, then what `merge_field_failed` leaves of
    /// that one; all of `s` where it is a valid encoding.
    #[verifier::opaque]
    pub open spec fn merge_partial(self, s: Seq<u8>, lim: nat) -> Self
        decreases s.len(),
    {
        if s.len() == 0 {
            self
        } else {
            match tag_parse(s) {
                Some((f, wt, n)) => if 0 < n <= s.len() {
                    match self.merge_field(f, wt, s.skip(n as int), lim) {
                        Some((m, k)) => if n + k <= s.len() {
                            m.merge_partial(s.skip((n + k) as int), lim)
                        } else {
                            m
                        },
                        None => self.merge_field_failed(f, wt, s.skip(n as int), lim),
                    }
                } else {
                    self
                },
                None => self,
            }
        }
    }

    /// The encoding of field `key` and of every field written after it.
    pub open spec fn encoded_from_key(self) -> Seq<u8> {
        opt_length_delimited_field_bytes(1, match self.key { Some(c) => Some(encode_utf8(c)), None => None }) + self.encoded_from_value()
    }

    /// The encoding of field `value` and of every field written after it.
    pub open spec fn encoded_from_value(self) -> Seq<u8> {
        opt_length_delimited_field_bytes(2, self.value) + self.encoded_from_unknown_fields()
    }

    /// The encoding of the fields of unknown numbers, written last.
    pub open spec fn encoded_from_unknown_fields(self) -> Seq<u8> {
        unknown_list_bytes(self.unknown_fields)
    }

    /// The encoding of the message: its set fields in order of declaration,
    /// each element of a repeated field in order, then the unknown fields.
    #[verifier::opaque]
    pub open spec fn to_bytes(self) -> Seq<u8> {
        self.encoded_from_key()
    }

    /// A model that can be written and read back: every length fits the
    /// 32-bit length prefix, nested messages can be written, and the unknown
    /// fields have valid numbers that this message does not know.
    #[verifier::opaque]
    pub open spec fn wf(self) -> bool {
        &&& (self.key matches Some(c) ==> fits_u32(encode_utf8(c)))
        &&& (self.value matches Some(b) ==> fits_u32(b))
        &&& (forall|i: int| 0 <= i < self.unknown_fields.len() ==> unknown_field_wf(#[trigger] self.unknown_fields[i]) && !Self::is_known_field(self.unknown_fields[i].number))
        &&& unknown_grouped(self.unknown_fields)
    }

    /// The message with no field set can be written and read back.
    pub proof fn lemma_empty_wf()
        ensures
            Self::empty().wf(),
    {
        reveal_with_fuel(UserFieldModel::wf, 1);
        lemma_grouped_empty();
    }

    /// Merging a field's tag and value, whatever follows them.
    pub proof fn lemma_merge_step(acc: Self, f: u32, wt: u32, t: Seq<u8>, b: Seq<u8>, rest: Seq<u8>, acc2: Self, lim: nat)
        requires
            tag_parse(t + (b + rest)) == Some((f, wt, t.len())),
            t.len() > 0,
            acc.merge_field(f, wt, b + rest, lim) == Some((acc2, b.len())),
        ensures
            acc.merge(t + (b + rest), lim) == acc2.merge(rest, lim),
    {
        reveal_with_fuel(UserFieldModel::merge, 1);
        lemma_skip_chunk(t, b, rest);
    }

    /// Merging the encoding of field `key` sets it, whatever follows.
    pub proof fn lemma_merge_key(acc: Self, v: Option<Seq<char>>, rest: Seq<u8>, lim: nat)
        requires
            (v matches Some(c) ==> fits_u32(encode_utf8(c))),
        ensures
            acc.merge(opt_length_delimited_field_bytes(1, match v { Some(c) => Some(encode_utf8(c)), None => None }) + rest, lim) == (UserFieldModel { key: if v is Some { v } else { acc.key }, ..acc }).merge(rest, lim),
    {
        match v {
            None => {
                assert(opt_length_delimited_field_bytes(1, match v { Some(c) => Some(encode_utf8(c)), None => None }) + rest =~= rest);
                assert((UserFieldModel { key: acc.key, ..acc }) == acc);
            },
            Some(x) => {
                let t = tag_bytes(1, WIRE_LENGTH_DELIMITED);
                let b = bytes_value_bytes(encode_utf8(x));
                assert(opt_length_delimited_field_bytes(1, match v { Some(c) => Some(encode_utf8(c)), None => None }) + rest =~= t + (b + rest));
                lemma_tag_roundtrip(1, WIRE_LENGTH_DELIMITED, b + rest);
                lemma_string_roundtrip(x, rest);
                Self::lemma_merge_step(acc, 1, WIRE_LENGTH_DELIMITED, t, b, rest, UserFieldModel { key: v, ..acc }, lim);
            },
        }
    }

    /// Merging the encoding of field `value` sets it, whatever follows.
    pub proof fn lemma_merge_value(acc: Self, v: Option<Seq<u8>>, rest: Seq<u8>, lim: nat)
        requires
            (v matches Some(b) ==> fits_u32(b)),
        ensures
            acc.merge(opt_length_delimited_field_bytes(2, v) + rest, lim) == (UserFieldModel { value: if v is Some { v } else { acc.value }, ..acc }).merge(rest, lim),
    {
        match v {
            None => {
                assert(opt_length_delimited_field_bytes(2, v) + rest =~= rest);
                assert((UserFieldModel { value: acc.value, ..acc }) == acc);
            },
            Some(x) => {
                let t = tag_bytes(2, WIRE_LENGTH_DELIMITED);
                let b = bytes_value_bytes(x);
                assert(opt_length_delimited_field_bytes(2, v) + rest =~= t + (b + rest));
                lemma_tag_roundtrip(2, WIRE_LENGTH_DELIMITED, b + rest);
                lemma_bytes_roundtrip(x, rest);
                Self::lemma_merge_step(acc, 2, WIRE_LENGTH_DELIMITED, t, b, rest, UserFieldModel { value: v, ..acc }, lim);
            },
        }
    }

    /// Merging the encoding of fields of unknown numbers keeps them, whatever follows.
    #[verifier::rlimit(50)]
    pub proof fn lemma_merge_unknown_fields(acc: Self, v: Seq<UnknownFieldModel>, rest: Seq<u8>, lim: nat)
        requires
            forall|i: int| 0 <= i < v.len() ==> unknown_field_wf(#[trigger] v[i]) && !Self::is_known_field(v[i].number),
            unknown_grouped(acc.unknown_fields + v),
        ensures
            acc.merge(unknown_list_bytes(v) + rest, lim) == (UserFieldModel { unknown_fields: acc.unknown_fields + v, ..acc }).merge(rest, lim),
        decreases v.len(),
    {
        if v.len() == 0 {
            assert(unknown_list_bytes(v) + rest =~= rest);
            assert(acc.unknown_fields + v =~= acc.unknown_fields);
            assert((UserFieldModel { unknown_fields: acc.unknown_fields + v, ..acc }) == acc);
        } else {
            lemma_unknown_list_cons(v);
            let u = v[0];
            let wt = crate::wire::unknown_wire_type(u.value);
            let t = tag_bytes(u.number, wt);
            let b = crate::wire::unknown_value_bytes(u.value);
            let tail = unknown_list_bytes(v.subrange(1, v.len() as int));
            assert(unknown_list_bytes(v) + rest =~= t + (b + (tail + rest)));
            assert(unknown_field_bytes(u) + (tail + rest) =~= t + (b + (tail + rest)));
            lemma_unknown_roundtrip(u, tail + rest);
            assert((t + (b + (tail + rest))).skip(t.len() as int) =~= b + (tail + rest));
            crate::wire::lemma_tag_roundtrip(u.number, wt, b + (tail + rest));
            let acc1 = UserFieldModel { unknown_fields: acc.unknown_fields.push(u), ..acc };
            assert(acc.unknown_fields.push(u) =~= (acc.unknown_fields + v).take(acc.unknown_fields.len() + 1int));
            lemma_grouped_take(acc.unknown_fields + v, acc.unknown_fields.len() + 1int);
            lemma_grouped_insert_last(acc.unknown_fields, u);
            Self::lemma_merge_step(acc, u.number, wt, t, b, tail + rest, acc1, lim);
            assert(acc1.unknown_fields + v.subrange(1, v.len() as int) =~= acc.unknown_fields + v);
            Self::lemma_merge_unknown_fields(acc1, v.subrange(1, v.len() as int), rest, lim);
        }
    }

    /// Reading back the encoding of a model that can be written gives the model,
    /// whatever the limit past its end.
    #[verifier::spinoff_prover]
    #[verifier::rlimit(100)]
    pub proof fn lemma_roundtrip(self, lim: nat)
        requires
            self.wf(),
        ensures
            UserFieldModel::empty().merge(self.to_bytes(), lim) == Some(self),
    {
        reveal(UserFieldModel::to_bytes);
        reveal(UserFieldModel::wf);
        reveal_with_fuel(UserFieldModel::merge, 1);
        let a0 = UserFieldModel::empty();
        assert((self.key matches Some(c) ==> fits_u32(encode_utf8(c))));
        Self::lemma_merge_key(a0, self.key, self.encoded_from_value(), lim);
        let a1 = UserFieldModel { key: if self.key is Some { self.key } else { a0.key }, ..a0 };
        assert((self.value matches Some(b) ==> fits_u32(b)));
        Self::lemma_merge_value(a1, self.value, self.encoded_from_unknown_fields(), lim);
        let a2 = UserFieldModel { value: if self.value is Some { self.value } else { a1.value }, ..a1 };
        assert(a2.unknown_fields + self.unknown_fields =~= self.unknown_fields);
        Self::lemma_merge_unknown_fields(a2, self.unknown_fields, Seq::empty(), lim);
        assert(unknown_list_bytes(self.unknown_fields) + Seq::<u8>::empty() =~= unknown_list_bytes(self.unknown_fields));
        let last = UserFieldModel { unknown_fields: a2.unknown_fields + self.unknown_fields, ..a2 };
        assert(last.unknown_fields =~= self.unknown_fields);
        assert(last == self);
    }
    /// A message whose only set field is `key` is written as field number 1 of the
    /// protocol's definition alone: the tag of that number with the wire type of the field,
    /// then the value.
    pub proof fn lemma_encoding_of_key(v: Option<Seq<char>>)
        ensures
            (UserFieldModel { key: v, ..UserFieldModel::empty() }).to_bytes() == opt_length_delimited_field_bytes(1, match v { Some(c) => Some(encode_utf8(c)), None => None }),
    {
        reveal(UserFieldModel::to_bytes);
        let m = UserFieldModel { key: v, ..UserFieldModel::empty() };
        assert(m.to_bytes() =~= opt_length_delimited_field_bytes(1, match v { Some(c) => Some(encode_utf8(c)), None => None }));
    }

    /// A message whose only set field is `value` is written as field number 2 of the
    /// protocol's definition alone: the tag of that number with the wire type of the field,
    /// then the value.
    pub proof fn lemma_encoding_of_value(v: Option<Seq<u8>>)
        ensures
            (UserFieldModel { value: v, ..UserFieldModel::empty() }).to_bytes() == opt_length_delimited_field_bytes(2, v),
    {
        reveal(UserFieldModel::to_bytes);
        let m = UserFieldModel { value: v, ..UserFieldModel::empty() };
        assert(m.to_bytes() =~= opt_length_delimited_field_bytes(2, v));
    }

}

#[allow(non_snake_case)]
impl UserField {
    /// The models of a list of messages.
    pub open spec fn seq_model(v: Seq<UserField>) -> Seq<UserFieldModel> {
        v.map_values(|m: UserField| m@)
    }

    /// A message with no field set.
    pub fn new() -> (r: Self)
        ensures
            r@ == UserFieldModel::empty(),
            r@.wf(),
    {
        let r = UserField {
            key: None,
            value: None,
            unknown_fields: Vec::new(),
        };
        assert(unknown_models(r.unknown_fields@) =~= Seq::<UnknownFieldModel>::empty());
        proof {
            UserFieldModel::lemma_empty_wf();
        }
        r
    }

    /// Unsets field `key`.
    pub fn clear_key(&mut self)
        ensures
            final(self)@ == (UserFieldModel { key: None, ..old(self)@ }),
    {
        self.key = None;
    }

    /// Whether field `key` is set.
    pub fn has_key(&self) -> (r: bool)
        ensures
            r == self@.key is Some,
    {
        self.key.is_some()
    }

    /// Sets field `key` to `v`.
    pub fn set_key(&mut self, v: String)
        ensures
            final(self)@ == (UserFieldModel { key: Some(v@), ..old(self)@ }),
    {
        self.key = Some(v);
    }

    /// Field `key`, to change in place; an unset field is first set to its default.
    pub fn mut_key(&mut self) -> (r: &mut String)
        ensures
            r@ == chars_or_empty(old(self)@.key),
            final(self)@ == (UserFieldModel { key: Some(final(r)@), ..old(self)@ }),

    {
        if self.key.is_none() {
            self.key = Some(String::new());
        }
        opt_as_mut(&mut self.key).unwrap()
    }

    /// Takes field `key` (its default when unset), leaving it unset.
    pub fn take_key(&mut self) -> (r: String)
        ensures
            r@ == chars_or_empty(old(self)@.key),
            final(self)@ == (UserFieldModel { key: None, ..old(self)@ }),
    {
        let mut t = None;
        std::mem::swap(&mut t, &mut self.key);
        match t {
            Some(v) => v,
            None => String::new(),
        }
    }

    /// Field `key`, or the empty string when unset.
    pub fn get_key(&self) -> (r: &str)
        ensures
            r@ == chars_or_empty(self@.key),
    {
        match &self.key {
            Some(v) => v.as_str(),
            None => {
                proof {
                    reveal_strlit("");
                }
                ""
            },
        }
    }

    /// Unsets field `value`.
    pub fn clear_value(&mut self)
        ensures
            final(self)@ == (UserFieldModel { value: None, ..old(self)@ }),
    {
        self.value = None;
    }

    /// Whether field `value` is set.
    pub fn has_value(&self) -> (r: bool)
        ensures
            r == self@.value is Some,
    {
        self.value.is_some()
    }

    /// Sets field `value` to `v`.
    pub fn set_value(&mut self, v: Vec<u8>)
        ensures
            final(self)@ == (UserFieldModel { value: Some(v@), ..old(self)@ }),
    {
        self.value = Some(v);
    }

    /// Field `value`, to change in place; an unset field is first set to its default.
    pub fn mut_value(&mut self) -> (r: &mut Vec<u8>)
        ensures
            r@ == bytes_or_empty(old(self)@.value),
            final(self)@ == (UserFieldModel { value: Some(final(r)@), ..old(self)@ }),

    {
        if self.value.is_none() {
            self.value = Some(Vec::new());
        }
        opt_as_mut(&mut self.value).unwrap()
    }

    /// Takes field `value` (its default when unset), leaving it unset.
    pub fn take_value(&mut self) -> (r: Vec<u8>)
        ensures
            r@ == bytes_or_empty(old(self)@.value),
            final(self)@ == (UserFieldModel { value: None, ..old(self)@ }),
    {
        let mut t = None;
        std::mem::swap(&mut t, &mut self.value);
        match t {
            Some(v) => v,
            None => Vec::new(),
        }
    }

    /// Field `value`, or no bytes when unset.
    pub fn get_value(&self) -> (r: &[u8])
        ensures
            r@ == bytes_or_empty(self@.value),
    {
        match &self.value {
            Some(v) => v.as_slice(),
            None => &[],
        }
    }

    /// Merges one field whose tag (number `f`, wire type `wt`) has been read
    /// from the bytes `s` that follow the tag; returns the number of bytes the
    /// value took.
    fn merge_field(&mut self, f: u32, wt: u32, s: &[u8], lim: u64) -> (r: Option<usize>)
        ensures
            match old(self)@.merge_field(f, wt, s@, lim as nat) {
                Some((m, k)) => r == Some(k as usize) && final(self)@ == m,
                None => r is None && final(self)@ == old(self)@.merge_field_failed(f, wt, s@, lim as nat),
            },
    {

        if f == 1 {
            if wt != WIRE_LENGTH_DELIMITED {
                return None;
            }
            match read_string(s) {
                Some((v, k)) => {
                    self.key = Some(v);
                    Some(k)
                },
                None => {
                    self.key = Some(String::new());
                    None
                },
            }
        } else if f == 2 {
            if wt != WIRE_LENGTH_DELIMITED {
                return None;
            }
            match read_bytes(s) {
                Some((v, k)) => {
                    self.value = Some(v);
                    Some(k)
                },
                None => {
                    self.value = Some(Vec::new());
                    None
                },
            }
        } else {
            match read_unknown(f, wt, s) {
                Some((Some(u), k)) => {
                    insert_unknown(field_mut(&mut self.unknown_fields), u);
                    Some(k)
                },
                Some((None, k)) => Some(k),
                None => None,
            }
        }
    }

    /// Merges all the fields that `s` holds, in order; `false` when the bytes
    /// are not a valid encoding (the message then holds what was merged so far).
    #[verifier::spinoff_prover]
    #[verifier::rlimit(50)]
    fn merge_from_slice(&mut self, s: &[u8], lim: u64) -> (ok: bool)
        ensures
            match old(self)@.merge(s@, lim as nat) {
                Some(m) => ok && final(self)@ == m,
                None => !ok && final(self)@ == old(self)@.merge_partial(s@, lim as nat),
            },
    {
        proof {
            reveal_with_fuel(UserFieldModel::merge, 1);
            reveal_with_fuel(UserFieldModel::merge_partial, 1);
        }
        let mut pos: usize = 0;
        assert(s@.skip(0) =~= s@);
        while pos < s.len()
            invariant
                pos <= s.len(),
                old(self)@.merge(s@, lim as nat) == self@.merge(s@.skip(pos as int), lim as nat),
                old(self)@.merge_partial(s@, lim as nat) == self@.merge_partial(s@.skip(pos as int), lim as nat),
            decreases s.len() - pos,
        {
            let rest = &s[pos..s.len()];
            assert(rest@ == s@.skip(pos as int));
            proof {
                reveal_with_fuel(UserFieldModel::merge, 1);
                reveal_with_fuel(UserFieldModel::merge_partial, 1);
                lemma_tag_parse_len(rest@);
            }
            match pb_read_tag_unpack(rest) {
                None => {
                    return false;
                },
                Some((f, wt, n)) => {
                    if n == 0 || n > rest.len() {
                        return false;
                    }
                    let rest2 = &rest[n..rest.len()];
                    assert(rest2@ == rest@.skip(n as int));
                    proof {
                        self@.lemma_merge_field_len(f, wt, rest2@, lim as nat);
                    }
                    match self.merge_field(f, wt, rest2, lim) {
                        None => {
                            return false;
                        },
                        Some(k) => {
                            if k > rest2.len() {
                                return false;
                            }
                            assert(rest@.skip((n + k) as int) =~= s@.skip((pos + n + k) as int));
                            pos = pos + n + k;
                        },
                    }
                },
            }
        }
        assert(s@.skip(pos as int) =~= Seq::<u8>::empty());
        proof {
            reveal_with_fuel(UserFieldModel::merge, 1);
        }
        true
    }

    /// The message that `s` encodes, if it is a valid encoding.
    fn parse_slice(s: &[u8], lim: u64) -> (r: Option<Self>)
        ensures
            match UserFieldModel::empty().merge(s@, lim as nat) {
                Some(m) => r matches Some(x) && x@ == m,
                None => r is None,
            },
    {
        let mut m = UserField::new();
        if m.merge_from_slice(s, lim) {
            Some(m)
        } else {
            None
        }
    }

    /// Merges the fields that `bytes` encodes into this message, in order: a set
    /// field is replaced, a repeated field grows. On an invalid encoding the
    /// error comes back, the fields merged before the first field that could not
    /// be read stay merged, and that field is left as `merge_field_failed` says.
    pub fn merge_from_bytes(&mut self, bytes: &[u8]) -> (r: Result<(), DecodeError>)
        ensures
            match old(self)@.merge(bytes@, top_limit(bytes@.len())) {
                Some(m) => r is Ok && final(self)@ == m,
                None => r is Err && final(self)@ == old(self)@.merge_partial(bytes@, top_limit(bytes@.len())),
            },
    {
        let lim: u64 = u64::MAX - bytes.len() as u64;
        if self.merge_from_slice(bytes, lim) {
            Ok(())
        } else {
            Err(DecodeError)
        }
    }

    /// Parses a message from its encoding.
    pub fn parse_from_bytes(bytes: &[u8]) -> (r: Result<Self, DecodeError>)
        ensures
            match UserFieldModel::empty().merge(bytes@, top_limit(bytes@.len())) {
                Some(m) => r matches Ok(x) && x@ == m,
                None => r is Err,
            },
    {
        let lim: u64 = u64::MAX - bytes.len() as u64;
        match Self::parse_slice(bytes, lim) {
            Some(m) => Ok(m),
            None => Err(DecodeError),
        }
    }

    /// Appends the encoding of field `key` to `out`.
    fn write_field_key(&self, out: &mut Vec<u8>)
        requires
            self@.wf(),
        ensures
            final(out)@ == old(out)@ + opt_length_delimited_field_bytes(1, match self@.key { Some(c) => Some(encode_utf8(c)), None => None }),
            final(out)@ + self@.encoded_from_value() == old(out)@ + self@.encoded_from_key(),
    {
        proof {
            reveal(UserFieldModel::wf);
        }
        let ghost o = out@;
        let ghost m = self@;
        match &self.key {
            Some(v) => {
                pb_write_tag(out, 1, WIRE_LENGTH_DELIMITED);
                write_string_value(out, v.as_str());
                proof {
                    lemma_concat_assoc(o, tag_bytes(1, WIRE_LENGTH_DELIMITED), bytes_value_bytes(encode_utf8(v@)));
                }
            },
            None => {
                assert(o + Seq::<u8>::empty() =~= o);
            },
        }
        proof {
            lemma_concat_assoc(o, opt_length_delimited_field_bytes(1, match m.key { Some(c) => Some(encode_utf8(c)), None => None }), m.encoded_from_value());
        }
    }

    /// Appends the encoding of field `value` to `out`.
    fn write_field_value(&self, out: &mut Vec<u8>)
        requires
            self@.wf(),
        ensures
            final(out)@ == old(out)@ + opt_length_delimited_field_bytes(2, self@.value),
            final(out)@ + self@.encoded_from_unknown_fields() == old(out)@ + self@.encoded_from_value(),
    {
        proof {
            reveal(UserFieldModel::wf);
        }
        let ghost o = out@;
        let ghost m = self@;
        match &self.value {
            Some(v) => {
                pb_write_tag(out, 2, WIRE_LENGTH_DELIMITED);
                write_bytes_value(out, v.as_slice());
                proof {
                    lemma_concat_assoc(o, tag_bytes(2, WIRE_LENGTH_DELIMITED), bytes_value_bytes(v@));
                }
            },
            None => {
                assert(o + Seq::<u8>::empty() =~= o);
            },
        }
        proof {
            lemma_concat_assoc(o, opt_length_delimited_field_bytes(2, m.value), m.encoded_from_unknown_fields());
        }
    }

    /// Appends the fields of unknown numbers to `out`.
    fn write_unknown_fields(&self, out: &mut Vec<u8>)
        requires
            self@.wf(),
        ensures
            final(out)@ == old(out)@ + unknown_list_bytes(self@.unknown_fields),
    {
        proof {
            reveal(UserFieldModel::wf);
        }
        let ghost o = out@;
        let ghost m = self@;
        let mut j: usize = 0;
        assert(m.unknown_fields.subrange(0, m.unknown_fields.len() as int) =~= m.unknown_fields);
        assert(o + Seq::<u8>::empty() =~= o);
        while j < self.unknown_fields.len()
            invariant
                j <= self.unknown_fields.len(),
                self@ == m,
                m.wf(),
                o + unknown_list_bytes(m.unknown_fields) == out@ + unknown_list_bytes(m.unknown_fields.subrange(j as int, m.unknown_fields.len() as int)),
            decreases self.unknown_fields.len() - j,
        {
            proof {
                reveal(UserFieldModel::wf);
                lemma_unknown_list_cons(m.unknown_fields.subrange(j as int, m.unknown_fields.len() as int));
                assert(m.unknown_fields[j as int] == self.unknown_fields@[j as int]@);
                assert(m.unknown_fields.subrange(j as int, m.unknown_fields.len() as int)[0] == m.unknown_fields[j as int]);
                assert(m.unknown_fields.subrange(j as int, m.unknown_fields.len() as int).subrange(1, m.unknown_fields.len() - j) =~= m.unknown_fields.subrange(j + 1, m.unknown_fields.len() as int));
            }
            let ghost before = out@;
            write_unknown(out, &self.unknown_fields[j]);
            proof {
                lemma_concat_assoc(before, unknown_field_bytes(m.unknown_fields[j as int]), unknown_list_bytes(m.unknown_fields.subrange(j + 1, m.unknown_fields.len() as int)));
            }
            j = j + 1;
        }
        assert(m.unknown_fields.subrange(j as int, m.unknown_fields.len() as int) =~= Seq::<UnknownFieldModel>::empty());
        assert(out@ =~= o + unknown_list_bytes(m.unknown_fields));
    }

    /// Appends the encoding of the message to `out`.
    fn write_to(&self, out: &mut Vec<u8>)
        requires
            self@.wf(),
        ensures
            final(out)@ == old(out)@ + self@.to_bytes(),
    {
        proof {
            reveal(UserFieldModel::to_bytes);
        }
        let ghost o = out@;
        let ghost m = self@;
        assert(o + m.to_bytes() == out@ + m.encoded_from_key());
        self.write_field_key(out);
        self.write_field_value(out);
        self.write_unknown_fields(out);
    }

    /// The encoding of the message.
    pub fn write_to_bytes(&self) -> (r: Vec<u8>)
        requires
            self@.wf(),
        ensures
            r@ == self@.to_bytes(),
    {
        let mut out: Vec<u8> = Vec::new();
        self.write_to(&mut out);
        assert(out@ =~= self@.to_bytes());
        out
    }

    /// The length of the encoding of the message.
    pub fn compute_size(&self) -> (r: u32)
        requires
            self@.wf(),
            self@.to_bytes().len() <= u32::MAX,
        ensures
            r == self@.to_bytes().len(),
    {
        let v = self.write_to_bytes();
        v.len() as u32
    }
    /// A copy of the message.
    pub fn clone_message(&self) -> (r: Self)
        ensures
            r@ == self@,
    {
        let key = clone_opt_string(&self.key);
        let value = clone_opt_bytes(&self.value);
        let unknown_fields = clone_unknown_fields(&self.unknown_fields);
        UserField { key, value, unknown_fields }
    }

}

impl Clone for UserField {
    fn clone(&self) -> (r: Self)
        ensures
            r@ == self@,
    {
        self.clone_message()
    }
}

impl Default for UserField {
    fn default() -> (r: Self)
        ensures
            r@ == UserFieldModel::empty(),
    {
        UserField::new()
    }
}

} // verus!