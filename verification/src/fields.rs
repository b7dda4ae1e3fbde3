//! Typed field values and their fixed-width byte codec.
//!
//! An integer field serializes to 4 bytes, big-endian two's complement.
//! A string field serializes to a 4-byte big-endian length prefix followed
//! by a fixed [`STRING_SIZE`]-byte payload region holding the string's UTF-8
//! bytes, zero-padded (and truncated if the string is longer).

use crate::types::{Type, STRING_SIZE};
use vstd::prelude::*;
use vstd::utf8::{decode_utf8, encode_utf8, valid_utf8};

verus! {

/// A big-endian 4-byte encoding of a `u32`.
pub open spec fn u32_be_bytes(x: u32) -> Seq<u8> {
    seq![
        (x >> 24) as u8,
        ((x >> 16) & 0xff) as u8,
        ((x >> 8) & 0xff) as u8,
        (x & 0xff) as u8,
    ]
}

/// The `u32` read back from a big-endian 4-byte encoding.
pub open spec fn u32_from_be_bytes(b: Seq<u8>) -> u32
    recommends
        b.len() == 4,
{
    (((b[0] as u32) << 24) | ((b[1] as u32) << 16) | ((b[2] as u32) << 8) | (b[3] as u32)) as u32
}

/// The two's-complement reinterpretation of an `i32` as a `u32`.
pub open spec fn i32_as_u32(x: i32) -> u32 {
    if x >= 0 {
        x as u32
    } else {
        (x + 0x1_0000_0000) as u32
    }
}

/// The two's-complement reinterpretation of a `u32` as an `i32`.
pub open spec fn u32_as_i32(x: u32) -> i32 {
    if x < 0x8000_0000 {
        x as i32
    } else {
        (x - 0x1_0000_0000) as i32
    }
}

/// Reading back the 4 bytes written for `x` yields `x`.
pub proof fn lemma_u32_be_round_trip(x: u32)
    ensures
        u32_from_be_bytes(u32_be_bytes(x)) == x,
{
    let b = u32_be_bytes(x);
    assert(((((x >> 24) as u8) as u32) << 24) | (((((x >> 16) & 0xff) as u8) as u32) << 16) | ((((
    (x >> 8) & 0xff) as u8) as u32) << 8) | (((x & 0xff) as u8) as u32) == x) by (bit_vector);
}

/// The two's-complement reinterpretations invert each other.
pub proof fn lemma_i32_u32_round_trip(x: i32)
    ensures
        u32_as_i32(i32_as_u32(x)) == x,
{
}

/// Serializes `x` as 4 big-endian bytes.
pub fn u32_to_be_vec(x: u32) -> (r: Vec<u8>)
    ensures
        r@ =~= u32_be_bytes(x),
{
    let mut r: Vec<u8> = Vec::new();
    proof {
        assert(x >> 24 <= 0xff && (x >> 16) & 0xff <= 0xff && (x >> 8) & 0xff <= 0xff && x & 0xff
            <= 0xff) by (bit_vector);
    }
    r.push((x >> 24) as u8);
    r.push(((x >> 16) & 0xff) as u8);
    r.push(((x >> 8) & 0xff) as u8);
    r.push((x & 0xff) as u8);
    r
}

/// Reads a `u32` from the first 4 bytes of `b`.
pub fn u32_from_be_slice(b: &[u8]) -> (r: u32)
    requires
        b@.len() >= 4,
    ensures
        r == u32_from_be_bytes(b@.take(4)),
{
    let r: u32 = ((b[0] as u32) << 24) | ((b[1] as u32) << 16) | ((b[2] as u32) << 8) | (
    b[3] as u32);
    proof {
        let s = b@.take(4);
        assert(s[0] == b@[0] && s[1] == b@[1] && s[2] == b@[2] && s[3] == b@[3]);
    }
    r
}

/// Converts an `i32` to its two's-complement `u32` image.
pub fn i32_to_u32(x: i32) -> (r: u32)
    ensures
        r == i32_as_u32(x),
{
    if x >= 0 {
        x as u32
    } else {
        ((x as i64) + 0x1_0000_0000i64) as u32
    }
}

/// Converts a two's-complement `u32` image back to the `i32` it encodes.
pub fn u32_to_i32(x: u32) -> (r: i32)
    ensures
        r == u32_as_i32(x),
{
    if x < 0x8000_0000 {
        x as i32
    } else {
        ((x as i64) - 0x1_0000_0000i64) as i32
    }
}

/// A 32-bit signed integer field value.
#[derive(Debug, PartialEq, Eq, Clone, Copy)]
pub struct IntField {
    pub value: i32,
}

impl IntField {
    pub fn new(value: i32) -> (r: Self)
        ensures
            r.value == value,
    {
        IntField { value }
    }

    pub fn get_value(&self) -> (r: i32)
        ensures
            r == self.value,
    {
        self.value
    }
}

/// A string field value. `len` is the length recorded in the serialized
/// length prefix; a well-formed field records exactly the UTF-8 byte length
/// of `value`, which must fit in the payload region.
#[derive(Debug, PartialEq, Eq, Clone)]
pub struct StringField {
    pub value: String,
    pub len: u32,
}

impl StringField {
    pub fn new(value: String, len: u32) -> (r: Self)
        ensures
            r.value@ == value@,
            r.len == len,
    {
        StringField { value, len }
    }

    pub fn get_value(&self) -> (r: &String)
        ensures
            r@ == self.value@,
    {
        &self.value
    }

    /// A string field is well formed when its recorded length is the UTF-8
    /// byte length of its value and the value fits the payload region.
    pub open spec fn wf(self) -> bool {
        encode_utf8(self.value@).len() == self.len && self.len <= STRING_SIZE
    }
}

/// A field value: the closed sum over the supported field types.
#[derive(Debug, PartialEq, Eq, Clone)]
pub enum FieldVal {
    IntField(IntField),
    StringField(StringField),
}

/// The serialized payload region of a string field: the first
/// `STRING_SIZE` bytes of `b`, zero-padded if `b` is shorter.
pub open spec fn padded_payload(b: Seq<u8>) -> Seq<u8> {
    Seq::new(STRING_SIZE as nat, |i: int| if i < b.len() { b[i] } else { 0u8 })
}

/// The exact serialized bytes of a field value.
pub open spec fn spec_field_bytes(f: FieldVal) -> Seq<u8> {
    match f {
        FieldVal::IntField(g) => u32_be_bytes(i32_as_u32(g.value)),
        FieldVal::StringField(s) => u32_be_bytes(s.len) + padded_payload(encode_utf8(s.value@)),
    }
}

impl FieldVal {
    /// The type tag of this field value.
    pub open spec fn spec_type(self) -> Type {
        match self {
            FieldVal::IntField(_) => Type::IntType,
            FieldVal::StringField(_) => Type::StringType,
        }
    }

    /// A field value is well formed when its serialized width is the fixed
    /// width of its type.
    pub open spec fn wf(self) -> bool {
        match self {
            FieldVal::IntField(_) => true,
            FieldVal::StringField(s) => s.wf(),
        }
    }

    /// Extracts the inner `IntField`, if this is an integer field.
    pub fn into_int(self) -> (r: Option<IntField>)
        ensures
            r is Some <==> self is IntField,
            r is Some ==> self == FieldVal::IntField(r->0),
    {
        match self {
            FieldVal::IntField(int_field) => Some(int_field),
            _ => None,
        }
    }

    /// Extracts the inner `StringField`, if this is a string field.
    pub fn into_string(self) -> (r: Option<StringField>)
        ensures
            r is Some <==> self is StringField,
            r is Some ==> self == FieldVal::StringField(r->0),
    {
        match self {
            FieldVal::StringField(string_field) => Some(string_field),
            _ => None,
        }
    }
}

/// The serialized width of every field value is the width its type reports.
pub proof fn lemma_field_bytes_len(f: FieldVal)
    ensures
        spec_field_bytes(f).len() == f.spec_type().spec_len(),
{
}

/// Capabilities shared by the concrete field kinds: a type tag and a
/// fixed-width serialization.
pub trait Field {
    /// The type tag, as a spec-level value.
    spec fn view_type(&self) -> Type;

    /// This field as the closed sum over field kinds.
    spec fn as_field_val(&self) -> FieldVal;

    /// Returns the type of the field.
    fn get_type(&self) -> (r: Type)
        ensures
            r == self.view_type(),
    ;

    /// Serializes the field into its fixed-width byte form.
    fn serialize(&self) -> (r: Vec<u8>)
        ensures
            r@ == spec_field_bytes(self.as_field_val()),
    ;
}

impl Field for IntField {
    open spec fn view_type(&self) -> Type {
        Type::IntType
    }

    open spec fn as_field_val(&self) -> FieldVal {
        FieldVal::IntField(*self)
    }

    fn get_type(&self) -> (r: Type) {
        Type::IntType
    }

    fn serialize(&self) -> (r: Vec<u8>) {
        u32_to_be_vec(i32_to_u32(self.value))
    }
}

impl Field for StringField {
    open spec fn view_type(&self) -> Type {
        Type::StringType
    }

    open spec fn as_field_val(&self) -> FieldVal {
        FieldVal::StringField(*self)
    }

    fn get_type(&self) -> (r: Type) {
        Type::StringType
    }

    fn serialize(&self) -> (r: Vec<u8>) {
        let mut bytes = u32_to_be_vec(self.len);
        let str_bytes = self.value.as_str().as_bytes_vec();
        let mut i: usize = 0;
        while i < STRING_SIZE
            invariant
                i <= STRING_SIZE,
                str_bytes@ == encode_utf8(self.value@),
                bytes@.len() == 4 + i,
                bytes@.take(4) =~= u32_be_bytes(self.len),
                bytes@.skip(4) =~= padded_payload(str_bytes@).take(i as int),
            decreases STRING_SIZE - i,
        {
            if i < str_bytes.len() {
                bytes.push(str_bytes[i]);
            } else {
                bytes.push(0u8);
            }
            i += 1;
        }
        proof {
            assert(bytes@ =~= bytes@.take(4) + bytes@.skip(4));
            assert(padded_payload(str_bytes@).take(STRING_SIZE as int) =~= padded_payload(
                str_bytes@,
            ));
        }
        bytes
    }
}

/// Holds when the field value `f` is what `Type::parse` recovers from the
/// byte span `b` under type `t`: the value's views are pinned by the bytes.
pub open spec fn field_parses_to(t: Type, b: Seq<u8>, f: FieldVal) -> bool {
    match t {
        Type::IntType => f == FieldVal::IntField(
            IntField { value: u32_as_i32(u32_from_be_bytes(b.take(4))) },
        ),
        Type::StringType => {
            let len = u32_from_be_bytes(b.take(4));
            let payload = b.subrange(4, 4 + len as int);
            &&& f is StringField
            &&& f->StringField_0.len == len
            &&& f->StringField_0.value@ == decode_utf8(payload)
        },
    }
}

/// Holds exactly when `Type::parse` succeeds on the byte span `b` under
/// type `t`.
pub open spec fn field_parse_ok(t: Type, b: Seq<u8>) -> bool {
    match t {
        Type::IntType => b.len() >= 4,
        Type::StringType => {
            let len = u32_from_be_bytes(b.take(4));
            &&& b.len() >= t.spec_len()
            &&& len <= STRING_SIZE
            &&& valid_utf8(b.subrange(4, 4 + len as int))
        },
    }
}

/// Round trip at the field level: a well-formed field value parses back,
/// from its own serialized bytes, to itself.
pub proof fn lemma_field_round_trip(f: FieldVal)
    requires
        f.wf(),
    ensures
        field_parse_ok(f.spec_type(), spec_field_bytes(f)),
        field_parses_to(f.spec_type(), spec_field_bytes(f), f),
{
    lemma_field_bytes_len(f);
    match f {
        FieldVal::IntField(g) => {
            let b = spec_field_bytes(f);
            assert(b.take(4) =~= u32_be_bytes(i32_as_u32(g.value)));
            lemma_u32_be_round_trip(i32_as_u32(g.value));
            lemma_i32_u32_round_trip(g.value);
        },
        FieldVal::StringField(s) => {
            let b = spec_field_bytes(f);
            let enc = encode_utf8(s.value@);
            assert(b.take(4) =~= u32_be_bytes(s.len));
            lemma_u32_be_round_trip(s.len);
            assert(b.subrange(4, 4 + s.len as int) =~= enc);
            vstd::utf8::encode_utf8_valid_utf8(s.value@);
            vstd::utf8::encode_utf8_decode_utf8(s.value@);
        },
    }
}

/// Relies on core::str::from_utf8 together with str::to_owned: decoding
/// succeeds exactly on valid UTF-8 and yields the characters the bytes
/// encode.
#[verifier::external_body]
pub(crate) fn decode_utf8_bytes(b: &[u8]) -> (r: Option<String>)
    ensures
        r is Some <==> valid_utf8(b@),
        r is Some ==> (r->0)@ == decode_utf8(b@),
{
    match core::str::from_utf8(b) {
        Ok(s) => Some(s.to_owned()),
        Err(_) => None,
    }
}

} // verus!
