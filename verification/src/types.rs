//! Field types of the record store and their fixed serialized widths.

use crate::fields::{
    decode_utf8_bytes, field_parse_ok, field_parses_to, u32_from_be_slice, u32_to_i32, FieldVal,
    IntField, StringField,
};
use vstd::prelude::*;
use vstd::slice::slice_subrange;

verus! {

/// Fixed capacity, in bytes, of the payload region of a serialized string
/// field. Together with the 4-byte length prefix, every string field
/// occupies `STRING_SIZE + 4` bytes.
pub const STRING_SIZE: usize = 256;

/// The closed set of field types a table schema may use.
#[derive(Debug, PartialEq, Eq, Clone, Copy, Structural)]
pub enum Type {
    IntType,
    StringType,
}

impl Type {
    /// The serialized width, in bytes, of a field of this type.
    pub open spec fn spec_len(&self) -> nat {
        match self {
            Type::IntType => 4,
            Type::StringType => (STRING_SIZE + 4) as nat,
        }
    }

    /// Returns the serialized width, in bytes, of a field of this type.
    pub fn get_len(&self) -> (r: usize)
        ensures
            r == self.spec_len(),
    {
        match self {
            Type::IntType => 4,
            Type::StringType => STRING_SIZE + 4,
        }
    }

    /// Reads one field of this type back from the front of `bytes`.
    ///
    /// Succeeds exactly when the span is long enough and, for a string
    /// field, the recorded length fits the payload region and the payload
    /// decodes as UTF-8; the recovered value is pinned by the bytes.
    pub fn parse(&self, bytes: &[u8]) -> (r: Result<FieldVal, String>)
        ensures
            r is Ok <==> field_parse_ok(*self, bytes@),
            r is Ok ==> field_parses_to(*self, bytes@, r->Ok_0),
            r is Ok ==> r->Ok_0.wf() && r->Ok_0.spec_type() == *self,
    {
        match self {
            Type::IntType => {
                if bytes.len() < 4 {
                    return Err("integer field needs 4 bytes".to_owned());
                }
                let x = u32_from_be_slice(bytes);
                Ok(FieldVal::IntField(IntField::new(u32_to_i32(x))))
            },
            Type::StringType => {
                if bytes.len() < STRING_SIZE + 4 {
                    return Err("string field is shorter than its fixed width".to_owned());
                }
                let len = u32_from_be_slice(bytes);
                if len as usize > STRING_SIZE {
                    return Err("string length prefix exceeds the payload region".to_owned());
                }
                let payload = slice_subrange(bytes, 4, 4 + len as usize);
                match decode_utf8_bytes(payload) {
                    Some(s) => {
                        proof {
                            vstd::utf8::decode_utf8_encode_utf8(payload@);
                        }
                        Ok(FieldVal::StringField(StringField::new(s, len)))
                    },
                    None => Err("string payload is not valid UTF-8".to_owned()),
                }
            },
        }
    }
}

} // verus!

