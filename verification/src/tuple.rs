//! Tuple descriptors (ordered field names and types) and tuples, with
//! their fixed-layout serialization: the concatenation of the fields'
//! fixed-width byte forms.

use crate::fields::{field_parse_ok, field_parses_to, spec_field_bytes, FieldVal};
use crate::heap_page::{RecordId, PAGE_SIZE};
use crate::types::Type;
use vstd::prelude::*;
use vstd::slice::slice_subrange;

verus! {

/// Relies on str's `PartialEq`: two string slices compare equal exactly
/// when they hold the same characters.
pub assume_specification[ <str as PartialEq>::eq ](a: &str, b: &str) -> (r: bool)
    ensures
        r == (a@ == b@),
;

/// Total serialized width, in bytes, of fields of the given types.
pub open spec fn types_size(s: Seq<Type>) -> nat
    decreases s.len(),
{
    if s.len() == 0 {
        0
    } else {
        types_size(s.drop_last()) + s.last().spec_len()
    }
}

/// A prefix never outweighs the whole.
pub proof fn lemma_types_size_take_le(s: Seq<Type>, i: int)
    requires
        0 <= i <= s.len(),
    ensures
        types_size(s.take(i)) <= types_size(s),
    decreases s.len() - i,
{
    if i < s.len() {
        lemma_types_size_take_le(s, i + 1);
        assert(s.take(i + 1).drop_last() =~= s.take(i));
        assert(types_size(s.take(i)) <= types_size(s.take(i + 1)));
    } else {
        assert(s.take(i) =~= s);
    }
}

/// A schema with at least one field is at least one integer field wide.
pub proof fn lemma_types_size_lower(s: Seq<Type>)
    requires
        s.len() >= 1,
    ensures
        types_size(s) >= 4,
    decreases s.len(),
{
    assert(s.last().spec_len() >= 4);
}

/// The byte offset of field `i` within a serialized tuple.
pub open spec fn field_offset(s: Seq<Type>, i: int) -> nat {
    types_size(s.take(i))
}

/// Offsets grow by exactly the width of the field passed over.
pub proof fn lemma_field_offset_step(s: Seq<Type>, i: int)
    requires
        0 <= i < s.len(),
    ensures
        field_offset(s, i + 1) == field_offset(s, i) + s[i].spec_len(),
{
    assert(s.take(i + 1).drop_last() =~= s.take(i));
}

/// The schema of one table: ordered field types and names. The combined
/// serialized width must leave room for at least one slot in a page.
#[derive(Debug, Clone)]
pub struct TupleDesc {
    pub types: Vec<Type>,
    pub names: Vec<String>,
}

impl TupleDesc {
    /// The serialized width, in bytes, of one tuple of this schema.
    pub open spec fn spec_tuple_size(self) -> nat {
        types_size(self.types@)
    }

    /// A schema is well formed when it has one name per type, at least one
    /// field, and a tuple narrower than a page (so a page holds at least
    /// one slot).
    pub open spec fn wf(self) -> bool {
        &&& self.types@.len() == self.names@.len()
        &&& self.types@.len() >= 1
        &&& self.spec_tuple_size() < PAGE_SIZE
    }

    /// Two schemas agree when their types and their names agree.
    pub open spec fn matches(self, other: TupleDesc) -> bool {
        self.types@ == other.types@ && self.names@ == other.names@
    }

    pub fn new(types: Vec<Type>, names: Vec<String>) -> (r: TupleDesc)
        requires
            types@.len() == names@.len(),
            types@.len() >= 1,
            types_size(types@) < PAGE_SIZE,
        ensures
            r.types == types,
            r.names == names,
            r.wf(),
    {
        TupleDesc { types, names }
    }

    pub fn get_num_fields(&self) -> (r: usize)
        ensures
            r == self.types@.len(),
    {
        self.types.len()
    }

    pub fn get_field_type(&self, i: usize) -> (r: Option<&Type>)
        ensures
            r is Some <==> i < self.types@.len(),
            r is Some ==> *r->0 == self.types@[i as int],
    {
        if i < self.types.len() {
            Some(&self.types[i])
        } else {
            None
        }
    }

    pub fn get_field_name(&self, i: usize) -> (r: Option<&String>)
        ensures
            r is Some <==> i < self.names@.len(),
            r is Some ==> (r->0)@ == self.names@[i as int]@,
    {
        if i < self.names.len() {
            Some(&self.names[i])
        } else {
            None
        }
    }

    /// The index of the first field with the given name, if any.
    pub fn name_to_id(&self, name: &str) -> (r: Option<usize>)
        ensures
            match r {
                Some(i) => {
                    &&& i < self.names@.len()
                    &&& self.names@[i as int]@ == name@
                    &&& forall|j: int| 0 <= j < i ==> (#[trigger] self.names@[j])@ != name@
                },
                None => forall|j: int|
                    0 <= j < self.names@.len() ==> (#[trigger] self.names@[j])@ != name@,
            },
    {
        let n = self.names.len();
        let mut i: usize = 0;
        while i < n
            invariant
                n == self.names@.len(),
                i <= n,
                forall|j: int| 0 <= j < i ==> (#[trigger] self.names@[j])@ != name@,
            decreases n - i,
        {
            if self.names[i].as_str().eq(name) {
                return Some(i);
            }
            i += 1;
        }
        None
    }

    /// Returns the serialized width, in bytes, of one tuple.
    pub fn get_size(&self) -> (r: usize)
        requires
            self.wf(),
        ensures
            r == self.spec_tuple_size(),
    {
        let n = self.types.len();
        let mut acc: usize = 0;
        let mut i: usize = 0;
        while i < n
            invariant
                self.wf(),
                n == self.types@.len(),
                i <= n,
                acc == types_size(self.types@.take(i as int)),
                acc <= self.spec_tuple_size(),
            decreases n - i,
        {
            proof {
                lemma_field_offset_step(self.types@, i as int);
                lemma_types_size_take_le(self.types@, i + 1);
            }
            acc = acc + self.types[i].get_len();
            i += 1;
        }
        proof {
            assert(self.types@.take(n as int) =~= self.types@);
        }
        acc
    }

    /// The schema of two joined tuples: the fields of `left` followed by
    /// the fields of `right`.
    pub fn combine(left: &TupleDesc, right: &TupleDesc) -> (r: TupleDesc)
        requires
            left.wf(),
            right.wf(),
            left.spec_tuple_size() + right.spec_tuple_size() < PAGE_SIZE,
        ensures
            r.types@ == left.types@ + right.types@,
            r.names@ == left.names@ + right.names@,
            r.wf(),
    {
        let mut types: Vec<Type> = Vec::new();
        let mut names: Vec<String> = Vec::new();
        let nl = left.types.len();
        let mut i: usize = 0;
        while i < nl
            invariant
                nl == left.types@.len() <= left.names@.len(),
                i <= nl,
                types@ == left.types@.take(i as int),
                names@ == left.names@.take(i as int),
            decreases nl - i,
        {
            types.push(left.types[i]);
            names.push(left.names[i].clone());
            proof {
                assert(types@ =~= left.types@.take(i + 1));
                assert(names@ =~= left.names@.take(i + 1));
            }
            i += 1;
        }
        let nr = right.types.len();
        let mut j: usize = 0;
        while j < nr
            invariant
                nl == left.types@.len() <= left.names@.len(),
                nr == right.types@.len() <= right.names@.len(),
                j <= nr,
                types@ == left.types@ + right.types@.take(j as int),
                names@ == left.names@ + right.names@.take(j as int),
            decreases nr - j,
        {
            types.push(right.types[j]);
            names.push(right.names[j].clone());
            proof {
                assert(types@ =~= left.types@ + right.types@.take(j + 1));
                assert(names@ =~= left.names@ + right.names@.take(j + 1));
            }
            j += 1;
        }
        proof {
            assert(types@ =~= left.types@ + right.types@);
            assert(left.types@.take(nl as int) =~= left.types@);
            assert(right.types@.take(nr as int) =~= right.types@);
            assert(names@ =~= left.names@ + right.names@);
            lemma_types_size_concat(left.types@, right.types@);
        }
        TupleDesc { types, names }
    }
}

/// Serialized widths add up over concatenated schemas.
pub proof fn lemma_types_size_concat(a: Seq<Type>, b: Seq<Type>)
    ensures
        types_size(a + b) == types_size(a) + types_size(b),
    decreases b.len(),
{
    if b.len() == 0 {
        assert(a + b =~= a);
    } else {
        assert((a + b).drop_last() =~= a + b.drop_last());
        lemma_types_size_concat(a, b.drop_last());
    }
}

/// Serialized field values are exactly as wide as their types say.
pub proof fn lemma_fields_bytes_len(fields: Seq<FieldVal>, types: Seq<Type>)
    requires
        fields.len() == types.len(),
        forall|i: int| 0 <= i < fields.len() ==> (#[trigger] fields[i]).spec_type() == types[i],
    ensures
        spec_fields_bytes(fields).len() == types_size(types),
    decreases fields.len(),
{
    if fields.len() > 0 {
        lemma_fields_bytes_len(fields.drop_last(), types.drop_last());
        crate::fields::lemma_field_bytes_len(fields.last());
    }
}

/// A well-formed tuple serializes to exactly its schema's tuple width.
pub proof fn lemma_tuple_bytes_len(t: Tuple)
    requires
        t.wf(),
    ensures
        t.spec_bytes().len() == t.td.spec_tuple_size(),
{
    lemma_fields_bytes_len(t.fields@, t.td.types@);
}

/// The exact serialized bytes of a sequence of field values.
pub open spec fn spec_fields_bytes(fields: Seq<FieldVal>) -> Seq<u8>
    decreases fields.len(),
{
    if fields.len() == 0 {
        Seq::empty()
    } else {
        spec_fields_bytes(fields.drop_last()) + spec_field_bytes(fields.last())
    }
}

/// One stored record: field values laid out per a schema, optionally
/// carrying the location it was read from.
#[derive(Debug, Clone)]
pub struct Tuple {
    pub td: TupleDesc,
    pub fields: Vec<FieldVal>,
    pub rid: Option<RecordId>,
}

impl Tuple {
    /// A tuple is well formed when its schema is, each field value is,
    /// and the field types follow the schema.
    pub open spec fn wf(self) -> bool {
        &&& self.td.wf()
        &&& self.fields@.len() == self.td.types@.len()
        &&& forall|i: int|
            0 <= i < self.fields@.len() ==> (#[trigger] self.fields@[i]).wf()
                && self.fields@[i].spec_type() == self.td.types@[i]
    }

    /// The exact serialized bytes of this tuple.
    pub open spec fn spec_bytes(self) -> Seq<u8> {
        spec_fields_bytes(self.fields@)
    }

    pub fn new(fields: Vec<FieldVal>, td: &TupleDesc) -> (r: Tuple)
        requires
            td.wf(),
            fields@.len() == td.types@.len(),
            forall|i: int|
                0 <= i < fields@.len() ==> (#[trigger] fields@[i]).wf() && fields@[i].spec_type()
                    == td.types@[i],
        ensures
            r.fields == fields,
            r.td.matches(*td),
            r.rid is None,
            r.wf(),
    {
        Tuple { td: td.clone_desc(), fields, rid: None }
    }

    pub fn get_tuple_desc(&self) -> (r: &TupleDesc)
        ensures
            r == &self.td,
    {
        &self.td
    }

    pub fn get_field(&self, i: usize) -> (r: Option<&FieldVal>)
        ensures
            r is Some <==> i < self.fields@.len(),
            r is Some ==> *r->0 == self.fields@[i as int],
    {
        if i < self.fields.len() {
            Some(&self.fields[i])
        } else {
            None
        }
    }

    pub fn get_fields(&self) -> (r: &Vec<FieldVal>)
        ensures
            r == &self.fields,
    {
        &self.fields
    }

    pub fn get_record_id(&self) -> (r: Option<RecordId>)
        ensures
            r == self.rid,
    {
        self.rid
    }

    pub fn set_record_id(&mut self, rid: RecordId)
        ensures
            *final(self) == (Tuple { rid: Some(rid), ..*old(self) }),
    {
        self.rid = Some(rid);
    }

    /// Serializes the tuple: each field's fixed-width bytes in schema
    /// order, `spec_tuple_size` bytes in all.
    pub fn serialize(&self) -> (r: Vec<u8>)
        requires
            self.wf(),
        ensures
            r@ == self.spec_bytes(),
            r@.len() == self.td.spec_tuple_size(),
    {
        let n = self.fields.len();
        let mut out: Vec<u8> = Vec::new();
        let mut i: usize = 0;
        while i < n
            invariant
                self.wf(),
                n == self.fields@.len(),
                i <= n,
                out@ == spec_fields_bytes(self.fields@.take(i as int)),
                out@.len() == field_offset(self.td.types@, i as int),
            decreases n - i,
        {
            let mut fb = match &self.fields[i] {
                FieldVal::IntField(g) => crate::fields::Field::serialize(g),
                FieldVal::StringField(s) => crate::fields::Field::serialize(s),
            };
            out.append(&mut fb);
            proof {
                assert(self.fields@.take(i + 1).drop_last() =~= self.fields@.take(i as int));
                assert(out@ == spec_fields_bytes(self.fields@.take(i + 1)));
                lemma_field_offset_step(self.td.types@, i as int);
                crate::fields::lemma_field_bytes_len(self.fields@[i as int]);
            }
            i += 1;
        }
        proof {
            assert(self.fields@.take(n as int) =~= self.fields@);
            assert(self.td.types@.take(n as int) =~= self.td.types@);
        }
        out
    }
}

impl TupleDesc {
    /// Clones the schema; the copy agrees with the original.
    pub fn clone_desc(&self) -> (r: TupleDesc)
        ensures
            r.types@ == self.types@,
            r.names@ == self.names@,
            r.wf() == self.wf(),
            r.matches(*self),
    {
        let mut names: Vec<String> = Vec::new();
        let n = self.names.len();
        let mut i: usize = 0;
        while i < n
            invariant
                n == self.names@.len(),
                i <= n,
                names@ == self.names@.take(i as int),
            decreases n - i,
        {
            names.push(self.names[i].clone());
            proof {
                assert(names@ =~= self.names@.take(i + 1));
            }
            i += 1;
        }
        let mut types: Vec<Type> = Vec::new();
        let nt = self.types.len();
        let mut j: usize = 0;
        while j < nt
            invariant
                nt == self.types@.len(),
                j <= nt,
                types@ == self.types@.take(j as int),
            decreases nt - j,
        {
            types.push(self.types[j]);
            proof {
                assert(types@ =~= self.types@.take(j + 1));
            }
            j += 1;
        }
        proof {
            assert(types@ =~= self.types@);
            assert(self.names@.take(n as int) =~= self.names@);
            assert(types@.len() == self.types@.len());
        }
        TupleDesc { types, names }
    }
}

/// Holds when tuple `t` is what parsing recovers from the byte span `b`
/// under schema `td`: every field is pinned by its slice of the bytes.
pub open spec fn tuple_parses_to(td: TupleDesc, b: Seq<u8>, t: Tuple) -> bool {
    &&& t.td.matches(td)
    &&& t.fields@.len() == td.types@.len()
    &&& forall|i: int|
        0 <= i < td.types@.len() ==> field_parses_to(
            td.types@[i],
            b.skip(field_offset(td.types@, i) as int),
            #[trigger] t.fields@[i],
        )
}

/// Holds exactly when parsing the byte span `b` under schema `td`
/// succeeds.
pub open spec fn tuple_parse_ok(td: TupleDesc, b: Seq<u8>) -> bool {
    forall|i: int|
        0 <= i < td.types@.len() ==> field_parse_ok(
            #[trigger] td.types@[i],
            b.skip(field_offset(td.types@, i) as int),
        )
}


/// Within serialized fields, field `i` occupies exactly its own range.
pub proof fn lemma_fields_bytes_slice(fields: Seq<FieldVal>, types: Seq<Type>, i: int)
    requires
        fields.len() == types.len(),
        forall|j: int| 0 <= j < fields.len() ==> (#[trigger] fields[j]).spec_type() == types[j],
        0 <= i < fields.len(),
    ensures
        spec_fields_bytes(fields).subrange(
            field_offset(types, i) as int,
            field_offset(types, i + 1) as int,
        ) == spec_field_bytes(fields[i]),
    decreases fields.len(),
{
    lemma_fields_bytes_len(fields, types);
    lemma_field_offset_step(types, i);
    crate::fields::lemma_field_bytes_len(fields[i]);
    if i == fields.len() - 1 {
        lemma_fields_bytes_len(fields.drop_last(), types.drop_last());
        assert(types.take(i) =~= types.drop_last().take(i));
        lemma_types_size_take_le(types.drop_last(), i);
        assert(field_offset(types, i) == types_size(types.drop_last())) by {
            assert(types.take(i) =~= types.drop_last());
        }
        assert(spec_fields_bytes(fields).subrange(
            field_offset(types, i) as int,
            field_offset(types, i + 1) as int,
        ) =~= spec_field_bytes(fields[i]));
    } else {
        lemma_fields_bytes_slice(fields.drop_last(), types.drop_last(), i);
        lemma_fields_bytes_len(fields.drop_last(), types.drop_last());
        assert(field_offset(types, i) == field_offset(types.drop_last(), i)) by {
            assert(types.take(i) =~= types.drop_last().take(i));
        }
        assert(field_offset(types, i + 1) == field_offset(types.drop_last(), i + 1)) by {
            assert(types.take(i + 1) =~= types.drop_last().take(i + 1));
        }
        lemma_field_offset_step(types.drop_last(), i);
        lemma_types_size_take_le(types.drop_last(), i + 1);
        assert(spec_fields_bytes(fields).subrange(
            field_offset(types, i) as int,
            field_offset(types, i + 1) as int,
        ) =~= spec_fields_bytes(fields.drop_last()).subrange(
            field_offset(types.drop_last(), i) as int,
            field_offset(types.drop_last(), i + 1) as int,
        ));
    }
}

/// Round trip at the tuple level: a well-formed tuple parses back, from
/// its own serialized bytes (followed by anything), to itself — so a
/// scan recovers exactly what an insert wrote into a slot.
pub proof fn lemma_tuple_round_trip(t: Tuple, b: Seq<u8>)
    requires
        t.wf(),
        b.len() >= t.td.spec_tuple_size(),
        b.take(t.td.spec_tuple_size() as int) == t.spec_bytes(),
    ensures
        tuple_parse_ok(t.td, b),
        tuple_parses_to(t.td, b, t),
{
    let types = t.td.types@;
    let ts = t.td.spec_tuple_size() as int;
    crate::tuple::lemma_tuple_bytes_len(t);
    assert forall|i: int| 0 <= i < types.len() implies {
        &&& field_parse_ok(#[trigger] types[i], b.skip(field_offset(types, i) as int))
        &&& field_parses_to(types[i], b.skip(field_offset(types, i) as int), t.fields@[i])
    } by {
        let f = t.fields@[i];
        let off = field_offset(types, i) as int;
        lemma_field_offset_step(types, i);
        lemma_types_size_take_le(types, i + 1);
        lemma_fields_bytes_slice(t.fields@, types, i);
        crate::fields::lemma_field_bytes_len(f);
        let fb = spec_field_bytes(f);
        let rest = b.skip(off);
        assert(rest.take(fb.len() as int) =~= fb) by {
            assert forall|y: int| 0 <= y < fb.len() implies rest[y] == fb[y] by {
                assert(rest[y] == b[off + y]);
                assert(b[off + y] == b.take(ts)[off + y]);
                assert(t.spec_bytes()[off + y] == t.spec_bytes().subrange(
                    off,
                    field_offset(types, i + 1) as int,
                )[y]);
            }
        }
        crate::fields::lemma_field_round_trip(f);
        match types[i] {
            Type::IntType => {
                assert(rest.take(4) =~= fb.take(4));
            },
            Type::StringType => {
                let len = crate::fields::u32_from_be_bytes(fb.take(4));
                assert(rest.take(4) =~= fb.take(4));
                assert(len <= crate::types::STRING_SIZE);
                assert(rest.subrange(4, 4 + len as int) =~= fb.subrange(4, 4 + len as int));
            },
        }
    }
}

/// Schemas that agree parse alike: the parsing relations depend only on
/// the schema's views.
pub proof fn lemma_parses_to_matches(td1: TupleDesc, td2: TupleDesc, b: Seq<u8>, t: Tuple)
    requires
        td1.matches(td2),
    ensures
        tuple_parses_to(td1, b, t) == tuple_parses_to(td2, b, t),
        tuple_parse_ok(td1, b) == tuple_parse_ok(td2, b),
{
    assert(td1.types@ == td2.types@);
}

/// Reads one tuple back from the front of `bytes` under schema `td`.
#[verifier::rlimit(100)]
pub fn parse_tuple(bytes: &[u8], td: &TupleDesc) -> (r: Result<Tuple, String>)
    requires
        td.wf(),
        bytes@.len() >= td.spec_tuple_size(),
    ensures
        r is Ok <==> tuple_parse_ok(*td, bytes@),
        r is Ok ==> tuple_parses_to(*td, bytes@, r->Ok_0) && r->Ok_0.wf(),
{
    let n = td.types.len();
    let mut fields: Vec<FieldVal> = Vec::new();
    let mut off: usize = 0;
    let mut i: usize = 0;
    while i < n
        invariant
            td.wf(),
            n == td.types@.len(),
            bytes@.len() >= td.spec_tuple_size(),
            i <= n,
            off == field_offset(td.types@, i as int),
            off <= td.spec_tuple_size(),
            fields@.len() == i,
            forall|j: int|
                0 <= j < i ==> field_parse_ok(
                    #[trigger] td.types@[j],
                    bytes@.skip(field_offset(td.types@, j) as int),
                ),
            forall|j: int|
                0 <= j < i ==> field_parses_to(
                    td.types@[j],
                    bytes@.skip(field_offset(td.types@, j) as int),
                    #[trigger] fields@[j],
                ) && fields@[j].wf() && fields@[j].spec_type() == td.types@[j],
        decreases n - i,
    {
        proof {
            lemma_field_offset_step(td.types@, i as int);
            lemma_types_size_take_le(td.types@, i + 1);
        }
        let rest = slice_subrange(bytes, off, bytes.len());
        match td.types[i].parse(rest) {
            Ok(f) => {
                fields.push(f);
            },
            Err(e) => {
                proof {
                    assert(!field_parse_ok(td.types@[i as int], bytes@.skip(off as int)));
                }
                return Err(e);
            },
        }
        off = off + td.types[i].get_len();
        i += 1;
    }
    proof {
        assert(td.types@.take(n as int) =~= td.types@);
    }
    let t = Tuple { td: td.clone_desc(), fields, rid: None };
    Ok(t)
}

} // verus!
