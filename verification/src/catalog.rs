//! The catalog: the registry mapping table names and table identifiers to
//! heap files and their schemas.

use crate::errors::DbError;
use crate::heap_file::HeapFile;
use crate::heap_page::PAGE_SIZE;
use crate::tuple::{types_size, TupleDesc};
use crate::types::Type;
use vstd::prelude::*;
use vstd::slice::slice_subrange;
use vstd::string::StringSliceAdditionalSpecFns;

verus! {

/// One registered table: its name, its declared primary-key field name
/// (empty when none was declared), and its heap file.
pub struct CatalogEntry {
    pub name: String,
    pub primary_key: String,
    pub file: HeapFile,
}

/// Some entry carries the table id.
pub open spec fn has_table_id(s: Seq<CatalogEntry>, id: u64) -> bool {
    exists|i: int| 0 <= i < s.len() && (#[trigger] s[i]).file.id == id
}

/// The file registered under `id` (the unique one, in a well-formed
/// catalog).
pub open spec fn table_by_id(s: Seq<CatalogEntry>, id: u64) -> HeapFile {
    s[choose|i: int| 0 <= i < s.len() && (#[trigger] s[i]).file.id == id].file
}

/// Some entry carries the table name.
pub open spec fn has_table_name(s: Seq<CatalogEntry>, name: Seq<char>) -> bool {
    exists|i: int| 0 <= i < s.len() && (#[trigger] s[i]).name@ == name
}

/// The registry of tables.
pub struct Catalog {
    pub entries: Vec<CatalogEntry>,
}

impl Catalog {
    /// Every file is well formed; no table id and no table name is
    /// registered twice.
    pub open spec fn wf(self) -> bool {
        &&& forall|i: int| 0 <= i < self.entries@.len() ==> (#[trigger] self.entries@[i]).file.wf()
        &&& forall|i: int, j: int|
            0 <= i < self.entries@.len() && 0 <= j < self.entries@.len() && i != j ==> (
            #[trigger] self.entries@[i]).file.id != (#[trigger] self.entries@[j]).file.id
        &&& forall|i: int, j: int|
            0 <= i < self.entries@.len() && 0 <= j < self.entries@.len() && i != j ==> (
            #[trigger] self.entries@[i]).name@ != (#[trigger] self.entries@[j]).name@
    }

    /// Creates an empty catalog.
    pub fn new() -> (r: Catalog)
        ensures
            r.wf(),
            r.entries@.len() == 0,
    {
        Catalog { entries: Vec::new() }
    }

    /// Registers a table under a name, with a declared primary-key field.
    /// A name or table id already registered is refused with
    /// `InvalidState` and changes nothing.
    pub fn add_table_with_primary_key(&mut self, file: HeapFile, name: String, key: String) -> (r:
        Result<(), DbError>)
        requires
            old(self).wf(),
            file.wf(),
        ensures
            final(self).wf(),
            r is Ok <==> !has_table_id(old(self).entries@, file.id) && !has_table_name(
                old(self).entries@,
                name@,
            ),
            r is Err ==> final(self).entries@ == old(self).entries@ && r->Err_0
                == DbError::InvalidState,
            r is Ok ==> {
                &&& final(self).entries@.len() == old(self).entries@.len() + 1
                &&& final(self).entries@.last().file == file
                &&& final(self).entries@.last().name@ == name@
                &&& final(self).entries@.last().primary_key@ == key@
                &&& forall|i: int|
                    0 <= i < old(self).entries@.len() ==> final(self).entries@[i] == old(
                        self,
                    ).entries@[i]
            },
    {
        let n = self.entries.len();
        let mut i: usize = 0;
        while i < n
            invariant
                self.wf(),
                self == old(self),
                n == self.entries@.len(),
                i <= n,
                forall|j: int|
                    0 <= j < i ==> (#[trigger] self.entries@[j]).file.id != file.id
                        && self.entries@[j].name@ != name@,
            decreases n - i,
        {
            if self.entries[i].file.get_id() == file.get_id() {
                return Err(DbError::InvalidState);
            }
            if self.entries[i].name.as_str().eq(name.as_str()) {
                return Err(DbError::InvalidState);
            }
            i += 1;
        }
        self.entries.push(CatalogEntry { name, primary_key: key, file });
        Ok(())
    }

    /// Registers a table under a name, with no primary key declared.
    pub fn add_table(&mut self, file: HeapFile, name: String) -> (r: Result<(), DbError>)
        requires
            old(self).wf(),
            file.wf(),
        ensures
            final(self).wf(),
            r is Ok <==> !has_table_id(old(self).entries@, file.id) && !has_table_name(
                old(self).entries@,
                name@,
            ),
            r is Err ==> final(self).entries@ == old(self).entries@ && r->Err_0
                == DbError::InvalidState,
            r is Ok ==> {
                &&& final(self).entries@.len() == old(self).entries@.len() + 1
                &&& final(self).entries@.last().file == file
                &&& final(self).entries@.last().name@ == name@
                &&& final(self).entries@.last().primary_key@ == Seq::<char>::empty()
                &&& forall|i: int|
                    0 <= i < old(self).entries@.len() ==> final(self).entries@[i] == old(
                        self,
                    ).entries@[i]
            },
    {
        self.add_table_with_primary_key(file, name, String::new())
    }

    /// The position of the table registered under `id`, if any.
    pub fn index_of_id(&self, id: u64) -> (r: Option<usize>)
        requires
            self.wf(),
        ensures
            r is Some <==> has_table_id(self.entries@, id),
            r is Some ==> r->0 < self.entries@.len() && self.entries@[r->0 as int].file.id == id
                && table_by_id(self.entries@, id) == self.entries@[r->0 as int].file,
    {
        let n = self.entries.len();
        let mut i: usize = 0;
        while i < n
            invariant
                self.wf(),
                n == self.entries@.len(),
                i <= n,
                forall|j: int| 0 <= j < i ==> (#[trigger] self.entries@[j]).file.id != id,
            decreases n - i,
        {
            if self.entries[i].file.get_id() == id {
                proof {
                    lemma_table_at_index(self.entries@, i as int, id);
                }
                return Some(i);
            }
            i += 1;
        }
        None
    }

    /// The table registered under `name`, if any.
    pub fn get_table_from_name(&self, name: &str) -> (r: Option<&HeapFile>)
        requires
            self.wf(),
        ensures
            r is Some <==> has_table_name(self.entries@, name@),
            r is Some ==> exists|i: int|
                0 <= i < self.entries@.len() && (#[trigger] self.entries@[i]).name@ == name@
                    && self.entries@[i].file == *r->0,
    {
        let n = self.entries.len();
        let mut i: usize = 0;
        while i < n
            invariant
                self.wf(),
                n == self.entries@.len(),
                i <= n,
                forall|j: int| 0 <= j < i ==> (#[trigger] self.entries@[j]).name@ != name@,
            decreases n - i,
        {
            if self.entries[i].name.as_str().eq(name) {
                return Some(&self.entries[i].file);
            }
            i += 1;
        }
        None
    }

    /// The table registered under `id`, if any.
    pub fn get_table_from_id(&self, id: u64) -> (r: Option<&HeapFile>)
        requires
            self.wf(),
        ensures
            r is Some <==> has_table_id(self.entries@, id),
            r is Some ==> *r->0 == table_by_id(self.entries@, id),
    {
        match self.index_of_id(id) {
            Some(i) => Some(&self.entries[i].file),
            None => None,
        }
    }

    /// Borrows the file at entry `i` for writing; only that file changes.
    pub fn get_file_mut(&mut self, i: usize) -> (r: &mut HeapFile)
        requires
            i < old(self).entries@.len(),
        ensures
            *r == old(self).entries@[i as int].file,
            final(self).entries@ == old(self).entries@.update(
                i as int,
                CatalogEntry { file: *final(r), ..old(self).entries@[i as int] },
            ),
    {
        &mut self.entries[i].file
    }

    /// A copy of the schema of the table registered under `id`, if any.
    pub fn get_tuple_desc(&self, table_id: u64) -> (r: Option<TupleDesc>)
        requires
            self.wf(),
        ensures
            r is Some <==> has_table_id(self.entries@, table_id),
            r is Some ==> (r->0).matches(table_by_id(self.entries@, table_id).td) && (r->0).wf(),
    {
        match self.index_of_id(table_id) {
            Some(i) => Some(self.entries[i].file.get_tuple_desc().clone_desc()),
            None => None,
        }
    }
}


/// The bytes of `b` that are not spaces, in order.
pub open spec fn strip_spec(b: Seq<u8>) -> Seq<u8> {
    b.filter(|x: u8| x != 32)
}

/// Collects the non-space bytes of `bytes[from..to]`.
fn strip_spaces(bytes: &[u8], from: usize, to: usize) -> (r: Vec<u8>)
    requires
        from <= to <= bytes@.len(),
    ensures
        r@ == strip_spec(bytes@.subrange(from as int, to as int)),
{
    let mut out: Vec<u8> = Vec::new();
    let mut i: usize = from;
    while i < to
        invariant
            from <= i <= to <= bytes@.len(),
            out@ == strip_spec(bytes@.subrange(from as int, i as int)),
        decreases to - i,
    {
        proof {
            assert(bytes@.subrange(from as int, i + 1).drop_last() =~= bytes@.subrange(
                from as int,
                i as int,
            ));
            reveal(Seq::filter);
        }
        if bytes[i] != 32u8 {
            out.push(bytes[i]);
        }
        proof {
            assert(bytes@.subrange(from as int, i + 1).last() == bytes@[i as int]);
        }
        i += 1;
    }
    out
}

/// The position of the first `target` at or after `from`, if any.
fn find_byte(bytes: &[u8], from: usize, target: u8) -> (r: Option<usize>)
    requires
        from <= bytes@.len(),
    ensures
        r is Some ==> from <= r->0 < bytes@.len() && bytes@[r->0 as int] == target && (forall|
            j: int,
        | from <= j < r->0 ==> bytes@[j] != target),
        r is None ==> forall|j: int| from <= j < bytes@.len() ==> bytes@[j] != target,
    {
    let n = bytes.len();
    let mut i: usize = from;
    while i < n
        invariant
            from <= i <= n,
            n == bytes@.len(),
            forall|j: int| from <= j < i ==> bytes@[j] != target,
        decreases n - i,
    {
        if bytes[i] == target {
            return Some(i);
        }
        i += 1;
    }
    None
}

/// Whether the two byte strings are equal.
fn bytes_eq(a: &Vec<u8>, b: &[u8]) -> (r: bool)
    ensures
        r == (a@ =~= b@),
{
    if a.len() != b.len() {
        return false;
    }
    let n = a.len();
    let mut i: usize = 0;
    while i < n
        invariant
            n == a@.len() == b@.len(),
            i <= n,
            forall|j: int| 0 <= j < i ==> a@[j] == b@[j],
        decreases n - i,
    {
        if a[i] != b[i] {
            return false;
        }
        i += 1;
    }
    proof {
        assert(a@ =~= b@);
    }
    true
}


/// The serialized name of the integer type in a schema line.
pub open spec fn int_token() -> Seq<u8> {
    seq![73u8, 110u8, 116u8]
}

/// The serialized name of the string type in a schema line.
pub open spec fn string_token() -> Seq<u8> {
    seq![83u8, 116u8, 114u8, 105u8, 110u8, 103u8]
}

/// One field segment of a schema line: within `[start, end)` the first
/// colon sits at `colon`; the space-stripped part before it decodes to
/// the field's name and the part after it is the type token, `Int` or
/// `String`, mapped to the field's type. The segment runs to the first
/// comma, or to `close` when none is left.
pub open spec fn schema_segment_ok(
    line: Seq<u8>,
    close: int,
    seg: (int, int, int),
    name: String,
    ty: Type,
) -> bool {
    let (st, co, en) = seg;
    let name_bytes = strip_spec(line.subrange(st, co));
    let ty_bytes = strip_spec(line.subrange(co + 1, en));
    &&& 0 <= st <= co < en <= close <= line.len()
    &&& line[co] == 58
    &&& (forall|j: int| st <= j < co ==> line[j] != 58)
    &&& (forall|j: int| st <= j < en ==> line[j] != 44)
    &&& (en < close ==> line[en] == 44)
    &&& vstd::utf8::valid_utf8(name_bytes)
    &&& name@ == vstd::utf8::decode_utf8(name_bytes)
    &&& (ty_bytes == int_token() || ty_bytes == string_token())
    &&& ty == (if ty_bytes == int_token() {
        Type::IntType
    } else {
        Type::StringType
    })
}

/// The whole field list of a schema line is tiled by its segments: they
/// start after the opening parenthesis, abut at their separating commas,
/// and the last one reaches the closing parenthesis (or the comma just
/// before it).
pub open spec fn schema_fields_ok(
    line: Seq<u8>,
    open: int,
    close: int,
    segs: Seq<(int, int, int)>,
    names: Seq<String>,
    types: Seq<Type>,
) -> bool {
    &&& segs.len() == names.len()
    &&& segs.len() == types.len()
    &&& segs.len() >= 1
    &&& (forall|i: int|
        0 <= i < segs.len() ==> schema_segment_ok(
            line,
            close,
            #[trigger] segs[i],
            names[i],
            types[i],
        ))
    &&& segs[0].0 == open + 1
    &&& (forall|i: int| 1 <= i < segs.len() ==> (#[trigger] segs[i]).0 == segs[i - 1].2 + 1)
    &&& close - 1 <= segs.last().2 <= close
}

/// A parse of one schema line: `name` is the space-stripped prefix up to
/// the first opening parenthesis, decoded as UTF-8, and `names`/`types`
/// are the colon-split field segments up to the first closing
/// parenthesis, in line order.
pub open spec fn schema_line_ok(
    line: Seq<u8>,
    name: Seq<char>,
    names: Seq<String>,
    types: Seq<Type>,
) -> bool {
    exists|open: int, close: int, segs: Seq<(int, int, int)>|
        #![trigger schema_fields_ok(line, open, close, segs, names, types)]
        {
            &&& 0 <= open < close < line.len()
            &&& line[open] == 40u8
            &&& (forall|j: int| 0 <= j < open ==> line[j] != 40u8)
            &&& line[close] == 41u8
            &&& (forall|j: int| open <= j < close ==> line[j] != 41u8)
            &&& vstd::utf8::valid_utf8(strip_spec(line.subrange(0, open)))
            &&& name == vstd::utf8::decode_utf8(strip_spec(line.subrange(0, open)))
            &&& schema_fields_ok(line, open, close, segs, names, types)
        }
}

/// Parses one schema line of the form `name (field: Type, ...)` into a
/// table name and a well-formed schema. The field types are `Int` and
/// `String`; anything else, a missing parenthesis, an empty field list,
/// or a schema too wide for a page is refused.
pub fn parse_schema_line(line: &[u8]) -> (r: Result<(String, TupleDesc), DbError>)
    ensures
        r is Ok ==> (r->Ok_0).1.wf(),
        // the table name is the line's space-stripped prefix up to the
        // first parenthesis, and the fields are the colon-split segments
        // up to the first closing parenthesis, in line order, with `Int`
        // and `String` mapped to the field types
        r is Ok ==> schema_line_ok(line@, (r->Ok_0).0@, (r->Ok_0).1.names@, (r->Ok_0).1.types@),
{
    let open = match find_byte(line, 0, 40u8) {
        Some(i) => i,
        None => {
            return Err(DbError::InvalidState);
        },
    };
    let close = match find_byte(line, open, 41u8) {
        Some(i) => i,
        None => {
            return Err(DbError::InvalidState);
        },
    };
    let name_bytes = strip_spaces(line, 0, open);
    let name = match crate::fields::decode_utf8_bytes(name_bytes.as_slice()) {
        Some(s) => s,
        None => {
            return Err(DbError::InvalidState);
        },
    };
    let mut types: Vec<Type> = Vec::new();
    let mut names: Vec<String> = Vec::new();
    let mut total: usize = 0;
    let mut pos: usize = open + 1;
    let ghost mut segs: Seq<(int, int, int)> = Seq::empty();
    while pos < close
        invariant_except_break
            segs.len() >= 1 ==> segs.last().2 < close,
            pos as int == if segs.len() == 0 {
                open + 1
            } else {
                segs.last().2 + 1
            },
        invariant
            open < close < line@.len(),
            types@.len() == names@.len(),
            types@.len() == segs.len(),
            total == types_size(types@),
            total < PAGE_SIZE,
            forall|i: int|
                0 <= i < segs.len() ==> schema_segment_ok(
                    line@,
                    close as int,
                    #[trigger] segs[i],
                    names@[i],
                    types@[i],
                ),
            segs.len() >= 1 ==> segs[0].0 == open + 1,
            forall|i: int| 1 <= i < segs.len() ==> (#[trigger] segs[i]).0 == segs[i - 1].2 + 1,
        ensures
            types@.len() == names@.len(),
            types@.len() == segs.len(),
            total == types_size(types@),
            total < PAGE_SIZE,
            forall|i: int|
                0 <= i < segs.len() ==> schema_segment_ok(
                    line@,
                    close as int,
                    #[trigger] segs[i],
                    names@[i],
                    types@[i],
                ),
            segs.len() >= 1 ==> segs[0].0 == open + 1,
            forall|i: int| 1 <= i < segs.len() ==> (#[trigger] segs[i]).0 == segs[i - 1].2 + 1,
            segs.len() >= 1 ==> close - 1 <= segs.last().2 <= close,
        decreases close - pos,
    {
        let comma = find_byte(line, pos, 44u8);
        let end = match comma {
            Some(i) => {
                if i < close {
                    i
                } else {
                    close
                }
            },
            None => close,
        };
        proof {
            assert(forall|j: int| pos <= j < end ==> line@[j] != 44);
            assert((end as int) < close ==> line@[end as int] == 44);
        }
        let colon = match find_byte(line, pos, 58u8) {
            Some(i) => {
                if i < end {
                    i
                } else {
                    return Err(DbError::InvalidState);
                }
            },
            None => {
                return Err(DbError::InvalidState);
            },
        };
        let fname_bytes = strip_spaces(line, pos, colon);
        let ftype_bytes = strip_spaces(line, colon + 1, end);
        let fname = match crate::fields::decode_utf8_bytes(fname_bytes.as_slice()) {
            Some(s) => s,
            None => {
                return Err(DbError::InvalidState);
            },
        };
        let ty = if bytes_eq(&ftype_bytes, "Int".as_bytes()) {
            proof {
                reveal_strlit("Int");
                broadcast use vstd::string::is_ascii_spec_bytes;

                assert(vstd::string::is_ascii("Int"));
                assert(ftype_bytes@ =~= int_token());
            }
            Type::IntType
        } else if bytes_eq(&ftype_bytes, "String".as_bytes()) {
            proof {
                reveal_strlit("String");
                broadcast use vstd::string::is_ascii_spec_bytes;

                assert(vstd::string::is_ascii("String"));
                assert(ftype_bytes@ =~= string_token());
                reveal_strlit("Int");
                assert(vstd::string::is_ascii("Int"));
                assert(ftype_bytes@ != int_token());
            }
            Type::StringType
        } else {
            return Err(DbError::InvalidState);
        };
        let w = ty.get_len();
        if w >= PAGE_SIZE - total {
            return Err(DbError::InvalidState);
        }
        let ghost types0 = types@;
        let ghost segs0 = segs;
        types.push(ty);
        names.push(fname);
        total = total + w;
        proof {
            assert(types@.drop_last() =~= types0);
            segs = segs.push((pos as int, colon as int, end as int));
            assert(schema_segment_ok(
                line@,
                close as int,
                (pos as int, colon as int, end as int),
                names@[segs.len() - 1],
                types@[segs.len() - 1],
            ));
            assert forall|i: int| 0 <= i < segs.len() implies schema_segment_ok(
                line@,
                close as int,
                #[trigger] segs[i],
                names@[i],
                types@[i],
            ) by {
                if i < segs0.len() {
                    assert(segs[i] == segs0[i]);
                    assert(names@[i] == names@.drop_last()[i]);
                    assert(types@[i] == types0[i]);
                }
            }
        }
        if end >= close {
            break ;
        }
        pos = end + 1;
    }
    if types.len() == 0 {
        return Err(DbError::InvalidState);
    }
    let td = TupleDesc::new(types, names);
    proof {
        assert({
            &&& 0 <= (open as int) && (open as int) < (close as int) && (close as int)
                < line@.len()
            &&& line@[open as int] == 40u8
            &&& (forall|j: int| 0 <= j < open as int ==> line@[j] != 40u8)
            &&& line@[close as int] == 41u8
            &&& (forall|j: int| open as int <= j < close as int ==> line@[j] != 41u8)
            &&& vstd::utf8::valid_utf8(strip_spec(line@.subrange(0, open as int)))
            &&& name@ == vstd::utf8::decode_utf8(strip_spec(line@.subrange(0, open as int)))
            &&& schema_fields_ok(line@, open as int, close as int, segs, td.names@, td.types@)
        });
        assert(schema_line_ok(line@, name@, td.names@, td.types@));
    }
    Ok((name, td))
}


/// The entry was read off one newline-delimited line of the schema text:
/// its name and its file's schema are that line's parse.
pub open spec fn entry_from_schema_text(b: Seq<u8>, e: CatalogEntry) -> bool {
    exists|st: int, en: int|
        #![trigger b.subrange(st, en)]
        {
            &&& 0 <= st <= en <= b.len()
            &&& (st == 0 || b[st - 1] == 10)
            &&& (en == b.len() || b[en] == 10)
            &&& (forall|j: int| st <= j < en ==> b[j] != 10)
            &&& schema_line_ok(b.subrange(st, en), e.name@, e.file.td.names@, e.file.td.types@)
        }
}

impl Catalog {
    /// Loads tables from a schema description: one table per line, as
    /// `parse_schema_line` reads it (blank lines are skipped); each table
    /// gets a fresh, empty heap file. Stops with the first bad line or
    /// duplicate registration, keeping the tables registered so far.
    pub fn load_schema(&mut self, schema_text: &str) -> (r: Result<(), DbError>)
        requires
            old(self).wf(),
        ensures
            final(self).wf(),
            final(self).entries@.len() >= old(self).entries@.len(),
            forall|i: int|
                0 <= i < old(self).entries@.len() ==> final(self).entries@[i] == old(
                    self,
                ).entries@[i],
            // every table this call registered starts with an empty file
            // and carries the name and schema of one line of the text
            forall|k: int|
                old(self).entries@.len() <= k < final(self).entries@.len() ==> (#[trigger] final(self).entries@[k]).file.disk_view().len() == 0 && entry_from_schema_text(
                    schema_text.spec_bytes(),
                    final(self).entries@[k],
                ),
    {
        let bytes = schema_text.as_bytes_vec();
        let n = bytes.len();
        let ghost entries0 = self.entries@;
        let mut start: usize = 0;
        while start < n
            invariant
                self.wf(),
                n == bytes@.len(),
                start <= n,
                entries0 == old(self).entries@,
                self.entries@.len() >= entries0.len(),
                forall|i: int| 0 <= i < entries0.len() ==> self.entries@[i] == entries0[i],
                forall|k: int|
                    entries0.len() <= k < self.entries@.len() ==> (#[trigger] self.entries@[k]).file.disk_view().len() == 0 && entry_from_schema_text(
                        bytes@,
                        self.entries@[k],
                    ),
                bytes@ == schema_text.spec_bytes(),
                start == 0 || bytes@[start as int - 1] == 10,
            decreases n - start,
        {
            let end = match find_byte(bytes.as_slice(), start, 10u8) {
                Some(i) => i,
                None => n,
            };
            let stripped = strip_spaces(bytes.as_slice(), start, end);
            if stripped.len() > 0 {
                let line = slice_subrange(bytes.as_slice(), start, end);
                let (name, td) = parse_schema_line(line)?;
                let file = HeapFile::new(td);
                let ghost pre = self.entries@;
                match self.add_table(file, name) {
                    Ok(()) => {
                        proof {
                            assert(forall|i: int|
                                0 <= i < pre.len() ==> self.entries@[i] == pre[i]);
                            let e = self.entries@.last();
                            assert(entry_from_schema_text(bytes@, e)) by {
                                assert({
                                    &&& 0 <= start as int <= end as int <= bytes@.len()
                                    &&& (start as int == 0 || bytes@[start as int - 1] == 10)
                                    &&& (end as int == bytes@.len() || bytes@[end as int] == 10)
                                    &&& (forall|j: int|
                                        start as int <= j < end as int ==> bytes@[j] != 10)
                                    &&& schema_line_ok(
                                        bytes@.subrange(start as int, end as int),
                                        e.name@,
                                        e.file.td.names@,
                                        e.file.td.types@,
                                    )
                                });
                            }
                        }
                    },
                    Err(e) => {
                        return Err(e);
                    },
                }
            }
            if end >= n {
                break ;
            }
            start = end + 1;
        }
        Ok(())
    }
}

/// In a well-formed catalog, the entry at a matching index is the
/// registered table.
pub proof fn lemma_table_at_index(s: Seq<CatalogEntry>, i: int, id: u64)
    requires
        forall|a: int, b: int|
            0 <= a < s.len() && 0 <= b < s.len() && a != b ==> (#[trigger] s[a]).file.id != (
            #[trigger] s[b]).file.id,
        0 <= i < s.len(),
        s[i].file.id == id,
    ensures
        has_table_id(s, id),
        table_by_id(s, id) == s[i].file,
{
    assert(has_table_id(s, id));
    let j = choose|j: int| 0 <= j < s.len() && (#[trigger] s[j]).file.id == id;
    assert(j == i);
}

} // verus!
