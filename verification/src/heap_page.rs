//! Page identifiers, record identifiers, access permissions, and the
//! slotted page itself.
//!
//! A page is a fixed `PAGE_SIZE`-byte unit: a header of one occupancy bit
//! per slot (rounded up to whole bytes), followed by the slots, each
//! exactly one serialized tuple wide, followed by zero padding.

use crate::errors::DbError;
use crate::tuple::{parse_tuple, tuple_parse_ok, tuple_parses_to, Tuple, TupleDesc};
use vstd::arithmetic::div_mod::lemma_fundamental_div_mod;
use vstd::prelude::*;

verus! {

/// Size, in bytes, of one page: the unit of disk I/O and caching.
pub const PAGE_SIZE: usize = 4096;

/// Uniquely addresses one page within one table's file.
#[derive(Debug, PartialEq, Eq, Clone, Copy, Hash, Structural)]
pub struct HeapPageId {
    pub table_id: u64,
    pub page_number: u32,
}

impl HeapPageId {
    pub fn new(table_id: u64, page_number: u32) -> (r: Self)
        ensures
            r == (HeapPageId { table_id, page_number }),
    {
        HeapPageId { table_id, page_number }
    }

    pub fn get_table_id(&self) -> (r: u64)
        ensures
            r == self.table_id,
    {
        self.table_id
    }

    pub fn get_page_number(&self) -> (r: u32)
        ensures
            r == self.page_number,
    {
        self.page_number
    }
}

/// The storage location of one tuple: a page and a slot within it.
/// Dangling once the slot is cleared.
#[derive(Debug, PartialEq, Eq, Clone, Copy, Hash, Structural)]
pub struct RecordId {
    pub page_id: HeapPageId,
    pub slot_number: u32,
}

impl RecordId {
    pub fn new(page_id: HeapPageId, slot_number: u32) -> (r: Self)
        ensures
            r == (RecordId { page_id, slot_number }),
    {
        RecordId { page_id, slot_number }
    }

    pub fn get_page_id(&self) -> (r: HeapPageId)
        ensures
            r == self.page_id,
    {
        self.page_id
    }

    pub fn get_slot_number(&self) -> (r: u32)
        ensures
            r == self.slot_number,
    {
        self.slot_number
    }
}

/// The access a caller requests on a page; it decides which lock the
/// buffer pool takes on the caller's behalf.
#[derive(Debug, PartialEq, Eq, Clone, Copy, Structural)]
pub enum Permission {
    Read,
    Write,
}

/// The number of slots a page holds for tuples `ts` bytes wide: the
/// largest count whose slots and occupancy bits (one per slot) fit in
/// `PAGE_SIZE` bytes.
pub open spec fn slots_per_page(ts: nat) -> nat {
    ((PAGE_SIZE * 8) as nat) / (8 * ts + 1)
}

/// The page header size in bytes: one bit per slot, rounded up.
pub open spec fn header_size(ns: nat) -> nat {
    (ns + 7) / 8
}

/// The slot count is at least one and, with its header, fits in a page.
pub proof fn lemma_page_geometry(ts: nat)
    requires
        1 <= ts < PAGE_SIZE,
    ensures
        1 <= slots_per_page(ts) <= PAGE_SIZE * 8,
        header_size(slots_per_page(ts)) + slots_per_page(ts) * ts <= PAGE_SIZE,
{
    let d = (8 * ts + 1) as int;
    let s = slots_per_page(ts) as int;
    let h = header_size(slots_per_page(ts)) as int;
    let p = s * (ts as int);
    lemma_fundamental_div_mod(32768int, d);
    assert(s == 32768int / d);
    assert(0 <= 32768int % d < d);
    assert(d * s <= 32768);
    if s == 0 {
        assert(d * s == 0) by (nonlinear_arith)
            requires
                s == 0,
        ;
        assert(32768int == 32768int % d);
        assert(d <= 8 * (PAGE_SIZE - 1) + 1);
        assert(false);
    }
    assert(d * s == 8 * p + s) by (nonlinear_arith)
        requires
            d == 8 * ts + 1 && p == s * ts,
    ;
    lemma_fundamental_div_mod(s + 7, 8int);
    assert(8 * h <= s + 7);
    assert(s <= 32768) by {
        assert(d * s >= 9 * s) by (nonlinear_arith)
            requires
                d >= 9 && s >= 0,
        ;
    }
    assert(8 * p + s <= 32768);
    assert(8 * (h + p) <= 32775);
    assert(h + p <= PAGE_SIZE);
}

/// How many of the given occupancy bits are clear.
pub open spec fn count_free(s: Seq<bool>) -> nat
    decreases s.len(),
{
    if s.len() == 0 {
        0
    } else {
        count_free(s.drop_last()) + if s.last() {
            0nat
        } else {
            1nat
        }
    }
}

/// With every occupancy bit clear, every slot is free.
pub proof fn lemma_count_free_all_clear(s: Seq<bool>)
    requires
        forall|i: int| 0 <= i < s.len() ==> !(#[trigger] s[i]),
    ensures
        count_free(s) == s.len(),
    decreases s.len(),
{
    if s.len() > 0 {
        lemma_count_free_all_clear(s.drop_last());
    }
}

/// No slot is free exactly when every occupancy bit is set.
pub proof fn lemma_count_free_zero(s: Seq<bool>)
    ensures
        count_free(s) == 0 <==> (forall|i: int| 0 <= i < s.len() ==> s[i]),
    decreases s.len(),
{
    if s.len() > 0 {
        lemma_count_free_zero(s.drop_last());
        if count_free(s) == 0 {
            assert forall|i: int| 0 <= i < s.len() implies s[i] by {
                if i < s.len() - 1 {
                    assert(s.drop_last()[i] == s[i]);
                }
            }
        } else {
            if forall|i: int| 0 <= i < s.len() ==> s[i] {
                assert(forall|i: int|
                    0 <= i < s.drop_last().len() ==> #[trigger] s.drop_last()[i] == s[i]);
                assert(s.last());
                assert(false);
            }
        }
    }
}

/// The slot numbers of the occupied slots, in ascending order.
pub open spec fn occupied_indices(s: Seq<bool>) -> Seq<int>
    decreases s.len(),
{
    if s.len() == 0 {
        Seq::empty()
    } else {
        occupied_indices(s.drop_last()) + if s.last() {
            seq![s.len() - 1]
        } else {
            Seq::empty()
        }
    }
}

/// Slot packing: the occupied and the free slots partition the page, so
/// a page never reports more occupied slots than it has.
pub proof fn lemma_slot_packing(s: Seq<bool>)
    ensures
        occupied_indices(s).len() + count_free(s) == s.len(),
        occupied_indices(s).len() <= s.len(),
    decreases s.len(),
{
    if s.len() > 0 {
        lemma_slot_packing(s.drop_last());
    }
}

/// Every listed index is an occupied slot in range.
pub proof fn lemma_occupied_indices_in_range(s: Seq<bool>)
    ensures
        forall|j: int|
            0 <= j < occupied_indices(s).len() ==> 0 <= #[trigger] occupied_indices(s)[j]
                < s.len() && s[occupied_indices(s)[j]],
    decreases s.len(),
{
    if s.len() > 0 {
        lemma_occupied_indices_in_range(s.drop_last());
        assert(forall|j: int|
            0 <= j < occupied_indices(s.drop_last()).len() ==> s[#[trigger] occupied_indices(
                s.drop_last(),
            )[j]] == s.drop_last()[occupied_indices(s.drop_last())[j]]);
    }
}

/// Bit `i` of byte `b`, least significant bit first. Slot `s`'s occupancy
/// bit is bit `s % 8` of header byte `s / 8`.
pub open spec fn spec_bit(b: u8, i: int) -> bool {
    (b >> (i as u8)) & 1 == 1
}

/// Setting bit `i` leaves bit `j` set exactly when `j == i` or it was set.
proof fn lemma_set_bit(b: u8, i: u8, j: u8)
    requires
        i < 8,
        j < 8,
    ensures
        spec_bit(b | (1u8 << i), j as int) == (i == j || spec_bit(b, j as int)),
{
    assert((((b | (1u8 << i)) >> j) & 1 == 1) == (i == j || ((b >> j) & 1 == 1))) by (bit_vector)
        requires
            i < 8 && j < 8,
    ;
}

/// The zero byte has no bit set.
pub proof fn lemma_zero_bit(j: u8)
    requires
        j < 8,
    ensures
        !spec_bit(0u8, j as int),
{
    assert((0u8 >> j) & 1 == 0) by (bit_vector);
}

/// Two bytes that agree on all eight bits are equal.
proof fn lemma_byte_from_bits(x: u8, y: u8)
    requires
        forall|j: int| 0 <= j < 8 ==> spec_bit(x, j) == spec_bit(y, j),
    ensures
        x == y,
{
    assert forall|j: u8| j < 8 implies ((x >> j) & 1) == ((y >> j) & 1) by {
        assert(((x >> j) & 1) < 2 && ((y >> j) & 1) < 2) by (bit_vector);
        assert(spec_bit(x, j as int) == spec_bit(y, j as int));
    }
    assert(x == y) by (bit_vector)
        requires
            ((x >> 0u8) & 1) == ((y >> 0u8) & 1) && ((x >> 1u8) & 1) == ((y >> 1u8) & 1) && ((x
                >> 2u8) & 1) == ((y >> 2u8) & 1) && ((x >> 3u8) & 1) == ((y >> 3u8) & 1) && ((x
                >> 4u8) & 1) == ((y >> 4u8) & 1) && ((x >> 5u8) & 1) == ((y >> 5u8) & 1) && ((x
                >> 6u8) & 1) == ((y >> 6u8) & 1) && ((x >> 7u8) & 1) == ((y >> 7u8) & 1),
    ;
}

/// A fixed-size slotted page: a page identifier, the table schema its
/// slots follow, one occupancy flag per slot, and the slots' raw bytes.
/// Cleared slots keep their bytes, as the disk does.
#[derive(Debug, Clone)]
pub struct HeapPage {
    pub pid: HeapPageId,
    pub td: TupleDesc,
    pub used: Vec<bool>,
    pub slots: Vec<Vec<u8>>,
}

impl HeapPage {
    /// The slot count of this page, fixed by the schema.
    pub open spec fn spec_num_slots(self) -> nat {
        slots_per_page(self.td.spec_tuple_size())
    }

    /// The slot bytes, as mathematical sequences.
    pub open spec fn slots_view(self) -> Seq<Seq<u8>> {
        self.slots@.map_values(|v: Vec<u8>| v@)
    }

    /// A page is well formed when its schema is, it has exactly the
    /// schema-determined number of slots and occupancy flags, and every
    /// slot is exactly one tuple wide.
    pub open spec fn wf(self) -> bool {
        &&& self.td.wf()
        &&& self.used@.len() == self.spec_num_slots()
        &&& self.slots@.len() == self.spec_num_slots()
        &&& forall|i: int|
            0 <= i < self.slots@.len() ==> (#[trigger] self.slots@[i])@.len()
                == self.td.spec_tuple_size()
    }

    /// Returns this page's identifier.
    pub fn get_id(&self) -> (r: HeapPageId)
        ensures
            r == self.pid,
    {
        self.pid
    }

    /// Returns the number of slots in this page.
    pub fn get_num_slots(&self) -> (r: usize)
        requires
            self.td.wf(),
        ensures
            r == self.spec_num_slots(),
    {
        let ts = self.td.get_size();
        proof {
            crate::tuple::lemma_types_size_lower(self.td.types@);
            lemma_page_geometry(ts as nat);
        }
        (PAGE_SIZE * 8) / (8 * ts + 1)
    }

    /// A freshly allocated page: every slot empty, every slot's bytes
    /// zero.
    pub fn empty(pid: HeapPageId, td: &TupleDesc) -> (r: HeapPage)
        requires
            td.wf(),
        ensures
            r.wf(),
            r.pid == pid,
            r.td.matches(*td),
            r.used@.len() == r.spec_num_slots(),
            forall|i: int| 0 <= i < r.used@.len() ==> !(#[trigger] r.used@[i]),
            forall|i: int|
                0 <= i < r.slots_view().len() ==> #[trigger] r.slots_view()[i] =~= Seq::new(
                    td.spec_tuple_size(),
                    |k: int| 0u8,
                ),
            count_free(r.used@) == r.spec_num_slots(),
    {
        let ts = td.get_size();
        proof {
            crate::tuple::lemma_types_size_lower(td.types@);
            lemma_page_geometry(ts as nat);
        }
        let ns = (PAGE_SIZE * 8) / (8 * ts + 1);
        let mut used: Vec<bool> = Vec::new();
        let mut slots: Vec<Vec<u8>> = Vec::new();
        let mut i: usize = 0;
        while i < ns
            invariant
                i <= ns,
                used@.len() == i,
                slots@.len() == i,
                forall|j: int| 0 <= j < i ==> !(#[trigger] used@[j]),
                forall|j: int|
                    0 <= j < i ==> (#[trigger] slots@[j])@ =~= Seq::new(
                        ts as nat,
                        |k: int| 0u8,
                    ),
                count_free(used@) == i,
            decreases ns - i,
        {
            let ghost used0 = used@;
            used.push(false);
            let mut slot: Vec<u8> = Vec::new();
            let mut k: usize = 0;
            while k < ts
                invariant
                    k <= ts,
                    slot@.len() == k,
                    forall|x: int| 0 <= x < k ==> #[trigger] slot@[x] == 0u8,
                decreases ts - k,
            {
                slot.push(0u8);
                k += 1;
            }
            slots.push(slot);
            proof {
                assert(used@.drop_last() =~= used0);
            }
            i += 1;
        }
        let r = HeapPage { pid, td: td.clone_desc(), used, slots };
        proof {
            assert(r.td.spec_tuple_size() == td.spec_tuple_size());
        }
        r
    }

    /// Returns how many slots are free.
    pub fn get_num_empty_slots(&self) -> (r: usize)
        requires
            self.wf(),
        ensures
            r == count_free(self.used@),
    {
        let n = self.used.len();
        let mut acc: usize = 0;
        let mut i: usize = 0;
        while i < n
            invariant
                self.wf(),
                n == self.used@.len(),
                i <= n,
                acc == count_free(self.used@.take(i as int)),
                acc <= i,
            decreases n - i,
        {
            proof {
                assert(self.used@.take(i + 1).drop_last() =~= self.used@.take(i as int));
            }
            if !self.used[i] {
                acc += 1;
            }
            i += 1;
        }
        proof {
            assert(self.used@.take(n as int) =~= self.used@);
        }
        acc
    }

    /// Writes the tuple into the lowest-numbered empty slot and marks it
    /// occupied. Returns the slot used, or `None`, leaving the page
    /// unchanged, exactly when every slot is occupied.
    pub fn add_tuple(&mut self, t: &Tuple) -> (r: Option<usize>)
        requires
            old(self).wf(),
            t.wf(),
            t.td.matches(old(self).td),
        ensures
            final(self).wf(),
            final(self).pid == old(self).pid,
            final(self).td == old(self).td,
            match r {
                Some(s) => {
                    &&& s < old(self).used@.len()
                    &&& !old(self).used@[s as int]
                    &&& forall|j: int| 0 <= j < s ==> old(self).used@[j]
                    &&& final(self).used@ == old(self).used@.update(s as int, true)
                    &&& final(self).slots_view() == old(self).slots_view().update(
                        s as int,
                        t.spec_bytes(),
                    )
                },
                None => {
                    &&& *final(self) == *old(self)
                    &&& forall|j: int| 0 <= j < old(self).used@.len() ==> old(self).used@[j]
                },
            },
    {
        let n = self.used.len();
        let mut i: usize = 0;
        while i < n
            invariant
                self.wf(),
                *self == *old(self),
                t.wf(),
                t.td.matches(self.td),
                n == self.used@.len(),
                i <= n,
                forall|j: int| 0 <= j < i ==> self.used@[j],
            decreases n - i,
        {
            if !self.used[i] {
                proof {
                    crate::tuple::lemma_tuple_bytes_len(*t);
                    assert(t.spec_bytes().len() == self.td.spec_tuple_size());
                }
                let bytes = t.serialize();
                self.used.set(i, true);
                self.slots.set(i, bytes);
                proof {
                    assert(self.slots_view() =~= old(self).slots_view().update(
                        i as int,
                        t.spec_bytes(),
                    ));
                }
                return Some(i);
            }
            i += 1;
        }
        None
    }

    /// Clears the occupancy flag of `slot`; the slot's bytes stay.
    /// Deleting a slot that is already empty, or out of range, is an
    /// error and leaves the page unchanged.
    pub fn delete_tuple(&mut self, slot: usize) -> (r: Result<(), DbError>)
        requires
            old(self).wf(),
        ensures
            final(self).wf(),
            final(self).pid == old(self).pid,
            final(self).td == old(self).td,
            r is Ok <==> slot < old(self).used@.len() && old(self).used@[slot as int],
            r is Ok ==> final(self).used@ == old(self).used@.update(slot as int, false)
                && final(self).slots_view() == old(self).slots_view(),
            r is Err ==> *final(self) == *old(self) && r->Err_0 == DbError::NotFound,
    {
        if slot >= self.used.len() {
            return Err(DbError::NotFound);
        }
        if !self.used[slot] {
            return Err(DbError::NotFound);
        }
        self.used.set(slot, false);
        Ok(())
    }

    /// Holds when `out` is, in ascending slot order, exactly the parse of
    /// each slot of this page that `flags` marks occupied.
    pub open spec fn tuples_of(self, flags: Seq<bool>, out: Seq<Tuple>) -> bool {
        let occ = occupied_indices(flags);
        &&& out.len() == occ.len()
        &&& forall|j: int|
            0 <= j < occ.len() ==> tuple_parses_to(
                self.td,
                self.slots_view()[occ[j]],
                #[trigger] out[j],
            ) && out[j].wf() && out[j].rid == Some(
                RecordId { page_id: self.pid, slot_number: occ[j] as u32 },
            )
    }

    /// Parses and returns the tuples of the occupied slots, in ascending
    /// slot order, each carrying its record identifier. Fails exactly
    /// when some occupied slot does not parse under the schema.
    #[verifier::rlimit(40)]
    pub fn tuples(&self) -> (r: Result<Vec<Tuple>, String>)
        requires
            self.wf(),
        ensures
            r is Ok <==> (forall|i: int|
                0 <= i < self.used@.len() && self.used@[i] ==> tuple_parse_ok(
                    self.td,
                    #[trigger] self.slots_view()[i],
                )),
            r is Ok ==> self.tuples_of(self.used@, (r->Ok_0)@),
    {
        let n = self.used.len();
        proof {
            crate::tuple::lemma_types_size_lower(self.td.types@);
            lemma_page_geometry(self.td.spec_tuple_size());
        }
        let mut out: Vec<Tuple> = Vec::new();
        let mut i: usize = 0;
        while i < n
            invariant
                self.wf(),
                n == self.used@.len(),
                i <= n,
                n <= u32::MAX,
                self.tuples_of(self.used@.take(i as int), out@),
                forall|x: int|
                    0 <= x < i && self.used@[x] ==> tuple_parse_ok(
                        self.td,
                        #[trigger] self.slots_view()[x],
                    ),
            decreases n - i,
        {
            let ghost occ0 = occupied_indices(self.used@.take(i as int));
            proof {
                assert(self.used@.take(i + 1).drop_last() =~= self.used@.take(i as int));
                lemma_occupied_indices_in_range(self.used@.take(i + 1));
            }
            if self.used[i] {
                let slot_bytes = self.slots[i].as_slice();
                match parse_tuple(slot_bytes, &self.td) {
                    Ok(mut t) => {
                        t.set_record_id(RecordId { page_id: self.pid, slot_number: i as u32 });
                        out.push(t);
                    },
                    Err(e) => {
                        proof {
                            assert(self.used@[i as int] && !tuple_parse_ok(
                                self.td,
                                self.slots_view()[i as int],
                            ));
                        }
                        return Err(e);
                    },
                }
                proof {
                    assert(occupied_indices(self.used@.take(i + 1)) =~= occ0 + seq![i as int]);
                }
            } else {
                proof {
                    assert(occupied_indices(self.used@.take(i + 1)) =~= occ0);
                }
            }
            i += 1;
        }
        proof {
            assert(self.used@.take(n as int) =~= self.used@);
        }
        Ok(out)
    }
}

/// The concatenation of the first `i` slots' bytes.
pub open spec fn concat_slots(sv: Seq<Seq<u8>>, i: int) -> Seq<u8>
    decreases i,
{
    if i <= 0 {
        Seq::empty()
    } else {
        concat_slots(sv, i - 1) + sv[i - 1]
    }
}

/// Concatenating `i` slots of width `ts` yields `i * ts` bytes.
pub proof fn lemma_concat_slots_len(sv: Seq<Seq<u8>>, i: int, ts: int)
    requires
        0 <= i <= sv.len(),
        forall|x: int| 0 <= x < sv.len() ==> (#[trigger] sv[x]).len() == ts,
    ensures
        concat_slots(sv, i).len() == i * ts,
    decreases i,
{
    if i > 0 {
        lemma_concat_slots_len(sv, i - 1, ts);
        assert((i - 1) * ts + ts == i * ts) by (nonlinear_arith);
    } else {
        assert(i * ts == 0) by (nonlinear_arith)
            requires
                i == 0,
        ;
    }
}

/// Within the concatenation, slot `x` occupies exactly its own range.
pub proof fn lemma_concat_slots_index(sv: Seq<Seq<u8>>, i: int, ts: int, x: int)
    requires
        0 <= x < i <= sv.len(),
        forall|y: int| 0 <= y < sv.len() ==> (#[trigger] sv[y]).len() == ts,
    ensures
        concat_slots(sv, i).subrange(x * ts, (x + 1) * ts) == sv[x],
    decreases i,
{
    lemma_concat_slots_len(sv, i, ts);
    lemma_concat_slots_len(sv, i - 1, ts);
    if x == i - 1 {
        assert(concat_slots(sv, i).subrange(x * ts, (x + 1) * ts) =~= sv[x]);
    } else {
        lemma_concat_slots_index(sv, i - 1, ts, x);
        assert((x + 1) * ts <= (i - 1) * ts) by (nonlinear_arith)
            requires
                x + 1 <= i - 1 && ts >= 0,
        ;
        assert(x * ts >= 0) by (nonlinear_arith)
            requires
                x >= 0 && ts >= 0,
        ;
        assert((x + 1) * ts == x * ts + ts) by (nonlinear_arith);
        assert(concat_slots(sv, i).subrange(x * ts, (x + 1) * ts) =~= concat_slots(
            sv,
            i - 1,
        ).subrange(x * ts, (x + 1) * ts));
    }
}

/// The wire format: `b` is the exact `PAGE_SIZE`-byte image of page `p` —
/// the occupancy bits (unused header bits clear), then the slots' bytes,
/// then zero padding.
pub open spec fn page_bytes_ok(p: HeapPage, b: Seq<u8>) -> bool {
    let ns = p.spec_num_slots() as int;
    let ts = p.td.spec_tuple_size() as int;
    let hs = header_size(p.spec_num_slots()) as int;
    &&& b.len() == PAGE_SIZE
    &&& forall|s: int| 0 <= s < ns ==> #[trigger] spec_bit(b[s / 8], s % 8) == p.used@[s]
    &&& forall|s: int| ns <= s < hs * 8 ==> !#[trigger] spec_bit(b[s / 8], s % 8)
    &&& b.subrange(hs, hs + ns * ts) == concat_slots(p.slots_view(), ns)
    &&& forall|k: int| hs + ns * ts <= k < PAGE_SIZE ==> #[trigger] b[k] == 0
}

/// Parsing: page `p` reads its occupancy flags and slot bytes off the
/// image `b`; padding and unused header bits are ignored.
pub open spec fn page_parses_from(p: HeapPage, b: Seq<u8>) -> bool {
    let ns = p.spec_num_slots() as int;
    let ts = p.td.spec_tuple_size() as int;
    let hs = header_size(p.spec_num_slots()) as int;
    &&& forall|s: int| 0 <= s < ns ==> p.used@[s] == #[trigger] spec_bit(b[s / 8], s % 8)
    &&& forall|x: int|
        0 <= x < ns ==> #[trigger] p.slots_view()[x] == b.subrange(hs + x * ts, hs + (x + 1) * ts)
}

/// A page's exact image parses back to the page: the wire format clauses
/// subsume the parsing clauses.
pub proof fn lemma_bytes_ok_parses(p: HeapPage, b: Seq<u8>)
    requires
        p.wf(),
        page_bytes_ok(p, b),
    ensures
        page_parses_from(p, b),
{
    let ns = p.spec_num_slots() as int;
    let ts = p.td.spec_tuple_size() as int;
    let hs = header_size(p.spec_num_slots()) as int;
    crate::tuple::lemma_types_size_lower(p.td.types@);
    lemma_page_geometry(p.td.spec_tuple_size());
    lemma_concat_slots_len(p.slots_view(), ns, ts);
    assert forall|x: int| 0 <= x < ns implies #[trigger] p.slots_view()[x] == b.subrange(
        hs + x * ts,
        hs + (x + 1) * ts,
    ) by {
        lemma_concat_slots_index(p.slots_view(), ns, ts, x);
        assert((x + 1) * ts <= ns * ts) by (nonlinear_arith)
            requires
                x + 1 <= ns && ts >= 0,
        ;
        assert(x * ts >= 0) by (nonlinear_arith)
            requires
                x >= 0 && ts >= 0,
        ;
        assert((x + 1) * ts == x * ts + ts) by (nonlinear_arith);
        assert(b.subrange(hs + x * ts, hs + (x + 1) * ts) =~= b.subrange(hs, hs + ns * ts).subrange(
            x * ts,
            (x + 1) * ts,
        ));
    }
}

/// Round trip: a page serialized and parsed back has the same occupancy
/// flags and the same slot bytes — the fixed point behind
/// `write_page` / `read_page`.
pub proof fn lemma_page_round_trip(p: HeapPage, b: Seq<u8>, q: HeapPage)
    requires
        p.wf(),
        q.wf(),
        q.td.matches(p.td),
        page_bytes_ok(p, b),
        page_parses_from(q, b),
    ensures
        q.used@ == p.used@,
        q.slots_view() == p.slots_view(),
{
    let ns = p.spec_num_slots() as int;
    let ts = p.td.spec_tuple_size() as int;
    let hs = header_size(p.spec_num_slots()) as int;
    crate::tuple::lemma_types_size_lower(p.td.types@);
    lemma_page_geometry(p.td.spec_tuple_size());
    lemma_concat_slots_len(p.slots_view(), ns, ts);
    assert(q.spec_num_slots() == p.spec_num_slots());
    assert forall|s: int| 0 <= s < ns implies q.used@[s] == p.used@[s] by {
        assert(spec_bit(b[s / 8], s % 8) == p.used@[s]);
        assert(q.used@[s] == spec_bit(b[s / 8], s % 8));
    }
    assert(q.used@ =~= p.used@);
    assert forall|x: int| 0 <= x < ns implies q.slots_view()[x] == p.slots_view()[x] by {
        lemma_concat_slots_len(p.slots_view(), ns, ts);
        lemma_concat_slots_index(p.slots_view(), ns, ts, x);
        assert((x + 1) * ts <= ns * ts) by (nonlinear_arith)
            requires
                x + 1 <= ns && ts >= 0,
        ;
        assert(x * ts >= 0) by (nonlinear_arith)
            requires
                x >= 0 && ts >= 0,
        ;
        assert((x + 1) * ts == x * ts + ts) by (nonlinear_arith);
        assert(b.subrange(hs + x * ts, hs + (x + 1) * ts) =~= b.subrange(hs, hs + ns * ts).subrange(
            x * ts,
            (x + 1) * ts,
        ));
    }
    assert(q.slots_view() =~= p.slots_view());
}

/// Determinism of the wire format: one page has one image, byte for byte.
pub proof fn lemma_page_bytes_unique(p: HeapPage, b1: Seq<u8>, b2: Seq<u8>)
    requires
        p.wf(),
        page_bytes_ok(p, b1),
        page_bytes_ok(p, b2),
    ensures
        b1 == b2,
{
    let ns = p.spec_num_slots() as int;
    let ts = p.td.spec_tuple_size() as int;
    let hs = header_size(p.spec_num_slots()) as int;
    crate::tuple::lemma_types_size_lower(p.td.types@);
    lemma_page_geometry(p.td.spec_tuple_size());
    lemma_concat_slots_len(p.slots_view(), ns, ts);
    assert(ns * ts >= 0);
    assert forall|k: int| 0 <= k < PAGE_SIZE implies b1[k] == b2[k] by {
        if k < hs {
            assert forall|j: int| 0 <= j < 8 implies spec_bit(b1[k], j) == spec_bit(b2[k], j) by {
                let s = 8 * k + j;
                assert(s / 8 == k && s % 8 == j);
                if s < ns {
                    assert(spec_bit(b1[s / 8], s % 8) == p.used@[s]);
                    assert(spec_bit(b2[s / 8], s % 8) == p.used@[s]);
                } else {
                    assert(s < hs * 8);
                    assert(!spec_bit(b1[s / 8], s % 8));
                    assert(!spec_bit(b2[s / 8], s % 8));
                }
            }
            lemma_byte_from_bits(b1[k], b2[k]);
        } else if k < hs + ns * ts {
            assert(b1.subrange(hs, hs + ns * ts)[k - hs] == b2.subrange(hs, hs + ns * ts)[k - hs]);
        } else {
            assert(b1[k] == 0 && b2[k] == 0);
        }
    }
    assert(b1 =~= b2);
}

impl HeapPage {
    /// Clones the page; the copy agrees with the original in every view.
    pub fn clone_page(&self) -> (r: HeapPage)
        requires
            self.wf(),
        ensures
            r.wf(),
            r.pid == self.pid,
            r.td.matches(self.td),
            r.used@ == self.used@,
            r.slots_view() == self.slots_view(),
    {
        let used = vstd::slice::slice_to_vec(self.used.as_slice());
        let mut slots: Vec<Vec<u8>> = Vec::new();
        let n = self.slots.len();
        let mut i: usize = 0;
        while i < n
            invariant
                self.wf(),
                n == self.slots@.len(),
                i <= n,
                slots@.len() == i,
                forall|x: int|
                    0 <= x < i ==> (#[trigger] slots@[x])@ == self.slots_view()[x],
            decreases n - i,
        {
            slots.push(vstd::slice::slice_to_vec(self.slots[i].as_slice()));
            i += 1;
        }
        let r = HeapPage { pid: self.pid, td: self.td.clone_desc(), used, slots };
        proof {
            assert(r.slots_view() =~= self.slots_view());
            assert(r.td.spec_tuple_size() == self.td.spec_tuple_size());
        }
        r
    }

    /// Serializes the page into its exact `PAGE_SIZE`-byte image.
    pub fn get_page_data(&self) -> (r: Vec<u8>)
        requires
            self.wf(),
        ensures
            r@.len() == PAGE_SIZE,
            page_bytes_ok(*self, r@),
    {
        let ns = self.get_num_slots();
        let ts = self.td.get_size();
        let hs = (ns + 7) / 8;
        proof {
            crate::tuple::lemma_types_size_lower(self.td.types@);
            lemma_page_geometry(self.td.spec_tuple_size());
            lemma_concat_slots_len(self.slots_view(), ns as int, ts as int);
        }
        let mut data: Vec<u8> = Vec::new();
        let mut k: usize = 0;
        while k < hs
            invariant
                self.wf(),
                ns == self.spec_num_slots(),
                ts == self.td.spec_tuple_size(),
                hs == header_size(self.spec_num_slots()),
                hs <= PAGE_SIZE,
                k <= hs,
                data@.len() == k,
                forall|s: int|
                    0 <= s < 8 * k && s < ns ==> #[trigger] spec_bit(data@[s / 8], s % 8)
                        == self.used@[s],
                forall|s: int|
                    0 <= s < 8 * k && ns <= s ==> !#[trigger] spec_bit(data@[s / 8], s % 8),
            decreases hs - k,
        {
            let mut byte: u8 = 0;
            let mut j: usize = 0;
            proof {
                assert forall|x: int| 0 <= x < 8 implies !spec_bit(0u8, x) by {
                    lemma_zero_bit(x as u8);
                }
            }
            while j < 8
                invariant
                    self.wf(),
                    ns == self.spec_num_slots(),
                    k < hs <= PAGE_SIZE,
                    j <= 8,
                    forall|x: int|
                        0 <= x < j ==> #[trigger] spec_bit(byte, x) == (8 * k + x < ns
                            && self.used@[8 * k + x]),
                    forall|x: int| j <= x < 8 ==> !#[trigger] spec_bit(byte, x),
                decreases 8 - j,
            {
                let s = 8 * k + j;
                if s < ns && self.used[s] {
                    let ghost byte0 = byte;
                    byte = byte | (1u8 << (j as u8));
                    proof {
                        assert forall|x: int| 0 <= x < 8 implies spec_bit(byte, x) == (x
                            == j as int || spec_bit(byte0, x)) by {
                            lemma_set_bit(byte0, j as u8, x as u8);
                        }
                    }
                }
                j += 1;
            }
            data.push(byte);
            proof {
                assert forall|s: int| 0 <= s < 8 * (k + 1) && s < ns implies #[trigger] spec_bit(
                    data@[s / 8],
                    s % 8,
                ) == self.used@[s] by {
                    if s >= 8 * k {
                        assert(s / 8 == k as int && s % 8 == s - 8 * k);
                        assert(spec_bit(byte, s - 8 * k) == (s < ns && self.used@[s]));
                    }
                }
                assert forall|s: int| 0 <= s < 8 * (k + 1) && ns <= s implies !#[trigger] spec_bit(
                    data@[s / 8],
                    s % 8,
                ) by {
                    if s >= 8 * k {
                        assert(s / 8 == k as int && s % 8 == s - 8 * k);
                        assert(spec_bit(byte, s - 8 * k) == (s < ns && self.used@[s]));
                    }
                }
            }
            k += 1;
        }
        let ghost hdr = data@;
        let mut i: usize = 0;
        while i < ns
            invariant
                self.wf(),
                ns == self.spec_num_slots(),
                ts == self.td.spec_tuple_size(),
                hs == header_size(self.spec_num_slots()),
                hs + ns * ts <= PAGE_SIZE,
                i <= ns,
                hdr.len() == hs,
                data@ == hdr + concat_slots(self.slots_view(), i as int),
            decreases ns - i,
        {
            proof {
                lemma_concat_slots_len(self.slots_view(), i as int, ts as int);
                lemma_concat_slots_len(self.slots_view(), i + 1, ts as int);
                assert(i * ts <= ns * ts && (i + 1) * ts <= ns * ts) by (nonlinear_arith)
                    requires
                        0 <= i < ns && ts >= 0,
                ;
            }
            let mut slot_copy: Vec<u8> = vstd::slice::slice_to_vec(self.slots[i].as_slice());
            data.append(&mut slot_copy);
            proof {
                assert(data@ =~= hdr + concat_slots(self.slots_view(), i + 1));
            }
            i += 1;
        }
        proof {
            lemma_concat_slots_len(self.slots_view(), ns as int, ts as int);
        }
        let body_end = hs + ns * ts;
        let mut z: usize = data.len();
        while z < PAGE_SIZE
            invariant
                z == data@.len(),
                body_end <= z <= PAGE_SIZE,
                data@.take(body_end as int) == hdr + concat_slots(
                    self.slots_view(),
                    self.spec_num_slots() as int,
                ),
                hdr.len() == header_size(self.spec_num_slots()),
                forall|x: int| body_end <= x < z ==> #[trigger] data@[x] == 0,
            decreases PAGE_SIZE - z,
        {
            let ghost d0 = data@;
            data.push(0u8);
            proof {
                assert(data@.take(body_end as int) =~= d0.take(body_end as int));
            }
            z += 1;
        }
        proof {
            let ns_ = self.spec_num_slots() as int;
            let ts_ = self.td.spec_tuple_size() as int;
            let hs_ = header_size(self.spec_num_slots()) as int;
            assert(data@.len() == PAGE_SIZE);
            assert forall|s: int| 0 <= s < ns_ implies #[trigger] spec_bit(data@[s / 8], s % 8)
                == self.used@[s] by {
                assert(0 <= s / 8 < hs_);
                assert(data@[s / 8] == data@.take(body_end as int)[s / 8]);
                assert(data@.take(body_end as int)[s / 8] == hdr[s / 8]);
                assert(spec_bit(hdr[s / 8], s % 8) == self.used@[s]);
            }
            assert forall|s: int| ns_ <= s < hs_ * 8 implies !#[trigger] spec_bit(
                data@[s / 8],
                s % 8,
            ) by {
                assert(0 <= s / 8 < hs_);
                assert(data@[s / 8] == data@.take(body_end as int)[s / 8]);
                assert(data@.take(body_end as int)[s / 8] == hdr[s / 8]);
                assert(!spec_bit(hdr[s / 8], s % 8));
            }
            assert(hdr + concat_slots(self.slots_view(), ns_) == data@.take(body_end as int));
            assert forall|y: int| 0 <= y < ns_ * ts_ implies data@.subrange(
                hs_,
                hs_ + ns_ * ts_,
            )[y] == concat_slots(self.slots_view(), ns_)[y] by {
                assert(data@.subrange(hs_, hs_ + ns_ * ts_)[y] == data@[hs_ + y]);
                assert(data@[hs_ + y] == data@.take(body_end as int)[hs_ + y]);
                assert((hdr + concat_slots(self.slots_view(), ns_))[hs_ + y] == concat_slots(
                    self.slots_view(),
                    ns_,
                )[y]);
            }
            assert(data@.subrange(hs_, hs_ + ns_ * ts_) =~= concat_slots(self.slots_view(), ns_));
        }
        data
    }

    /// Reconstructs a page from its `PAGE_SIZE`-byte image: occupancy
    /// flags from the header bits, slot bytes from the body.
    pub fn new(pid: HeapPageId, data: Vec<u8>, td: &TupleDesc) -> (r: HeapPage)
        requires
            td.wf(),
            data@.len() == PAGE_SIZE,
        ensures
            r.wf(),
            r.pid == pid,
            r.td.matches(*td),
            page_parses_from(r, data@),
    {
        let ts = td.get_size();
        proof {
            crate::tuple::lemma_types_size_lower(td.types@);
            lemma_page_geometry(ts as nat);
        }
        let ns = (PAGE_SIZE * 8) / (8 * ts + 1);
        let hs = (ns + 7) / 8;
        let mut used: Vec<bool> = Vec::new();
        let mut s: usize = 0;
        while s < ns
            invariant
                ns == slots_per_page(ts as nat),
                hs == header_size(ns as nat),
                hs + ns * ts <= PAGE_SIZE,
                data@.len() == PAGE_SIZE,
                s <= ns,
                used@.len() == s,
                forall|x: int|
                    0 <= x < s ==> #[trigger] used@[x] == spec_bit(data@[x / 8], x % 8),
            decreases ns - s,
        {
            let byte = data[s / 8];
            let bit = ((byte >> ((s % 8) as u8)) & 1) == 1;
            used.push(bit);
            s += 1;
        }
        let mut slots: Vec<Vec<u8>> = Vec::new();
        let mut i: usize = 0;
        let mut off: usize = hs;
        while i < ns
            invariant
                ns == slots_per_page(ts as nat),
                hs == header_size(ns as nat),
                hs + ns * ts <= PAGE_SIZE,
                data@.len() == PAGE_SIZE,
                i <= ns,
                off == hs + i * ts,
                off <= PAGE_SIZE,
                slots@.len() == i,
                forall|x: int|
                    0 <= x < i ==> (#[trigger] slots@[x])@ == data@.subrange(
                        hs + x * ts,
                        hs + (x + 1) * ts,
                    ),
                forall|x: int| 0 <= x < i ==> (#[trigger] slots@[x])@.len() == ts,
            decreases ns - i,
        {
            proof {
                assert((i + 1) * ts == i * ts + ts) by (nonlinear_arith);
                assert((i + 1) * ts <= ns * ts) by (nonlinear_arith)
                    requires
                        0 <= i < ns && ts >= 0,
                ;
            }
            let slot = vstd::slice::slice_to_vec(vstd::slice::slice_subrange(
                data.as_slice(),
                off,
                off + ts,
            ));
            slots.push(slot);
            off = off + ts;
            i += 1;
        }
        let r = HeapPage { pid, td: td.clone_desc(), used, slots };
        proof {
            assert(r.td.spec_tuple_size() == td.spec_tuple_size());
            assert(r.spec_num_slots() == ns);
            assert(forall|x: int|
                0 <= x < ns ==> #[trigger] r.slots_view()[x] == data@.subrange(
                    hs + x * ts,
                    hs + (x + 1) * ts,
                ));
        }
        r
    }
}

} // verus!
