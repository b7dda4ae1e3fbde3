//! A user-facing view of one table, and simple query operators over
//! materialized scans: projection, predicate filtering, and nested-loop
//! join. The operators are pure transformations of tuple vectors; every
//! page touch goes through the buffer pool under an explicit transaction.

use crate::catalog::{has_table_id, lemma_table_at_index, table_by_id, Catalog};
use crate::database::Database;
use crate::errors::DbError;
use crate::fields::FieldVal;
use crate::heap_page::{HeapPageId, PAGE_SIZE};
use crate::tuple::{Tuple, TupleDesc};
use crate::types::Type;
use vstd::prelude::*;

verus! {

/// A predicate over one field: string equality, or an integer bound.
pub enum Predicate {
    Equals(String),
    GreaterThan(i32),
    LessThan(i32),
}

/// Whether the field value satisfies the predicate. A predicate of the
/// wrong kind for the field (an integer bound on a string, or the
/// reverse) is simply false.
pub open spec fn spec_pred_holds(f: FieldVal, p: Predicate) -> bool {
    match p {
        Predicate::Equals(s) => f is StringField && f->StringField_0.value@ == s@,
        Predicate::GreaterThan(v) => f is IntField && f->IntField_0.value > v,
        Predicate::LessThan(v) => f is IntField && f->IntField_0.value < v,
    }
}

/// Whether the tuple passes the predicate on the named field: the first
/// field of that name decides; a tuple without the field fails.
pub open spec fn spec_filter(t: Tuple, name: Seq<char>, p: Predicate) -> bool {
    exists|i: int|
        {
            &&& 0 <= i < t.td.names@.len()
            &&& (#[trigger] t.td.names@[i])@ == name
            &&& (forall|j: int| 0 <= j < i ==> (#[trigger] t.td.names@[j])@ != name)
            &&& i < t.fields@.len()
            &&& spec_pred_holds(t.fields@[i], p)
        }
}

/// Whether the tuple passes every filter of the list.
pub open spec fn passes_filters(t: Tuple, filters: Seq<(String, Predicate)>) -> bool {
    forall|k: int| 0 <= k < filters.len() ==> spec_filter(t, (#[trigger] filters[k]).0@, filters[k].1)
}

/// Tuples that agree in every observable view.
pub open spec fn tuple_eqv(a: Tuple, b: Tuple) -> bool {
    a.td.matches(b.td) && a.fields@ == b.fields@ && a.rid == b.rid
}

/// Things a predicate can be applied to.
pub trait Filterable {
    /// Returns whether the value passes the predicate on the named field.
    fn filter(&self, field_name: &str, predicate: &Predicate) -> bool;
}

impl FieldVal {
    /// Evaluates the predicate on this field value.
    pub fn pred_holds(&self, p: &Predicate) -> (r: bool)
        ensures
            r == spec_pred_holds(*self, *p),
    {
        match (self, p) {
            (FieldVal::StringField(sf), Predicate::Equals(s)) => sf.value.as_str().eq(s.as_str()),
            (FieldVal::IntField(g), Predicate::GreaterThan(v)) => g.value > *v,
            (FieldVal::IntField(g), Predicate::LessThan(v)) => g.value < *v,
            _ => false,
        }
    }

    /// Clones the field value.
    pub fn clone_val(&self) -> (r: FieldVal)
        ensures
            r == *self,
    {
        match self {
            FieldVal::IntField(g) => FieldVal::IntField(*g),
            FieldVal::StringField(sf) => FieldVal::StringField(
                crate::fields::StringField { value: sf.value.clone(), len: sf.len },
            ),
        }
    }
}

impl Tuple {
    /// Returns whether this tuple passes the predicate on the named
    /// field: the first field of that name decides, and a tuple without
    /// the field fails. A predicate of the wrong kind for the field is
    /// false, never an error.
    pub fn filter_by(&self, field_name: &str, predicate: &Predicate) -> (r: bool)
        ensures
            r == spec_filter(*self, field_name@, *predicate),
    {
        let n = self.td.names.len();
        let mut i: usize = 0;
        while i < n
            invariant
                n == self.td.names@.len(),
                i <= n,
                forall|j: int| 0 <= j < i ==> (#[trigger] self.td.names@[j])@ != field_name@,
            decreases n - i,
        {
            if self.td.names[i].as_str().eq(field_name) {
                if i < self.fields.len() {
                    let r = self.fields[i].pred_holds(predicate);
                    proof {
                        if r {
                            assert(spec_filter(*self, field_name@, *predicate));
                        } else {
                            if spec_filter(*self, field_name@, *predicate) {
                                let w = choose|w: int|
                                    {
                                        &&& 0 <= w < self.td.names@.len()
                                        &&& (#[trigger] self.td.names@[w])@ == field_name@
                                        &&& (forall|j: int|
                                            0 <= j < w ==> (#[trigger] self.td.names@[j])@
                                                != field_name@)
                                        &&& w < self.fields@.len()
                                        &&& spec_pred_holds(self.fields@[w], *predicate)
                                    };
                                assert(w == i as int);
                            }
                        }
                    }
                    return r;
                }
                proof {
                    if spec_filter(*self, field_name@, *predicate) {
                        let w = choose|w: int|
                            {
                                &&& 0 <= w < self.td.names@.len()
                                &&& (#[trigger] self.td.names@[w])@ == field_name@
                                &&& (forall|j: int|
                                    0 <= j < w ==> (#[trigger] self.td.names@[j])@ != field_name@)
                                &&& w < self.fields@.len()
                                &&& spec_pred_holds(self.fields@[w], *predicate)
                            };
                        assert(w == i as int);
                    }
                }
                return false;
            }
            i += 1;
        }
        proof {
            if spec_filter(*self, field_name@, *predicate) {
                let w = choose|w: int|
                    {
                        &&& 0 <= w < self.td.names@.len()
                        &&& (#[trigger] self.td.names@[w])@ == field_name@
                        &&& (forall|j: int|
                            0 <= j < w ==> (#[trigger] self.td.names@[j])@ != field_name@)
                        &&& w < self.fields@.len()
                        &&& spec_pred_holds(self.fields@[w], *predicate)
                    };
            }
        }
        false
    }

    /// Clones the tuple: every view agrees with the original.
    pub fn clone_tuple(&self) -> (r: Tuple)
        ensures
            tuple_eqv(r, *self),
            r.wf() == self.wf(),
    {
        let mut fields: Vec<FieldVal> = Vec::new();
        let n = self.fields.len();
        let mut i: usize = 0;
        while i < n
            invariant
                n == self.fields@.len(),
                i <= n,
                fields@ == self.fields@.take(i as int),
            decreases n - i,
        {
            fields.push(self.fields[i].clone_val());
            proof {
                assert(fields@ =~= self.fields@.take(i + 1));
            }
            i += 1;
        }
        proof {
            assert(fields@ =~= self.fields@);
        }
        Tuple { td: self.td.clone_desc(), fields, rid: self.rid }
    }
}

impl Filterable for Tuple {
    fn filter(&self, field_name: &str, predicate: &Predicate) -> bool {
        self.filter_by(field_name, predicate)
    }
}

/// Some wanted name equals `n`.
pub open spec fn contains_name(ws: Seq<String>, n: Seq<char>) -> bool {
    exists|k: int| 0 <= k < ws.len() && (#[trigger] ws[k])@ == n
}

/// The positions of the fields whose names are wanted, ascending.
pub open spec fn selected_indices(names: Seq<String>, ws: Seq<String>) -> Seq<int>
    decreases names.len(),
{
    if names.len() == 0 {
        Seq::empty()
    } else {
        selected_indices(names.drop_last(), ws) + if contains_name(ws, names.last()@) {
            seq![names.len() - 1]
        } else {
            Seq::empty()
        }
    }
}

/// Every selected position is in range.
pub proof fn lemma_selected_in_range(names: Seq<String>, ws: Seq<String>)
    ensures
        forall|j: int|
            0 <= j < selected_indices(names, ws).len() ==> 0 <= #[trigger] selected_indices(
                names,
                ws,
            )[j] < names.len(),
    decreases names.len(),
{
    if names.len() > 0 {
        lemma_selected_in_range(names.drop_last(), ws);
        let sel0 = selected_indices(names.drop_last(), ws);
        let sel = selected_indices(names, ws);
        assert forall|j: int| 0 <= j < sel.len() implies 0 <= #[trigger] sel[j] < names.len() by {
            if j < sel0.len() {
                assert(sel[j] == sel0[j]);
            } else {
                assert(sel[j] == names.len() - 1);
            }
        }
    }
}

/// Returns whether `n` is among the wanted names.
fn name_wanted(ws: &Vec<String>, n: &String) -> (r: bool)
    ensures
        r == contains_name(ws@, n@),
{
    let m = ws.len();
    let mut k: usize = 0;
    while k < m
        invariant
            m == ws@.len(),
            k <= m,
            forall|j: int| 0 <= j < k ==> (#[trigger] ws@[j])@ != n@,
        decreases m - k,
    {
        if ws[k].as_str().eq(n.as_str()) {
            return true;
        }
        k += 1;
    }
    false
}

/// `i` is the position of tuple `t`'s field named `n`: the first field of
/// that name, in range of the values.
pub open spec fn key_idx_ok(t: Tuple, n: Seq<char>, i: int) -> bool {
    &&& 0 <= i < t.td.names@.len()
    &&& (t.td.names@[i])@ == n
    &&& (forall|j: int| 0 <= j < i ==> (#[trigger] t.td.names@[j])@ != n)
    &&& i < t.fields@.len()
}

/// Tuple `t` carries a usable field named `n`.
pub open spec fn has_key(t: Tuple, n: Seq<char>) -> bool {
    exists|i: int| #[trigger] key_idx_ok(t, n, i)
}

/// The key position is unique: only the first field of the name counts.
pub proof fn lemma_key_idx_unique(t: Tuple, n: Seq<char>, i: int, j: int)
    requires
        key_idx_ok(t, n, i),
        key_idx_ok(t, n, j),
    ensures
        i == j,
{
}

/// The pair joins: both tuples carry their key field and the two key
/// values agree in every view.
pub open spec fn pair_matches(t: Tuple, u: Tuple, ln: Seq<char>, rn: Seq<char>) -> bool {
    exists|i: int, j: int|
        #![trigger t.fields@[i], u.fields@[j]]
        {
            &&& key_idx_ok(t, ln, i)
            &&& key_idx_ok(u, rn, j)
            &&& spec_field_eq(t.fields@[i], u.fields@[j])
        }
}

/// The positions of the right tuples that join with `t`, ascending.
pub open spec fn matching_indices(
    t: Tuple,
    right: Seq<Tuple>,
    ln: Seq<char>,
    rn: Seq<char>,
) -> Seq<int>
    decreases right.len(),
{
    if right.len() == 0 {
        Seq::empty()
    } else {
        matching_indices(t, right.drop_last(), ln, rn) + if pair_matches(
            t,
            right.last(),
            ln,
            rn,
        ) {
            seq![right.len() - 1]
        } else {
            Seq::empty()
        }
    }
}

/// Every listed position is in range.
pub proof fn lemma_matching_in_range(t: Tuple, right: Seq<Tuple>, ln: Seq<char>, rn: Seq<char>)
    ensures
        forall|j: int|
            0 <= j < matching_indices(t, right, ln, rn).len() ==> 0 <= #[trigger] matching_indices(
                t,
                right,
                ln,
                rn,
            )[j] < right.len(),
    decreases right.len(),
{
    if right.len() > 0 {
        lemma_matching_in_range(t, right.drop_last(), ln, rn);
        let mi0 = matching_indices(t, right.drop_last(), ln, rn);
        let mi = matching_indices(t, right, ln, rn);
        assert forall|j: int| 0 <= j < mi.len() implies 0 <= #[trigger] mi[j] < right.len() by {
            if j < mi0.len() {
                assert(mi[j] == mi0[j]);
            } else {
                assert(mi[j] == right.len() - 1);
            }
        }
    }
}

/// `c` is the combination of `t` then `u`: their fields, types, and names
/// concatenated.
pub open spec fn combined_of(c: Tuple, t: Tuple, u: Tuple) -> bool {
    &&& c.fields@ == t.fields@ + u.fields@
    &&& c.td.types@ == t.td.types@ + u.td.types@
    &&& c.td.names@ == t.td.names@ + u.td.names@
    &&& c.rid is None
}

/// `out` is exactly the nested-loop join of `t` against `right`: one
/// combined tuple per matching right tuple, in right order.
pub open spec fn row_join(
    t: Tuple,
    right: Seq<Tuple>,
    ln: Seq<char>,
    rn: Seq<char>,
    out: Seq<Tuple>,
) -> bool {
    let mi = matching_indices(t, right, ln, rn);
    &&& out.len() == mi.len()
    &&& forall|j: int| 0 <= j < mi.len() ==> combined_of(#[trigger] out[j], t, right[mi[j]])
}

/// `data` is exactly the nested-loop join of `left` against `right`: for
/// each left tuple in order, one combined tuple per matching right tuple
/// in order.
pub open spec fn join_matches(
    left: Seq<Tuple>,
    right: Seq<Tuple>,
    ln: Seq<char>,
    rn: Seq<char>,
    data: Seq<Tuple>,
) -> bool {
    exists|per: Seq<Seq<Tuple>>|
        {
            &&& per.len() == left.len()
            &&& (forall|a: int|
                0 <= a < left.len() ==> row_join(left[a], right, ln, rn, #[trigger] per[a]))
            &&& data == concat_pages(per)
        }
}

/// Field values that agree in every observable view.
pub open spec fn spec_field_eq(a: FieldVal, b: FieldVal) -> bool {
    match (a, b) {
        (FieldVal::IntField(x), FieldVal::IntField(y)) => x.value == y.value,
        (FieldVal::StringField(x), FieldVal::StringField(y)) => x.value@ == y.value@ && x.len
            == y.len,
        _ => false,
    }
}

/// Returns whether two field values agree in every observable view.
pub fn field_eq(a: &FieldVal, b: &FieldVal) -> (r: bool)
    ensures
        r == spec_field_eq(*a, *b),
{
    match (a, b) {
        (FieldVal::IntField(x), FieldVal::IntField(y)) => x.value == y.value,
        (FieldVal::StringField(x), FieldVal::StringField(y)) => x.len == y.len
            && x.value.as_str().eq(y.value.as_str()),
        _ => false,
    }
}

/// A materialized view over tuples: the data collected by a scan, a
/// cursor, and the filters a consumer pushed down.
pub struct TableIterator {
    pub data: Vec<Tuple>,
    pub pos: usize,
    pub filters: Vec<(String, Predicate)>,
}

impl TableIterator {
    /// Every held tuple is well formed and the cursor is in range.
    pub open spec fn wf(self) -> bool {
        &&& self.pos <= self.data@.len()
        &&& forall|i: int| 0 <= i < self.data@.len() ==> (#[trigger] self.data@[i]).wf()
    }

    /// Pushes a filter down: later `next` calls skip tuples that fail the
    /// predicate on the named field.
    pub fn table_filter(&mut self, field_name: &str, predicate: Predicate)
        ensures
            final(self).data == old(self).data,
            final(self).pos == old(self).pos,
            final(self).filters@.len() == old(self).filters@.len() + 1,
            final(self).filters@.last().0@ == field_name@,
            final(self).filters@.last().1 == predicate,
            forall|k: int|
                0 <= k < old(self).filters@.len() ==> final(self).filters@[k] == old(
                    self,
                ).filters@[k],
    {
        let mut name = String::new();
        name.append(field_name);
        self.filters.push((name, predicate));
    }

    /// Yields the next tuple that passes every pushed filter, advancing
    /// the cursor past it; `None` once the rest all fail or the data is
    /// exhausted.
    pub fn next(&mut self) -> (r: Option<Tuple>)
        requires
            old(self).wf(),
        ensures
            final(self).wf(),
            final(self).data == old(self).data,
            final(self).filters == old(self).filters,
            old(self).pos <= final(self).pos,
            match r {
                Some(t) => {
                    let i = final(self).pos - 1;
                    &&& old(self).pos <= i < old(self).data@.len()
                    &&& tuple_eqv(t, old(self).data@[i])
                    &&& t.wf()
                    &&& passes_filters(old(self).data@[i], old(self).filters@)
                    &&& forall|j: int|
                        old(self).pos <= j < i ==> !passes_filters(
                            #[trigger] old(self).data@[j],
                            old(self).filters@,
                        )
                },
                None => {
                    &&& final(self).pos == old(self).data@.len()
                    &&& forall|j: int|
                        old(self).pos <= j < old(self).data@.len() ==> !passes_filters(
                            #[trigger] old(self).data@[j],
                            old(self).filters@,
                        )
                },
            },
    {
        let n = self.data.len();
        while self.pos < n
            invariant
                self.wf(),
                n == self.data@.len(),
                self.data == old(self).data,
                self.filters == old(self).filters,
                old(self).pos <= self.pos,
                forall|j: int|
                    old(self).pos <= j < self.pos ==> !passes_filters(
                        #[trigger] self.data@[j],
                        self.filters@,
                    ),
            decreases n - self.pos,
        {
            let m = self.filters.len();
            let mut k: usize = 0;
            let mut ok = true;
            while k < m && ok
                invariant
                    m == self.filters@.len(),
                    k <= m,
                    self.pos < self.data@.len(),
                    self.wf(),
                    ok ==> (forall|x: int|
                        0 <= x < k ==> spec_filter(
                            self.data@[self.pos as int],
                            (#[trigger] self.filters@[x]).0@,
                            self.filters@[x].1,
                        )),
                    !ok ==> !passes_filters(self.data@[self.pos as int], self.filters@),
                decreases m - k + (if ok {
                    1int
                } else {
                    0int
                }),
            {
                let t = &self.data[self.pos];
                if !t.filter_by(self.filters[k].0.as_str(), &self.filters[k].1) {
                    proof {
                        assert(!spec_filter(
                            self.data@[self.pos as int],
                            self.filters@[k as int].0@,
                            self.filters@[k as int].1,
                        ));
                    }
                    ok = false;
                } else {
                    k += 1;
                }
            }
            if ok {
                let out = self.data[self.pos].clone_tuple();
                self.pos = self.pos + 1;
                return Some(out);
            }
            proof {
                assert(!passes_filters(self.data@[self.pos as int], self.filters@));
            }
            self.pos = self.pos + 1;
        }
        None
    }

    /// Projects each held tuple onto the wanted field names (each
    /// tuple's first-named occurrences, in field order); the cursor
    /// resets and no filters carry over.
    pub fn project(&self, fields: Vec<String>) -> (r: TableIterator)
        requires
            self.wf(),
        ensures
            r.pos == 0,
            r.filters@.len() == 0,
            r.data@.len() == self.data@.len(),
            forall|j: int|
                0 <= j < self.data@.len() ==> {
                    let t = #[trigger] self.data@[j];
                    let sel = selected_indices(t.td.names@, fields@);
                    &&& r.data@[j].fields@ == Seq::new(sel.len(), |x: int| t.fields@[sel[x]])
                    &&& r.data@[j].td.types@ == Seq::new(sel.len(), |x: int| t.td.types@[sel[x]])
                    &&& r.data@[j].td.names@ == Seq::new(sel.len(), |x: int| t.td.names@[sel[x]])
                },
    {
        let n = self.data.len();
        let mut out: Vec<Tuple> = Vec::new();
        let mut j: usize = 0;
        while j < n
            invariant
                self.wf(),
                n == self.data@.len(),
                j <= n,
                out@.len() == j,
                forall|y: int|
                    0 <= y < j ==> {
                        let t = #[trigger] self.data@[y];
                        let sel = selected_indices(t.td.names@, fields@);
                        &&& out@[y].fields@ == Seq::new(sel.len(), |x: int| t.fields@[sel[x]])
                        &&& out@[y].td.types@ == Seq::new(sel.len(), |x: int| t.td.types@[sel[x]])
                        &&& out@[y].td.names@ == Seq::new(sel.len(), |x: int| t.td.names@[sel[x]])
                    },
            decreases n - j,
        {
            let t = &self.data[j];
            let nf = t.td.names.len();
            let mut new_types: Vec<Type> = Vec::new();
            let mut new_names: Vec<String> = Vec::new();
            let mut new_fields: Vec<FieldVal> = Vec::new();
            let mut i: usize = 0;
            while i < nf
                invariant
                    t == &self.data@[j as int],
                    t.wf(),
                    nf == t.td.names@.len(),
                    nf == t.td.types@.len(),
                    nf == t.fields@.len(),
                    i <= nf,
                    new_fields@ == Seq::new(
                        selected_indices(t.td.names@.take(i as int), fields@).len(),
                        |x: int| t.fields@[selected_indices(t.td.names@.take(i as int), fields@)[x]],
                    ),
                    new_types@ == Seq::new(
                        selected_indices(t.td.names@.take(i as int), fields@).len(),
                        |x: int| t.td.types@[selected_indices(t.td.names@.take(i as int), fields@)[x]],
                    ),
                    new_names@ == Seq::new(
                        selected_indices(t.td.names@.take(i as int), fields@).len(),
                        |x: int| t.td.names@[selected_indices(t.td.names@.take(i as int), fields@)[x]],
                    ),
                decreases nf - i,
            {
                proof {
                    assert(t.td.names@.take(i + 1).drop_last() =~= t.td.names@.take(i as int));
                    lemma_selected_in_range(t.td.names@.take(i + 1), fields@);
                    lemma_selected_in_range(t.td.names@.take(i as int), fields@);
                }
                if name_wanted(&fields, &t.td.names[i]) {
                    new_types.push(t.td.types[i]);
                    new_names.push(t.td.names[i].clone());
                    new_fields.push(t.fields[i].clone_val());
                    proof {
                        let sel1 = selected_indices(t.td.names@.take(i + 1), fields@);
                        assert(t.td.names@.take(i + 1).last()@ == t.td.names@[i as int]@);
                        assert(new_fields@ =~= Seq::new(sel1.len(), |x: int| t.fields@[sel1[x]]));
                        assert(new_types@ =~= Seq::new(sel1.len(), |x: int| t.td.types@[sel1[x]]));
                        assert(new_names@ =~= Seq::new(sel1.len(), |x: int| t.td.names@[sel1[x]]));
                    }
                } else {
                    proof {
                        let sel1 = selected_indices(t.td.names@.take(i + 1), fields@);
                        assert(new_fields@ =~= Seq::new(sel1.len(), |x: int| t.fields@[sel1[x]]));
                        assert(new_types@ =~= Seq::new(sel1.len(), |x: int| t.td.types@[sel1[x]]));
                        assert(new_names@ =~= Seq::new(sel1.len(), |x: int| t.td.names@[sel1[x]]));
                    }
                }
                i += 1;
            }
            proof {
                assert(t.td.names@.take(nf as int) =~= t.td.names@);
            }
            out.push(
                Tuple {
                    td: TupleDesc { types: new_types, names: new_names },
                    fields: new_fields,
                    rid: None,
                },
            );
            j += 1;
        }
        TableIterator { data: out, pos: 0, filters: Vec::new() }
    }

    /// Joins this view with another on equality of the named fields
    /// (nested loop): for each tuple here in order, one combined tuple —
    /// its fields then the other's — per matching tuple of `other`, in
    /// `other`'s order. A tuple without a usable join field is
    /// `NotFound`; a matching pair whose combined schema is too wide for
    /// a page is `InvalidState`; with every tuple keyed and every match
    /// narrow enough, the join is owed.
    #[verifier::rlimit(60)]
    pub fn join(&self, other: &TableIterator, field_name_left: &str, field_name_right: &str) -> (r:
        Result<TableIterator, DbError>)
        requires
            self.wf(),
            other.wf(),
        ensures
            r is Ok ==> {
                let out = r->Ok_0;
                &&& out.pos == 0
                &&& out.filters@.len() == 0
                &&& out.wf()
                &&& join_matches(
                    self.data@,
                    other.data@,
                    field_name_left@,
                    field_name_right@,
                    out.data@,
                )
            },
            r is Err ==> (r->Err_0 == DbError::NotFound || r->Err_0 == DbError::InvalidState),
            (forall|a: int|
                0 <= a < self.data@.len() ==> has_key(#[trigger] self.data@[a], field_name_left@))
                && (forall|b: int|
                0 <= b < other.data@.len() ==> has_key(
                    #[trigger] other.data@[b],
                    field_name_right@,
                )) && (forall|a: int, b: int|
                0 <= a < self.data@.len() && 0 <= b < other.data@.len() && pair_matches(
                    #[trigger] self.data@[a],
                    #[trigger] other.data@[b],
                    field_name_left@,
                    field_name_right@,
                ) ==> crate::tuple::types_size(self.data@[a].td.types@) + crate::tuple::types_size(
                    other.data@[b].td.types@,
                ) < PAGE_SIZE) ==> r is Ok,
    {
        let ghost ln = field_name_left@;
        let ghost rn = field_name_right@;
        let n = self.data.len();
        let m = other.data.len();
        let mut out: Vec<Tuple> = Vec::new();
        let ghost mut per: Seq<Seq<Tuple>> = Seq::empty();
        let mut a: usize = 0;
        while a < n
            invariant
                self.wf(),
                other.wf(),
                ln == field_name_left@,
                rn == field_name_right@,
                n == self.data@.len(),
                m == other.data@.len(),
                a <= n,
                per.len() == a,
                forall|i: int| 0 <= i < out@.len() ==> (#[trigger] out@[i]).wf(),
                forall|x: int|
                    0 <= x < a ==> row_join(self.data@[x], other.data@, ln, rn, #[trigger] per[x]),
                out@ == concat_pages(per),
            decreases n - a,
        {
            let ta = &self.data[a];
            let la = match ta.td.name_to_id(field_name_left) {
                Some(i) => i,
                None => {
                    proof {
                        if has_key(self.data@[a as int], ln) {
                            let i = choose|i: int| key_idx_ok(self.data@[a as int], ln, i);
                            assert(false);
                        }
                    }
                    return Err(DbError::NotFound);
                },
            };
            if la >= ta.fields.len() {
                proof {
                    if has_key(self.data@[a as int], ln) {
                        let i = choose|i: int| key_idx_ok(self.data@[a as int], ln, i);
                        assert((self.data@[a as int].td.names@[la as int])@ == ln);
                        lemma_key_idx_unique(
                            self.data@[a as int],
                            ln,
                            i,
                            i,
                        );
                        assert(i == la as int);
                        assert(false);
                    }
                }
                return Err(DbError::NotFound);
            }
            proof {
                assert(key_idx_ok(self.data@[a as int], ln, la as int));
            }
            let mut b: usize = 0;
            let ghost mut row: Seq<Tuple> = Seq::empty();
            while b < m
                invariant
                    self.wf(),
                    other.wf(),
                    ln == field_name_left@,
                    rn == field_name_right@,
                    n == self.data@.len(),
                    m == other.data@.len(),
                    a < n,
                    b <= m,
                    ta == &self.data@[a as int],
                    (la as int) < ta.fields@.len(),
                    key_idx_ok(self.data@[a as int], ln, la as int),
                    per.len() == a,
                    forall|i: int| 0 <= i < out@.len() ==> (#[trigger] out@[i]).wf(),
                    forall|x: int|
                        0 <= x < a ==> row_join(
                            self.data@[x],
                            other.data@,
                            ln,
                            rn,
                            #[trigger] per[x],
                        ),
                    row_join(
                        self.data@[a as int],
                        other.data@.take(b as int),
                        ln,
                        rn,
                        row,
                    ),
                    out@ == concat_pages(per) + row,
                decreases m - b,
            {
                let tb = &other.data[b];
                let rb = match tb.td.name_to_id(field_name_right) {
                    Some(i) => i,
                    None => {
                        proof {
                            if has_key(other.data@[b as int], rn) {
                                let i = choose|i: int| key_idx_ok(other.data@[b as int], rn, i);
                                assert(false);
                            }
                        }
                        return Err(DbError::NotFound);
                    },
                };
                if rb >= tb.fields.len() {
                    proof {
                        if has_key(other.data@[b as int], rn) {
                            let i = choose|i: int| key_idx_ok(other.data@[b as int], rn, i);
                            assert(i == rb as int);
                            assert(false);
                        }
                    }
                    return Err(DbError::NotFound);
                }
                proof {
                    assert(key_idx_ok(other.data@[b as int], rn, rb as int));
                    assert(other.data@.take(b + 1).drop_last() =~= other.data@.take(b as int));
                }
                let matched = field_eq(&ta.fields[la], &tb.fields[rb]);
                proof {
                    // the executable test decides the matching relation
                    if matched {
                        assert(pair_matches(self.data@[a as int], other.data@[b as int], ln, rn));
                    } else {
                        if pair_matches(self.data@[a as int], other.data@[b as int], ln, rn) {
                            let (i, j) = choose|i: int, j: int|
                                #![trigger self.data@[a as int].fields@[i], other.data@[b as int].fields@[j]]
                                {
                                    &&& key_idx_ok(self.data@[a as int], ln, i)
                                    &&& key_idx_ok(other.data@[b as int], rn, j)
                                    &&& spec_field_eq(
                                        self.data@[a as int].fields@[i],
                                        other.data@[b as int].fields@[j],
                                    )
                                };
                            lemma_key_idx_unique(self.data@[a as int], ln, i, la as int);
                            lemma_key_idx_unique(other.data@[b as int], rn, j, rb as int);
                            assert(false);
                        }
                    }
                }
                if matched {
                    let sa = ta.td.get_size();
                    let sb = tb.td.get_size();
                    if sa >= PAGE_SIZE || sb >= PAGE_SIZE - sa {
                        return Err(DbError::InvalidState);
                    }
                    let ctd = TupleDesc::combine(&ta.td, &tb.td);
                    let ca = ta.clone_tuple();
                    let cb = tb.clone_tuple();
                    let mut combined_fields = ca.fields;
                    let mut rest = cb.fields;
                    combined_fields.append(&mut rest);
                    let newt = Tuple { td: ctd, fields: combined_fields, rid: None };
                    proof {
                        assert(combined_of(newt, self.data@[a as int], other.data@[b as int]));
                        assert(newt.wf()) by {
                            crate::tuple::lemma_types_size_lower(newt.td.types@);
                        }
                    }
                    out.push(newt);
                    proof {
                        let t0 = self.data@[a as int];
                        let mi0 = matching_indices(t0, other.data@.take(b as int), ln, rn);
                        let mi1 = matching_indices(t0, other.data@.take(b + 1), ln, rn);
                        row = row.push(newt);
                        assert(mi1 =~= mi0 + seq![b as int]);
                        lemma_matching_in_range(t0, other.data@.take(b as int), ln, rn);
                        assert forall|j: int| 0 <= j < mi1.len() implies combined_of(
                            #[trigger] row[j],
                            t0,
                            other.data@.take(b + 1)[mi1[j]],
                        ) by {
                            if j < mi0.len() {
                                assert(mi1[j] == mi0[j]);
                                assert(other.data@.take(b + 1)[mi0[j]] == other.data@.take(
                                    b as int,
                                )[mi0[j]]);
                                assert(row[j] == row.drop_last()[j]);
                            } else {
                                assert(mi1[j] == b as int);
                                assert(row[j] == newt);
                            }
                        }
                        assert(row_join(t0, other.data@.take(b + 1), ln, rn, row));
                        assert(out@ =~= concat_pages(per) + row);
                    }
                } else {
                    proof {
                        let t0 = self.data@[a as int];
                        let mi0 = matching_indices(t0, other.data@.take(b as int), ln, rn);
                        let mi1 = matching_indices(t0, other.data@.take(b + 1), ln, rn);
                        assert(mi1 =~= mi0);
                        lemma_matching_in_range(t0, other.data@.take(b as int), ln, rn);
                        assert forall|j: int| 0 <= j < mi1.len() implies combined_of(
                            #[trigger] row[j],
                            t0,
                            other.data@.take(b + 1)[mi1[j]],
                        ) by {
                            assert(mi1[j] == mi0[j]);
                            assert(other.data@.take(b + 1)[mi0[j]] == other.data@.take(
                                b as int,
                            )[mi0[j]]);
                        }
                        assert(row_join(t0, other.data@.take(b + 1), ln, rn, row));
                    }
                }
                b += 1;
            }
            proof {
                assert(other.data@.take(m as int) =~= other.data@);
                let ghost per0 = per;
                per = per.push(row);
                assert(per.drop_last() =~= per0);
                assert(concat_pages(per) == concat_pages(per0) + row);
                assert forall|x: int| 0 <= x < a + 1 implies row_join(
                    self.data@[x],
                    other.data@,
                    ln,
                    rn,
                    #[trigger] per[x],
                ) by {
                    if x < a as int {
                        assert(per[x] == per0[x]);
                    } else {
                        assert(per[x] == row);
                    }
                }
            }
            a += 1;
        }
        proof {
            assert(join_matches(self.data@, other.data@, ln, rn, out@)) by {
                assert({
                    &&& per.len() == self.data@.len()
                    &&& (forall|x: int|
                        0 <= x < self.data@.len() ==> row_join(
                            self.data@[x],
                            other.data@,
                            ln,
                            rn,
                            #[trigger] per[x],
                        ))
                    &&& out@ == concat_pages(per)
                });
            }
        }
        Ok(TableIterator { data: out, pos: 0, filters: Vec::new() })
    }
}


/// The concatenation of per-page tuple sequences, in page order.
pub open spec fn concat_pages(per: Seq<Seq<Tuple>>) -> Seq<Tuple>
    decreases per.len(),
{
    if per.len() == 0 {
        Seq::empty()
    } else {
        concat_pages(per.drop_last()) + per.last()
    }
}

/// At most the first `count` elements of `s`.
pub open spec fn take_at_most(s: Seq<Tuple>, count: int) -> Seq<Tuple> {
    s.take(
        if count <= s.len() {
            count
        } else {
            s.len() as int
        },
    )
}

/// `out` is, in ascending slot order, the parse of every occupied slot
/// that page `pn` of `file` shows through the pool, each tuple carrying
/// its record identifier.
pub open spec fn visible_page_tuples(
    pool: crate::buffer_pool::BufferPool,
    file: crate::heap_file::HeapFile,
    pn: int,
    out: Seq<Tuple>,
) -> bool {
    let pid = HeapPageId { table_id: file.id, page_number: pn as u32 };
    let used = crate::buffer_pool::visible_used(pool, file, pn);
    let slots = crate::buffer_pool::visible_slots_of(pool, file, pid);
    let occ = crate::heap_page::occupied_indices(used);
    &&& out.len() == occ.len()
    &&& forall|j: int|
        0 <= j < occ.len() ==> crate::tuple::tuple_parses_to(
            file.td,
            slots[occ[j]],
            #[trigger] out[j],
        ) && out[j].wf() && out[j].rid == Some(
            crate::heap_page::RecordId { page_id: pid, slot_number: occ[j] as u32 },
        )
}

/// `data` is a table scan limited to `count` tuples, taken through the
/// pool state `pool`: the occupied tuples of pages `0..k` in page-then-
/// slot order, truncated at `count`, where the scan covered every page
/// (`k` = the file's page count) unless the limit cut it short.
pub open spec fn scan_matches(
    pool: crate::buffer_pool::BufferPool,
    file: crate::heap_file::HeapFile,
    count: int,
    data: Seq<Tuple>,
) -> bool {
    exists|per: Seq<Seq<Tuple>>|
        {
            &&& per.len() <= file.disk_view().len()
            &&& (forall|pn: int|
                0 <= pn < per.len() ==> visible_page_tuples(pool, file, pn, #[trigger] per[pn]))
            &&& data == take_at_most(concat_pages(per), count)
            &&& (per.len() < file.disk_view().len() ==> data.len() == count)
        }
}

/// Every occupied slot the table shows through the pool parses under its
/// schema.
pub open spec fn all_visible_slots_parse(
    pool: crate::buffer_pool::BufferPool,
    file: crate::heap_file::HeapFile,
) -> bool {
    forall|pn: int, i: int|
        0 <= pn < file.disk_view().len() && 0 <= i < crate::buffer_pool::visible_used(
            pool,
            file,
            pn,
        ).len() && crate::buffer_pool::visible_used(pool, file, pn)[i]
            ==> crate::tuple::tuple_parse_ok(
            file.td,
            #[trigger] crate::buffer_pool::visible_slots_of(
                pool,
                file,
                HeapPageId { table_id: file.id, page_number: pn as u32 },
            )[i],
        )
}

/// A handle on one registered table: its name, identifier, and schema as
/// registered at construction.
pub struct Table {
    pub name: String,
    pub table_id: u64,
    pub tuple_desc: TupleDesc,
}

impl Table {
    /// Looks the table up by name in the catalog.
    pub fn new(name: &str, catalog: &Catalog) -> (r: Result<Table, DbError>)
        requires
            catalog.wf(),
        ensures
            r is Ok <==> crate::catalog::has_table_name(catalog.entries@, name@),
            r is Ok ==> (r->Ok_0).name@ == name@ && (r->Ok_0).tuple_desc.wf() && exists|i: int|
                0 <= i < catalog.entries@.len() && (#[trigger] catalog.entries@[i]).name@ == name@
                    && catalog.entries@[i].file.id == (r->Ok_0).table_id && (
                r->Ok_0).tuple_desc.matches(catalog.entries@[i].file.td),
            r is Err ==> r->Err_0 == DbError::NotFound,
    {
        let file = match catalog.get_table_from_name(name) {
            Some(f) => f,
            None => {
                return Err(DbError::NotFound);
            },
        };
        let mut owned = String::new();
        owned.append(name);
        Ok(Table { name: owned, table_id: file.get_id(), tuple_desc: file.get_tuple_desc().clone_desc() })
    }

    /// Returns the schema of this table.
    pub fn get_tuple_desc(&self) -> (r: &TupleDesc)
        ensures
            r == &self.tuple_desc,
    {
        &self.tuple_desc
    }

    /// Inserts one tuple under a fresh transaction and commits it, so the
    /// write is durable on return. On failure the transaction is aborted
    /// and the error passed up.
    pub fn insert_tuple(&self, db: &mut Database, t: &Tuple) -> (r: Result<(), DbError>)
        requires
            old(db).wf(),
            t.wf(),
            has_table_id(old(db).catalog.entries@, self.table_id) ==> t.td.matches(
                table_by_id(old(db).catalog.entries@, self.table_id).td,
            ),
        ensures
            final(db).wf(),
            final(db).tx_states@.len() == old(db).tx_states@.len() + 1,
            r is Ok ==> final(db).tx_states@.last() == crate::transaction::TxState::Committed,
            // on success the tuple is in the table and durable: some page
            // image of the table's file holds its bytes in an occupied slot
            r is Ok ==> has_table_id(final(db).catalog.entries@, self.table_id) && (exists|
                pn: int,
                sl: int,
            |
                #![trigger crate::buffer_pool::disk_slots(
                    table_by_id(final(db).catalog.entries@, self.table_id),
                    pn,
                )[sl]]
                {
                    &&& 0 <= pn < table_by_id(
                        final(db).catalog.entries@,
                        self.table_id,
                    ).disk_view().len()
                    &&& 0 <= sl < crate::buffer_pool::disk_used(
                        table_by_id(final(db).catalog.entries@, self.table_id),
                        pn,
                    ).len()
                    &&& crate::buffer_pool::disk_used(
                        table_by_id(final(db).catalog.entries@, self.table_id),
                        pn,
                    )[sl]
                    &&& crate::buffer_pool::disk_slots(
                        table_by_id(final(db).catalog.entries@, self.table_id),
                        pn,
                    )[sl] == t.spec_bytes()
                }),
    {
        let tid = db.begin_transaction();
        match db.insert_tuple(tid, self.table_id, t) {
            Ok(rid) => {
                let ghost db2 = *db;
                let r2 = db.commit_transaction(tid);
                proof {
                    if r2 is Ok {
                        let pid = rid.page_id;
                        let pn = pid.page_number as int;
                        let sl = rid.slot_number as int;
                        let fs2 = db2.buffer_pool.frames@;
                        let f = crate::buffer_pool::cached_frame(fs2, pid);
                        let x = choose|x: int|
                            0 <= x < fs2.len() && (#[trigger] fs2[x]).pid == pid;
                        crate::buffer_pool::lemma_cached_at_index(fs2, x, pid);
                        assert(fs2[x] == f && f.dirty && f.owner == tid.id);
                        // the commit flushed that frame byte for byte
                        let file1 = table_by_id(final(db).catalog.entries@, self.table_id);
                        let z = choose|z: int|
                            0 <= z < db2.catalog.entries@.len() && (
                            #[trigger] db2.catalog.entries@[z]).file.id == self.table_id;
                        lemma_table_at_index(db2.catalog.entries@, z, self.table_id);
                        assert(final(db).catalog.entries@[z].file.id == self.table_id);
                        lemma_table_at_index(final(db).catalog.entries@, z, self.table_id);
                        let img = file1.disk_view()[pn];
                        assert(crate::heap_page::page_bytes_ok(f.page, img));
                        crate::heap_page::lemma_bytes_ok_parses(f.page, img);
                        // its geometry is the table's, so the image shows the
                        // slot occupied with the tuple's bytes
                        assert(f.page.td.spec_tuple_size() == file1.td.spec_tuple_size());
                        assert(crate::buffer_pool::disk_used(file1, pn)[sl] == f.page.used@[sl]);
                        assert(crate::buffer_pool::disk_slots(file1, pn)[sl]
                            == f.page.slots_view()[sl]) by {
                            assert(crate::heap_page::page_parses_from(f.page, img));
                        }
                        assert({
                            &&& 0 <= pn < file1.disk_view().len()
                            &&& 0 <= sl < crate::buffer_pool::disk_used(file1, pn).len()
                            &&& crate::buffer_pool::disk_used(file1, pn)[sl]
                            &&& crate::buffer_pool::disk_slots(file1, pn)[sl] == t.spec_bytes()
                        });
                    }
                }
                r2
            },
            Err(e) => {
                if db.is_active(tid) {
                    let _ = db.abort_transaction(tid);
                }
                Err(e)
            },
        }
    }

    /// Scans up to `count` tuples of this table, in page then slot order,
    /// under a fresh transaction that commits when the scan completes: the
    /// returned view holds exactly the occupied tuples of the table's
    /// pages, in ascending page then slot order, truncated at `count`.
    /// With no lock held by anyone and every stored slot well formed, the
    /// scan is owed; otherwise `Wait`/`Abort` surface a lock conflict and
    /// `IoError` a slot that does not parse.
    #[verifier::rlimit(100)]
    pub fn scan(&self, db: &mut Database, count: usize) -> (r: Result<TableIterator, DbError>)
        requires
            old(db).wf(),
        ensures
            final(db).wf(),
            r is Ok ==> {
                let it = r->Ok_0;
                &&& it.wf()
                &&& it.pos == 0
                &&& it.filters@.len() == 0
                &&& it.data@.len() <= count
                &&& (!has_table_id(old(db).catalog.entries@, self.table_id) ==> it.data@.len()
                    == 0)
                &&& (has_table_id(old(db).catalog.entries@, self.table_id) ==> scan_matches(
                    old(db).buffer_pool,
                    table_by_id(old(db).catalog.entries@, self.table_id),
                    count as int,
                    it.data@,
                ))
            },
            has_table_id(old(db).catalog.entries@, self.table_id) && old(
                db,
            ).buffer_pool.lock_manager@.len() == 0 && all_visible_slots_parse(
                old(db).buffer_pool,
                table_by_id(old(db).catalog.entries@, self.table_id),
            ) ==> r is Ok,
    {
        let ghost db0 = *old(db);
        let tid = db.begin_transaction();
        let mut data: Vec<Tuple> = Vec::new();
        let ghost mut per: Seq<Seq<Tuple>> = Seq::empty();
        let mut it = crate::heap_file::HeapFileIterator {
            table_id: self.table_id,
            current_page_index: 0,
            tid,
        };
        proof {
            if has_table_id(db0.catalog.entries@, self.table_id) {
                let file = table_by_id(db0.catalog.entries@, self.table_id);
                crate::buffer_pool::lemma_frames_accounted(
                    db.buffer_pool.frames@,
                    db.buffer_pool.frames@,
                    file,
                );
                crate::buffer_pool::lemma_prefix_kept(
                    db.buffer_pool.frames@,
                    db.buffer_pool.frames@,
                );
            }
            if db0.buffer_pool.lock_manager@.len() == 0 {
                assert forall|t2: crate::transaction::TransactionId, p2: HeapPageId| t2 != tid
                    implies crate::lock_manager::spec_holds(
                    db.buffer_pool.lock_manager@,
                    t2,
                    p2,
                ) is None by {
                    if crate::lock_manager::has_entry(db.buffer_pool.lock_manager@, t2, p2) {
                        let x = choose|x: int|
                            0 <= x < db.buffer_pool.lock_manager@.len()
                                && crate::lock_manager::entry_matches(
                                #[trigger] db.buffer_pool.lock_manager@[x],
                                t2,
                                p2,
                            );
                        assert(false);
                    }
                }
            }
        }
        loop
            invariant_except_break
                data@.len() < count || count == 0,
                count == 0 ==> per.len() == 0,
            invariant
                db.wf(),
                db0.wf(),
                db0 == *old(db),
                db.catalog == db0.catalog,
                db.is_active_spec(tid),
                it.table_id == self.table_id,
                it.tid == tid,
                data@.len() <= count,
                forall|i: int| 0 <= i < data@.len() ==> (#[trigger] data@[i]).wf(),
                !has_table_id(db0.catalog.entries@, self.table_id) ==> per.len() == 0
                    && data@.len() == 0,
                has_table_id(db0.catalog.entries@, self.table_id) ==> {
                    let file = table_by_id(db0.catalog.entries@, self.table_id);
                    &&& crate::buffer_pool::frames_evolve(
                        db0.buffer_pool.frames@,
                        db.buffer_pool.frames@,
                        file,
                    )
                    &&& crate::buffer_pool::dirty_frames_kept(
                        db0.buffer_pool.frames@,
                        db.buffer_pool.frames@,
                    )
                    &&& it.current_page_index as int == per.len()
                    &&& per.len() <= file.disk_view().len()
                    &&& (forall|pn: int|
                        0 <= pn < per.len() ==> visible_page_tuples(
                            db0.buffer_pool,
                            file,
                            pn,
                            #[trigger] per[pn],
                        ))
                    &&& data@ == take_at_most(concat_pages(per), count as int)
                },
                db0.buffer_pool.lock_manager@.len() == 0 ==> (forall|
                    t2: crate::transaction::TransactionId,
                    p2: HeapPageId,
                |
                    t2 != tid ==> crate::lock_manager::spec_holds(
                        db.buffer_pool.lock_manager@,
                        t2,
                        p2,
                    ) is None),
            ensures
                db.wf(),
                db.is_active_spec(tid),
                data@.len() <= count,
                forall|i: int| 0 <= i < data@.len() ==> (#[trigger] data@[i]).wf(),
                !has_table_id(db0.catalog.entries@, self.table_id) ==> data@.len() == 0,
                has_table_id(db0.catalog.entries@, self.table_id) ==> scan_matches(
                    db0.buffer_pool,
                    table_by_id(db0.catalog.entries@, self.table_id),
                    count as int,
                    data@,
                ),
            decreases u32::MAX - it.current_page_index,
        {
            let ghost db_pre = *db;
            let ghost pn = it.current_page_index as int;
            let page = match it.next(db) {
                Ok(Some(p)) => p,
                Ok(None) => {
                    proof {
                        if has_table_id(db0.catalog.entries@, self.table_id) {
                            let file = table_by_id(db0.catalog.entries@, self.table_id);
                            assert(per.len() == file.disk_view().len());
                            assert(scan_matches(db0.buffer_pool, file, count as int, data@)) by {
                                assert({
                                    &&& per.len() <= file.disk_view().len()
                                    &&& (forall|pn2: int|
                                        0 <= pn2 < per.len() ==> visible_page_tuples(
                                            db0.buffer_pool,
                                            file,
                                            pn2,
                                            #[trigger] per[pn2],
                                        ))
                                    &&& data@ == take_at_most(concat_pages(per), count as int)
                                    &&& (per.len() < file.disk_view().len() ==> data@.len()
                                        == count)
                                });
                            }
                        }
                    }
                    break ;
                },
                Err(e) => {
                    proof {
                        if has_table_id(db0.catalog.entries@, self.table_id)
                            && db0.buffer_pool.lock_manager@.len() == 0 {
                            let pid2 = HeapPageId {
                                table_id: self.table_id,
                                page_number: pn as u32,
                            };
                            crate::buffer_pool::lemma_no_other_holder_granted(
                                db_pre.buffer_pool.lock_manager@,
                                tid,
                                pid2,
                            );
                            assert(false);
                        }
                    }
                    if db.is_active(tid) {
                        let _ = db.abort_transaction(tid);
                    }
                    return Err(e);
                },
            };
            proof {
                let file = table_by_id(db0.catalog.entries@, self.table_id);
                crate::buffer_pool::lemma_frames_evolve_trans(
                    db0.buffer_pool.frames@,
                    db_pre.buffer_pool.frames@,
                    db.buffer_pool.frames@,
                    file,
                );
                crate::buffer_pool::lemma_dirty_kept_trans(
                    db0.buffer_pool.frames@,
                    db_pre.buffer_pool.frames@,
                    db.buffer_pool.frames@,
                );
                crate::database::lemma_visible_stable(db0, db.buffer_pool, self.table_id, pn);
            }
            let tuples_res = page.tuples();
            let ghost file = table_by_id(db0.catalog.entries@, self.table_id);
            let ghost pid = HeapPageId { table_id: self.table_id, page_number: pn as u32 };
            proof {
                // the page shows exactly what the table showed at scan
                // start: its frame is the cached one, and its schema is
                // the table's
                let f = crate::buffer_pool::cached_frame(db.buffer_pool.frames@, pid);
                let x = choose|x: int|
                    0 <= x < db.buffer_pool.frames@.len() && (
                    #[trigger] db.buffer_pool.frames@[x]).pid == pid;
                crate::buffer_pool::lemma_cached_at_index(db.buffer_pool.frames@, x, pid);
                assert(crate::database::frame_ok(db.catalog, db.buffer_pool.frames@[x]));
                let z = choose|z: int|
                    0 <= z < db0.catalog.entries@.len() && (
                    #[trigger] db0.catalog.entries@[z]).file.id == self.table_id;
                lemma_table_at_index(db0.catalog.entries@, z, self.table_id);
                assert(page.used@ == crate::buffer_pool::visible_used(db0.buffer_pool, file, pn));
                assert(page.slots_view() == crate::buffer_pool::visible_slots_of(
                    db0.buffer_pool,
                    file,
                    pid,
                ));
                assert(page.td.matches(file.td));
            }
            let mut tuples = match tuples_res {
                Ok(ts) => ts,
                Err(_) => {
                    proof {
                        if db0.buffer_pool.lock_manager@.len() == 0 && all_visible_slots_parse(
                            db0.buffer_pool,
                            file,
                        ) {
                            let i = choose|i: int|
                                0 <= i < page.used@.len() && page.used@[i]
                                    && !crate::tuple::tuple_parse_ok(
                                    page.td,
                                    #[trigger] page.slots_view()[i],
                                );
                            assert(crate::tuple::tuple_parse_ok(file.td, page.slots_view()[i])
                                == crate::tuple::tuple_parse_ok(page.td, page.slots_view()[i]));
                            assert(false);
                        }
                    }
                    if db.is_active(tid) {
                        let _ = db.abort_transaction(tid);
                    }
                    return Err(DbError::IoError);
                },
            };
            let ghost full = tuples@;
            proof {
                // the parsed tuples are the page's occupied slots, hence
                // the table's visible ones
                assert(visible_page_tuples(db0.buffer_pool, file, pn, full)) by {
                    let used = crate::buffer_pool::visible_used(db0.buffer_pool, file, pn);
                    let occ = crate::heap_page::occupied_indices(used);
                    crate::heap_page::lemma_occupied_indices_in_range(used);
                    assert forall|j: int| 0 <= j < occ.len() implies crate::tuple::tuple_parses_to(
                        file.td,
                        crate::buffer_pool::visible_slots_of(db0.buffer_pool, file, pid)[occ[j]],
                        #[trigger] full[j],
                    ) && full[j].wf() && full[j].rid == Some(
                        crate::heap_page::RecordId {
                            page_id: pid,
                            slot_number: occ[j] as u32,
                        },
                    ) by {
                        crate::tuple::lemma_parses_to_matches(
                            page.td,
                            file.td,
                            page.slots_view()[occ[j]],
                            full[j],
                        );
                    }
                }
                // at the head of a page, the data is the whole prefix
                assert(data@ == concat_pages(per)) by {
                    let c = concat_pages(per);
                    if count == 0 {
                        assert(c =~= Seq::<Tuple>::empty());
                        assert(data@ =~= c);
                    } else {
                        assert(data@.len() < count);
                        if (count as int) <= c.len() {
                            assert(data@ == c.take(count as int));
                            assert(data@.len() == count);
                            assert(false);
                        }
                        assert(data@ == c.take(c.len() as int));
                        assert(c.take(c.len() as int) =~= c);
                    }
                }
            }
            let ghost mut k: int = 0;
            while tuples.len() > 0 && data.len() < count
                invariant
                    0 <= k <= full.len(),
                    tuples@ == full.skip(k),
                    data@ == concat_pages(per) + full.take(k),
                    data@.len() <= count,
                    forall|j: int| 0 <= j < full.len() ==> (#[trigger] full[j]).wf(),
                decreases tuples@.len(),
            {
                let t = tuples.remove(0);
                data.push(t);
                proof {
                    assert(t == full[k]);
                    k = k + 1;
                    assert(tuples@ =~= full.skip(k));
                    assert(full.take(k) =~= full.take(k - 1).push(full[k - 1]));
                    assert(data@ =~= concat_pages(per) + full.take(k));
                }
            }
            proof {
                let ghost per0 = per;
                per = per.push(full);
                assert(per.drop_last() =~= per0);
                assert(concat_pages(per) == concat_pages(per0) + full);
                if tuples@.len() == 0 {
                    assert(full.take(k) =~= full);
                    assert(data@ =~= concat_pages(per));
                    assert(take_at_most(concat_pages(per), count as int) =~= data@);
                } else {
                    assert(data@.len() == count);
                    assert(take_at_most(concat_pages(per), count as int) =~= data@);
                }
                assert forall|pn2: int| 0 <= pn2 < per.len() implies visible_page_tuples(
                    db0.buffer_pool,
                    file,
                    pn2,
                    #[trigger] per[pn2],
                ) by {
                    if pn2 < per0.len() {
                        assert(per[pn2] == per0[pn2]);
                    } else {
                        assert(per[pn2] == full);
                    }
                }
            }
            if data.len() >= count {
                proof {
                    if has_table_id(db0.catalog.entries@, self.table_id) {
                        assert(scan_matches(db0.buffer_pool, file, count as int, data@)) by {
                            assert({
                                &&& per.len() <= file.disk_view().len()
                                &&& (forall|pn2: int|
                                    0 <= pn2 < per.len() ==> visible_page_tuples(
                                        db0.buffer_pool,
                                        file,
                                        pn2,
                                        #[trigger] per[pn2],
                                    ))
                                &&& data@ == take_at_most(concat_pages(per), count as int)
                                &&& (per.len() < file.disk_view().len() ==> data@.len() == count)
                            });
                        }
                    }
                }
                break ;
            }
        }
        if db.is_active(tid) {
            let _ = db.transaction_complete(tid, true);
        }
        Ok(TableIterator { data, pos: 0, filters: Vec::new() })
    }
}

} // verus!
