//! Logical page locks and the WAIT-DIE deadlock-avoidance protocol.
//!
//! The lock manager grants shared and exclusive locks on page identifiers
//! to transactions. Shared locks are compatible with each other; any pair
//! involving an exclusive lock held by a different transaction conflicts.
//! On conflict the WAIT-DIE rule decides from the transactions' ages: a
//! requester older than every conflicting holder waits, a requester
//! younger than some conflicting holder dies (is told to abort).

use crate::heap_page::HeapPageId;
use crate::transaction::TransactionId;
use vstd::prelude::*;

verus! {

/// The mode of one granted lock.
#[derive(Debug, PartialEq, Eq, Clone, Copy, Structural)]
pub enum LockMode {
    Shared,
    Exclusive,
}

/// One granted lock record: a transaction holds `pid` in `mode`.
#[derive(Debug, PartialEq, Eq, Clone, Copy, Structural)]
pub struct LockEntry {
    pub tid: TransactionId,
    pub pid: HeapPageId,
    pub mode: LockMode,
}

/// What `acquire_lock` decides for a request.
#[derive(Debug, PartialEq, Eq, Clone, Copy, Structural)]
pub enum LockOutcome {
    /// The lock is held by the requester when the call returns.
    Granted,
    /// The requester must wait and retry once the conflicting holders have
    /// released; the lock table is unchanged.
    Wait,
    /// The requester must abort (it is younger than a conflicting holder);
    /// the lock table is unchanged.
    Die,
}

/// `e` is `tid`'s lock record on `pid`.
pub open spec fn entry_matches(e: LockEntry, tid: TransactionId, pid: HeapPageId) -> bool {
    e.tid == tid && e.pid == pid
}

/// Some lock record of `tid` on `pid` is in the table.
pub open spec fn has_entry(s: Seq<LockEntry>, tid: TransactionId, pid: HeapPageId) -> bool {
    exists|i: int| 0 <= i < s.len() && entry_matches(#[trigger] s[i], tid, pid)
}

/// The mode in which `tid` holds `pid`, if it does.
pub open spec fn spec_holds(s: Seq<LockEntry>, tid: TransactionId, pid: HeapPageId) -> Option<
    LockMode,
> {
    if has_entry(s, tid, pid) {
        let i = choose|i: int| 0 <= i < s.len() && entry_matches(#[trigger] s[i], tid, pid);
        Some(s[i].mode)
    } else {
        None
    }
}

/// Well-formedness of the lock table: a transaction has at most one record
/// per page, and two records of different transactions on the same page
/// are both shared (mutual exclusion).
pub open spec fn lm_wf(s: Seq<LockEntry>) -> bool {
    forall|i: int, j: int|
        0 <= i < s.len() && 0 <= j < s.len() && i != j ==> {
            &&& !(#[trigger] s[i].tid == #[trigger] s[j].tid && s[i].pid == s[j].pid)
            &&& (s[i].pid == s[j].pid ==> s[i].mode is Shared && s[j].mode is Shared)
        }
}

/// The record at `i` conflicts with a request by `tid` for `pid` in `m`.
pub open spec fn conflict_at(
    s: Seq<LockEntry>,
    i: int,
    tid: TransactionId,
    pid: HeapPageId,
    m: LockMode,
) -> bool {
    s[i].pid == pid && s[i].tid != tid && (m is Exclusive || s[i].mode is Exclusive)
}

/// Some held lock conflicts with the request.
pub open spec fn has_conflict(
    s: Seq<LockEntry>,
    tid: TransactionId,
    pid: HeapPageId,
    m: LockMode,
) -> bool {
    exists|i: int| 0 <= i < s.len() && conflict_at(s, i, tid, pid, m)
}

/// Some conflicting holder is older than the requester.
pub open spec fn has_older_conflict(
    s: Seq<LockEntry>,
    tid: TransactionId,
    pid: HeapPageId,
    m: LockMode,
) -> bool {
    exists|i: int| 0 <= i < s.len() && conflict_at(s, i, tid, pid, m) && s[i].tid.id < tid.id
}

/// The WAIT-DIE decision for a request against lock table `s`: granted
/// when nothing conflicts; otherwise the requester waits exactly when it
/// is older than every conflicting holder, and dies otherwise.
pub open spec fn wait_die_outcome(
    s: Seq<LockEntry>,
    tid: TransactionId,
    pid: HeapPageId,
    m: LockMode,
) -> LockOutcome {
    if !has_conflict(s, tid, pid, m) {
        LockOutcome::Granted
    } else if has_older_conflict(s, tid, pid, m) {
        LockOutcome::Die
    } else {
        LockOutcome::Wait
    }
}

/// The mode held after a grant: exclusive when requested or already held
/// exclusively (a shared request never downgrades an exclusive hold).
pub open spec fn granted_mode(
    s: Seq<LockEntry>,
    tid: TransactionId,
    pid: HeapPageId,
    m: LockMode,
) -> LockMode {
    if m is Exclusive || spec_holds(s, tid, pid) == Some(LockMode::Exclusive) {
        LockMode::Exclusive
    } else {
        LockMode::Shared
    }
}

/// In a well-formed table, a matching record at `i` is the unique one, so
/// it decides `spec_holds`.
pub proof fn lemma_holds_at_index(s: Seq<LockEntry>, i: int, tid: TransactionId, pid: HeapPageId)
    requires
        lm_wf(s),
        0 <= i < s.len(),
        entry_matches(s[i], tid, pid),
    ensures
        spec_holds(s, tid, pid) == Some(s[i].mode),
{
    assert(has_entry(s, tid, pid));
    let j = choose|j: int| 0 <= j < s.len() && entry_matches(#[trigger] s[j], tid, pid);
    assert(j == i);
}

/// Mutual exclusion: in a well-formed table, when one transaction holds a
/// page exclusively, no other transaction holds any lock on that page.
pub proof fn lemma_mutual_exclusion(
    s: Seq<LockEntry>,
    t1: TransactionId,
    t2: TransactionId,
    pid: HeapPageId,
)
    requires
        lm_wf(s),
        t1 != t2,
        spec_holds(s, t1, pid) == Some(LockMode::Exclusive),
    ensures
        spec_holds(s, t2, pid) is None,
{
    assert(has_entry(s, t1, pid));
    let i = choose|i: int| 0 <= i < s.len() && entry_matches(#[trigger] s[i], t1, pid);
    if has_entry(s, t2, pid) {
        let j = choose|j: int| 0 <= j < s.len() && entry_matches(#[trigger] s[j], t2, pid);
        assert(s[i].pid == s[j].pid && i != j);
        assert(s[i].mode is Shared);
        lemma_holds_at_index(s, i, t1, pid);
        assert(false);
    }
}

/// WAIT-DIE never kills the older side: if every lock on `pid` is held by
/// transactions younger than the requester, the request is granted or
/// waits, never dies.
pub proof fn lemma_wait_die_older_requester_waits(
    s: Seq<LockEntry>,
    tid: TransactionId,
    pid: HeapPageId,
    m: LockMode,
)
    requires
        forall|i: int| 0 <= i < s.len() && #[trigger] s[i].pid == pid ==> s[i].tid.id >= tid.id,
    ensures
        wait_die_outcome(s, tid, pid, m) != LockOutcome::Die,
{
}

/// WAIT-DIE kills the younger side at once: if some transaction older than
/// the requester holds `pid` in a conflicting mode, the request dies.
pub proof fn lemma_wait_die_younger_requester_dies(
    s: Seq<LockEntry>,
    holder: TransactionId,
    tid: TransactionId,
    pid: HeapPageId,
    m: LockMode,
)
    requires
        lm_wf(s),
        spec_holds(s, holder, pid) == Some(LockMode::Exclusive),
        holder != tid,
        holder.id < tid.id,
    ensures
        wait_die_outcome(s, tid, pid, m) == LockOutcome::Die,
{
    assert(has_entry(s, holder, pid));
    let i = choose|i: int| 0 <= i < s.len() && entry_matches(#[trigger] s[i], holder, pid);
    lemma_holds_at_index(s, i, holder, pid);
    assert(conflict_at(s, i, tid, pid, m) && s[i].tid.id < tid.id);
}

/// The lock table: every lock record currently granted.
pub struct LockManager {
    locks: Vec<LockEntry>,
}

impl View for LockManager {
    type V = Seq<LockEntry>;

    closed spec fn view(&self) -> Seq<LockEntry> {
        self.locks@
    }
}

impl LockManager {
    /// The lock table invariant; established at construction and preserved
    /// by every operation.
    pub open spec fn wf(self) -> bool {
        lm_wf(self@)
    }

    /// Creates an empty lock table.
    pub fn new() -> (r: Self)
        ensures
            r.wf(),
            r@ =~= Seq::<LockEntry>::empty(),
    {
        LockManager { locks: Vec::new() }
    }

    /// The mode in which `tid` currently holds `pid`, if any.
    pub fn holds_lock(&self, tid: TransactionId, pid: HeapPageId) -> (r: Option<LockMode>)
        requires
            self.wf(),
        ensures
            r == spec_holds(self@, tid, pid),
    {
        let n = self.locks.len();
        let mut i: usize = 0;
        while i < n
            invariant
                self.wf(),
                n == self@.len(),
                i <= n,
                forall|j: int| 0 <= j < i ==> !entry_matches(#[trigger] self@[j], tid, pid),
            decreases n - i,
        {
            let e = self.locks[i];
            if e.tid == tid && e.pid == pid {
                proof {
                    lemma_holds_at_index(self@, i as int, tid, pid);
                }
                return Some(e.mode);
            }
            i += 1;
        }
        None
    }

    /// Requests a lock on `pid` for `tid` in the mode `m`, deciding by
    /// WAIT-DIE. On `Granted` the table records the hold (upgrading a
    /// shared hold when exclusive was requested); on `Wait` and `Die` the
    /// table is unchanged and the caller must block respectively abort.
    /// Locks held by other transactions are untouched either way.
    pub fn acquire_lock(&mut self, tid: TransactionId, pid: HeapPageId, m: LockMode) -> (r:
        LockOutcome)
        requires
            old(self).wf(),
        ensures
            final(self).wf(),
            r == wait_die_outcome(old(self)@, tid, pid, m),
            r is Granted ==> spec_holds(final(self)@, tid, pid) == Some(
                granted_mode(old(self)@, tid, pid, m),
            ),
            !(r is Granted) ==> final(self)@ == old(self)@,
            forall|t2: TransactionId, p2: HeapPageId|
                !(t2 == tid && p2 == pid) ==> spec_holds(final(self)@, t2, p2) == spec_holds(
                    old(self)@,
                    t2,
                    p2,
                ),
    {
        let n = self.locks.len();
        let mut i: usize = 0;
        let mut my_idx: Option<usize> = None;
        let mut conflict = false;
        let mut older = false;
        while i < n
            invariant
                self.wf(),
                n == self@.len(),
                i <= n,
                match my_idx {
                    Some(k) => k < i && entry_matches(self@[k as int], tid, pid),
                    None => forall|j: int| 0 <= j < i ==> !entry_matches(#[trigger] self@[j], tid, pid),
                },
                conflict <==> exists|j: int| 0 <= j < i && conflict_at(self@, j, tid, pid, m),
                older <==> exists|j: int|
                    0 <= j < i && conflict_at(self@, j, tid, pid, m) && self@[j].tid.id < tid.id,
            decreases n - i,
        {
            let e = self.locks[i];
            if e.pid == pid {
                if e.tid == tid {
                    my_idx = Some(i);
                } else if matches!(m, LockMode::Exclusive) || matches!(e.mode, LockMode::Exclusive) {
                    proof {
                        assert(conflict_at(self@, i as int, tid, pid, m));
                    }
                    conflict = true;
                    if e.tid.id < tid.id {
                        older = true;
                    }
                }
            }
            i += 1;
        }
        if conflict {
            if older {
                return LockOutcome::Die;
            }
            return LockOutcome::Wait;
        }
        let ghost s0 = self@;
        match my_idx {
            Some(k) => {
                let mut e = self.locks[k];
                proof {
                    lemma_holds_at_index(s0, k as int, tid, pid);
                }
                if matches!(m, LockMode::Exclusive) {
                    e.mode = LockMode::Exclusive;
                }
                self.locks.set(k, e);
                proof {
                    let s1 = self@;
                    assert(lm_wf(s1)) by {
                        assert forall|x: int, y: int|
                            0 <= x < s1.len() && 0 <= y < s1.len() && x != y implies {
                            &&& !(s1[x].tid == s1[y].tid && s1[x].pid == s1[y].pid)
                            &&& (s1[x].pid == s1[y].pid ==> s1[x].mode is Shared
                                && s1[y].mode is Shared)
                        } by {
                            assert(!(s0[x].tid == s0[y].tid && s0[x].pid == s0[y].pid));
                            if s1[x].pid == s1[y].pid {
                                assert(s0[x].pid == s0[y].pid);
                                assert(x == k as int || y == k as int || (s1[x] == s0[x] && s1[y]
                                    == s0[y]));
                                if x == k as int || y == k as int {
                                    // the updated record shares its page with another
                                    // holder, which the absence of conflicts rules out
                                    let o = if x == k as int {
                                        y
                                    } else {
                                        x
                                    };
                                    assert(s0[o].pid == pid && s0[o].tid != tid);
                                    assert(s0[o].mode is Shared);
                                    assert(!conflict_at(s0, o, tid, pid, m));
                                    assert(!(m is Exclusive));
                                    assert(s1[k as int].mode == s0[k as int].mode);
                                }
                            }
                        }
                    }
                    lemma_holds_at_index(s1, k as int, tid, pid);
                    assert(spec_holds(s0, tid, pid) == Some(s0[k as int].mode));
                    assert forall|t2: TransactionId, p2: HeapPageId| !(t2 == tid && p2 == pid)
                        implies spec_holds(s1, t2, p2) == spec_holds(s0, t2, p2) by {
                        lemma_holds_frame_update(s0, s1, k as int, t2, p2);
                    }
                }
                LockOutcome::Granted
            },
            None => {
                self.locks.push(LockEntry { tid, pid, mode: m });
                proof {
                    let s1 = self@;
                    let new_i = s0.len() as int;
                    assert(lm_wf(s1)) by {
                        assert forall|x: int, y: int|
                            0 <= x < s1.len() && 0 <= y < s1.len() && x != y implies {
                            &&& !(s1[x].tid == s1[y].tid && s1[x].pid == s1[y].pid)
                            &&& (s1[x].pid == s1[y].pid ==> s1[x].mode is Shared
                                && s1[y].mode is Shared)
                        } by {
                            if x == new_i || y == new_i {
                                let o = if x == new_i {
                                    y
                                } else {
                                    x
                                };
                                assert(s1[o] == s0[o]);
                                if s0[o].pid == pid {
                                    assert(!entry_matches(s0[o], tid, pid));
                                    assert(s0[o].tid != tid);
                                    assert(!conflict_at(s0, o, tid, pid, m));
                                    assert(!(m is Exclusive) && s0[o].mode is Shared);
                                }
                            }
                        }
                    }
                    lemma_holds_at_index(s1, new_i, tid, pid);
                    assert(!has_entry(s0, tid, pid));
                    assert(spec_holds(s0, tid, pid) is None);
                    assert(granted_mode(s0, tid, pid, m) == m);
                    assert forall|t2: TransactionId, p2: HeapPageId| !(t2 == tid && p2 == pid)
                        implies spec_holds(s1, t2, p2) == spec_holds(s0, t2, p2) by {
                        lemma_holds_frame_push(s0, LockEntry { tid, pid, mode: m }, t2, p2);
                    }
                }
                LockOutcome::Granted
            },
        }
    }

    /// Releases every lock `tid` holds; locks of other transactions are
    /// untouched.
    pub fn release_all_locks(&mut self, tid: TransactionId)
        requires
            old(self).wf(),
        ensures
            final(self).wf(),
            forall|pid: HeapPageId| spec_holds(final(self)@, tid, pid) is None,
            forall|t2: TransactionId, p2: HeapPageId|
                t2 != tid ==> spec_holds(final(self)@, t2, p2) == spec_holds(old(self)@, t2, p2),
    {
        let ghost s0 = self@;
        let n = self.locks.len();
        let mut kept: Vec<LockEntry> = Vec::new();
        let mut i: usize = 0;
        while i < n
            invariant
                lm_wf(s0),
                self@ == s0,
                n == s0.len(),
                i <= n,
                forall|j: int|
                    0 <= j < kept@.len() ==> (#[trigger] kept@[j]).tid != tid && exists|x: int|
                        0 <= x < i && s0[x] == kept@[j],
                forall|x: int|
                    0 <= x < i && (#[trigger] s0[x]).tid != tid ==> kept@.contains(s0[x]),
                lm_wf(kept@),
            decreases n - i,
        {
            let e = self.locks[i];
            if !(e.tid == tid) {
                let ghost k0 = kept@;
                proof {
                    assert(lm_wf(k0.push(e))) by {
                        let k1 = k0.push(e);
                        assert forall|x: int, y: int|
                            0 <= x < k1.len() && 0 <= y < k1.len() && x != y implies {
                            &&& !(k1[x].tid == k1[y].tid && k1[x].pid == k1[y].pid)
                            &&& (k1[x].pid == k1[y].pid ==> k1[x].mode is Shared
                                && k1[y].mode is Shared)
                        } by {
                            let last = k0.len() as int;
                            if x == last || y == last {
                                let o = if x == last {
                                    y
                                } else {
                                    x
                                };
                                assert(k1[o] == k0[o]);
                                let xo = choose|xo: int| 0 <= xo < i && s0[xo] == k0[o];
                                // the kept record comes from an earlier index of the
                                // original table, so the pairwise rules carry over
                                assert(xo != i as int && s0[xo] == k1[o] && s0[i as int] == e);
                            }
                        }
                    }
                }
                kept.push(e);
                proof {
                    assert forall|j: int| 0 <= j < kept@.len() implies (#[trigger] kept@[j]).tid
                        != tid && exists|x: int| 0 <= x < i + 1 && s0[x] == kept@[j] by {
                        if j < k0.len() {
                            assert(kept@[j] == k0[j]);
                            let x = choose|x: int| 0 <= x < i && s0[x] == k0[j];
                            assert(0 <= x < i + 1 && s0[x] == kept@[j]);
                        } else {
                            assert(kept@[j] == e && s0[i as int] == e);
                        }
                    }
                    assert forall|x: int| 0 <= x < i + 1 && (#[trigger] s0[x]).tid != tid
                        implies kept@.contains(s0[x]) by {
                        if x < i {
                            assert(k0.contains(s0[x]));
                            let j = choose|j: int| 0 <= j < k0.len() && k0[j] == s0[x];
                            assert(kept@[j] == s0[x]);
                        } else {
                            assert(kept@[kept@.len() - 1] == s0[x]);
                        }
                    }
                }
            }
            i += 1;
        }
        self.locks = kept;
        proof {
            let s1 = self@;
            assert forall|pid: HeapPageId| spec_holds(s1, tid, pid) is None by {
                if has_entry(s1, tid, pid) {
                    let j = choose|j: int|
                        0 <= j < s1.len() && entry_matches(#[trigger] s1[j], tid, pid);
                    assert(s1[j].tid != tid);
                    assert(false);
                }
            }
            assert forall|t2: TransactionId, p2: HeapPageId| t2 != tid implies spec_holds(
                s1,
                t2,
                p2,
            ) == spec_holds(s0, t2, p2) by {
                if has_entry(s1, t2, p2) {
                    let j = choose|j: int|
                        0 <= j < s1.len() && entry_matches(#[trigger] s1[j], t2, p2);
                    let x = choose|x: int| 0 <= x < n && s0[x] == s1[j];
                    lemma_holds_at_index(s1, j, t2, p2);
                    lemma_holds_at_index(s0, x, t2, p2);
                } else if has_entry(s0, t2, p2) {
                    let x = choose|x: int|
                        0 <= x < s0.len() && entry_matches(#[trigger] s0[x], t2, p2);
                    assert(s0[x].tid == t2 && t2 != tid);
                    assert(s1.contains(s0[x]));
                    let j = choose|j: int| 0 <= j < s1.len() && s1[j] == s0[x];
                    assert(entry_matches(s1[j], t2, p2));
                    assert(false);
                }
            }
        }
    }
}

/// Updating index `k` in place (same transaction and page) leaves every
/// other transaction's holdings unchanged.
proof fn lemma_holds_frame_update(
    s0: Seq<LockEntry>,
    s1: Seq<LockEntry>,
    k: int,
    t2: TransactionId,
    p2: HeapPageId,
)
    requires
        lm_wf(s0),
        lm_wf(s1),
        s1.len() == s0.len(),
        0 <= k < s0.len(),
        s1[k].tid == s0[k].tid && s1[k].pid == s0[k].pid,
        forall|j: int| 0 <= j < s0.len() && j != k ==> s1[j] == s0[j],
        !entry_matches(s0[k], t2, p2),
    ensures
        spec_holds(s1, t2, p2) == spec_holds(s0, t2, p2),
{
    if has_entry(s0, t2, p2) {
        let i = choose|i: int| 0 <= i < s0.len() && entry_matches(#[trigger] s0[i], t2, p2);
        assert(i != k);
        lemma_holds_at_index(s0, i, t2, p2);
        lemma_holds_at_index(s1, i, t2, p2);
    } else {
        if has_entry(s1, t2, p2) {
            let i = choose|i: int| 0 <= i < s1.len() && entry_matches(#[trigger] s1[i], t2, p2);
            assert(i != k);
            assert(entry_matches(s0[i], t2, p2));
            assert(false);
        }
    }
}

/// Appending a record for a different (transaction, page) pair leaves that
/// pair's holdings unchanged.
proof fn lemma_holds_frame_push(
    s0: Seq<LockEntry>,
    e: LockEntry,
    t2: TransactionId,
    p2: HeapPageId,
)
    requires
        lm_wf(s0),
        lm_wf(s0.push(e)),
        !entry_matches(e, t2, p2),
    ensures
        spec_holds(s0.push(e), t2, p2) == spec_holds(s0, t2, p2),
{
    let s1 = s0.push(e);
    if has_entry(s0, t2, p2) {
        let i = choose|i: int| 0 <= i < s0.len() && entry_matches(#[trigger] s0[i], t2, p2);
        assert(s1[i] == s0[i]);
        lemma_holds_at_index(s0, i, t2, p2);
        lemma_holds_at_index(s1, i, t2, p2);
    } else {
        if has_entry(s1, t2, p2) {
            let i = choose|i: int| 0 <= i < s1.len() && entry_matches(#[trigger] s1[i], t2, p2);
            assert(i < s0.len() || s1[i] == e);
            assert(false);
        }
    }
}


} // verus!
